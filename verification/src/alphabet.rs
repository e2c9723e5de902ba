use vstd::prelude::*;

verus! {

/// Number of symbols a node can branch on.
pub const ALPHABET_SIZE: usize = 128;

/// The code point of `ch`.
pub open spec fn code(ch: char) -> nat {
    ch as nat
}

/// Whether `ch` is one of the symbols a node can branch on.
pub open spec fn in_alphabet(ch: char) -> bool {
    code(ch) < ALPHABET_SIZE
}

/// Whether every symbol of `s` is in the alphabet.
pub open spec fn all_in_alphabet(s: Seq<char>) -> bool {
    forall|i: int| 0 <= i < s.len() ==> in_alphabet(#[trigger] s[i])
}

/// The code point of `ch`, which is its slot in a node's table of children
/// when it is below `ALPHABET_SIZE`.
pub fn symbol_index(ch: char) -> (idx: usize)
    ensures
        idx == code(ch),
        idx < ALPHABET_SIZE <==> in_alphabet(ch),
{
    ch as usize
}

/// The symbol whose slot is `idx`.
pub open spec fn symbol(idx: int) -> char {
    (idx as u8) as char
}

/// Slots and symbols of the alphabet correspond one to one.
pub proof fn lemma_symbol_code(idx: int)
    requires
        0 <= idx < ALPHABET_SIZE,
    ensures
        code(symbol(idx)) == idx,
        in_alphabet(symbol(idx)),
{
}

/// Two symbols with one code point are one symbol.
pub proof fn lemma_code_injective(a: char, b: char)
    requires
        code(a) == code(b),
    ensures
        a == b,
{
    assert((a as u32) as char == a);
    assert((b as u32) as char == b);
}

} // verus!
