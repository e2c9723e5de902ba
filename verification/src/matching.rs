//! What a scan reports, stated over sequences of symbols alone.

use vstd::prelude::*;

verus! {

/// The last `len` symbols of `s`.
pub open spec fn tail(s: Seq<char>, len: int) -> Seq<char> {
    s.subrange(s.len() - len, s.len() as int)
}

/// `a` ends `b`.
pub open spec fn is_suffix(a: Seq<char>, b: Seq<char>) -> bool {
    a.len() <= b.len() && a == tail(b, a.len() as int)
}

/// `a` ends `b` and is shorter than `b`.
pub open spec fn is_proper_suffix(a: Seq<char>, b: Seq<char>) -> bool {
    a.len() < b.len() && a == tail(b, a.len() as int)
}

/// `p` stands in `t` with its last symbol just before position `k`.
pub open spec fn ends_at(p: Seq<char>, t: Seq<char>, k: int) -> bool {
    p.len() <= k <= t.len() && t.subrange(k - p.len(), k) == p
}

/// `p` stands in `t` with its first symbol at position `i`.
pub open spec fn starts_at(p: Seq<char>, t: Seq<char>, i: int) -> bool {
    0 <= i && i + p.len() <= t.len() && t.subrange(i, i + p.len()) == p
}

/// `p` is a contiguous part of `t`.
pub open spec fn occurs_in(p: Seq<char>, t: Seq<char>) -> bool {
    exists|i: int| starts_at(p, t, i)
}

/// The indices `j < upto` with `pats[j] == s`, ascending.
pub open spec fn indices_below(pats: Seq<Seq<char>>, s: Seq<char>, upto: nat) -> Seq<int>
    decreases upto,
{
    if upto == 0 {
        Seq::empty()
    } else {
        let rest = indices_below(pats, s, (upto - 1) as nat);
        if upto <= pats.len() && pats[upto - 1] == s {
            rest.push(upto - 1)
        } else {
            rest
        }
    }
}

/// The indices of the patterns equal to `s`, ascending.
pub open spec fn indices_of(pats: Seq<Seq<char>>, s: Seq<char>) -> Seq<int> {
    indices_below(pats, s, pats.len())
}

/// The indices reported for the endings of `s` of length `len`, `len - 1`, ..., `0`,
/// in that order.
pub open spec fn suffix_hits(pats: Seq<Seq<char>>, s: Seq<char>, len: nat) -> Seq<int>
    decreases len,
{
    if len == 0 {
        indices_of(pats, tail(s, 0))
    } else {
        indices_of(pats, tail(s, len as int)) + suffix_hits(pats, s, (len - 1) as nat)
    }
}

/// The indices reported once the first `k` symbols of `t` are read: for every
/// ending of that prefix, longest first, the patterns equal to it.
pub open spec fn hits_at(pats: Seq<Seq<char>>, t: Seq<char>, k: nat) -> Seq<int> {
    suffix_hits(pats, t.take(k as int), k)
}

/// Everything reported while the first `k` symbols of `t` are read.
pub open spec fn emissions_upto(pats: Seq<Seq<char>>, t: Seq<char>, k: nat) -> Seq<int>
    decreases k,
{
    if k == 0 {
        Seq::empty()
    } else {
        emissions_upto(pats, t, (k - 1) as nat) + hits_at(pats, t, k)
    }
}

/// Everything reported by a scan of `t`, in the order of reporting.
pub open spec fn emissions(pats: Seq<Seq<char>>, t: Seq<char>) -> Seq<int> {
    emissions_upto(pats, t, t.len())
}

/// A sequence of `usize` read as mathematical integers.
pub open spec fn as_ints(s: Seq<usize>) -> Seq<int> {
    s.map_values(|x: usize| x as int)
}

/// The patterns named by `indices`, in the same order.
pub open spec fn words_at(pats: Seq<Seq<char>>, indices: Seq<int>) -> Seq<Seq<char>> {
    indices.map_values(|j: int| pats[j])
}

/// The patterns reported by a scan of `t`, in the order of reporting, one
/// entry for each report.
pub open spec fn reported(pats: Seq<Seq<char>>, t: Seq<char>) -> Seq<Seq<char>> {
    words_at(pats, emissions(pats, t))
}

/// `s` without its repeats: each value once, where it first stood.
pub open spec fn first_seen<A>(s: Seq<A>) -> Seq<A>
    decreases s.len(),
{
    if s.len() == 0 {
        Seq::empty()
    } else if s.drop_last().contains(s.last()) {
        first_seen(s.drop_last())
    } else {
        first_seen(s.drop_last()).push(s.last())
    }
}

/// How often `x` stands in `s`.
pub open spec fn count_of<A>(s: Seq<A>, x: A) -> nat
    decreases s.len(),
{
    if s.len() == 0 {
        0
    } else {
        count_of(s.drop_last(), x) + if s.last() == x {
            1nat
        } else {
            0nat
        }
    }
}

/// The strings as sequences of symbols.
pub open spec fn views_of(v: Seq<String>) -> Seq<Seq<char>> {
    v.map_values(|w: String| w@)
}

/// The strings of the pairs as sequences of symbols.
pub open spec fn keys_of(v: Seq<(String, usize)>) -> Seq<Seq<char>> {
    v.map_values(|e: (String, usize)| e.0@)
}

/// `p` ends somewhere in `t` after at least one symbol of `t`.
pub open spec fn ends_within(p: Seq<char>, t: Seq<char>) -> bool {
    exists|k: int| 1 <= k <= t.len() && ends_at(p, t, k)
}

/// The number of positions `j` from `1` to `k` at which `p` ends in `t`.
pub open spec fn end_count(p: Seq<char>, t: Seq<char>, k: nat) -> nat
    decreases k,
{
    if k == 0 {
        0
    } else {
        end_count(p, t, (k - 1) as nat) + if ends_at(p, t, k as int) {
            1nat
        } else {
            0nat
        }
    }
}

/// The positions at which `p` starts in `t`.
pub open spec fn start_positions(p: Seq<char>, t: Seq<char>) -> Set<int> {
    Set::new(|i: int| starts_at(p, t, i))
}

/// Under how many indices `p` was added.
pub open spec fn multiplicity(pats: Seq<Seq<char>>, p: Seq<char>) -> nat {
    indices_of(pats, p).len()
}

/// Adding a pattern at the end leaves the indices below its place as they were.
pub proof fn lemma_indices_below_push(pats: Seq<Seq<char>>, w: Seq<char>, s: Seq<char>, upto: nat)
    requires
        upto <= pats.len(),
    ensures
        indices_below(pats.push(w), s, upto) == indices_below(pats, s, upto),
    decreases upto,
{
    if upto > 0 {
        lemma_indices_below_push(pats, w, s, (upto - 1) as nat);
        assert(pats.push(w)[upto - 1] == pats[upto - 1]);
    }
}

/// A pattern added at the end is listed last among its equals, and nowhere else.
pub proof fn lemma_indices_of_push(pats: Seq<Seq<char>>, w: Seq<char>, s: Seq<char>)
    ensures
        indices_of(pats.push(w), s) == if w == s {
            indices_of(pats, s).push(pats.len() as int)
        } else {
            indices_of(pats, s)
        },
{
    lemma_indices_below_push(pats, w, s, pats.len());
    assert(pats.push(w)[pats.len() as int] == w);
}

/// Every listed index is below `upto` and names a pattern equal to `s`.
pub proof fn lemma_indices_below_sound(pats: Seq<Seq<char>>, s: Seq<char>, upto: nat, k: int)
    requires
        0 <= k < indices_below(pats, s, upto).len(),
    ensures
        0 <= indices_below(pats, s, upto)[k] < upto,
        indices_below(pats, s, upto)[k] < pats.len(),
        pats[indices_below(pats, s, upto)[k]] == s,
    decreases upto,
{
    if upto > 0 {
        let rest = indices_below(pats, s, (upto - 1) as nat);
        if k < rest.len() {
            lemma_indices_below_sound(pats, s, (upto - 1) as nat, k);
        }
    }
}

/// An index below `upto` whose pattern equals `s` is listed.
pub proof fn lemma_indices_below_complete(pats: Seq<Seq<char>>, s: Seq<char>, upto: nat, j: int)
    requires
        0 <= j < upto,
        j < pats.len(),
        pats[j] == s,
    ensures
        indices_below(pats, s, upto).contains(j),
    decreases upto,
{
    let rest = indices_below(pats, s, (upto - 1) as nat);
    if j == upto - 1 {
        assert(rest.push(j)[rest.len() as int] == j);
    } else {
        lemma_indices_below_complete(pats, s, (upto - 1) as nat, j);
        let k = choose|k: int| 0 <= k < rest.len() && rest[k] == j;
        assert(indices_below(pats, s, upto)[k] == j);
    }
}

/// A sequence that no pattern equals has no indices.
pub proof fn lemma_indices_of_absent(pats: Seq<Seq<char>>, s: Seq<char>)
    requires
        forall|j: int| 0 <= j < pats.len() ==> pats[j] != s,
    ensures
        indices_of(pats, s) == Seq::<int>::empty(),
{
    if indices_of(pats, s).len() > 0 {
        lemma_indices_below_sound(pats, s, pats.len(), 0);
    }
    assert(indices_of(pats, s) =~= Seq::<int>::empty());
}

/// Of two endings of one sequence the shorter ends the longer.
pub proof fn lemma_suffix_of_suffix(a: Seq<char>, b: Seq<char>, s: Seq<char>)
    requires
        is_suffix(a, s),
        is_suffix(b, s),
        a.len() <= b.len(),
    ensures
        is_suffix(a, b),
{
    assert(a =~= tail(b, a.len() as int));
}

/// An ending of an ending is an ending.
pub proof fn lemma_suffix_trans(a: Seq<char>, b: Seq<char>, c: Seq<char>)
    requires
        is_suffix(a, b),
        is_suffix(b, c),
    ensures
        is_suffix(a, c),
{
    assert(a =~= tail(c, a.len() as int));
}

/// Endings stay endings when both sequences get the same last symbol.
pub proof fn lemma_suffix_push(a: Seq<char>, s: Seq<char>, c: char)
    requires
        is_suffix(a, s),
    ensures
        is_suffix(a.push(c), s.push(c)),
{
    assert(a.push(c) =~= tail(s.push(c), a.len() as int + 1));
}

/// A non-empty ending of `s.push(c)` ends in `c`, and the rest of it ends `s`.
pub proof fn lemma_suffix_drop_last(w: Seq<char>, s: Seq<char>, c: char)
    requires
        is_suffix(w, s.push(c)),
        w.len() > 0,
    ensures
        w.last() == c,
        is_suffix(w.drop_last(), s),
{
    assert(w.last() == tail(s.push(c), w.len() as int)[w.len() - 1]);
    assert(w.drop_last() =~= tail(s, w.len() - 1));
}

/// Endings that no pattern equals add nothing to what is reported.
pub proof fn lemma_suffix_hits_skip(pats: Seq<Seq<char>>, s: Seq<char>, hi: nat, lo: nat)
    requires
        lo <= hi <= s.len(),
        forall|len: int, j: int|
            lo < len <= hi && 0 <= j < pats.len() ==> #[trigger] pats[j] != #[trigger] tail(s, len),
    ensures
        suffix_hits(pats, s, hi) == suffix_hits(pats, s, lo),
    decreases hi,
{
    if lo < hi {
        assert forall|j: int| 0 <= j < pats.len() implies pats[j] != tail(s, hi as int) by {
            assert(pats[j] != tail(s, hi as int));
        }
        lemma_indices_of_absent(pats, tail(s, hi as int));
        lemma_suffix_hits_skip(pats, s, (hi - 1) as nat, lo);
        assert(Seq::<int>::empty() + suffix_hits(pats, s, (hi - 1) as nat) =~= suffix_hits(
            pats,
            s,
            (hi - 1) as nat,
        ));
    }
}

/// What is reported for the short endings of a sequence is what is reported
/// for those of any of its endings that holds them.
pub proof fn lemma_suffix_hits_within(pats: Seq<Seq<char>>, a: Seq<char>, s: Seq<char>, d: nat)
    requires
        is_suffix(a, s),
        d <= a.len(),
    ensures
        suffix_hits(pats, s, d) == suffix_hits(pats, a, d),
    decreases d,
{
    assert(tail(s, d as int) =~= tail(a, d as int));
    if d > 0 {
        lemma_suffix_hits_within(pats, a, s, (d - 1) as nat);
    }
}

/// Reading integers commutes with joining two sequences.
pub proof fn lemma_as_ints_add(a: Seq<usize>, b: Seq<usize>)
    ensures
        as_ints(a + b) == as_ints(a) + as_ints(b),
{
    assert(as_ints(a + b) =~= as_ints(a) + as_ints(b));
}

/// `first_seen` holds exactly the values of the sequence.
pub proof fn lemma_first_seen_contains<A>(s: Seq<A>, x: A)
    ensures
        first_seen(s).contains(x) <==> s.contains(x),
    decreases s.len(),
{
    if s.len() > 0 {
        let init = s.drop_last();
        let last = s.last();
        lemma_first_seen_contains(init, x);
        lemma_first_seen_contains(init, last);
        if first_seen(s).contains(x) {
            let k = choose|k: int| 0 <= k < first_seen(s).len() && first_seen(s)[k] == x;
            if k < first_seen(init).len() {
                assert(first_seen(init)[k] == x);
                let m = choose|m: int| 0 <= m < init.len() && init[m] == x;
                assert(s[m] == x);
            } else {
                assert(s[s.len() - 1] == x);
            }
        }
        if s.contains(x) {
            let m = choose|m: int| 0 <= m < s.len() && s[m] == x;
            if m < init.len() {
                assert(init[m] == x);
                let k = choose|k: int| 0 <= k < first_seen(init).len() && first_seen(init)[k] == x;
                assert(first_seen(s)[k] == x);
            } else if init.contains(last) {
                let k = choose|k: int| 0 <= k < first_seen(init).len() && first_seen(init)[k] == x;
                assert(first_seen(s)[k] == x);
            } else {
                assert(first_seen(s)[first_seen(init).len() as int] == x);
            }
        }
    }
}

/// `first_seen` holds no value twice.
pub proof fn lemma_first_seen_distinct<A>(s: Seq<A>)
    ensures
        first_seen(s).no_duplicates(),
    decreases s.len(),
{
    if s.len() > 0 {
        let init = s.drop_last();
        lemma_first_seen_distinct(init);
        lemma_first_seen_contains(init, s.last());
    }
}

/// A value stands in a sequence no more often than the sequence is long,
/// and not at all exactly where the sequence does not hold it.
pub proof fn lemma_count_of<A>(s: Seq<A>, x: A)
    ensures
        count_of(s, x) <= s.len(),
        count_of(s, x) > 0 <==> s.contains(x),
    decreases s.len(),
{
    if s.len() > 0 {
        let init = s.drop_last();
        lemma_count_of(init, x);
        if init.contains(x) {
            let m = choose|m: int| 0 <= m < init.len() && init[m] == x;
            assert(s[m] == x);
        }
        if s.last() == x {
            assert(s[s.len() - 1] == x);
        }
        if s.contains(x) {
            let m = choose|m: int| 0 <= m < s.len() && s[m] == x;
            if m < init.len() {
                assert(init[m] == x);
            }
        }
    }
}

/// Counting distributes over joining two sequences.
pub proof fn lemma_count_of_add<A>(a: Seq<A>, b: Seq<A>, x: A)
    ensures
        count_of(a + b, x) == count_of(a, x) + count_of(b, x),
    decreases b.len(),
{
    if b.len() == 0 {
        assert(a + b =~= a);
    } else {
        assert((a + b).drop_last() =~= a + b.drop_last());
        lemma_count_of_add(a, b.drop_last(), x);
    }
}

/// Every index that is listed names a pattern.
pub proof fn lemma_indices_of_valid(pats: Seq<Seq<char>>, s: Seq<char>)
    ensures
        forall|i: int|
            0 <= i < indices_of(pats, s).len() ==> 0 <= #[trigger] indices_of(pats, s)[i]
                < pats.len() && pats[indices_of(pats, s)[i]] == s,
{
    assert forall|i: int| 0 <= i < indices_of(pats, s).len() implies 0 <= #[trigger] indices_of(
        pats,
        s,
    )[i] < pats.len() && pats[indices_of(pats, s)[i]] == s by {
        lemma_indices_below_sound(pats, s, pats.len(), i);
    }
}

/// Every index reported for the endings of a sequence names a pattern.
pub proof fn lemma_suffix_hits_valid(pats: Seq<Seq<char>>, s: Seq<char>, len: nat)
    ensures
        forall|i: int|
            0 <= i < suffix_hits(pats, s, len).len() ==> 0 <= #[trigger] suffix_hits(
                pats,
                s,
                len,
            )[i] < pats.len(),
    decreases len,
{
    lemma_indices_of_valid(pats, tail(s, len as int));
    if len > 0 {
        lemma_suffix_hits_valid(pats, s, (len - 1) as nat);
        let head = indices_of(pats, tail(s, len as int));
        let rest = suffix_hits(pats, s, (len - 1) as nat);
        assert forall|i: int| 0 <= i < (head + rest).len() implies 0 <= #[trigger] (head + rest)[i]
            < pats.len() by {
            if i < head.len() {
                assert((head + rest)[i] == head[i]);
            } else {
                assert((head + rest)[i] == rest[i - head.len()]);
            }
        }
    }
}

/// Every index reported by a scan names a pattern.
pub proof fn lemma_emissions_valid(pats: Seq<Seq<char>>, t: Seq<char>, k: nat)
    ensures
        forall|i: int|
            0 <= i < emissions_upto(pats, t, k).len() ==> 0 <= #[trigger] emissions_upto(
                pats,
                t,
                k,
            )[i] < pats.len(),
    decreases k,
{
    if k > 0 {
        lemma_emissions_valid(pats, t, (k - 1) as nat);
        lemma_suffix_hits_valid(pats, t.take(k as int), k);
        let head = emissions_upto(pats, t, (k - 1) as nat);
        let rest = hits_at(pats, t, k);
        assert forall|i: int| 0 <= i < (head + rest).len() implies 0 <= #[trigger] (head + rest)[i]
            < pats.len() by {
            if i < head.len() {
                assert((head + rest)[i] == head[i]);
            } else {
                assert((head + rest)[i] == rest[i - head.len()]);
            }
        }
    }
}

} // verus!
