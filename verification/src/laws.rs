//! What holds of every set of patterns and every text.

use vstd::prelude::*;
use crate::matching::{
    count_of, emissions_upto, end_count, ends_at, ends_within, first_seen, hits_at, indices_of,
    is_suffix, keys_of, lemma_count_of, lemma_count_of_add, lemma_first_seen_contains,
    lemma_indices_below_complete, lemma_indices_below_sound, lemma_indices_of_valid, multiplicity,
    occurs_in, reported, start_positions, starts_at, suffix_hits, tail, views_of, words_at,
};

verus! {

/// A sequence that repeats one value holds that value as often as it is
/// long, and no other.
pub proof fn lemma_count_of_constant(s: Seq<Seq<char>>, v: Seq<char>, x: Seq<char>)
    requires
        forall|i: int| 0 <= i < s.len() ==> #[trigger] s[i] == v,
    ensures
        count_of(s, x) == if x == v {
            s.len()
        } else {
            0
        },
    decreases s.len(),
{
    if s.len() > 0 {
        assert(s.last() == s[s.len() - 1]);
        assert forall|i: int| 0 <= i < s.drop_last().len() implies #[trigger] s.drop_last()[i]
            == v by {
            assert(s.drop_last()[i] == s[i]);
        }
        lemma_count_of_constant(s.drop_last(), v, x);
    }
}

/// A string is a pattern exactly if it was added under some index.
pub proof fn lemma_multiplicity(pats: Seq<Seq<char>>, p: Seq<char>)
    ensures
        multiplicity(pats, p) > 0 <==> pats.contains(p),
{
    if multiplicity(pats, p) > 0 {
        lemma_indices_below_sound(pats, p, pats.len(), 0);
        assert(pats[indices_of(pats, p)[0]] == p);
    }
    if pats.contains(p) {
        let j = choose|j: int| 0 <= j < pats.len() && pats[j] == p;
        lemma_indices_below_complete(pats, p, pats.len(), j);
    }
}

/// Among the patterns reported for the endings of `s` of length at most
/// `len`, `p` stands once for each index under which it was added if it is
/// one of those endings, and not at all otherwise.
pub proof fn lemma_count_in_suffix_hits(pats: Seq<Seq<char>>, s: Seq<char>, len: nat, p: Seq<char>)
    requires
        len <= s.len(),
    ensures
        count_of(words_at(pats, suffix_hits(pats, s, len)), p) == if p.len() <= len && is_suffix(
            p,
            s,
        ) {
            multiplicity(pats, p)
        } else {
            0
        },
    decreases len,
{
    let ending = tail(s, len as int);
    let head = indices_of(pats, ending);
    lemma_indices_of_valid(pats, ending);
    assert forall|i: int| 0 <= i < words_at(pats, head).len() implies #[trigger] words_at(
        pats,
        head,
    )[i] == ending by {
        assert(pats[head[i]] == ending);
    }
    lemma_count_of_constant(words_at(pats, head), ending, p);
    assert(ending == p <==> p.len() == len && is_suffix(p, s)) by {
        if p.len() == len && is_suffix(p, s) {
            assert(ending =~= p);
        }
    }
    if len > 0 {
        let rest = suffix_hits(pats, s, (len - 1) as nat);
        lemma_count_in_suffix_hits(pats, s, (len - 1) as nat, p);
        assert(words_at(pats, head + rest) =~= words_at(pats, head) + words_at(pats, rest));
        lemma_count_of_add(words_at(pats, head), words_at(pats, rest), p);
    }
}

/// Among the patterns reported while the first `k` symbols of `t` are read,
/// `p` stands once for each position up to `k` at which it ends and each
/// index under which it was added.
pub proof fn lemma_count_in_emissions(pats: Seq<Seq<char>>, t: Seq<char>, k: nat, p: Seq<char>)
    requires
        k <= t.len(),
    ensures
        count_of(words_at(pats, emissions_upto(pats, t, k)), p) == multiplicity(pats, p)
            * end_count(p, t, k),
    decreases k,
{
    let m = multiplicity(pats, p);
    if k == 0 {
        assert(m * 0 == 0) by (nonlinear_arith);
    } else {
        let head = emissions_upto(pats, t, (k - 1) as nat);
        let rest = hits_at(pats, t, k);
        lemma_count_in_emissions(pats, t, (k - 1) as nat, p);
        lemma_count_in_suffix_hits(pats, t.take(k as int), k, p);
        assert(words_at(pats, head + rest) =~= words_at(pats, head) + words_at(pats, rest));
        lemma_count_of_add(words_at(pats, head), words_at(pats, rest), p);
        assert((p.len() <= k && is_suffix(p, t.take(k as int))) <==> ends_at(p, t, k as int)) by {
            if p.len() <= k {
                assert(tail(t.take(k as int), p.len() as int) =~= t.subrange(
                    k - p.len(),
                    k as int,
                ));
            }
        }
        let c = end_count(p, t, (k - 1) as nat);
        assert(m * (c + 1) == m * c + m) by (nonlinear_arith);
    }
}

/// `p` ends at one of the positions from `1` to `k` exactly if the count of
/// such positions is not zero.
pub proof fn lemma_end_count_positive(p: Seq<char>, t: Seq<char>, k: nat)
    ensures
        end_count(p, t, k) > 0 <==> exists|j: int| 1 <= j <= k && ends_at(p, t, j),
        end_count(p, t, k) <= k,
    decreases k,
{
    if k > 0 {
        lemma_end_count_positive(p, t, (k - 1) as nat);
        if end_count(p, t, k) > 0 {
            if ends_at(p, t, k as int) {
            } else {
                let j = choose|j: int| 1 <= j <= k - 1 && ends_at(p, t, j);
                assert(1 <= j <= k && ends_at(p, t, j));
            }
        }
        if exists|j: int| 1 <= j <= k && ends_at(p, t, j) {
            let j = choose|j: int| 1 <= j <= k && ends_at(p, t, j);
            if j < k {
                assert(1 <= j <= k - 1 && ends_at(p, t, j));
            }
        }
    }
}

/// The scan reports a string exactly if it is a pattern and ends somewhere
/// in the text.
pub proof fn lemma_reported_iff(pats: Seq<Seq<char>>, t: Seq<char>, p: Seq<char>)
    ensures
        reported(pats, t).contains(p) <==> pats.contains(p) && ends_within(p, t),
        first_seen(reported(pats, t)).contains(p) <==> pats.contains(p) && ends_within(p, t),
{
    lemma_count_in_emissions(pats, t, t.len(), p);
    lemma_count_of(reported(pats, t), p);
    lemma_multiplicity(pats, p);
    lemma_end_count_positive(p, t, t.len());
    lemma_first_seen_contains(reported(pats, t), p);
    let m = multiplicity(pats, p);
    let c = end_count(p, t, t.len());
    assert(m * c > 0 <==> m > 0 && c > 0) by (nonlinear_arith)
        requires
            m >= 0,
            c >= 0,
    ;
}

/// Whatever a search returns is one of the patterns.
pub proof fn lemma_found_is_pattern(pats: Seq<Seq<char>>, t: Seq<char>, w: Seq<char>)
    requires
        first_seen(reported(pats, t)).contains(w),
    ensures
        pats.contains(w),
{
    lemma_reported_iff(pats, t, w);
}

/// Whatever a search returns is a contiguous part of the text.
pub proof fn lemma_found_occurs(pats: Seq<Seq<char>>, t: Seq<char>, w: Seq<char>)
    requires
        first_seen(reported(pats, t)).contains(w),
    ensures
        occurs_in(w, t),
{
    lemma_reported_iff(pats, t, w);
    let k = choose|k: int| 1 <= k <= t.len() && ends_at(w, t, k);
    assert(starts_at(w, t, k - w.len()));
}

/// A pattern that is a contiguous part of the text is returned by a search.
/// The empty pattern is reported after each symbol read, so it is returned
/// for every text but the empty one.
pub proof fn lemma_occurring_pattern_found(pats: Seq<Seq<char>>, t: Seq<char>, p: Seq<char>)
    requires
        pats.contains(p),
        occurs_in(p, t),
        p.len() > 0 || t.len() > 0,
    ensures
        first_seen(reported(pats, t)).contains(p),
{
    let i = choose|i: int| starts_at(p, t, i);
    if p.len() > 0 {
        assert(ends_at(p, t, i + p.len()));
    } else {
        assert(t.subrange(1, 1) =~= p);
        assert(ends_at(p, t, 1));
    }
    lemma_reported_iff(pats, t, p);
}

/// The positions at which `p` starts in `t` and ends at or before `k`.
pub open spec fn starts_ending_by(p: Seq<char>, t: Seq<char>, k: int) -> Set<int> {
    Set::new(|i: int| starts_at(p, t, i) && i + p.len() <= k)
}

/// A non-empty string ends at as many positions up to `k` as it starts at
/// positions from which it ends by `k`.
pub proof fn lemma_end_count_is_starts(p: Seq<char>, t: Seq<char>, k: nat)
    requires
        p.len() > 0,
        k <= t.len(),
    ensures
        starts_ending_by(p, t, k as int).finite(),
        starts_ending_by(p, t, k as int).len() == end_count(p, t, k),
    decreases k,
{
    if k == 0 {
        assert(starts_ending_by(p, t, 0) =~= Set::<int>::empty());
    } else {
        lemma_end_count_is_starts(p, t, (k - 1) as nat);
        let before = starts_ending_by(p, t, k - 1);
        let now = starts_ending_by(p, t, k as int);
        let i = k - p.len();
        if ends_at(p, t, k as int) {
            assert(starts_at(p, t, i));
            assert(now =~= before.insert(i));
        } else {
            assert(now =~= before) by {
                assert forall|j: int| now.contains(j) implies before.contains(j) by {
                    if j + p.len() == k {
                        assert(ends_at(p, t, k as int));
                    }
                }
            }
        }
    }
}

/// A search with counts gives for a non-empty pattern the number of
/// positions at which it starts in the text, overlaps included, once for
/// each index under which the pattern was added.
pub proof fn lemma_count_is_occurrences(pats: Seq<Seq<char>>, t: Seq<char>, p: Seq<char>)
    requires
        p.len() > 0,
    ensures
        start_positions(p, t).finite(),
        count_of(reported(pats, t), p) == multiplicity(pats, p) * start_positions(p, t).len(),
{
    lemma_count_in_emissions(pats, t, t.len(), p);
    lemma_end_count_is_starts(p, t, t.len());
    assert(start_positions(p, t) =~= starts_ending_by(p, t, t.len() as int));
}

/// For a non-empty pattern added once, a search with counts gives exactly
/// the number of positions at which it starts in the text.
pub proof fn lemma_count_of_single_pattern(pats: Seq<Seq<char>>, t: Seq<char>, p: Seq<char>)
    requires
        p.len() > 0,
        multiplicity(pats, p) == 1,
    ensures
        start_positions(p, t).finite(),
        count_of(reported(pats, t), p) == start_positions(p, t).len(),
{
    lemma_count_is_occurrences(pats, t, p);
    let n = start_positions(p, t).len();
    assert(1 * n == n) by (nonlinear_arith);
}

/// The empty pattern is counted once for each symbol of the text and each
/// index under which it was added.
pub proof fn lemma_count_of_empty_pattern(pats: Seq<Seq<char>>, t: Seq<char>)
    ensures
        count_of(reported(pats, t), Seq::<char>::empty()) == multiplicity(
            pats,
            Seq::<char>::empty(),
        ) * t.len(),
{
    let e = Seq::<char>::empty();
    lemma_count_in_emissions(pats, t, t.len(), e);
    lemma_end_count_of_empty(t, t.len());
}

/// The empty string ends at every position.
pub proof fn lemma_end_count_of_empty(t: Seq<char>, k: nat)
    requires
        k <= t.len(),
    ensures
        end_count(Seq::<char>::empty(), t, k) == k,
    decreases k,
{
    if k > 0 {
        lemma_end_count_of_empty(t, (k - 1) as nat);
        assert(t.subrange(k as int, k as int) =~= Seq::<char>::empty());
    }
}


/// What a search returns depends on the patterns and the text alone: two
/// answers to one question, from one automaton or from two with the same
/// patterns, hold the same strings in the same order.
pub proof fn lemma_search_is_determined(
    pats: Seq<Seq<char>>,
    t: Seq<char>,
    first: Seq<String>,
    second: Seq<String>,
)
    requires
        views_of(first) == first_seen(reported(pats, t)),
        views_of(second) == first_seen(reported(pats, t)),
    ensures
        first.len() == second.len(),
        forall|i: int| 0 <= i < first.len() ==> #[trigger] first[i]@ == second[i]@,
{
    assert(views_of(first).len() == first.len());
    assert(views_of(second).len() == second.len());
    assert forall|i: int| 0 <= i < first.len() implies #[trigger] first[i]@ == second[i]@ by {
        assert(views_of(first)[i] == first[i]@);
        assert(views_of(second)[i] == second[i]@);
    }
}

/// What a search with counts returns depends on the patterns and the text
/// alone: two answers to one question hold the same strings with the same
/// counts in the same order.
pub proof fn lemma_counts_are_determined(
    pats: Seq<Seq<char>>,
    t: Seq<char>,
    first: Seq<(String, usize)>,
    second: Seq<(String, usize)>,
)
    requires
        keys_of(first) == first_seen(reported(pats, t)),
        keys_of(second) == first_seen(reported(pats, t)),
        forall|p: int|
            0 <= p < first.len() ==> (#[trigger] first[p]).1 == count_of(
                reported(pats, t),
                first[p].0@,
            ),
        forall|p: int|
            0 <= p < second.len() ==> (#[trigger] second[p]).1 == count_of(
                reported(pats, t),
                second[p].0@,
            ),
    ensures
        first.len() == second.len(),
        forall|i: int|
            0 <= i < first.len() ==> (#[trigger] first[i]).0@ == second[i].0@ && first[i].1
                == second[i].1,
{
    assert(keys_of(first).len() == first.len());
    assert(keys_of(second).len() == second.len());
    assert forall|i: int| 0 <= i < first.len() implies (#[trigger] first[i]).0@ == second[i].0@
        && first[i].1 == second[i].1 by {
        assert(keys_of(first)[i] == first[i].0@);
        assert(keys_of(second)[i] == second[i].0@);
    }
}

} // verus!
