//! Where the decoder expects each symbol of a block while it decodes the
//! stream that the encoder made of that block.
//!
//! A symbol that occurs again is expected at its next occurrence. A symbol that
//! does not is expected beyond the end of the block, the further the later it
//! occurred last.

use crate::model::{
    alphabet_of, distinct_between, ends_run, first_positions, gap, gaps_before,
    is_first_occurrence, last_occurrence, lemma_bytes_bound, lemma_distinct_count,
    lemma_first_positions, lemma_last_occurrence, lemma_next_occurrence,
    lemma_next_occurrence_is, next_occurrence,
};
use vstd::prelude::*;
use vstd::set_lib::lemma_len_subset;

verus! {

/// The number of distinct symbols that occur after the last occurrence of `s`.
pub open spec fn later_symbols(x: Seq<u8>, s: u8) -> nat {
    distinct_between(x, last_occurrence(x, s) + 1, x.len() as int)
}

/// The position where symbol `s` is expected when the block is decoded up to
/// position `i`: its next occurrence from `i` on, or, if there is none, the
/// position as many places beyond the last one allowed as distinct symbols
/// occur after `s`.
pub open spec fn expected_at(x: Seq<u8>, s: u8, i: int) -> int {
    let q = next_occurrence(x, s, i);
    if q < x.len() {
        q
    } else {
        x.len() + first_positions(x).len() - 1 - later_symbols(x, s)
    }
}

/// The alphabet of a block names every symbol of the block once, and nothing
/// else.
pub proof fn lemma_alphabet(x: Seq<u8>)
    ensures
        alphabet_of(x).len() == first_positions(x).len(),
        alphabet_of(x).len() == x.to_set().len(),
        alphabet_of(x).len() <= 256,
        alphabet_of(x).no_duplicates(),
        forall|s: u8| alphabet_of(x).contains(s) <==> x.contains(s),
        forall|k: int|
            0 <= k < alphabet_of(x).len() ==> #[trigger] alphabet_of(x)[k] == x[first_positions(
                x,
            )[k]],
        forall|k: int|
            0 <= k < alphabet_of(x).len() ==> next_occurrence(x, #[trigger] alphabet_of(x)[k], 0)
                == first_positions(x)[k],
{
    let a = alphabet_of(x);
    let f = first_positions(x);
    lemma_first_positions(x);
    assert forall|j: int, k: int| 0 <= j < a.len() && 0 <= k < a.len() && j != k implies a[j]
        != a[k] by {
        assert(is_first_occurrence(x, f[j]));
        assert(is_first_occurrence(x, f[k]));
        if j < k {
            assert(f[j] < f[k]);
        } else {
            assert(f[k] < f[j]);
        }
    }
    assert forall|s: u8| a.contains(s) <==> x.contains(s) by {
        if a.contains(s) {
            let k = choose|k: int| 0 <= k < a.len() && a[k] == s;
            assert(is_first_occurrence(x, f[k]));
            assert(x[f[k]] == s);
        }
        if x.contains(s) {
            let j = choose|j: int| 0 <= j < x.len() && x[j] == s;
            lemma_next_occurrence(x, s, 0);
            let q = next_occurrence(x, s, 0);
            assert(is_first_occurrence(x, q));
            assert(f.contains(q));
            let k = choose|k: int| 0 <= k < f.len() && f[k] == q;
            assert(a[k] == s);
        }
    }
    assert forall|k: int| 0 <= k < a.len() implies next_occurrence(x, #[trigger] a[k], 0)
        == f[k] by {
        assert(is_first_occurrence(x, f[k]));
        lemma_next_occurrence_is(x, a[k], 0, f[k]);
    }
    lemma_distinct_count(a, x);
    lemma_bytes_bound(a, 0u8);
}

/// Fewer distinct symbols occur after the last occurrence of a symbol than
/// the block has symbols.
pub proof fn lemma_later_symbols_bound(x: Seq<u8>, s: u8)
    requires
        x.contains(s),
    ensures
        later_symbols(x, s) + 1 <= first_positions(x).len(),
{
    lemma_alphabet(x);
    lemma_last_occurrence(x, s);
    let l = last_occurrence(x, s);
    let after = x.subrange(l + 1, x.len() as int);
    let others = x.to_set().remove(s);
    assert forall|t: u8| after.to_set().contains(t) implies others.contains(t) by {
        let j = choose|j: int| 0 <= j < after.len() && after[j] == t;
        assert(x[j + l + 1] == t);
    }
    lemma_len_subset(after.to_set(), others);
}

/// Of two symbols, more distinct symbols occur after the one that occurs last
/// earlier.
pub proof fn lemma_later_symbols_order(x: Seq<u8>, s: u8, t: u8)
    requires
        x.contains(s),
        x.contains(t),
        last_occurrence(x, s) < last_occurrence(x, t),
    ensures
        later_symbols(x, s) > later_symbols(x, t),
{
    lemma_last_occurrence(x, s);
    lemma_last_occurrence(x, t);
    let ls = last_occurrence(x, s);
    let lt = last_occurrence(x, t);
    if ls < 0 {
        let j = choose|j: int| 0 <= j < x.len() && x[j] == s;
        assert(false);
    }
    let after_s = x.subrange(ls + 1, x.len() as int);
    let after_t = x.subrange(lt + 1, x.len() as int);
    assert(after_s[lt - ls - 1] == t);
    assert(after_s.to_set().contains(t));
    let fewer = after_s.to_set().remove(t);
    assert forall|u: u8| after_t.to_set().contains(u) implies fewer.contains(u) by {
        let j = choose|j: int| 0 <= j < after_t.len() && after_t[j] == u;
        assert(x[j + lt + 1] == u);
        assert(after_s[j + lt - ls] == u);
    }
    lemma_len_subset(after_t.to_set(), fewer);
}

/// A symbol of the block is expected inside the block as long as it occurs
/// again, and at one of the positions that follow the block, one for each
/// symbol, when it does not.
pub proof fn lemma_expected_range(x: Seq<u8>, s: u8, i: int)
    requires
        0 <= i <= x.len(),
        x.contains(s),
    ensures
        i <= expected_at(x, s, i) < x.len() + first_positions(x).len(),
        next_occurrence(x, s, i) == x.len() ==> x.len() <= expected_at(x, s, i),
        next_occurrence(x, s, i) < x.len() ==> expected_at(x, s, i) == next_occurrence(x, s, i),
{
    lemma_next_occurrence(x, s, i);
    lemma_later_symbols_bound(x, s);
}

/// A symbol that does not occur from `i` on occurred last before `i`.
pub proof fn lemma_last_before(x: Seq<u8>, s: u8, i: int)
    requires
        0 <= i <= x.len(),
        next_occurrence(x, s, i) == x.len(),
    ensures
        last_occurrence(x, s) < i,
{
    lemma_next_occurrence(x, s, i);
    lemma_last_occurrence(x, s);
}

/// No two symbols of the block are expected at the same position.
pub proof fn lemma_expected_apart(x: Seq<u8>, s: u8, t: u8, i: int)
    requires
        0 <= i <= x.len(),
        x.contains(s),
        x.contains(t),
        s != t,
    ensures
        expected_at(x, s, i) != expected_at(x, t, i),
{
    lemma_next_occurrence(x, s, i);
    lemma_next_occurrence(x, t, i);
    lemma_later_symbols_bound(x, s);
    lemma_later_symbols_bound(x, t);
    let qs = next_occurrence(x, s, i);
    let qt = next_occurrence(x, t, i);
    if qs == x.len() && qt == x.len() {
        lemma_last_occurrence(x, s);
        lemma_last_occurrence(x, t);
        let ls = last_occurrence(x, s);
        let lt = last_occurrence(x, t);
        if ls < 0 {
            let j = choose|j: int| 0 <= j < x.len() && x[j] == s;
            assert(false);
        }
        if lt < 0 {
            let j = choose|j: int| 0 <= j < x.len() && x[j] == t;
            assert(false);
        }
        if ls < lt {
            lemma_later_symbols_order(x, s, t);
        } else {
            assert(ls != lt);
            lemma_later_symbols_order(x, t, s);
        }
    }
}

/// Where a symbol is expected does not change while other symbols are decoded.
pub proof fn lemma_expected_unchanged(x: Seq<u8>, s: u8, i: int, j: int)
    requires
        0 <= i <= j <= x.len(),
        forall|p: int| i <= p < j ==> x[p] != s,
    ensures
        next_occurrence(x, s, i) == next_occurrence(x, s, j),
        expected_at(x, s, i) == expected_at(x, s, j),
    decreases j - i,
{
    if i < j {
        lemma_expected_unchanged(x, s, i + 1, j);
    }
}

/// The gaps of the run ends among the first positions are the first gaps of
/// the run ends among more positions.
pub proof fn lemma_gaps_grow(x: Seq<u8>, a: int, b: int)
    requires
        0 <= a <= b,
    ensures
        gaps_before(x, a).len() <= gaps_before(x, b).len(),
        forall|k: int|
            0 <= k < gaps_before(x, a).len() ==> gaps_before(x, b)[k] == gaps_before(x, a)[k],
    decreases b - a,
{
    if a < b {
        lemma_gaps_grow(x, a, b - 1);
    }
}

/// A run contributes one gap, that of its last position.
pub proof fn lemma_gaps_of_run(x: Seq<u8>, i: int, stop: int)
    requires
        0 <= i < stop <= x.len(),
        forall|p: int| i <= p < stop - 1 ==> !ends_run(x, p),
        ends_run(x, stop - 1),
    ensures
        gaps_before(x, stop) == gaps_before(x, i).push(gap(x, stop - 1)),
    decreases stop - i,
{
    if i < stop - 1 {
        assert(!ends_run(x, i));
        assert(gaps_before(x, i + 1) == gaps_before(x, i));
        lemma_gaps_of_run(x, i + 1, stop);
    }
}

} // verus!
