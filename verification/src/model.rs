//! What distance coding makes of a block, stated over plain sequences.
//!
//! A block `x` of `n` bytes is described by
//! - its alphabet: the distinct symbols in the order in which they first occur,
//!   each with the position of that first occurrence, and
//! - one gap for every position that ends a run of equal symbols: the distance
//!   to the next occurrence of the same symbol (or to the end of the block, as
//!   if every symbol occurred once more at position `n`), less one, less the
//!   number of distinct symbols that occur in between.

use vstd::prelude::*;
use vstd::set_lib::*;

verus! {

/// The first position at or after `from` where `sym` occurs in `x`; `x.len()`
/// if there is none.
pub open spec fn next_occurrence(x: Seq<u8>, sym: u8, from: int) -> int
    decreases x.len() - from,
{
    if from >= x.len() {
        x.len() as int
    } else if x[from] == sym {
        from
    } else {
        next_occurrence(x, sym, from + 1)
    }
}

/// The last position where `sym` occurs in `x`; -1 if there is none.
pub open spec fn last_occurrence(x: Seq<u8>, sym: u8) -> int
    decreases x.len(),
{
    if x.len() == 0 {
        -1
    } else if x.last() == sym {
        x.len() - 1
    } else {
        last_occurrence(x.drop_last(), sym)
    }
}

/// The number of distinct symbols among `x[lo..hi)`.
pub open spec fn distinct_between(x: Seq<u8>, lo: int, hi: int) -> nat {
    x.subrange(lo, hi).to_set().len()
}

/// Position `p` ends a run: the next position holds another symbol, or `p` is
/// the last position of the block.
pub open spec fn ends_run(x: Seq<u8>, p: int) -> bool {
    p + 1 >= x.len() || x[p + 1] != x[p]
}

/// The gap recorded at position `p`: with `q` the next occurrence of `x[p]`
/// after `p` (the end of the block if there is none), the number of positions
/// strictly between `p` and `q`, less the number of distinct symbols there.
pub open spec fn gap(x: Seq<u8>, p: int) -> int {
    let q = next_occurrence(x, x[p], p + 1);
    q - p - 1 - distinct_between(x, p + 1, q)
}

/// What the distance array holds at position `p` after encoding: the gap where
/// `p` ends a run, and the block length, which marks an unused slot, elsewhere.
pub open spec fn slot(x: Seq<u8>, p: int) -> int {
    if ends_run(x, p) {
        gap(x, p)
    } else {
        x.len() as int
    }
}

/// The positions at which a symbol occurs for the first time, in rising order.
pub open spec fn first_positions(x: Seq<u8>) -> Seq<int>
    decreases x.len(),
{
    if x.len() == 0 {
        Seq::empty()
    } else {
        let before = first_positions(x.drop_last());
        if x.drop_last().contains(x.last()) {
            before
        } else {
            before.push(x.len() - 1)
        }
    }
}

/// The distinct symbols of `x` in the order of their first occurrence.
pub open spec fn alphabet_of(x: Seq<u8>) -> Seq<u8> {
    first_positions(x).map_values(|p: int| x[p])
}

/// The gaps of the run ends among the positions before `p`, in position order.
pub open spec fn gaps_before(x: Seq<u8>, p: int) -> Seq<int>
    decreases p,
{
    if p <= 0 {
        Seq::empty()
    } else {
        let earlier = gaps_before(x, p - 1);
        if ends_run(x, p - 1) {
            earlier.push(gap(x, p - 1))
        } else {
            earlier
        }
    }
}

/// The distance stream of `x`: the first position of every symbol of the
/// alphabet, then the gap of every run end.
pub open spec fn stream_of(x: Seq<u8>) -> Seq<int> {
    first_positions(x) + gaps_before(x, x.len() as int)
}

/// `r` lists the distinct symbols of `x`, the one that occurred last first.
pub open spec fn is_recency_order(r: Seq<u8>, x: Seq<u8>) -> bool {
    &&& forall|s: u8| r.contains(s) <==> x.contains(s)
    &&& forall|j: int, k: int|
        0 <= j < k < r.len() ==> last_occurrence(x, r[j]) > last_occurrence(x, r[k])
}

/// The distances of a vector or slice as mathematical integers.
pub open spec fn as_ints(v: Seq<usize>) -> Seq<int> {
    v.map_values(|d: usize| d as int)
}

/// What `next_occurrence` finds: nothing before it, and the symbol at it.
pub proof fn lemma_next_occurrence(x: Seq<u8>, sym: u8, from: int)
    requires
        0 <= from <= x.len(),
    ensures
        from <= next_occurrence(x, sym, from) <= x.len(),
        forall|j: int| from <= j < next_occurrence(x, sym, from) ==> x[j] != sym,
        next_occurrence(x, sym, from) < x.len() ==> x[next_occurrence(x, sym, from)] == sym,
    decreases x.len() - from,
{
    if from < x.len() && x[from] != sym {
        lemma_next_occurrence(x, sym, from + 1);
    }
}

/// A position with nothing before it and the symbol at it is the next occurrence.
pub proof fn lemma_next_occurrence_is(x: Seq<u8>, sym: u8, from: int, q: int)
    requires
        0 <= from <= q <= x.len(),
        forall|j: int| from <= j < q ==> x[j] != sym,
        q < x.len() ==> x[q] == sym,
    ensures
        next_occurrence(x, sym, from) == q,
    decreases q - from,
{
    if from < q {
        lemma_next_occurrence_is(x, sym, from + 1, q);
    }
}

/// What `last_occurrence` finds: the symbol at it, and nothing after it.
pub proof fn lemma_last_occurrence(x: Seq<u8>, sym: u8)
    ensures
        -1 <= last_occurrence(x, sym) < x.len(),
        last_occurrence(x, sym) >= 0 ==> x[last_occurrence(x, sym)] == sym,
        forall|j: int| last_occurrence(x, sym) < j < x.len() ==> x[j] != sym,
    decreases x.len(),
{
    if x.len() > 0 && x.last() != sym {
        let y = x.drop_last();
        lemma_last_occurrence(y, sym);
        assert forall|j: int| last_occurrence(x, sym) < j < x.len() implies x[j] != sym by {
            if j < y.len() {
                assert(y[j] != sym);
            }
        }
    }
}

/// No more distinct symbols occur in a range than it has positions.
pub proof fn lemma_distinct_at_most_length(x: Seq<u8>, lo: int, hi: int)
    requires
        0 <= lo <= hi <= x.len(),
    ensures
        distinct_between(x, lo, hi) <= hi - lo,
{
    x.subrange(lo, hi).lemma_cardinality_of_set();
}

/// A gap is smaller than the block is long, so it is never taken for an
/// unused slot.
pub proof fn lemma_gap_bounds(x: Seq<u8>, p: int)
    requires
        0 <= p < x.len(),
    ensures
        0 <= gap(x, p) < x.len(),
        slot(x, p) != x.len() <==> ends_run(x, p),
{
    lemma_next_occurrence(x, x[p], p + 1);
    lemma_distinct_at_most_length(x, p + 1, next_occurrence(x, x[p], p + 1));
}

/// A list without repetition that holds the same symbols as `y` is as long as
/// `y` has distinct symbols.
pub proof fn lemma_distinct_count(list: Seq<u8>, y: Seq<u8>)
    requires
        list.no_duplicates(),
        forall|s: u8| list.contains(s) <==> y.contains(s),
    ensures
        y.to_set().len() == list.len(),
{
    assert(list.to_set() =~= y.to_set());
    list.unique_seq_to_set();
}

/// A list of bytes without repetition has at most 256 entries, and at most 255
/// if some byte value is missing from it.
pub proof fn lemma_bytes_bound(list: Seq<u8>, missing: u8)
    requires
        list.no_duplicates(),
    ensures
        list.len() <= 256,
        !list.contains(missing) ==> list.len() <= 255,
{
    let widen = |b: u8| b as int;
    let wide = list.map_values(widen);
    assert(vstd::relations::injective(widen));
    list.lemma_no_duplicates_injective(widen);
    wide.unique_seq_to_set();
    let all = set_int_range(0, 256);
    lemma_int_range(0, 256);
    assert forall|v: int| wide.to_set().contains(v) implies all.contains(v) by {
        let k = choose|k: int| 0 <= k < wide.len() && wide[k] == v;
        assert(wide[k] == list[k] as int);
    }
    lemma_len_subset(wide.to_set(), all);
    if !list.contains(missing) {
        let fewer = all.remove(missing as int);
        assert forall|v: int| wide.to_set().contains(v) implies fewer.contains(v) by {
            let k = choose|k: int| 0 <= k < wide.len() && wide[k] == v;
            assert(wide[k] == list[k] as int);
            assert(list.contains(list[k]));
        }
        lemma_len_subset(wide.to_set(), fewer);
    }
}

/// The first positions of a block that grows by one symbol.
pub proof fn lemma_first_positions_step(x: Seq<u8>, i: int)
    requires
        0 <= i < x.len(),
    ensures
        first_positions(x.take(i + 1)) == if x.take(i).contains(x[i]) {
            first_positions(x.take(i))
        } else {
            first_positions(x.take(i)).push(i)
        },
{
    let y = x.take(i + 1);
    assert(y.drop_last() =~= x.take(i));
    assert(y.last() == x[i]);
}

/// The symbol at `p` does not occur before `p`.
pub open spec fn is_first_occurrence(x: Seq<u8>, p: int) -> bool {
    &&& 0 <= p < x.len()
    &&& forall|j: int| 0 <= j < p ==> #[trigger] x[j] != x[p]
}

/// First positions rise, and they are the positions of the first occurrences.
pub proof fn lemma_first_positions(x: Seq<u8>)
    ensures
        forall|k: int|
            0 <= k < first_positions(x).len() ==> is_first_occurrence(
                x,
                #[trigger] first_positions(x)[k],
            ),
        forall|j: int, k: int|
            0 <= j < k < first_positions(x).len() ==> first_positions(x)[j] < first_positions(
                x,
            )[k],
        forall|p: int| is_first_occurrence(x, p) ==> first_positions(x).contains(p),
    decreases x.len(),
{
    if x.len() > 0 {
        let y = x.drop_last();
        lemma_first_positions(y);
        let f = first_positions(x);
        let g = first_positions(y);
        let n = x.len() - 1;
        assert forall|k: int| 0 <= k < f.len() implies is_first_occurrence(x, #[trigger] f[k]) by {
            if k < g.len() {
                assert(f[k] == g[k]);
                assert(is_first_occurrence(y, g[k]));
                assert forall|j: int| 0 <= j < f[k] implies #[trigger] x[j] != x[f[k]] by {
                    assert(y[j] != y[g[k]]);
                }
            } else {
                assert(f[k] == n);
                assert forall|j: int| 0 <= j < n implies #[trigger] x[j] != x[n] by {
                    if x[j] == x[n] {
                        assert(y[j] == x.last());
                        assert(y.contains(x.last()));
                    }
                }
            }
        }
        assert forall|j: int, k: int| 0 <= j < k < f.len() implies f[j] < f[k] by {
            assert(is_first_occurrence(y, g[j]));
        }
        assert forall|p: int| is_first_occurrence(x, p) implies f.contains(p) by {
            if p < n {
                assert forall|j: int| 0 <= j < p implies #[trigger] y[j] != y[p] by {
                    assert(x[j] != x[p]);
                }
                assert(is_first_occurrence(y, p));
                assert(g.contains(p));
                let k = choose|k: int| 0 <= k < g.len() && g[k] == p;
                assert(f[k] == p);
            } else {
                if y.contains(x.last()) {
                    let j = choose|j: int| 0 <= j < y.len() && y[j] == x.last();
                    assert(x[j] == x[p]);
                }
                assert(f[f.len() - 1] == p);
            }
        }
    }
}

} // verus!
