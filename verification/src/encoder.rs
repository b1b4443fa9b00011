//! The forward transform: from a block to its alphabet and its distances.

use crate::model::{
    alphabet_of, as_ints, distinct_between, ends_run, first_positions, gaps_before,
    is_first_occurrence, is_recency_order, last_occurrence, lemma_bytes_bound,
    lemma_distinct_at_most_length, lemma_distinct_count, lemma_first_positions,
    lemma_first_positions_step, lemma_gap_bounds, lemma_last_occurrence, lemma_next_occurrence,
    lemma_next_occurrence_is, next_occurrence, slot, stream_of,
};
use crate::mtf::{
    is_rank_of, lemma_move_to_front_index, lemma_rank_unique, move_to_front, source_rank, MTF,
};
use crate::{Distance, Symbol};
use vstd::prelude::*;

verus! {

/// `b` is the position where `sym` occurred last before position `i`, or the
/// block length if `sym` did not occur before `i`.
spec fn is_last_before(x: Seq<u8>, sym: u8, i: int, b: int) -> bool {
    if b == x.len() {
        forall|j: int| 0 <= j < i ==> x[j] != sym
    } else {
        &&& 0 <= b < i
        &&& x[b] == sym
        &&& forall|j: int| b < j < i ==> x[j] != sym
    }
}

/// The table `last` holds, for every symbol, where it occurred last before `i`.
spec fn tracks_last(last: Seq<usize>, x: Seq<u8>, i: int) -> bool {
    &&& last.len() == 256
    &&& forall|s: u8| is_last_before(x, s, i, #[trigger] last[s as int] as int)
}

/// The first `u` ranks of `t` hold the symbols seen so far, the one seen last
/// first.
spec fn ranks_by_recency(t: Seq<u8>, u: int, last: Seq<usize>, n: int) -> bool {
    &&& 0 <= u <= 256
    &&& t.len() == 256
    &&& last.len() == 256
    &&& forall|r: int| 0 <= r < u ==> last[#[trigger] t[r] as int] != n
    &&& forall|a: int, b: int|
        0 <= a < b < u ==> last[#[trigger] t[a] as int] > last[#[trigger] t[b] as int]
    &&& forall|s: u8|
        #[trigger] last[s as int] != n ==> exists|r: int| 0 <= r < u && #[trigger] t[r] == s
}

/// The slot of position `p` while only the positions before `i` are encoded:
/// settled once the next occurrence of its symbol is among them.
spec fn slot_so_far(x: Seq<u8>, p: int, i: int) -> int {
    if next_occurrence(x, x[p], p + 1) < i {
        slot(x, p)
    } else {
        x.len() as int
    }
}

/// The list `unique` pairs each first position of `x` with the symbol there.
pub open spec fn lists_first_positions(unique: Seq<(u8, usize)>, x: Seq<u8>) -> bool {
    &&& unique.len() == first_positions(x).len()
    &&& forall|k: int|
        0 <= k < unique.len() ==> (#[trigger] unique[k]).0 == x[first_positions(x)[k]]
            && unique[k].1 == first_positions(x)[k]
}

/// The rank of a symbol seen before counts the distinct symbols that occurred
/// since it was seen last.
proof fn lemma_rank_counts(t: Seq<u8>, u: int, last: Seq<usize>, x: Seq<u8>, i: int, r: int)
    requires
        0 <= i <= x.len(),
        tracks_last(last, x, i),
        ranks_by_recency(t, u, last, x.len() as int),
        0 <= r < u,
    ensures
        last[t[r] as int] < i,
        distinct_between(x, last[t[r] as int] + 1, i) == r,
        r <= i - last[t[r] as int] - 1,
{
    let sym = t[r];
    let base = last[sym as int] as int;
    assert(is_last_before(x, sym, i, base));
    let list = t.subrange(0, r);
    let y = x.subrange(base + 1, i);
    assert forall|a: int, b: int|
        0 <= a < list.len() && 0 <= b < list.len() && a != b implies list[a] != list[b] by {
        if a < b {
            assert(last[t[a] as int] > last[t[b] as int]);
        } else {
            assert(last[t[b] as int] > last[t[a] as int]);
        }
    }
    assert forall|s: u8| list.contains(s) <==> y.contains(s) by {
        if list.contains(s) {
            let k = choose|k: int| 0 <= k < list.len() && list[k] == s;
            assert(t[k] == s);
            assert(last[t[k] as int] > last[t[r] as int]);
            assert(is_last_before(x, s, i, last[s as int] as int));
            let b = last[s as int] as int;
            assert(y[b - base - 1] == s);
        }
        if y.contains(s) {
            let j = choose|j: int| 0 <= j < y.len() && y[j] == s;
            assert(x[j + base + 1] == s);
            assert(is_last_before(x, s, i, last[s as int] as int));
            assert(last[s as int] != x.len());
            assert(last[s as int] >= j + base + 1);
            let k = choose|k: int| 0 <= k < u && t[k] == s;
            if k >= r {
                if k > r {
                    assert(last[t[r] as int] > last[t[k] as int]);
                }
                assert(false);
            }
            assert(list[k] == s);
        }
    }
    lemma_distinct_count(list, y);
    lemma_distinct_at_most_length(x, base + 1, i);
}

/// The slots settled so far stay settled when one more position is encoded,
/// except at the position where the new symbol occurred last.
proof fn lemma_slot_so_far_step(x: Seq<u8>, i: int, p: int, base: int)
    requires
        0 <= p < i < x.len(),
        is_last_before(x, x[i], i, base),
        p != base,
    ensures
        slot_so_far(x, p, i + 1) == slot_so_far(x, p, i),
{
    lemma_next_occurrence(x, x[p], p + 1);
    let q = next_occurrence(x, x[p], p + 1);
    if q == i {
        assert(x[p] == x[i]);
        if p < base {
            assert(x[base] == x[i]);
        }
    }
}

/// At the position where the symbol of position `i` occurred last, the slot
/// settles when position `i` is encoded.
proof fn lemma_slot_settles(x: Seq<u8>, i: int, base: int)
    requires
        0 <= base < i <= x.len(),
        i < x.len() ==> is_last_before(x, x[i], i, base),
        i == x.len() ==> exists|s: u8| is_last_before(x, s, i, base),
    ensures
        next_occurrence(x, x[base], base + 1) == i,
        slot(x, base) == if i == base + 1 && i < x.len() {
            x.len() as int
        } else {
            i - base - 1 - distinct_between(x, base + 1, i)
        },
{
    lemma_next_occurrence_is(x, x[base], base + 1, i);
}

/// The table after a symbol seen before has moved to the front.
proof fn lemma_recency_step_seen(
    t: Seq<u8>,
    u: int,
    last: Seq<usize>,
    x: Seq<u8>,
    i: int,
    r: int,
)
    requires
        0 <= i < x.len(),
        x.len() <= usize::MAX,
        tracks_last(last, x, i),
        ranks_by_recency(t, u, last, x.len() as int),
        is_rank_of(t, x[i], r),
        last[x[i] as int] != x.len(),
    ensures
        r < u,
        ranks_by_recency(
            move_to_front(t, r),
            u,
            last.update(x[i] as int, i as usize),
            x.len() as int,
        ),
{
    let sym = x[i];
    let n = x.len() as int;
    let k = choose|k: int| 0 <= k < u && t[k] == sym;
    if r < k {
        assert(last[t[r] as int] > last[t[k] as int]);
    }
    assert(r == k);
    let m = move_to_front(t, r);
    let l2 = last.update(sym as int, i as usize);
    lemma_move_to_front_index(t, r);
    assert forall|s: u8| is_last_before(x, s, i, #[trigger] last[s as int] as int) by {}
    assert forall|a: int| 0 <= a < u implies l2[#[trigger] m[a] as int] != n by {
        assert(m[a] == t[source_rank(r, a)]);
        assert(last[t[source_rank(r, a)] as int] != n);
    }
    assert forall|a: int, b: int| 0 <= a < b < u implies l2[#[trigger] m[a] as int]
        > l2[#[trigger] m[b] as int] by {
        let sa = source_rank(r, a);
        let sb = source_rank(r, b);
        assert(m[a] == t[sa]);
        assert(m[b] == t[sb]);
        assert(is_last_before(x, t[sb], i, last[t[sb] as int] as int));
        assert(last[t[sb] as int] != n);
        if a == 0 {
            assert(sb != r);
            if sb < r {
                assert(last[t[sb] as int] > last[t[r] as int]);
            } else {
                assert(last[t[r] as int] > last[t[sb] as int]);
            }
        } else {
            assert(sa < sb);
            assert(last[t[sa] as int] > last[t[sb] as int]);
            if sa < r {
                assert(last[t[sa] as int] > last[t[r] as int]);
            } else {
                assert(last[t[r] as int] > last[t[sa] as int]);
            }
        }
    }
    assert forall|s: u8| #[trigger] l2[s as int] != n implies exists|a: int|
        0 <= a < u && #[trigger] m[a] == s by {
        if s == sym {
            assert(m[0] == s);
        } else {
            assert(last[s as int] != n);
            let j = choose|j: int| 0 <= j < u && t[j] == s;
            let a = if j < r {
                j + 1
            } else {
                j
            };
            assert(m[a] == t[source_rank(r, a)]);
        }
    }
}

/// The table after a symbol not seen before was written behind the symbols
/// seen so far and has moved to the front.
proof fn lemma_recency_step_new(t: Seq<u8>, u: int, last: Seq<usize>, x: Seq<u8>, i: int)
    requires
        0 <= i < x.len(),
        x.len() <= usize::MAX,
        tracks_last(last, x, i),
        ranks_by_recency(t, u, last, x.len() as int),
        last[x[i] as int] == x.len(),
    ensures
        u < 256,
        is_rank_of(t.update(u, x[i]), x[i], u),
        ranks_by_recency(
            move_to_front(t.update(u, x[i]), u),
            u + 1,
            last.update(x[i] as int, i as usize),
            x.len() as int,
        ),
        forall|j: int|
            u < j < 256 ==> #[trigger] move_to_front(t.update(u, x[i]), u)[j] == t[j],
{
    let sym = x[i];
    let n = x.len() as int;
    let list = t.subrange(0, u);
    assert forall|a: int, b: int|
        0 <= a < list.len() && 0 <= b < list.len() && a != b implies list[a] != list[b] by {
        if a < b {
            assert(last[t[a] as int] > last[t[b] as int]);
        } else {
            assert(last[t[b] as int] > last[t[a] as int]);
        }
    }
    if list.contains(sym) {
        let k = choose|k: int| 0 <= k < list.len() && list[k] == sym;
        assert(last[t[k] as int] != n);
    }
    lemma_bytes_bound(list, sym);
    let t2 = t.update(u, sym);
    assert forall|j: int| 0 <= j < u implies t2[j] != sym by {
        assert(last[t[j] as int] != n);
    }
    let m = move_to_front(t2, u);
    let l2 = last.update(sym as int, i as usize);
    lemma_move_to_front_index(t2, u);
    assert forall|s: u8| is_last_before(x, s, i, #[trigger] last[s as int] as int) by {}
    assert forall|a: int| 0 <= a < u + 1 implies l2[#[trigger] m[a] as int] != n by {
        assert(m[a] == t2[source_rank(u, a)]);
        if a > 0 {
            assert(last[t[a - 1] as int] != n);
        }
    }
    assert forall|a: int, b: int| 0 <= a < b < u + 1 implies l2[#[trigger] m[a] as int]
        > l2[#[trigger] m[b] as int] by {
        assert(m[a] == t2[source_rank(u, a)]);
        assert(m[b] == t2[source_rank(u, b)]);
        assert(m[b] == t[b - 1]);
        assert(last[t[b - 1] as int] != n);
        assert(is_last_before(x, t[b - 1], i, last[t[b - 1] as int] as int));
        if a > 0 {
            assert(last[t[a - 1] as int] > last[t[b - 1] as int]);
            assert(last[t[a - 1] as int] != n);
        }
    }
    assert forall|s: u8| #[trigger] l2[s as int] != n implies exists|a: int|
        0 <= a < u + 1 && #[trigger] m[a] == s by {
        if s == sym {
            assert(m[0] == s);
        } else {
            assert(last[s as int] != n);
            let j = choose|j: int| 0 <= j < u && t[j] == s;
            assert(m[j + 1] == t2[source_rank(u, j + 1)]);
        }
    }
    assert forall|j: int| u < j < 256 implies #[trigger] m[j] == t[j] by {
        assert(m[j] == t2[source_rank(u, j)]);
    }
}

/// The table `last` after position `i` is encoded.
proof fn lemma_tracks_last_step(last: Seq<usize>, x: Seq<u8>, i: int)
    requires
        0 <= i < x.len(),
        x.len() <= usize::MAX,
        tracks_last(last, x, i),
    ensures
        tracks_last(last.update(x[i] as int, i as usize), x, i + 1),
{
    let l2 = last.update(x[i] as int, i as usize);
    assert forall|s: u8| is_last_before(x, s, i + 1, #[trigger] l2[s as int] as int) by {
        assert(is_last_before(x, s, i, last[s as int] as int));
    }
}

/// The list of first positions after position `i` is encoded.
proof fn lemma_lists_first_positions_step(unique: Seq<(u8, usize)>, x: Seq<u8>, i: int)
    requires
        0 <= i < x.len(),
        x.len() <= usize::MAX,
        lists_first_positions(unique, x.take(i)),
    ensures
        x.take(i).contains(x[i]) ==> lists_first_positions(unique, x.take(i + 1)),
        !x.take(i).contains(x[i]) ==> lists_first_positions(
            unique.push((x[i], i as usize)),
            x.take(i + 1),
        ),
{
    lemma_first_positions_step(x, i);
    lemma_first_positions(x.take(i));
    let f = first_positions(x.take(i));
    assert forall|k: int| 0 <= k < f.len() implies x.take(i)[#[trigger] f[k]] == x.take(
        i + 1,
    )[f[k]] by {
        assert(is_first_occurrence(x.take(i), f[k]));
    }
    if !x.take(i).contains(x[i]) {
        let v = unique.push((x[i], i as usize));
        let g = first_positions(x.take(i + 1));
        assert forall|k: int| 0 <= k < v.len() implies (#[trigger] v[k]).0 == x.take(i + 1)[g[k]]
            && v[k].1 == g[k] by {
            if k < unique.len() {
                assert(v[k] == unique[k]);
                assert(g[k] == f[k]);
                assert(x.take(i)[f[k]] == x.take(i + 1)[f[k]]);
            }
        }
    } else {
        assert forall|k: int| 0 <= k < unique.len() implies (#[trigger] unique[k]).0 == x.take(
            i + 1,
        )[f[k]] by {
            assert(x.take(i)[f[k]] == x.take(i + 1)[f[k]]);
        }
    }
}

/// Where a symbol occurred last before the end of the block is its last
/// occurrence.
proof fn lemma_last_before_end(x: Seq<u8>, sym: u8, b: int)
    requires
        is_last_before(x, sym, x.len() as int, b),
    ensures
        b == x.len() <==> !x.contains(sym),
        b != x.len() ==> b == last_occurrence(x, sym),
{
    lemma_last_occurrence(x, sym);
    let l = last_occurrence(x, sym);
    if b == x.len() {
        if x.contains(sym) {
            let j = choose|j: int| 0 <= j < x.len() && x[j] == sym;
            assert(false);
        }
    } else {
        assert(x.contains(sym));
        if l < b {
            assert(x[b] != sym);
        }
    }
}

/// Encodes the block `input`.
///
/// Returns the symbols of the block in the order of their first occurrence,
/// each with the position of that occurrence. `distances` receives, at every
/// position that ends a run, the gap to the next occurrence of the symbol there,
/// and the block length at the other positions. The first ranks of `mtf` end
/// up holding the symbols of the block, the one that occurred last first; the
/// ranks behind them keep what they held.
pub fn encode(input: &[Symbol], distances: &mut [Distance], mtf: &mut MTF) -> (unique: Vec<
    (Symbol, Distance),
>)
    requires
        old(distances)@.len() == input@.len(),
    ensures
        lists_first_positions(unique@, input@),
        final(distances)@.len() == input@.len(),
        forall|p: int| 0 <= p < input@.len() ==> #[trigger] final(distances)@[p] == slot(input@, p),
        forall|p: int|
            0 <= p < input@.len() ==> (#[trigger] final(distances)@[p] == input@.len()
                <==> !ends_run(input@, p)),
        unique@.len() <= 256,
        is_recency_order(final(mtf)@.subrange(0, unique@.len() as int), input@),
        final(mtf)@.subrange(unique@.len() as int, 256) == old(mtf)@.subrange(
            unique@.len() as int,
            256,
        ),
{
    broadcast use MTF::lemma_len;

    let ghost x = input@;
    let ghost table0 = mtf@;
    let n: usize = input.len();
    let mut last: [usize; 256] = [n; 256];
    let mut unique: Vec<(u8, usize)> = Vec::new();
    let mut i: usize = 0;
    assert(x.take(0) =~= Seq::<u8>::empty());
    while i < n
        invariant
            x == input@,
            n == x.len(),
            i <= n,
            distances@.len() == n,
            table0.len() == 256,
            tracks_last(last@, x, i as int),
            ranks_by_recency(mtf@, unique@.len() as int, last@, n as int),
            forall|j: int| unique@.len() <= j < 256 ==> mtf@[j] == table0[j],
            lists_first_positions(unique@, x.take(i as int)),
            forall|p: int| 0 <= p < i ==> #[trigger] distances@[p] == slot_so_far(x, p, i as int),
        decreases n - i,
    {
        let sym: u8 = input[i];
        let ghost last0 = last@;
        let ghost t0 = mtf@;
        let ghost u = unique@.len() as int;
        let ghost d0 = distances@;
        distances[i] = n;
        let base: usize = last[sym as usize];
        last[sym as usize] = i;
        proof {
            assert(is_last_before(x, sym, i as int, last0[sym as int] as int));
            lemma_tracks_last_step(last0, x, i as int);
            lemma_lists_first_positions_step(unique@, x, i as int);
            lemma_next_occurrence(x, sym, i + 1);
        }
        if base == n {
            let rank: usize = unique.len();
            proof {
                lemma_recency_step_new(t0, u, last0, x, i as int);
                if x.take(i as int).contains(sym) {
                    let j = choose|j: int| 0 <= j < i && x.take(i as int)[j] == sym;
                    assert(x[j] == sym);
                }
            }
            mtf.seed(rank, sym);
            assert(mtf@[rank as int] == sym);
            let r: u8 = mtf.encode(sym);
            proof {
                lemma_rank_unique(t0.update(u, sym), sym, u);
            }
            unique.push((sym, i));
            proof {
                assert forall|p: int| 0 <= p < i + 1 implies #[trigger] distances@[p]
                    == slot_so_far(x, p, i + 1) by {
                    if p < i {
                        assert(d0[p] == slot_so_far(x, p, i as int));
                        lemma_slot_so_far_step(x, i as int, p, base as int);
                    }
                }
            }
        } else {
            proof {
                assert(x[base as int] == sym);
                assert(x.take(i as int)[base as int] == sym);
            }
            let rank: usize = mtf.encode(sym) as usize;
            proof {
                lemma_recency_step_seen(t0, u, last0, x, i as int, rank as int);
                lemma_rank_counts(t0, u, last0, x, i as int, rank as int);
                lemma_slot_settles(x, i as int, base as int);
                if rank == 0 && i > base + 1 {
                    assert(x.subrange(base + 1, i as int)[0] == x[base + 1]);
                    assert(x.subrange(base + 1, i as int).to_set().contains(x[base + 1]));
                    assert(false);
                }
                if rank > 0 && i == base + 1 {
                    assert(x.subrange(base + 1, i as int) =~= Seq::<u8>::empty());
                    assert(x.subrange(base + 1, i as int).to_set() =~= Set::<u8>::empty());
                }
            }
            if rank > 0 {
                distances[base] = i - base - rank - 1;
            }
            proof {
                assert forall|p: int| 0 <= p < i + 1 implies #[trigger] distances@[p]
                    == slot_so_far(x, p, i + 1) by {
                    if p < i && p != base {
                        assert(d0[p] == slot_so_far(x, p, i as int));
                        lemma_slot_so_far_step(x, i as int, p, base as int);
                    } else if p == base {
                        assert(d0[p] == slot_so_far(x, p, i as int));
                    }
                }
            }
        }
        i += 1;
    }
    let u: usize = unique.len();
    let ghost d1 = distances@;
    let mut rank: usize = 0;
    while rank < u
        invariant
            x == input@,
            n == x.len(),
            u == unique@.len(),
            rank <= u,
            distances@.len() == n,
            tracks_last(last@, x, n as int),
            ranks_by_recency(mtf@, u as int, last@, n as int),
            forall|p: int|
                0 <= p < n && next_occurrence(x, x[p], p + 1) < n ==> #[trigger] distances@[p]
                    == slot(x, p),
            forall|k: int|
                0 <= k < rank ==> distances@[last@[#[trigger] mtf@[k] as int] as int] == slot(
                    x,
                    last@[mtf@[k] as int] as int,
                ),
        decreases u - rank,
    {
        let sym: u8 = mtf.symbol_at(rank);
        let base: usize = last[sym as usize];
        let ghost d0 = distances@;
        proof {
            assert(last@[mtf@[rank as int] as int] != n);
            assert(is_last_before(x, sym, n as int, base as int));
            lemma_rank_counts(mtf@, u as int, last@, x, n as int, rank as int);
            lemma_slot_settles(x, n as int, base as int);
        }
        distances[base] = n - base - rank - 1;
        proof {
            assert forall|k: int| 0 <= k < rank + 1 implies distances@[last@[#[trigger] mtf@[k]
                as int] as int] == slot(x, last@[mtf@[k] as int] as int) by {
                if k < rank {
                    assert(last@[mtf@[k] as int] > last@[mtf@[rank as int] as int]);
                }
            }
        }
        rank += 1;
    }
    proof {
        assert(x.take(n as int) =~= x);
        assert forall|p: int| 0 <= p < n implies (slot(x, p) == n <==> !ends_run(x, p)) by {
            lemma_gap_bounds(x, p);
        }
        assert forall|p: int| 0 <= p < n implies #[trigger] distances@[p] == slot(x, p) by {
            lemma_next_occurrence(x, x[p], p + 1);
            if next_occurrence(x, x[p], p + 1) >= n {
                let s = x[p];
                assert(is_last_before(x, s, n as int, last@[s as int] as int));
                assert(last@[s as int] == p);
                let k = choose|k: int| 0 <= k < u && mtf@[k] == s;
                assert(distances@[last@[mtf@[k] as int] as int] == slot(
                    x,
                    last@[mtf@[k] as int] as int,
                ));
            }
        }
        let r = mtf@.subrange(0, u as int);
        assert forall|s: u8| r.contains(s) <==> x.contains(s) by {
            assert(is_last_before(x, s, n as int, last@[s as int] as int));
            lemma_last_before_end(x, s, last@[s as int] as int);
            if r.contains(s) {
                let k = choose|k: int| 0 <= k < r.len() && r[k] == s;
                assert(last@[mtf@[k] as int] != n);
            }
            if x.contains(s) {
                let k = choose|k: int| 0 <= k < u && mtf@[k] == s;
                assert(r[k] == s);
            }
        }
        assert forall|j: int, k: int| 0 <= j < k < r.len() implies last_occurrence(x, r[j])
            > last_occurrence(x, r[k]) by {
            assert(last@[mtf@[j] as int] > last@[mtf@[k] as int]);
            assert(last@[mtf@[j] as int] != n);
            assert(last@[mtf@[k] as int] != n);
            assert(is_last_before(x, r[j], n as int, last@[r[j] as int] as int));
            assert(is_last_before(x, r[k], n as int, last@[r[k] as int] as int));
            lemma_last_before_end(x, r[j], last@[r[j] as int] as int);
            lemma_last_before_end(x, r[k], last@[r[k] as int] as int);
        }
        assert(mtf@.subrange(u as int, 256) =~= table0.subrange(u as int, 256));
    }
    unique
}

/// Encodes the block `input` into buffers of its own.
///
/// Returns the alphabet of the block, in the order of first occurrence, and
/// its distance stream: the first position of each symbol of the alphabet,
/// followed by the gaps of the run ends in position order.
pub fn encode_simple(input: &[Symbol]) -> (r: (Vec<Symbol>, Vec<Distance>))
    ensures
        r.0@ == alphabet_of(input@),
        as_ints(r.1@) == stream_of(input@),
{
    let ghost x = input@;
    let n: usize = input.len();
    let mut symbols: Vec<u8> = Vec::new();
    let mut combined: Vec<usize> = Vec::new();
    if n == 0 {
        assert(alphabet_of(x) =~= symbols@);
        assert(as_ints(combined@) =~= stream_of(x));
        return (symbols, combined);
    }
    let mut raw: Vec<usize> = vec![0usize; n];
    let mut mtf = MTF::new();
    let pairs = encode(input, raw.as_mut_slice(), &mut mtf);
    let ghost firsts = first_positions(x);
    let mut k: usize = 0;
    while k < pairs.len()
        invariant
            k <= pairs.len(),
            firsts == first_positions(x),
            lists_first_positions(pairs@, x),
            symbols@ == alphabet_of(x).take(k as int),
            as_ints(combined@) == firsts.take(k as int),
        decreases pairs.len() - k,
    {
        let pair: (u8, usize) = pairs[k];
        let ghost before = combined@;
        symbols.push(pair.0);
        combined.push(pair.1);
        proof {
            assert(pairs@[k as int].0 == x[firsts[k as int]]);
            assert(as_ints(combined@) =~= as_ints(before).push(pair.1 as int));
            assert(symbols@ =~= alphabet_of(x).take(k + 1));
            assert(as_ints(combined@) =~= firsts.take(k + 1));
        }
        k += 1;
    }
    let mut p: usize = 0;
    proof {
        assert(firsts.take(k as int) =~= firsts);
        assert(alphabet_of(x).take(k as int) =~= alphabet_of(x));
        assert(as_ints(combined@) =~= firsts + gaps_before(x, 0));
    }
    while p < n
        invariant
            p <= n,
            x == input@,
            n == x.len(),
            raw@.len() == n,
            forall|j: int| 0 <= j < n ==> #[trigger] raw@[j] == slot(x, j),
            as_ints(combined@) == firsts + gaps_before(x, p as int),
        decreases n - p,
    {
        let d: usize = raw[p];
        proof {
            lemma_gap_bounds(x, p as int);
        }
        let ghost before = combined@;
        if d != n {
            combined.push(d);
            assert(as_ints(combined@) =~= as_ints(before).push(d as int));
            assert(as_ints(combined@) =~= firsts + gaps_before(x, p + 1));
        }
        p += 1;
    }
    (symbols, combined)
}

} // verus!
