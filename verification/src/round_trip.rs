//! Decoding undoes encoding.
//!
//! While the decoder works on the stream of a block `x`, it expects every
//! symbol where `expected_at` says, and its rank table lists the symbols of
//! `x` by the position where they are expected. So each run is filled with
//! the right symbol up to the right position, and the distance drawn after it
//! puts the symbol back where the table stays ordered.

use crate::decoder::{
    all_beyond_end, decoding, filled, landing_rank, put_back, running, seeded_table, seeding,
    simple_decoding, Progress,
};
use crate::expectation::{
    expected_at, later_symbols, lemma_alphabet, lemma_expected_apart, lemma_expected_range,
    lemma_expected_unchanged, lemma_gaps_grow, lemma_gaps_of_run, lemma_last_before,
    lemma_later_symbols_bound, lemma_later_symbols_order,
};
use crate::model::{
    alphabet_of, as_ints, distinct_between, ends_run, first_positions, gap, gaps_before,
    last_occurrence, lemma_distinct_count, lemma_last_occurrence, lemma_next_occurrence,
    next_occurrence, stream_of,
};
use crate::source::{DecodeError, DistanceSource, SliceSource};
use vstd::prelude::*;

verus! {

/// The position where the run that holds position `i` stops: the first
/// position after `i` that holds another symbol, or the end of the block.
spec fn run_stop(x: Seq<u8>, i: int) -> int
    decreases x.len() - i,
{
    if i + 1 >= x.len() {
        x.len() as int
    } else if x[i + 1] != x[i] {
        i + 1
    } else {
        run_stop(x, i + 1)
    }
}

/// From rank `from` on, below `e`, the symbols of the table stand in the
/// order of the positions where they are expected.
spec fn ordered(table: Seq<u8>, next: Seq<int>, e: int, from: int) -> bool {
    forall|a: int, b: int|
        from <= a < b < e ==> next[#[trigger] table[a] as int] < next[#[trigger] table[b] as int]
}

/// The first rank from `rank` on, below `e`, whose symbol is expected at
/// `bound` or later; `e` if there is none.
spec fn first_not_below(table: Seq<u8>, next: Seq<int>, e: int, bound: int, rank: int) -> int
    decreases e - rank,
{
    if rank < e && next[table[rank] as int] < bound {
        first_not_below(table, next, e, bound, rank + 1)
    } else {
        rank
    }
}

/// The decoder, with its cursor somewhere in the block `x`, holds what it
/// should: the block is right up to the cursor, the table lists the symbols of
/// `x` by their expected positions, and the source stands at the gap of the
/// next run end.
spec fn on_track<'a>(x: Seq<u8>, p: Progress<SliceSource<'a>>) -> bool {
    let n = x.len() as int;
    let e = first_positions(x).len() as int;
    &&& p.output.len() == n
    &&& 0 <= p.cursor <= n
    &&& forall|j: int| 0 <= j < p.cursor ==> p.output[j] == x[j]
    &&& p.table.len() == 256
    &&& p.next.len() == 256
    &&& 2 <= e <= 256
    &&& forall|r: int| 0 <= r < e ==> x.contains(#[trigger] p.table[r])
    &&& ordered(p.table, p.next, e, 0)
    &&& forall|s: u8| x.contains(s) ==> exists|r: int| 0 <= r < e && #[trigger] p.table[r] == s
    &&& forall|s: u8|
        #[trigger] p.next[s as int] == if x.contains(s) {
            expected_at(x, s, p.cursor)
        } else {
            n
        }
    &&& as_ints(p.source.distances@) == stream_of(x)
    &&& p.source.taken == e + gaps_before(x, p.cursor).len()
}

/// What `run_stop` finds.
proof fn lemma_run_stop(x: Seq<u8>, i: int)
    requires
        0 <= i < x.len(),
    ensures
        i < run_stop(x, i) <= x.len(),
        forall|p: int| i <= p < run_stop(x, i) ==> x[p] == x[i],
        run_stop(x, i) < x.len() ==> x[run_stop(x, i)] != x[i],
        forall|p: int| i <= p < run_stop(x, i) - 1 ==> !ends_run(x, p),
        ends_run(x, run_stop(x, i) - 1),
    decreases x.len() - i,
{
    if i + 1 < x.len() && x[i + 1] == x[i] {
        lemma_run_stop(x, i + 1);
    }
}

/// In an ordered table, symbols that stand ranks apart are expected at least
/// as many positions apart.
proof fn lemma_spread(table: Seq<u8>, next: Seq<int>, e: int, from: int, a: int, b: int)
    requires
        ordered(table, next, e, from),
        from <= a <= b < e,
    ensures
        next[table[b] as int] - next[table[a] as int] >= b - a,
    decreases b - a,
{
    if a < b {
        lemma_spread(table, next, e, from, a, b - 1);
        assert(next[table[b - 1] as int] < next[table[b] as int]);
    }
}

/// What `first_not_below` finds in an ordered table.
proof fn lemma_first_not_below(table: Seq<u8>, next: Seq<int>, e: int, bound: int, rank: int)
    requires
        ordered(table, next, e, 1),
        1 <= rank <= e,
        forall|k: int| 1 <= k < rank ==> next[#[trigger] table[k] as int] < bound,
    ensures
        rank <= first_not_below(table, next, e, bound, rank) <= e,
        forall|k: int|
            1 <= k < first_not_below(table, next, e, bound, rank) ==> next[#[trigger] table[k]
                as int] < bound,
        forall|k: int|
            first_not_below(table, next, e, bound, rank) <= k < e ==> next[#[trigger] table[k]
                as int] >= bound,
    decreases e - rank,
{
    if rank < e && next[table[rank] as int] < bound {
        lemma_first_not_below(table, next, e, bound, rank + 1);
    } else {
        assert forall|k: int| rank <= k < e implies next[#[trigger] table[k] as int] >= bound by {
            if k > rank {
                assert(next[table[rank] as int] < next[table[k] as int]);
            }
        }
    }
}

/// The landing rank of a symbol whose distance counts back, from the position
/// where it is expected next, the symbols that are expected before it: it
/// lands behind exactly those.
proof fn lemma_landing(
    table: Seq<u8>,
    next: Seq<int>,
    e: int,
    future: int,
    place: int,
    behind: int,
    rank: int,
)
    requires
        ordered(table, next, e, 1),
        1 <= rank <= behind <= e,
        forall|k: int| 1 <= k < behind ==> next[#[trigger] table[k] as int] < place,
        forall|k: int| behind <= k < e ==> next[#[trigger] table[k] as int] > place,
        future == place - (behind - 1),
    ensures
        landing_rank(e, table, next, future, rank) == behind,
    decreases behind - rank,
{
    if rank < behind {
        lemma_spread(table, next, e, 1, rank, behind - 1);
        assert(next[table[behind - 1] as int] < place);
        lemma_landing(table, next, e, future, place, behind, rank + 1);
    } else if behind < e {
        assert(next[table[behind] as int] > place);
    }
}

/// The symbol at rank 0 is the symbol of the block at the cursor.
proof fn lemma_front<'a>(x: Seq<u8>, p: Progress<SliceSource<'a>>)
    requires
        on_track(x, p),
        p.cursor < x.len(),
    ensures
        p.table[0] == x[p.cursor],
{
    let e = first_positions(x).len() as int;
    let i = p.cursor;
    let s = x[i];
    assert(x.contains(s));
    let r = choose|r: int| 0 <= r < e && p.table[r] == s;
    assert(next_occurrence(x, s, i) == i);
    if r > 0 {
        let f = p.table[0];
        assert(x.contains(f));
        assert(p.next[p.table[0] as int] < p.next[p.table[r] as int]);
        assert(p.next[f as int] == expected_at(x, f, i));
        assert(p.next[s as int] == expected_at(x, s, i));
        lemma_expected_range(x, f, i);
    }
}

/// The symbol at rank 1 is expected where the run at the cursor stops.
proof fn lemma_stop<'a>(x: Seq<u8>, p: Progress<SliceSource<'a>>)
    requires
        on_track(x, p),
        p.cursor < x.len(),
    ensures
        p.next[p.table[1] as int] == run_stop(x, p.cursor),
{
    let n = x.len() as int;
    let e = first_positions(x).len() as int;
    let i = p.cursor;
    let sym = x[i];
    let stop = run_stop(x, i);
    lemma_front(x, p);
    lemma_run_stop(x, i);
    let t = p.table[1];
    assert(x.contains(t));
    assert(p.next[p.table[0] as int] < p.next[p.table[1] as int]);
    assert(t != sym);
    assert(p.next[t as int] == expected_at(x, t, i));
    lemma_expected_unchanged(x, t, i, stop);
    lemma_expected_range(x, t, stop);
    if stop < n {
        let u = x[stop];
        assert(x.contains(u));
        let r = choose|r: int| 0 <= r < e && p.table[r] == u;
        assert(r >= 1);
        if r > 1 {
            assert(p.next[p.table[1] as int] < p.next[p.table[r] as int]);
        }
        assert(p.next[u as int] == expected_at(x, u, i));
        lemma_expected_unchanged(x, u, i, stop);
        assert(next_occurrence(x, u, stop) == stop);
    } else {
        let z = p.table[e - 1];
        assert(x.contains(z));
        if e > 2 {
            assert(p.next[p.table[0] as int] < p.next[p.table[e - 1] as int]);
        }
        assert(z != sym);
        assert(p.next[z as int] == expected_at(x, z, i));
        lemma_spread(p.table, p.next, e, 0, 1, e - 1);
        lemma_expected_unchanged(x, z, i, n);
        assert(next_occurrence(x, z, n) == n);
        lemma_last_before(x, z, n);
        lemma_last_occurrence(x, z);
        lemma_last_occurrence(x, sym);
        assert(x[n - 1] == sym);
        assert(last_occurrence(x, sym) == n - 1);
        assert(last_occurrence(x, z) < n - 1);
        lemma_later_symbols_order(x, z, sym);
    }
}

/// The distance that the source hands out after the run at the cursor is the
/// gap of the last position of the run.
proof fn lemma_drawn<'a>(x: Seq<u8>, p: Progress<SliceSource<'a>>)
    requires
        on_track(x, p),
        p.cursor < x.len(),
    ensures
        p.source.answer(x[p.cursor]) is Ok,
        p.source.answer(x[p.cursor])->Ok_0 == gap(x, run_stop(x, p.cursor) - 1),
        p.source.advanced(x[p.cursor]) == (SliceSource {
            distances: p.source.distances,
            taken: (p.source.taken + 1) as usize,
        }),
        p.source.taken + 1 == first_positions(x).len() + gaps_before(
            x,
            run_stop(x, p.cursor),
        ).len(),
        p.source.taken + 1 <= usize::MAX,
{
    let n = x.len() as int;
    let i = p.cursor;
    let stop = run_stop(x, i);
    let firsts = first_positions(x);
    lemma_run_stop(x, i);
    lemma_gaps_of_run(x, i, stop);
    lemma_gaps_grow(x, stop, n);
    let at = gaps_before(x, i).len() as int;
    assert(gaps_before(x, stop)[at] == gap(x, stop - 1));
    assert(gaps_before(x, n)[at] == gap(x, stop - 1));
    let stream = stream_of(x);
    assert(stream.len() == firsts.len() + gaps_before(x, n).len());
    assert(stream[firsts.len() + at] == gaps_before(x, n)[at]);
    assert(as_ints(p.source.distances@).len() == p.source.distances@.len());
    let taken = p.source.taken as int;
    assert(as_ints(p.source.distances@)[taken] == p.source.distances@[taken] as int);
    assert(p.source.distances@.len() == p.source.distances.len());
}

/// The symbols that are expected before the next occurrence of the symbol put
/// back are as many as distinct symbols occur before it.
proof fn lemma_counted<'a>(x: Seq<u8>, p: Progress<SliceSource<'a>>, behind: int)
    requires
        on_track(x, p),
        p.cursor < x.len(),
        next_occurrence(x, x[p.cursor], run_stop(x, p.cursor)) < x.len(),
        behind == first_not_below(
            p.table,
            p.next,
            first_positions(x).len() as int,
            next_occurrence(x, x[p.cursor], run_stop(x, p.cursor)),
            1,
        ),
    ensures
        distinct_between(
            x,
            run_stop(x, p.cursor),
            next_occurrence(x, x[p.cursor], run_stop(x, p.cursor)),
        ) == behind - 1,
{
    let n = x.len() as int;
    let e = first_positions(x).len() as int;
    let i = p.cursor;
    let sym = x[i];
    let stop = run_stop(x, i);
    let q = next_occurrence(x, sym, stop);
    lemma_front(x, p);
    lemma_run_stop(x, i);
    lemma_next_occurrence(x, sym, stop);
    lemma_first_not_below(p.table, p.next, e, q, 1);
    let list = p.table.subrange(1, behind);
    let y = x.subrange(stop, q);
    assert forall|a: int, b: int|
        0 <= a < list.len() && 0 <= b < list.len() && a != b implies list[a] != list[b] by {
        if a < b {
            assert(p.next[p.table[a + 1] as int] < p.next[p.table[b + 1] as int]);
        } else {
            assert(p.next[p.table[b + 1] as int] < p.next[p.table[a + 1] as int]);
        }
    }
    assert forall|s: u8| list.contains(s) <==> y.contains(s) by {
        if list.contains(s) {
            let k = choose|k: int| 0 <= k < list.len() && list[k] == s;
            assert(p.table[k + 1] == s);
            assert(x.contains(s));
            assert(p.next[p.table[k + 1] as int] < q);
            assert(p.next[p.table[0] as int] < p.next[p.table[k + 1] as int]);
            assert(s != sym);
            assert(p.next[s as int] == expected_at(x, s, i));
            lemma_expected_unchanged(x, s, i, stop);
            lemma_expected_range(x, s, stop);
            lemma_next_occurrence(x, s, stop);
            let j = next_occurrence(x, s, stop);
            assert(y[j - stop] == s);
        }
        if y.contains(s) {
            let j = choose|j: int| 0 <= j < y.len() && y[j] == s;
            assert(x[stop + j] == s);
            assert(x.contains(s));
            assert(s != sym);
            let k = choose|k: int| 0 <= k < e && p.table[k] == s;
            assert(k != 0);
            assert(p.next[s as int] == expected_at(x, s, i));
            lemma_expected_unchanged(x, s, i, stop);
            lemma_next_occurrence(x, s, stop);
            if k >= behind {
                assert(p.next[p.table[k] as int] >= q);
                assert(false);
            }
            assert(list[k - 1] == s);
        }
    }
    lemma_distinct_count(list, y);
}

/// The state after the run at the cursor: the run is filled, and its symbol is
/// put back where it is expected next.
spec fn after_run<'a>(x: Seq<u8>, p: Progress<SliceSource<'a>>) -> Progress<SliceSource<'a>> {
    let e = first_positions(x).len() as int;
    let sym = x[p.cursor];
    let stop = run_stop(x, p.cursor);
    let place = expected_at(x, sym, stop);
    let behind = first_not_below(p.table, p.next, e, place, 1);
    Progress {
        table: put_back(p.table, behind),
        next: p.next.update(sym as int, place),
        output: filled(p.output, p.cursor, stop, sym),
        cursor: stop,
        source: SliceSource {
            distances: p.source.distances,
            taken: (p.source.taken + 1) as usize,
        },
    }
}

/// Where the symbol of the run at the cursor lands, and that the distance
/// drawn leads there.
proof fn lemma_lands<'a>(x: Seq<u8>, p: Progress<SliceSource<'a>>)
    requires
        on_track(x, p),
        p.cursor < x.len(),
    ensures
        ({
            let e = first_positions(x).len() as int;
            let stop = run_stop(x, p.cursor);
            let place = expected_at(x, x[p.cursor], stop);
            let behind = first_not_below(p.table, p.next, e, place, 1);
            let future = stop + gap(x, stop - 1);
            &&& 1 <= behind <= e
            &&& stop <= future <= x.len()
            &&& future == place - (behind - 1)
            &&& landing_rank(e, p.table, p.next, future, 1) == behind
            &&& forall|k: int| 1 <= k < behind ==> p.next[#[trigger] p.table[k] as int] < place
            &&& forall|k: int| behind <= k < e ==> p.next[#[trigger] p.table[k] as int] > place
        }),
{
    let n = x.len() as int;
    let e = first_positions(x).len() as int;
    let i = p.cursor;
    let sym = x[i];
    let stop = run_stop(x, i);
    let q = next_occurrence(x, sym, stop);
    let place = expected_at(x, sym, stop);
    let behind = first_not_below(p.table, p.next, e, place, 1);
    let future = stop + gap(x, stop - 1);
    lemma_front(x, p);
    lemma_run_stop(x, i);
    lemma_next_occurrence(x, sym, stop);
    assert(x.contains(sym));
    assert(x[stop - 1] == sym);
    lemma_expected_range(x, sym, stop);
    lemma_first_not_below(p.table, p.next, e, place, 1);
    crate::model::lemma_distinct_at_most_length(x, stop, q);
    assert forall|k: int| 1 <= k < e implies p.next[#[trigger] p.table[k] as int] != place by {
        let t = p.table[k];
        assert(x.contains(t));
        assert(p.next[p.table[0] as int] < p.next[p.table[k] as int]);
        assert(t != sym);
        assert(p.next[t as int] == expected_at(x, t, i));
        lemma_expected_unchanged(x, t, i, stop);
        lemma_expected_apart(x, sym, t, stop);
    }
    if q < n {
        lemma_counted(x, p, behind);
    } else {
        lemma_last_occurrence(x, sym);
        assert(last_occurrence(x, sym) == stop - 1);
        assert(later_symbols(x, sym) == distinct_between(x, stop, n));
        lemma_later_symbols_bound(x, sym);
        if behind < e {
            let t = p.table[behind];
            assert(p.next[p.table[behind] as int] >= place);
            assert(x.contains(t));
            assert(p.next[p.table[0] as int] < p.next[p.table[behind] as int]);
            assert(t != sym);
            assert(p.next[t as int] == expected_at(x, t, i));
            lemma_expected_unchanged(x, t, i, stop);
            lemma_expected_range(x, t, stop);
            lemma_next_occurrence(x, t, stop);
            if next_occurrence(x, t, stop) == n {
                lemma_last_before(x, t, stop);
                lemma_last_occurrence(x, t);
                if last_occurrence(x, t) < 0 {
                    let j = choose|j: int| 0 <= j < x.len() && x[j] == t;
                    assert(false);
                }
                assert(last_occurrence(x, t) != stop - 1);
                lemma_later_symbols_order(x, t, sym);
            }
            assert(false);
        }
    }
    lemma_landing(p.table, p.next, e, future, place, behind, 1);
}

/// After a run the decoder is on track again, and what is left to decode is
/// what was left before.
proof fn lemma_step<'a>(x: Seq<u8>, p: Progress<SliceSource<'a>>)
    requires
        on_track(x, p),
        p.cursor < x.len(),
    ensures
        on_track(x, after_run(x, p)),
        p.cursor < after_run(x, p).cursor,
        running(first_positions(x).len() as int, p) == running(
            first_positions(x).len() as int,
            after_run(x, p),
        ),
{
    let n = x.len() as int;
    let e = first_positions(x).len() as int;
    let i = p.cursor;
    let sym = x[i];
    let stop = run_stop(x, i);
    let place = expected_at(x, sym, stop);
    let behind = first_not_below(p.table, p.next, e, place, 1);
    let future = stop + gap(x, stop - 1);
    let ahead = after_run(x, p);
    lemma_front(x, p);
    lemma_stop(x, p);
    lemma_run_stop(x, i);
    lemma_drawn(x, p);
    lemma_lands(x, p);
    assert(x.contains(sym));
    // What is left to decode.
    let d = p.source.answer(sym)->Ok_0;
    assert(p.source.answer(sym) == Ok::<usize, DecodeError>(d));
    assert(stop + d == future);
    let unfolded = Progress {
        table: put_back(p.table, landing_rank(e, p.table, p.next, future, 1)),
        next: p.next.update(sym as int, future + landing_rank(e, p.table, p.next, future, 1) - 1),
        output: filled(p.output, p.cursor, stop, sym),
        cursor: stop,
        source: p.source.advanced(sym),
    };
    assert(unfolded == ahead);
    assert(running(e, p) == running(e, unfolded));
    // The block.
    assert forall|j: int| 0 <= j < ahead.cursor implies ahead.output[j] == x[j] by {}
    // The table.
    assert forall|r: int| 0 <= r < e implies x.contains(#[trigger] ahead.table[r]) by {
        if r < behind - 1 {
            assert(x.contains(p.table[r + 1]));
        } else if r == behind - 1 {
            assert(x.contains(p.table[0]));
        } else {
            assert(x.contains(p.table[r]));
        }
    }
    assert forall|s: u8| x.contains(s) implies exists|r: int|
        0 <= r < e && #[trigger] ahead.table[r] == s by {
        let k = choose|k: int| 0 <= k < e && p.table[k] == s;
        let r = if k == 0 {
            behind - 1
        } else if k < behind {
            k - 1
        } else {
            k
        };
        assert(ahead.table[r] == s);
    }
    assert forall|s: u8|
        #[trigger] ahead.next[s as int] == if x.contains(s) {
            expected_at(x, s, ahead.cursor)
        } else {
            n
        } by {
        if s != sym {
            assert(p.next[s as int] == if x.contains(s) {
                expected_at(x, s, i)
            } else {
                n
            });
            if x.contains(s) {
                lemma_expected_unchanged(x, s, i, stop);
            }
        }
    }
    assert forall|a: int, b: int| 0 <= a < b < e implies ahead.next[#[trigger] ahead.table[a] as int]
        < ahead.next[#[trigger] ahead.table[b] as int] by {
        let ka = if a < behind - 1 {
            a + 1
        } else if a == behind - 1 {
            0
        } else {
            a
        };
        let kb = if b < behind - 1 {
            b + 1
        } else if b == behind - 1 {
            0
        } else {
            b
        };
        assert(ahead.table[a] == p.table[ka]);
        assert(ahead.table[b] == p.table[kb]);
        assert(p.next[p.table[0] as int] < p.next[p.table[1] as int]);
        if ka != 0 {
            assert(p.next[p.table[0] as int] < p.next[p.table[ka] as int]);
            assert(p.table[ka] != sym);
            assert(ahead.next[p.table[ka] as int] == p.next[p.table[ka] as int]);
        }
        if kb != 0 {
            assert(p.next[p.table[0] as int] < p.next[p.table[kb] as int]);
            assert(p.table[kb] != sym);
            assert(ahead.next[p.table[kb] as int] == p.next[p.table[kb] as int]);
        }
        if ka != 0 && kb != 0 {
            assert(p.next[p.table[ka] as int] < p.next[p.table[kb] as int]);
        }
    }
}

/// A decoder that is on track decodes the rest of the block and accepts the
/// stream.
proof fn lemma_running<'a>(x: Seq<u8>, p: Progress<SliceSource<'a>>)
    requires
        on_track(x, p),
    ensures
        running(first_positions(x).len() as int, p).result is Ok,
        running(first_positions(x).len() as int, p).output == x,
    decreases x.len() - p.cursor,
{
    let n = x.len() as int;
    let e = first_positions(x).len() as int;
    if p.cursor >= n {
        assert forall|s: int| 0 <= s < 256 implies n <= #[trigger] p.next[s] < n + e by {
            let sym = s as u8;
            assert(p.next[sym as int] == if x.contains(sym) {
                expected_at(x, sym, p.cursor)
            } else {
                n
            });
            if x.contains(sym) {
                lemma_expected_range(x, sym, n);
                lemma_next_occurrence(x, sym, n);
            }
        }
        assert(all_beyond_end(e, n, p.next));
        assert(p.output =~= x);
    } else {
        lemma_step(x, p);
        lemma_running(x, after_run(x, p));
    }
}

/// Drawing the first distances from the stream of `x` gives every symbol of
/// the alphabet its first position.
proof fn lemma_seeding<'a>(x: Seq<u8>, k: int, next: Seq<int>, src: SliceSource<'a>) -> (seeded:
    Seq<int>)
    requires
        as_ints(src.distances@) == stream_of(x),
        src.taken == k,
        0 <= k <= first_positions(x).len(),
        next.len() == 256,
    ensures
        seeding(alphabet_of(x), k, next, src) == (
            Ok::<Seq<int>, DecodeError>(seeded),
            SliceSource { distances: src.distances, taken: first_positions(x).len() as usize },
        ),
        seeded.len() == 256,
        forall|j: int|
            k <= j < first_positions(x).len() ==> seeded[#[trigger] alphabet_of(x)[j] as int]
                == first_positions(x)[j],
        forall|s: u8|
            (forall|j: int| k <= j < first_positions(x).len() ==> alphabet_of(x)[j] != s)
                ==> #[trigger] seeded[s as int] == next[s as int],
    decreases first_positions(x).len() - k,
{
    let a = alphabet_of(x);
    let firsts = first_positions(x);
    lemma_alphabet(x);
    assert(as_ints(src.distances@).len() == src.distances@.len());
    assert(stream_of(x).len() >= firsts.len());
    if k >= firsts.len() {
        next
    } else {
        let sym = a[k];
        assert(as_ints(src.distances@)[k] == src.distances@[k] as int);
        assert(stream_of(x)[k] == firsts[k]);
        let d = src.distances@[k];
        assert(src.answer(sym) == Ok::<usize, DecodeError>(d));
        let src2 = src.advanced(sym);
        let next2 = next.update(sym as int, d as int);
        let seeded = lemma_seeding(x, k + 1, next2, src2);
        assert forall|j: int| k <= j < firsts.len() implies seeded[#[trigger] a[j] as int]
            == firsts[j] by {
            if j == k {
                assert forall|i: int| k + 1 <= i < firsts.len() implies a[i] != sym by {}
            }
        }
        seeded
    }
}

/// Decoding the stream that encoding made of a block gives back the block:
/// whatever the buffer and the rank table held before, the decoding from the
/// alphabet of `x` and a source at the start of the stream of `x` succeeds,
/// and leaves `x` in the buffer.
pub proof fn lemma_decoding_inverts_encoding<'a>(
    x: Seq<u8>,
    output: Seq<u8>,
    table: Seq<u8>,
    distances: &'a [usize],
)
    requires
        output.len() == x.len(),
        as_ints(distances@) == stream_of(x),
    ensures
        decoding(Some(alphabet_of(x)), output, table, SliceSource::start(distances)).result is Ok,
        decoding(Some(alphabet_of(x)), output, table, SliceSource::start(distances)).output == x,
{
    let n = x.len() as int;
    let a = alphabet_of(x);
    let firsts = first_positions(x);
    let e = firsts.len() as int;
    let src = SliceSource::start(distances);
    lemma_alphabet(x);
    if e == 0 {
        if n > 0 {
            assert(x.contains(x[0]));
            assert(a.contains(x[0]));
        }
        assert(output =~= x);
    } else if e == 1 {
        assert forall|j: int| 0 <= j < n implies x[j] == a[0] by {
            assert(x.contains(x[j]));
            assert(a.contains(x[j]));
        }
        assert(filled(output, 0, n, a[0]) =~= x);
    } else {
        let start = Seq::new(256, |s: int| n);
        let seeded = lemma_seeding(x, 0, start, src);
        let p = Progress {
            table: seeded_table(a),
            next: seeded,
            output,
            cursor: 0,
            source: SliceSource { distances, taken: e as usize },
        };
        assert(as_ints(distances@).len() == distances@.len());
        assert forall|r: int| 0 <= r < e implies x.contains(#[trigger] p.table[r]) by {
            assert(a.contains(a[r]));
        }
        assert forall|s: u8| x.contains(s) implies exists|r: int|
            0 <= r < e && #[trigger] p.table[r] == s by {
            assert(a.contains(s));
            let r = choose|r: int| 0 <= r < a.len() && a[r] == s;
            assert(p.table[r] == s);
        }
        assert forall|s: u8|
            #[trigger] p.next[s as int] == if x.contains(s) {
                expected_at(x, s, 0)
            } else {
                n
            } by {
            if x.contains(s) {
                assert(a.contains(s));
                let r = choose|r: int| 0 <= r < a.len() && a[r] == s;
                assert(seeded[a[r] as int] == firsts[r]);
                assert(next_occurrence(x, a[r], 0) == firsts[r]);
                crate::model::lemma_first_positions(x);
            } else {
                assert forall|j: int| 0 <= j < e implies a[j] != s by {
                    assert(a.contains(a[j]));
                }
            }
        }
        assert forall|i: int, j: int| 0 <= i < j < e implies p.next[#[trigger] p.table[i] as int]
            < p.next[#[trigger] p.table[j] as int] by {
            crate::model::lemma_first_positions(x);
            assert(seeded[a[i] as int] == firsts[i]);
            assert(seeded[a[j] as int] == firsts[j]);
        }
        assert(on_track(x, p));
        lemma_running(x, p);
    }
}

/// Decoding what `encode_simple` returns for a block, with the length of the
/// block, gives back the block.
pub proof fn lemma_round_trip(x: Seq<u8>, distances: &[usize])
    requires
        as_ints(distances@) == stream_of(x),
    ensures
        simple_decoding(x.len() as int, alphabet_of(x), distances).result is Ok,
        simple_decoding(x.len() as int, alphabet_of(x), distances).output == x,
{
    lemma_decoding_inverts_encoding(
        x,
        Seq::new(x.len(), |i: int| 0u8),
        crate::mtf::zeroed(),
        distances,
    );
}

} // verus!
