//! The backward transform: from an alphabet and a source of distances to the
//! block.
//!
//! The decoder keeps the symbols of the alphabet in a rank table, ordered by
//! the position where each is expected next. The symbol at rank 0 fills the
//! block up to the position expected for the symbol at rank 1; then its next
//! distance is drawn and it is put back into the table behind every symbol
//! that is expected before it.

use crate::model::as_ints;
use crate::mtf::{alphabetical, MTF};
use crate::source::{DecodeError, DistanceSource, SliceSource};
use crate::{Distance, Symbol};
use vstd::prelude::*;

verus! {

/// How a decoding ended: its result, and what it left in the block, in the
/// rank table and of the source.
pub struct Decoding<S> {
    pub result: Result<(), DecodeError>,
    pub output: Seq<u8>,
    pub table: Seq<u8>,
    pub source: S,
}

/// What the decoder holds between two runs: the rank table, the position
/// expected next for every symbol, the block as far as it is filled, the
/// position where the next run starts, and the source.
pub struct Progress<S> {
    pub table: Seq<u8>,
    pub next: Seq<int>,
    pub output: Seq<u8>,
    pub cursor: int,
    pub source: S,
}

/// The alphabet as a sequence, if one is given.
pub open spec fn alphabet_view(alphabet: Option<&[u8]>) -> Option<Seq<u8>> {
    match alphabet {
        Some(list) => Some(list@),
        None => None,
    }
}

/// The alphabet that decoding works with: the given one, or all 256 symbols
/// in rising order where none is given.
pub open spec fn effective_alphabet(alphabet: Option<Seq<u8>>) -> Seq<u8> {
    match alphabet {
        Some(a) => a,
        None => alphabetical(),
    }
}

/// An alphabet names no symbol twice and so has at most 256 entries.
pub open spec fn valid_alphabet(a: Seq<u8>) -> bool {
    a.len() <= 256 && a.no_duplicates()
}

/// The block `output` with the positions from `from` up to `to` holding `sym`.
pub open spec fn filled(output: Seq<u8>, from: int, to: int, sym: u8) -> Seq<u8> {
    Seq::new(
        output.len(),
        |i: int|
            if from <= i < to {
                sym
            } else {
                output[i]
            },
    )
}

/// The rank table that holds the alphabet in its first ranks and symbol 0 in
/// the others.
pub open spec fn seeded_table(a: Seq<u8>) -> Seq<u8> {
    Seq::new(
        256,
        |r: int|
            if r < a.len() {
                a[r]
            } else {
                0u8
            },
    )
}

/// The expected positions after the first distance of each symbol of `a` from
/// the `k`-th on was drawn, and the source after that; the first failure of
/// the source ends the drawing.
pub open spec fn seeding<S: DistanceSource>(a: Seq<u8>, k: int, next: Seq<int>, src: S) -> (
    Result<Seq<int>, DecodeError>,
    S,
)
    decreases a.len() - k,
{
    if k >= a.len() || k < 0 {
        (Ok(next), src)
    } else {
        match src.answer(a[k]) {
            Ok(d) => seeding(a, k + 1, next.update(a[k] as int, d as int), src.advanced(a[k])),
            Err(err) => (Err(err), src.advanced(a[k])),
        }
    }
}

/// The rank behind the symbols that are expected before the symbol put back:
/// the first rank from `rank` on, below `e`, whose symbol is expected at
/// `future + rank` or later, or `e` if there is none.
pub open spec fn landing_rank(e: int, table: Seq<u8>, next: Seq<int>, future: int, rank: int) -> int
    decreases e - rank,
{
    if rank < e && future + rank > next[table[rank] as int] {
        landing_rank(e, table, next, future, rank + 1)
    } else {
        rank
    }
}

/// The table after the symbol at rank 0 was put back just before `rank`: the
/// symbols between move one rank forward.
pub open spec fn put_back(table: Seq<u8>, rank: int) -> Seq<u8> {
    Seq::new(
        table.len(),
        |k: int|
            if k < rank - 1 {
                table[k + 1]
            } else if k == rank - 1 {
                table[0]
            } else {
                table[k]
            },
    )
}

/// Every symbol is expected at the end of the block or at one of the `e`
/// positions that follow it.
pub open spec fn all_beyond_end(e: int, n: int, next: Seq<int>) -> bool {
    forall|s: int| 0 <= s < 256 ==> n <= #[trigger] next[s] < n + e
}

/// The decoding from the state `p` on, with an alphabet of `e` symbols.
///
/// While the block is not full: the symbol at rank 0 fills it up to the
/// position expected for the symbol at rank 1, which must lie after the cursor
/// and inside the block; the next distance of the symbol is drawn, which must
/// not lead beyond the end of the block; the symbol is put back at its landing
/// rank and expected at the position that the distance and the rank give.
/// When the block is full, every symbol must be expected beyond its end.
pub open spec fn running<S: DistanceSource>(e: int, p: Progress<S>) -> Decoding<S>
    decreases p.output.len() - p.cursor,
{
    let n = p.output.len() as int;
    if p.cursor >= n {
        Decoding {
            result: if all_beyond_end(e, n, p.next) {
                Ok(())
            } else {
                Err(DecodeError::InvalidDistance)
            },
            output: p.output,
            table: p.table,
            source: p.source,
        }
    } else {
        let sym = p.table[0];
        let stop = p.next[p.table[1] as int];
        if !(p.cursor < stop <= n) {
            Decoding {
                result: Err(DecodeError::InvalidDistance),
                output: p.output,
                table: p.table,
                source: p.source,
            }
        } else {
            let output = filled(p.output, p.cursor, stop, sym);
            let source = p.source.advanced(sym);
            match p.source.answer(sym) {
                Err(err) => Decoding { result: Err(err), output, table: p.table, source },
                Ok(d) => {
                    let future = stop + d;
                    if future > n {
                        Decoding {
                            result: Err(DecodeError::InvalidDistance),
                            output,
                            table: p.table,
                            source,
                        }
                    } else {
                        let rank = landing_rank(e, p.table, p.next, future, 1);
                        running(
                            e,
                            Progress {
                                table: put_back(p.table, rank),
                                next: p.next.update(sym as int, future + rank - 1),
                                output,
                                cursor: stop,
                                source,
                            },
                        )
                    }
                },
            }
        }
    }
}

/// The decoding once the first distances are drawn: the failure of the
/// source, if it failed, or else the decoding of the runs from the start of
/// the block, with the table seeded.
pub open spec fn after_seeding<S: DistanceSource>(
    a: Seq<u8>,
    seeds: (Result<Seq<int>, DecodeError>, S),
    output: Seq<u8>,
    table: Seq<u8>,
) -> Decoding<S> {
    match seeds.0 {
        Err(err) => Decoding { result: Err(err), output, table, source: seeds.1 },
        Ok(next) => running(
            a.len() as int,
            Progress { table: seeded_table(a), next, output, cursor: 0, source: seeds.1 },
        ),
    }
}

/// The decoding of a block of `output.len()` bytes.
///
/// - With an empty alphabet the block must be empty, and nothing is done.
/// - With an alphabet of one symbol the block is filled with it, and nothing is
///   drawn from the source.
/// - Otherwise the alphabet, or all 256 symbols in rising order where none is
///   given, must name no symbol twice. The first distance of each symbol is
///   drawn in the order of the alphabet and taken as the position expected
///   for it; then the table is seeded with the alphabet and the runs are
///   decoded one by one.
pub open spec fn decoding<S: DistanceSource>(
    alphabet: Option<Seq<u8>>,
    output: Seq<u8>,
    table: Seq<u8>,
    src: S,
) -> Decoding<S> {
    let n = output.len() as int;
    let a = effective_alphabet(alphabet);
    if alphabet is Some && a.len() == 0 {
        Decoding {
            result: if n == 0 {
                Ok(())
            } else {
                Err(DecodeError::InvalidAlphabet)
            },
            output,
            table,
            source: src,
        }
    } else if alphabet is Some && a.len() == 1 {
        Decoding { result: Ok(()), output: filled(output, 0, n, a[0]), table, source: src }
    } else if !valid_alphabet(a) {
        Decoding { result: Err(DecodeError::InvalidAlphabet), output, table, source: src }
    } else {
        after_seeding(a, seeding(a, 0, Seq::new(256, |s: int| n), src), output, table)
    }
}

/// The decoding that `decode_simple` makes: of a block of `n` bytes, from the
/// start of `distances`.
pub open spec fn simple_decoding<'a>(n: int, alphabet: Seq<u8>, distances: &'a [usize]) -> Decoding<
    SliceSource<'a>,
> {
    decoding(
        Some(alphabet),
        Seq::new(n as nat, |i: int| 0u8),
        crate::mtf::zeroed(),
        SliceSource::start(distances),
    )
}

/// Without an alphabet, decoding goes as with the alphabet of all 256 symbols
/// in rising order.
pub proof fn lemma_full_alphabet<S: DistanceSource>(output: Seq<u8>, table: Seq<u8>, src: S)
    ensures
        decoding(None, output, table, src) == decoding(Some(alphabetical()), output, table, src),
{
}

/// Whether `list` names no symbol twice.
fn names_no_symbol_twice(list: &[u8]) -> (b: bool)
    ensures
        b == valid_alphabet(list@),
{
    if list.len() > 256 {
        proof {
            if list@.no_duplicates() {
                crate::model::lemma_bytes_bound(list@, 0u8);
            }
        }
        return false;
    }
    let mut seen: [bool; 256] = [false; 256];
    let mut k: usize = 0;
    while k < list.len()
        invariant
            k <= list@.len() <= 256,
            forall|s: u8| #[trigger] seen@[s as int] <==> list@.take(k as int).contains(s),
            list@.take(k as int).no_duplicates(),
        decreases list.len() - k,
    {
        let sym: u8 = list[k];
        let ghost before = list@.take(k as int);
        let ghost after = list@.take(k + 1);
        assert(after =~= before.push(sym));
        if seen[sym as usize] {
            proof {
                let j = choose|j: int| 0 <= j < before.len() && before[j] == sym;
                assert(list@[j] == list@[k as int]);
            }
            return false;
        }
        seen[sym as usize] = true;
        proof {
            assert forall|s: u8| #[trigger] seen@[s as int] <==> after.contains(s) by {
                if s == sym {
                    assert(after[k as int] == s);
                } else {
                    if before.contains(s) {
                        let j = choose|j: int| 0 <= j < before.len() && before[j] == s;
                        assert(after[j] == s);
                    }
                    if after.contains(s) {
                        let j = choose|j: int| 0 <= j < after.len() && after[j] == s;
                        assert(before[j] == s);
                    }
                }
            }
            assert forall|i: int, j: int|
                0 <= i < after.len() && 0 <= j < after.len() && i != j implies after[i]
                != after[j] by {
                if i < k && j < k {
                    assert(before[i] != before[j]);
                } else if i < k {
                    assert(before[i] == after[i]);
                    assert(before.contains(after[i]));
                } else if j < k {
                    assert(before[j] == after[j]);
                    assert(before.contains(after[j]));
                }
            }
        }
        k += 1;
    }
    assert(list@.take(k as int) =~= list@);
    true
}

/// A step of the scan for the landing rank.
proof fn lemma_landing_rank_step(e: int, table: Seq<u8>, next: Seq<int>, future: int, rank: int)
    ensures
        rank < e && future + rank > next[table[rank] as int] ==> landing_rank(
            e,
            table,
            next,
            future,
            rank,
        ) == landing_rank(e, table, next, future, rank + 1),
        !(rank < e && future + rank > next[table[rank] as int]) ==> landing_rank(
            e,
            table,
            next,
            future,
            rank,
        ) == rank,
{
}

/// Decodes a block into `output`, whose length is the length of the block.
///
/// `alphabet` lists the symbols of the block in the order of their first
/// occurrence; without it, all 256 symbols in rising order are taken. The
/// distances are drawn from `source`, and `mtf` serves as the rank table.
/// The result, the block, the table and the source are those of `decoding`:
/// - `Err(InvalidAlphabet)` if the alphabet is empty and the block is not, or
///   if it names a symbol twice; nothing is drawn or written then;
/// - the error of the source, if it fails;
/// - `Err(InvalidDistance)` if a distance leads to a run that does not advance
///   or exceeds the block, or beyond the end of the block, or if at the end
///   some symbol is not expected beyond the end of the block;
/// - `Ok(())` otherwise, with the block decoded.
pub fn decode<S: DistanceSource>(
    alphabet: Option<&[Symbol]>,
    output: &mut [Symbol],
    mtf: &mut MTF,
    source: &mut S,
) -> (r: Result<(), DecodeError>)
    requires
        old(output)@.len() + 256 <= usize::MAX,
    ensures
        final(output)@.len() == old(output)@.len(),
        r == decoding(alphabet_view(alphabet), old(output)@, old(mtf)@, *old(source)).result,
        final(output)@ == decoding(
            alphabet_view(alphabet),
            old(output)@,
            old(mtf)@,
            *old(source),
        ).output,
        final(mtf)@ == decoding(
            alphabet_view(alphabet),
            old(output)@,
            old(mtf)@,
            *old(source),
        ).table,
        *final(source) == decoding(
            alphabet_view(alphabet),
            old(output)@,
            old(mtf)@,
            *old(source),
        ).source,
{
    broadcast use MTF::lemma_len;

    let ghost goal = decoding(alphabet_view(alphabet), output@, mtf@, *source);
    let ghost a = effective_alphabet(alphabet_view(alphabet));
    let ghost output0 = output@;
    let ghost mtf0 = mtf@;
    let ghost source0 = *source;
    let n: usize = output.len();
    let e: usize;
    match alphabet {
        Some(list) => {
            if list.len() == 0 {
                if n == 0 {
                    return Ok(());
                } else {
                    return Err(DecodeError::InvalidAlphabet);
                }
            }
            if list.len() == 1 {
                let only: u8 = list[0];
                let mut i: usize = 0;
                while i < n
                    invariant
                        i <= n,
                        output@.len() == n,
                        output0.len() == n,
                        forall|j: int| 0 <= j < i ==> output@[j] == only,
                        forall|j: int| i <= j < n ==> output@[j] == output0[j],
                    decreases n - i,
                {
                    output[i] = only;
                    i += 1;
                }
                assert(output@ =~= filled(output0, 0, n as int, only));
                return Ok(());
            }
            if !names_no_symbol_twice(list) {
                return Err(DecodeError::InvalidAlphabet);
            }
            e = list.len();
        },
        None => {
            proof {
                crate::mtf::lemma_alphabetical_permutation();
            }
            e = 256;
        },
    }
    let mut next: [usize; 256] = [n; 256];
    assert(as_ints(next@) =~= Seq::new(256, |s: int| n as int));
    let mut k: usize = 0;
    while k < e
        invariant
            k <= e <= 256,
            e == a.len(),
            a == effective_alphabet(alphabet_view(alphabet)),
            output@ == output0,
            mtf@ == mtf0,
            output@.len() == old(output)@.len(),
            goal == decoding(
                alphabet_view(alphabet),
                old(output)@,
                old(mtf)@,
                *old(source),
            ),
            goal == after_seeding(a, seeding(a, k as int, as_ints(next@), *source), output0, mtf0),
        decreases e - k,
    {
        let sym: u8 = match alphabet {
            Some(list) => list[k],
            None => k as u8,
        };
        assert(sym == a[k as int]);
        let ghost next0 = as_ints(next@);
        match source.next_distance(sym) {
            Ok(d) => {
                next[sym as usize] = d;
                assert(as_ints(next@) =~= next0.update(sym as int, d as int));
            },
            Err(err) => {
                return Err(err);
            },
        }
        k += 1;
    }
    let mut k: usize = 0;
    while k < 256
        invariant
            k <= 256,
            e <= 256,
            e == a.len(),
            a == effective_alphabet(alphabet_view(alphabet)),
            mtf@.len() == 256,
            forall|r: int| 0 <= r < k ==> mtf@[r] == seeded_table(a)[r],
        decreases 256 - k,
    {
        let sym: u8 = if k < e {
            match alphabet {
                Some(list) => list[k],
                None => k as u8,
            }
        } else {
            0
        };
        mtf.seed(k, sym);
        k += 1;
    }
    assert(mtf@ =~= seeded_table(a));
    let mut i: usize = 0;
    while i < n
        invariant
            i <= n,
            n == output@.len(),
            n + 256 <= usize::MAX,
            2 <= e <= 256,
            mtf@.len() == 256,
            output@.len() == old(output)@.len(),
            goal == decoding(
                alphabet_view(alphabet),
                old(output)@,
                old(mtf)@,
                *old(source),
            ),
            goal == running(
                e as int,
                Progress {
                    table: mtf@,
                    next: as_ints(next@),
                    output: output@,
                    cursor: i as int,
                    source: *source,
                },
            ),
        decreases n - i,
    {
        let ghost start = Progress {
            table: mtf@,
            next: as_ints(next@),
            output: output@,
            cursor: i as int,
            source: *source,
        };
        let sym: u8 = mtf.symbol_at(0);
        let stop: usize = next[mtf.symbol_at(1) as usize];
        if stop <= i || stop > n {
            return Err(DecodeError::InvalidDistance);
        }
        while i < stop
            invariant
                i <= stop <= n,
                0 <= start.cursor <= i,
                n == output@.len(),
                start.output.len() == n,
                forall|j: int| start.cursor <= j < i ==> output@[j] == sym,
                forall|j: int|
                    0 <= j < n && !(start.cursor <= j < i) ==> output@[j] == start.output[j],
            decreases stop - i,
        {
            output[i] = sym;
            i += 1;
        }
        assert(output@ =~= filled(start.output, start.cursor, stop as int, sym));
        let d: usize = match source.next_distance(sym) {
            Ok(d) => d,
            Err(err) => {
                return Err(err);
            },
        };
        if d > n - stop {
            return Err(DecodeError::InvalidDistance);
        }
        let future: usize = stop + d;
        let ghost table0 = mtf@;
        let ghost next0 = as_ints(next@);
        let mut rank: usize = 1;
        loop
            invariant_except_break
                1 <= rank <= e,
                landing_rank(e as int, table0, next0, future as int, 1) == landing_rank(
                    e as int,
                    table0,
                    next0,
                    future as int,
                    rank as int,
                ),
            invariant
                e <= 256,
                future <= n,
                n + 256 <= usize::MAX,
                next0 == as_ints(next@),
                table0.len() == 256,
                mtf@.len() == 256,
                forall|k: int| 0 <= k < rank - 1 ==> mtf@[k] == table0[k + 1],
                forall|k: int| rank - 1 <= k < 256 ==> mtf@[k] == table0[k],
            ensures
                1 <= rank <= e,
                rank == landing_rank(e as int, table0, next0, future as int, 1),
            decreases e - rank,
        {
            proof {
                lemma_landing_rank_step(e as int, table0, next0, future as int, rank as int);
            }
            if rank >= e {
                break ;
            }
            let behind: u8 = mtf.symbol_at(rank);
            if future + rank <= next[behind as usize] {
                break ;
            }
            mtf.seed(rank - 1, behind);
            rank += 1;
        }
        mtf.seed(rank - 1, sym);
        next[sym as usize] = future + rank - 1;
        proof {
            assert(mtf@ =~= put_back(table0, rank as int));
            assert(as_ints(next@) =~= next0.update(sym as int, future + rank - 1));
        }
    }
    let mut s: usize = 0;
    while s < 256
        invariant
            s <= 256,
            e <= 256,
            n + 256 <= usize::MAX,
            n == output@.len(),
            output@.len() == old(output)@.len(),
            goal == decoding(
                alphabet_view(alphabet),
                old(output)@,
                old(mtf)@,
                *old(source),
            ),
            goal == running(
                e as int,
                Progress {
                    table: mtf@,
                    next: as_ints(next@),
                    output: output@,
                    cursor: n as int,
                    source: *source,
                },
            ),
            forall|t: int| 0 <= t < s ==> n <= #[trigger] as_ints(next@)[t] < n + e,
        decreases 256 - s,
    {
        let expected: usize = next[s];
        if expected < n || expected - n >= e {
            assert(!(n <= as_ints(next@)[s as int] < n + e));
            return Err(DecodeError::InvalidDistance);
        }
        s += 1;
    }
    Ok(())
}

/// Decodes a block of `n` bytes from its alphabet and its distance stream.
///
/// The stream must be one that decoding accepts, as the stream of every
/// encoded block is.
pub fn decode_simple(n: usize, alphabet: &[Symbol], distances: &[Distance]) -> (output: Vec<
    Symbol,
>)
    requires
        n + 256 <= usize::MAX,
        simple_decoding(n as int, alphabet@, distances).result is Ok,
    ensures
        output@ == simple_decoding(n as int, alphabet@, distances).output,
{
    let mut output: Vec<u8> = vec![0u8; n];
    assert(output@ =~= Seq::new(n as nat, |i: int| 0u8));
    let mut mtf = MTF::new();
    let mut source = SliceSource::new(distances);
    let _ = decode(Some(alphabet), output.as_mut_slice(), &mut mtf, &mut source);
    output
}

} // verus!
