//! Move-to-front rank table over the byte alphabet.
//!
//! The table lists all ranks from the most recently used symbol (rank 0) to the
//! least recently used one. Encoding a symbol reports its rank and moves it to
//! the front; decoding a rank reports the symbol there and moves it to the front.

use crate::{Rank, Symbol};
use vstd::prelude::*;

verus! {

/// The table `t` after the symbol at rank `r` has moved to the front: the
/// symbols that stood before it each stand one rank further back, the symbols
/// behind it stay where they were.
pub open spec fn move_to_front(t: Seq<u8>, r: int) -> Seq<u8>
    recommends
        0 <= r < t.len(),
{
    seq![t[r]] + t.subrange(0, r) + t.subrange(r + 1, t.len() as int)
}

/// `r` is the rank of `sym` in `t`: the first place where `sym` stands.
pub open spec fn is_rank_of(t: Seq<u8>, sym: u8, r: int) -> bool {
    &&& 0 <= r < t.len()
    &&& t[r] == sym
    &&& forall|j: int| 0 <= j < r ==> t[j] != sym
}

/// The rank of `sym` in `t`, counted from the front; `t.len()` if `sym` is absent.
pub open spec fn rank_of(t: Seq<u8>, sym: u8) -> int
    decreases t.len(),
{
    if t.len() == 0 {
        0
    } else if t[0] == sym {
        0
    } else {
        1 + rank_of(t.drop_first(), sym)
    }
}

/// The table in which every symbol stands at the rank equal to its value.
pub open spec fn alphabetical() -> Seq<u8> {
    Seq::new(256, |i: int| i as u8)
}

/// The table that holds symbol 0 at every rank.
pub open spec fn zeroed() -> Seq<u8> {
    Seq::new(256, |i: int| 0u8)
}

/// Every byte value stands at exactly one of the 256 ranks.
pub open spec fn is_permutation(t: Seq<u8>) -> bool {
    &&& t.len() == 256
    &&& t.no_duplicates()
    &&& forall|s: u8| t.contains(s)
}

/// The ranks that encoding the symbols of `x` one after the other reports,
/// starting from table `t`.
pub open spec fn encode_ranks(t: Seq<u8>, x: Seq<u8>) -> Seq<int>
    decreases x.len(),
{
    if x.len() == 0 {
        Seq::empty()
    } else {
        let r = rank_of(t, x[0]);
        seq![r] + encode_ranks(move_to_front(t, r), x.drop_first())
    }
}

/// The symbols that decoding the ranks `ranks` one after the other reports,
/// starting from table `t`.
pub open spec fn decode_ranks(t: Seq<u8>, ranks: Seq<int>) -> Seq<u8>
    decreases ranks.len(),
{
    if ranks.len() == 0 {
        Seq::empty()
    } else {
        seq![t[ranks[0]]] + decode_ranks(move_to_front(t, ranks[0]), ranks.drop_first())
    }
}

/// `rank_of` finds the first place of a symbol that the table holds.
pub proof fn lemma_rank_of(t: Seq<u8>, sym: u8)
    ensures
        t.contains(sym) ==> is_rank_of(t, sym, rank_of(t, sym)),
        !t.contains(sym) ==> rank_of(t, sym) == t.len(),
        0 <= rank_of(t, sym) <= t.len(),
    decreases t.len(),
{
    if t.len() == 0 {
    } else if t[0] == sym {
    } else {
        let rest = t.drop_first();
        lemma_rank_of(rest, sym);
        let r = rank_of(rest, sym);
        if t.contains(sym) {
            let k = choose|k: int| 0 <= k < t.len() && t[k] == sym;
            assert(rest[k - 1] == sym);
            assert(rest.contains(sym));
            assert forall|j: int| 0 <= j < r + 1 implies t[j] != sym by {
                if j > 0 {
                    assert(rest[j - 1] != sym);
                }
            }
        } else {
            if rest.contains(sym) {
                let k = choose|k: int| 0 <= k < rest.len() && rest[k] == sym;
                assert(t[k + 1] == sym);
            }
        }
    }
}

/// A symbol has one rank only.
pub proof fn lemma_rank_unique(t: Seq<u8>, sym: u8, r: int)
    requires
        is_rank_of(t, sym, r),
    ensures
        rank_of(t, sym) == r,
{
    assert(t.contains(sym));
    lemma_rank_of(t, sym);
    let q = rank_of(t, sym);
    if q < r {
        assert(t[q] != sym);
    } else if r < q {
        assert(t[r] != sym);
    }
}

/// Moving a symbol to the front keeps the table a permutation of the alphabet.
pub proof fn lemma_move_to_front_permutation(t: Seq<u8>, r: int)
    requires
        is_permutation(t),
        0 <= r < 256,
    ensures
        is_permutation(move_to_front(t, r)),
{
    let m = move_to_front(t, r);
    assert(m.len() == 256);
    assert forall|i: int| 0 <= i < 256 implies #[trigger] m[i] == t[source_rank(r, i)] by {}
    assert forall|i: int, j: int| 0 <= i < 256 && 0 <= j < 256 && i != j implies m[i] != m[j] by {
        assert(m[i] == t[source_rank(r, i)]);
        assert(m[j] == t[source_rank(r, j)]);
    }
    assert forall|s: u8| m.contains(s) by {
        assert(t.contains(s));
        let k = choose|k: int| 0 <= k < t.len() && t[k] == s;
        let i = if k == r {
            0int
        } else if k < r {
            k + 1
        } else {
            k
        };
        assert(m[i] == t[source_rank(r, i)]);
        assert(m[i] == s);
    }
}

/// The rank from which the symbol at rank `i` came when rank `r` moved to the front.
pub open spec fn source_rank(r: int, i: int) -> int {
    if i == 0 {
        r
    } else if i <= r {
        i - 1
    } else {
        i
    }
}

/// Where each symbol of the table stands after a move to the front.
pub proof fn lemma_move_to_front_index(t: Seq<u8>, r: int)
    requires
        0 <= r < t.len(),
    ensures
        move_to_front(t, r).len() == t.len(),
        forall|i: int|
            0 <= i < t.len() ==> #[trigger] move_to_front(t, r)[i] == t[source_rank(r, i)],
{
}

/// The alphabetical table is a permutation of the alphabet.
pub proof fn lemma_alphabetical_permutation()
    ensures
        is_permutation(alphabetical()),
{
    let t = alphabetical();
    assert forall|s: u8| t.contains(s) by {
        assert(t[s as int] == s);
    }
}

/// The table after the symbols of `x` were encoded one after the other,
/// starting from table `t`.
pub open spec fn table_after_encoding(t: Seq<u8>, x: Seq<u8>) -> Seq<u8>
    decreases x.len(),
{
    if x.len() == 0 {
        t
    } else {
        table_after_encoding(move_to_front(t, rank_of(t, x[0])), x.drop_first())
    }
}

/// The table after the ranks `ranks` were decoded one after the other,
/// starting from table `t`.
pub open spec fn table_after_decoding(t: Seq<u8>, ranks: Seq<int>) -> Seq<u8>
    decreases ranks.len(),
{
    if ranks.len() == 0 {
        t
    } else {
        table_after_decoding(move_to_front(t, ranks[0]), ranks.drop_first())
    }
}

/// Decoding the ranks that encoding reported, from the same starting table,
/// gives back the symbols that were encoded and leaves the same table,
/// provided the starting table holds each of the symbols.
pub proof fn lemma_ranks_round_trip(t: Seq<u8>, x: Seq<u8>)
    requires
        forall|i: int| 0 <= i < x.len() ==> t.contains(#[trigger] x[i]),
    ensures
        encode_ranks(t, x).len() == x.len(),
        decode_ranks(t, encode_ranks(t, x)) == x,
        table_after_decoding(t, encode_ranks(t, x)) == table_after_encoding(t, x),
    decreases x.len(),
{
    if x.len() == 0 {
        assert(decode_ranks(t, encode_ranks(t, x)) =~= x);
    } else {
        let r = rank_of(t, x[0]);
        lemma_rank_of(t, x[0]);
        assert(t.contains(x[0]));
        let t1 = move_to_front(t, r);
        let rest = x.drop_first();
        assert forall|i: int| 0 <= i < rest.len() implies t1.contains(#[trigger] rest[i]) by {
            let s = rest[i];
            assert(s == x[i + 1]);
            assert(t.contains(s));
            let k = choose|k: int| 0 <= k < t.len() && t[k] == s;
            let j = if k == r {
                0int
            } else if k < r {
                k + 1
            } else {
                k
            };
            assert(t1[j] == s);
        }
        lemma_ranks_round_trip(t1, rest);
        let ranks = encode_ranks(t, x);
        assert(ranks == seq![r] + encode_ranks(t1, rest));
        assert(ranks[0] == r);
        assert(ranks.drop_first() =~= encode_ranks(t1, rest));
        assert(decode_ranks(t, ranks) == seq![t[r]] + decode_ranks(t1, ranks.drop_first()));
        assert(seq![x[0]] + rest =~= x);
    }
}

/// Ranks reported while encoding `x` from the alphabetical table decode, from
/// the alphabetical table again, to `x`; and the two tables end up the same.
pub proof fn lemma_alphabetical_round_trip(x: Seq<u8>)
    ensures
        decode_ranks(alphabetical(), encode_ranks(alphabetical(), x)) == x,
        table_after_decoding(alphabetical(), encode_ranks(alphabetical(), x))
            == table_after_encoding(alphabetical(), x),
{
    lemma_alphabetical_permutation();
    lemma_ranks_round_trip(alphabetical(), x);
}

/// Rank-ordered list of the 256 symbols; rank 0 holds the symbol used last.
pub struct MTF {
    symbols: [Symbol; 256],
}

impl View for MTF {
    type V = Seq<u8>;

    /// The symbols by rank.
    closed spec fn view(&self) -> Seq<u8> {
        self.symbols@
    }
}

impl MTF {
    /// The table always has one entry for each of the 256 ranks.
    pub broadcast proof fn lemma_len(&self)
        ensures
            #[trigger] self@.len() == 256,
    {
    }

    /// A table with symbol 0 at every rank. It ranks nothing yet: reset it, or
    /// let the distance coder seed it, before use.
    pub fn new() -> (m: MTF)
        ensures
            m@ == zeroed(),
    {
        let m = MTF { symbols: [0u8; 256] };
        assert(m@ =~= zeroed());
        m
    }

    /// Puts every symbol at the rank equal to its value.
    pub fn reset_alphabetical(&mut self)
        ensures
            final(self)@ == alphabetical(),
            is_permutation(final(self)@),
    {
        let mut i: usize = 0;
        while i < 256
            invariant
                i <= 256,
                forall|j: int| 0 <= j < i ==> self.symbols@[j] == j as u8,
            decreases 256 - i,
        {
            self.symbols[i] = i as u8;
            i += 1;
        }
        assert(self@ =~= alphabetical());
        proof {
            lemma_alphabetical_permutation();
        }
    }

    /// Reports the rank of `sym` and moves `sym` to the front.
    ///
    /// The table must hold `sym`, as every permutation of the alphabet does.
    pub fn encode(&mut self, sym: Symbol) -> (rank: Rank)
        requires
            old(self)@.contains(sym),
        ensures
            is_rank_of(old(self)@, sym, rank as int),
            rank as int == rank_of(old(self)@, sym),
            final(self)@ == move_to_front(old(self)@, rank as int),
            old(self)@[0] == sym ==> rank == 0 && final(self)@ == old(self)@,
            is_permutation(old(self)@) ==> is_permutation(final(self)@),
    {
        let ghost before = self.symbols@;
        let ghost place = choose|k: int| 0 <= k < before.len() && before[k] == sym;
        let mut next: u8 = self.symbols[0];
        if next == sym {
            proof {
                lemma_rank_unique(before, sym, 0);
                assert(move_to_front(before, 0) =~= before);
            }
            return 0;
        }
        let mut rank: u8 = 1;
        loop
            invariant_except_break
                1 <= rank <= place,
                next == before[rank - 1],
                forall|j: int| 0 <= j < rank ==> before[j] != sym,
                forall|j: int| 1 <= j < rank ==> self.symbols@[j] == before[j - 1],
                forall|j: int| rank <= j < 256 ==> self.symbols@[j] == before[j],
            invariant
                0 <= place < 256,
                before[place] == sym,
                before.len() == 256,
                self.symbols@[0] == before[0],
            ensures
                1 <= rank <= place,
                before[rank as int] == sym,
                forall|j: int| 0 <= j < rank ==> before[j] != sym,
                forall|j: int| 1 <= j <= rank ==> self.symbols@[j] == before[j - 1],
                forall|j: int| rank < j < 256 ==> self.symbols@[j] == before[j],
            decreases 256 - rank,
        {
            let held: u8 = self.symbols[rank as usize];
            self.symbols[rank as usize] = next;
            next = held;
            if next == sym {
                break ;
            }
            rank += 1;
        }
        self.symbols[0] = sym;
        proof {
            lemma_rank_unique(before, sym, rank as int);
            assert(self.symbols@ =~= move_to_front(before, rank as int));
            if is_permutation(before) {
                lemma_move_to_front_permutation(before, rank as int);
            }
        }
        rank
    }

    /// Reports the symbol at `rank` and moves it to the front.
    pub fn decode(&mut self, rank: Rank) -> (sym: Symbol)
        ensures
            sym == old(self)@[rank as int],
            final(self)@ == move_to_front(old(self)@, rank as int),
            is_permutation(old(self)@) ==> is_permutation(final(self)@),
    {
        let ghost before = self.symbols@;
        let sym: u8 = self.symbols[rank as usize];
        let mut i: usize = rank as usize;
        while i > 0
            invariant
                0 <= i <= rank,
                before.len() == 256,
                forall|j: int| 0 <= j <= i ==> self.symbols@[j] == before[j],
                forall|j: int| i < j <= rank ==> self.symbols@[j] == before[j - 1],
                forall|j: int| rank < j < 256 ==> self.symbols@[j] == before[j],
            decreases i,
        {
            self.symbols[i] = self.symbols[i - 1];
            i -= 1;
        }
        self.symbols[0] = sym;
        proof {
            assert(self.symbols@ =~= move_to_front(before, rank as int));
            if is_permutation(before) {
                lemma_move_to_front_permutation(before, rank as int);
            }
        }
        sym
    }

    /// The symbol at `rank`; the table stays as it is.
    pub(crate) fn symbol_at(&self, rank: usize) -> (sym: Symbol)
        requires
            rank < 256,
        ensures
            sym == self@[rank as int],
    {
        self.symbols[rank]
    }

    /// Writes `sym` at `rank`, whatever stood there; the other ranks stay as
    /// they are.
    pub(crate) fn seed(&mut self, rank: usize, sym: Symbol)
        requires
            rank < 256,
        ensures
            final(self)@ == old(self)@.update(rank as int, sym),
    {
        self.symbols[rank] = sym;
    }
}

} // verus!
