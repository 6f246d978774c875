//! The move log: a history of moves packed into one integer, four bits a
//! move, above a leading one that marks the empty log.
use vstd::prelude::*;

verus! {

/// One move: robot `c` slides in direction `d`.
#[derive(PartialEq, Eq, Structural, Debug, Clone, Copy)]
pub struct Move {
    pub c: usize,
    pub d: usize,
}

/// The log value after the move of robot `c` in direction `d` is added to `v`.
pub open spec fn push_value(v: nat, c: nat, d: nat) -> nat {
    v * 16 + c * 4 + d
}

/// The log value of a history, oldest move first.
pub open spec fn encode(ms: Seq<Move>) -> nat
    decreases ms.len(),
{
    if ms.len() == 0 {
        1
    } else {
        push_value(encode(ms.drop_last()), ms.last().c as nat, ms.last().d as nat)
    }
}

/// The move in the lowest four bits of a log value.
pub open spec fn top_move(v: nat) -> Move {
    Move { c: ((v % 16) / 4) as usize, d: (v % 4) as usize }
}

/// The moves held in a log value, latest move first.
pub open spec fn decode(v: nat) -> Seq<Move>
    decreases v,
{
    if v <= 1 {
        Seq::<Move>::empty()
    } else {
        seq![top_move(v)] + decode(v / 16)
    }
}

/// Every move names one of the four robots and one of the four directions.
pub open spec fn moves_valid(ms: Seq<Move>) -> bool {
    forall|i: int| 0 <= i < ms.len() ==> (#[trigger] ms[i]).c < 4 && ms[i].d < 4
}

/// The 64-bit log after a move is added: bits pushed out at the top are lost.
pub open spec fn wrap_push(log: u64, c: usize, d: usize) -> u64 {
    ((log % 0x1000_0000_0000_0000) * 16 + c * 4 + d) as u64
}

/// Decoding a log to which a move was added gives that move, then the moves
/// of the log before.
pub proof fn lemma_decode_push(v: nat, c: nat, d: nat)
    requires
        v >= 1,
        c < 4,
        d < 4,
    ensures
        push_value(v, c, d) > 1,
        decode(push_value(v, c, d)) == seq![Move { c: c as usize, d: d as usize }] + decode(v),
{
    let u = push_value(v, c, d);
    assert(u / 16 == v);
    assert(u % 16 == c * 4 + d);
    assert((u % 16) / 4 == c);
    assert(u % 4 == d);
}

/// Decoding the log value of a history gives the history backwards.
pub proof fn lemma_decode_encode(ms: Seq<Move>)
    requires
        moves_valid(ms),
    ensures
        encode(ms) >= 1,
        decode(encode(ms)) == ms.reverse(),
    decreases ms.len(),
{
    if ms.len() == 0 {
        assert(decode(1) =~= ms.reverse());
    } else {
        let front = ms.drop_last();
        let m = ms.last();
        lemma_decode_encode(front);
        lemma_decode_push(encode(front), m.c as nat, m.d as nat);
        assert(seq![Move { c: m.c, d: m.d }] + front.reverse() =~= ms.reverse());
    }
}

/// Round trip: a history of any length, encoded, decoded and then reversed,
/// is the history itself.
pub proof fn lemma_round_trip(ms: Seq<Move>)
    requires
        moves_valid(ms),
    ensures
        decode(encode(ms)).reverse() == ms,
{
    lemma_decode_encode(ms);
    assert(ms.reverse().reverse() =~= ms);
}

/// Where the log has room for another move, the 64-bit log after the move is
/// the log value after it.
pub proof fn lemma_wrap_push_exact(log: u64, c: usize, d: usize)
    requires
        log < 0x1000_0000_0000_0000,
        c < 4,
        d < 4,
    ensures
        wrap_push(log, c, d) as nat == push_value(log as nat, c as nat, d as nat),
{
}

/// Strict upper bound of a log that holds `n` moves.
pub open spec fn cap(n: nat) -> nat
    decreases n,
{
    if n == 0 {
        2
    } else {
        16 * cap((n - 1) as nat)
    }
}

/// A log of at most 14 moves has room for one more.
pub proof fn lemma_cap_bound(n: nat)
    requires
        n <= 14,
    ensures
        cap(n) <= 0x0200_0000_0000_0000,
    decreases 14 - n,
{
    if n < 14 {
        lemma_cap_bound(n + 1);
    } else {
        reveal_with_fuel(cap, 15);
    }
}

/// The 64-bit log of a history, oldest move first.
pub open spec fn pushed(ms: Seq<Move>) -> u64
    decreases ms.len(),
{
    if ms.len() == 0 {
        1
    } else {
        wrap_push(pushed(ms.drop_last()), ms.last().c, ms.last().d)
    }
}

/// The 64-bit log of up to 15 moves is the log value of the history.
pub proof fn lemma_pushed_exact(ms: Seq<Move>)
    requires
        moves_valid(ms),
        ms.len() <= 15,
    ensures
        pushed(ms) as nat == encode(ms),
        1 <= encode(ms) < cap(ms.len()),
    decreases ms.len(),
{
    if ms.len() > 0 {
        let front = ms.drop_last();
        lemma_pushed_exact(front);
        lemma_cap_bound(front.len());
        lemma_wrap_push_exact(pushed(front), ms.last().c, ms.last().d);
    }
}

/// Round trip at 64 bits: a history of up to 15 moves, pushed onto the empty
/// log, decoded and then reversed, is the history itself.
pub proof fn lemma_round_trip_pushed(ms: Seq<Move>)
    requires
        moves_valid(ms),
        ms.len() <= 15,
    ensures
        decode(pushed(ms) as nat).reverse() == ms,
{
    lemma_pushed_exact(ms);
    lemma_round_trip(ms);
}

/// Adds the move of robot `c` in direction `d` to a log.
pub fn log_push(log: u64, c: usize, d: usize) -> (r: u64)
    requires
        c < 4,
        d < 4,
    ensures
        r == wrap_push(log, c, d),
{
    let hi = c as u64;
    let lo = d as u64;
    assert((log << 4) | (hi << 2) | lo == (log % 0x1000_0000_0000_0000) * 16 + hi * 4 + lo) by (bit_vector)
        requires
            hi < 4,
            lo < 4,
    ;
    (log << 4) | (hi << 2) | lo
}

/// Reads the moves out of a log, latest move first.
pub fn log_decode(log: u64) -> (ms: Vec<Move>)
    ensures
        ms@ == decode(log as nat),
        moves_valid(ms@),
{
    let mut l: Vec<Move> = Vec::new();
    let mut v = log;
    while v > 1
        invariant
            l@ + decode(v as nat) == decode(log as nat),
            moves_valid(l@),
        decreases v,
    {
        assert((v & 12) >> 2 == (v % 16) / 4 && v & 3 == v % 4 && v >> 4 == v / 16) by (bit_vector);
        let m = Move { c: ((v & 12) >> 2) as usize, d: (v & 3) as usize };
        assert(m == top_move(v as nat));
        assert(l@.push(m) + decode((v / 16) as nat) =~= l@ + decode(v as nat));
        l.push(m);
        v = v >> 4;
    }
    assert(l@ + decode(v as nat) =~= l@);
    l
}

} // verus!
