//! The arithmetic of round-robin rotation: which backend a ticket selects,
//! which ticket each draw receives, and how often each backend is served.

use vstd::arithmetic::div_mod::{
    lemma_basic_div, lemma_div_plus_one, lemma_fundamental_div_mod,
    lemma_fundamental_div_mod_converse, lemma_mod_bound, lemma_mod_equivalence, lemma_mod_mod,
    lemma_multiply_divide_le, lemma_small_mod,
};
use vstd::prelude::*;

verus! {

/// The position, in a group of `size` backends, that `ticket` selects.
pub open spec fn slot_of(ticket: usize, size: nat) -> int {
    (ticket as int) % (size as int)
}

/// A ticket never selects a position outside the group.
pub proof fn lemma_slot_in_range(ticket: usize, size: nat)
    requires
        size > 0,
    ensures
        0 <= slot_of(ticket, size) < size,
{
}

/// The ticket of draw number `k`, counted from zero, when the cursor stood
/// at `start` before the first draw: each draw raises the cursor by one,
/// and past the largest `usize` the cursor starts again at zero.
pub open spec fn ticket_at(start: usize, k: nat) -> usize {
    ((start + k) % (usize::MAX + 1)) as usize
}

/// How many of the first `draws` draws after `start` select `slot` in a
/// group of `size` backends.
pub open spec fn hits(start: usize, draws: nat, size: nat, slot: int) -> nat
    decreases draws,
{
    if draws == 0 {
        0
    } else {
        let earlier = hits(start, (draws - 1) as nat, size, slot);
        if slot_of(ticket_at(start, (draws - 1) as nat), size) == slot {
            earlier + 1
        } else {
            earlier
        }
    }
}

/// How many of the `len` integers from `from` on leave the remainder
/// `slot` when divided by `size`.
spec fn residues(from: int, len: nat, size: nat, slot: int) -> nat
    decreases len,
{
    if len == 0 {
        0
    } else {
        let earlier = residues(from, (len - 1) as nat, size, slot);
        if (from + len - 1) % (size as int) == slot {
            earlier + 1
        } else {
            earlier
        }
    }
}

/// Among fewer than `size + 1` integers in a row, a remainder occurs once
/// if the first integer that leaves it is among them, and else not at all.
proof fn lemma_residues_short(from: int, len: nat, size: nat, slot: int)
    requires
        0 <= slot < size,
        len <= size,
    ensures
        residues(from, len, size, slot) == if (slot - from) % (size as int) < len {
            1nat
        } else {
            0nat
        },
    decreases len,
{
    let m = size as int;
    lemma_mod_bound(slot - from, m);
    if len > 0 {
        lemma_residues_short(from, (len - 1) as nat, size, slot);
        let x = from + len - 1;
        lemma_small_mod(slot as nat, size);
        lemma_small_mod((len - 1) as nat, size);
        lemma_mod_equivalence(x, slot, m);
        lemma_mod_equivalence(len - 1, slot - from, m);
        assert(x - slot == (len - 1) - (slot - from));
        assert((x % m == slot) <==> ((slot - from) % m == len - 1));
    }
}

proof fn lemma_residues_split(from: int, first: nat, second: nat, size: nat, slot: int)
    ensures
        residues(from, first + second, size, slot) == residues(from, first, size, slot)
            + residues(from + first, second, size, slot),
    decreases second,
{
    if second > 0 {
        lemma_residues_split(from, first, (second - 1) as nat, size, slot);
        assert((first + second - 1) as nat == first + (second - 1) as nat);
    }
}

/// Among `len` integers in a row every remainder occurs `len / size`
/// times, or once more.
proof fn lemma_residues_bounds(from: int, len: nat, size: nat, slot: int)
    requires
        0 <= slot < size,
    ensures
        len / size <= residues(from, len, size, slot) <= (len + size - 1) / (size as int),
    decreases len,
{
    let m = size as int;
    if len < size {
        lemma_residues_short(from, len, size, slot);
        lemma_basic_div(len as int, m);
        if len == 0 {
            lemma_basic_div(m - 1, m);
        } else {
            lemma_fundamental_div_mod_converse(len + m - 1, m, 1, len - 1);
        }
    } else {
        let rest = (len - size) as nat;
        lemma_residues_split(from, size, rest, size, slot);
        lemma_residues_short(from, size, size, slot);
        lemma_mod_bound(slot - from, m);
        lemma_residues_bounds(from + size, rest, size, slot);
        lemma_div_plus_one(rest as int, m);
        lemma_div_plus_one(rest + m - 1, m);
        assert(m + rest == len);
        assert(m + (rest + m - 1) == len + m - 1);
    }
}

/// Where the cursor does not wrap within the window, or the group's size
/// divides the number of `usize` values, the draws select as the integers
/// from `start` on do.
proof fn lemma_hits_are_residues(start: usize, draws: nat, size: nat, slot: int)
    requires
        size > 0,
        start + draws <= usize::MAX + 1 || (usize::MAX + 1) % (size as int) == 0,
    ensures
        hits(start, draws, size, slot) == residues(start as int, draws, size, slot),
    decreases draws,
{
    if draws > 0 {
        let k = (draws - 1) as nat;
        lemma_hits_are_residues(start, k, size, slot);
        let m = size as int;
        let span = usize::MAX + 1;
        let x = start + k;
        lemma_mod_bound(x, span);
        assert(ticket_at(start, k) as int == x % span);
        if start + draws <= span {
            lemma_small_mod(x as nat, span as nat);
        } else {
            lemma_fundamental_div_mod(span, m);
            let turns = span / m;
            assert(span == m * turns);
            assert(turns > 0) by (nonlinear_arith)
                requires
                    span == m * turns,
                    span > 0,
                    m > 0,
            ;
            lemma_mod_mod(x, m, turns);
        }
        assert(slot_of(ticket_at(start, k), size) == x % m);
    }
}

/// Rotation is fair. Of `draws` draws in a row on a group of `size`
/// backends, every backend is selected `draws / size` times, or once
/// more where `size` does not divide `draws`. So once `draws` reaches
/// `size * rounds`, every backend has been selected at least `rounds`
/// times, and none more than `rounds` plus `draws / size` rounded up.
///
/// This holds of every window of draws in which the cursor does not pass
/// the largest `usize`, and of all windows where `size` divides the number
/// of `usize` values.
pub proof fn lemma_rotation_is_fair(start: usize, draws: nat, size: nat, slot: int, rounds: nat)
    requires
        0 <= slot < size,
        draws >= size * rounds,
        start + draws <= usize::MAX + 1 || (usize::MAX + 1) % (size as int) == 0,
    ensures
        draws / size <= hits(start, draws, size, slot) <= (draws + size - 1) / (size as int),
        rounds <= hits(start, draws, size, slot) <= rounds + (draws + size - 1) / (size as int),
{
    lemma_hits_are_residues(start, draws, size, slot);
    lemma_residues_bounds(start as int, draws, size, slot);
    let m = size as int;
    assert(rounds <= draws / size) by {
        lemma_fundamental_div_mod(draws as int, m);
        lemma_mod_bound(draws as int, m);
        let q = (draws as int) / m;
        assert(rounds <= q) by (nonlinear_arith)
            requires
                draws >= m * rounds,
                draws < m * q + m,
                m > 0,
        ;
    }
}

} // verus!
