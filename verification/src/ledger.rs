//! The stake ledger as a sequence of keyed rows, the per-side sums the
//! market totals must agree with, and the lemmas that track those sums
//! through pushes, in-place updates and removals.

use vstd::prelude::*;

use crate::types::{PositionEntry, PredictionSide};

verus! {

/// The amount row `p` contributes to the total staked on `side` of the
/// market `market_id`.
pub open spec fn stake_of(p: PositionEntry, market_id: u64, side: PredictionSide) -> int {
    if p.market_id == market_id && p.side == side {
        p.amount as int
    } else {
        0
    }
}

/// Sum of the amounts staked on `side` of market `market_id` over the
/// whole ledger.
pub open spec fn side_total(s: Seq<PositionEntry>, market_id: u64, side: PredictionSide) -> int
    decreases s.len(),
{
    if s.len() == 0 {
        0
    } else {
        side_total(s.drop_last(), market_id, side) + stake_of(s.last(), market_id, side)
    }
}

/// Row `p` holds the key (participant, market).
pub open spec fn is_key(p: PositionEntry, user: u64, market_id: u64) -> bool {
    p.user == user && p.market_id == market_id
}

/// Some row of `s` holds the key.
pub open spec fn has_position(s: Seq<PositionEntry>, user: u64, market_id: u64) -> bool {
    exists|j: int| 0 <= j < s.len() && is_key(#[trigger] s[j], user, market_id)
}

/// The index of the row holding the key; unique whenever `keys_unique`
/// holds and some row matches.
pub open spec fn position_index(s: Seq<PositionEntry>, user: u64, market_id: u64) -> int {
    choose|j: int| 0 <= j < s.len() && is_key(#[trigger] s[j], user, market_id)
}

/// The row holding the key.
pub open spec fn position_at(s: Seq<PositionEntry>, user: u64, market_id: u64) -> PositionEntry {
    s[position_index(s, user, market_id)]
}

/// No two rows share a (participant, market) key.
pub open spec fn keys_unique(s: Seq<PositionEntry>) -> bool {
    forall|j1: int, j2: int|
        0 <= j1 < s.len() && 0 <= j2 < s.len() && j1 != j2 ==> !((#[trigger] s[j1]).user
            == (#[trigger] s[j2]).user && s[j1].market_id == s[j2].market_id)
}

pub proof fn lemma_side_total_push(
    s: Seq<PositionEntry>,
    p: PositionEntry,
    market_id: u64,
    side: PredictionSide,
)
    ensures
        side_total(s.push(p), market_id, side) == side_total(s, market_id, side) + stake_of(
            p,
            market_id,
            side,
        ),
{
    assert(s.push(p).drop_last() =~= s);
    assert(s.push(p).last() == p);
}

pub proof fn lemma_side_total_concat(
    a: Seq<PositionEntry>,
    b: Seq<PositionEntry>,
    market_id: u64,
    side: PredictionSide,
)
    ensures
        side_total(a + b, market_id, side) == side_total(a, market_id, side) + side_total(
            b,
            market_id,
            side,
        ),
    decreases b.len(),
{
    if b.len() == 0 {
        assert(a + b =~= a);
    } else {
        lemma_side_total_concat(a, b.drop_last(), market_id, side);
        assert((a + b).drop_last() =~= a + b.drop_last());
        assert((a + b).last() == b.last());
    }
}

pub proof fn lemma_side_total_singleton(p: PositionEntry, market_id: u64, side: PredictionSide)
    ensures
        side_total(seq![p], market_id, side) == stake_of(p, market_id, side),
{
    assert(seq![p].len() == 1);
    assert(seq![p].drop_last() =~= Seq::<PositionEntry>::empty());
    assert(side_total(Seq::<PositionEntry>::empty(), market_id, side) == 0);
    assert(seq![p].last() == p);
}

/// A ledger splits around any row: the total is the sum over the prefix,
/// the row itself, and the suffix.
pub proof fn lemma_side_total_decompose(
    s: Seq<PositionEntry>,
    j: int,
    market_id: u64,
    side: PredictionSide,
)
    requires
        0 <= j < s.len(),
    ensures
        side_total(s, market_id, side) == side_total(s.subrange(0, j), market_id, side) + stake_of(
            s[j],
            market_id,
            side,
        ) + side_total(s.subrange(j + 1, s.len() as int), market_id, side),
{
    let pre = s.subrange(0, j);
    let mid = seq![s[j]];
    let post = s.subrange(j + 1, s.len() as int);
    assert(s =~= (pre + mid) + post);
    lemma_side_total_concat(pre + mid, post, market_id, side);
    lemma_side_total_concat(pre, mid, market_id, side);
    lemma_side_total_singleton(s[j], market_id, side);
}

pub proof fn lemma_side_total_update(
    s: Seq<PositionEntry>,
    j: int,
    p: PositionEntry,
    market_id: u64,
    side: PredictionSide,
)
    requires
        0 <= j < s.len(),
    ensures
        side_total(s.update(j, p), market_id, side) == side_total(s, market_id, side) - stake_of(
            s[j],
            market_id,
            side,
        ) + stake_of(p, market_id, side),
{
    lemma_side_total_decompose(s, j, market_id, side);
    lemma_side_total_decompose(s.update(j, p), j, market_id, side);
    assert(s.update(j, p).subrange(0, j) =~= s.subrange(0, j));
    assert(s.update(j, p).subrange(j + 1, s.len() as int) =~= s.subrange(j + 1, s.len() as int));
}

pub proof fn lemma_side_total_remove(
    s: Seq<PositionEntry>,
    j: int,
    market_id: u64,
    side: PredictionSide,
)
    requires
        0 <= j < s.len(),
    ensures
        side_total(s.remove(j), market_id, side) == side_total(s, market_id, side) - stake_of(
            s[j],
            market_id,
            side,
        ),
{
    lemma_side_total_decompose(s, j, market_id, side);
    assert(s.remove(j) =~= s.subrange(0, j) + s.subrange(j + 1, s.len() as int));
    lemma_side_total_concat(
        s.subrange(0, j),
        s.subrange(j + 1, s.len() as int),
        market_id,
        side,
    );
}

/// With unique keys, any matching row is the row `position_at` names.
pub proof fn lemma_found_is_position_at(s: Seq<PositionEntry>, j: int, user: u64, market_id: u64)
    requires
        keys_unique(s),
        0 <= j < s.len(),
        is_key(s[j], user, market_id),
    ensures
        has_position(s, user, market_id),
        position_index(s, user, market_id) == j,
        position_at(s, user, market_id) == s[j],
{
    assert(has_position(s, user, market_id));
    let j2 = position_index(s, user, market_id);
    assert(0 <= j2 < s.len() && is_key(s[j2], user, market_id));
}

/// A market no row refers to has an empty total.
pub proof fn lemma_side_total_absent(s: Seq<PositionEntry>, market_id: u64, side: PredictionSide)
    requires
        forall|j: int| 0 <= j < s.len() ==> (#[trigger] s[j]).market_id != market_id,
    ensures
        side_total(s, market_id, side) == 0,
    decreases s.len(),
{
    if s.len() > 0 {
        assert forall|j: int| 0 <= j < s.drop_last().len() implies (#[trigger] s.drop_last()[j]).market_id
            != market_id by {
            assert(s.drop_last()[j] == s[j]);
        }
        lemma_side_total_absent(s.drop_last(), market_id, side);
    }
}

} // verus!
