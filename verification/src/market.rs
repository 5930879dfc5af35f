//! The market state machine: registry, stake ledger, governance and
//! settlement over one explicit state value.

use vstd::prelude::*;

use crate::ledger::{
    stake_of, has_position, is_key, keys_unique, lemma_found_is_position_at,
    lemma_side_total_absent, lemma_side_total_push, lemma_side_total_remove,
    lemma_side_total_update, position_at, position_index, side_total,
};
use crate::types::{Error, Market, PositionEntry, Prediction, PredictionSide};
use vstd::arithmetic::div_mod::{lemma_div_is_ordered, lemma_div_multiples_vanish};
use vstd::arithmetic::mul::lemma_mul_inequality;

verus! {

/// The whole persisted state of the market system: governance (the
/// administrator and the platform fee rate in basis points), the market
/// records (market `i + 1` lives at index `i`; identifiers are sequential
/// from 1 and never reused), the recorded outcomes (parallel to
/// `markets`, set exactly when a market resolves) and the stake ledger.
pub struct PredictionMarket {
    pub admin: Option<u64>,
    pub fee_rate: i128,
    pub markets: Vec<Market>,
    pub outcomes: Vec<Option<PredictionSide>>,
    pub positions: Vec<PositionEntry>,
}

impl PredictionMarket {
    /// A market record agrees with the ledger as far as the stake rules
    /// guarantee: while the market is open, the per-side sums of the
    /// live positions dominate the running totals. They are equal until
    /// a participant switches sides; a switch moves the whole prior
    /// stake onto the new side's positions but credits only the fresh
    /// amount to the new side's total, so after a switch the sums may
    /// exceed the totals. Once resolved, claims erase winning positions
    /// while the totals stay frozen, so no relation is maintained.
    pub open spec fn market_ok(positions: Seq<PositionEntry>, m: Market, market_id: u64) -> bool {
        !m.resolved ==> side_total(positions, market_id, PredictionSide::Yes) >= m.total_yes
            && side_total(positions, market_id, PredictionSide::No) >= m.total_no
    }

    /// A ledger row is valid: a positive amount, staked in a market that
    /// exists.
    pub open spec fn pos_ok(p: PositionEntry, n_markets: int) -> bool {
        &&& p.amount > 0
        &&& 1 <= p.market_id <= n_markets
    }

    /// Well-formedness: outcomes mirror the markets, the fee rate is in
    /// basis-point range, an outcome is recorded exactly for resolved
    /// markets, every market agrees with the ledger, every row is valid,
    /// and each (participant, market) key has at most one row.
    pub open spec fn wf(self) -> bool {
        &&& self.outcomes@.len() == self.markets@.len()
        &&& 0 <= self.fee_rate <= 10000
        &&& forall|i: int|
            0 <= i < self.markets@.len() ==> ((#[trigger] self.markets@[i]).resolved <==> self.outcomes@[i] is Some)
        &&& forall|i: int|
            0 <= i < self.markets@.len() ==> Self::market_ok(
                self.positions@,
                #[trigger] self.markets@[i],
                (i + 1) as u64,
            )
        &&& forall|j: int|
            0 <= j < self.positions@.len() ==> Self::pos_ok(
                #[trigger] self.positions@[j],
                self.markets@.len() as int,
            )
        &&& keys_unique(self.positions@)
    }

    /// Identifiers are 1-based indices into `markets`.
    pub open spec fn valid_market_id(self, market_id: u64) -> bool {
        1 <= market_id && market_id <= self.markets@.len()
    }

    pub open spec fn spec_market(self, market_id: u64) -> Market {
        self.markets@[market_id - 1]
    }

    pub open spec fn spec_outcome(self, market_id: u64) -> Option<PredictionSide> {
        self.outcomes@[market_id - 1]
    }

    /// The failure `predict` reports, if any: a non-positive amount, an
    /// unknown market, a resolved market, a passed deadline — checked in
    /// that order.
    pub open spec fn predict_error(self, market_id: u64, amount: i128, now: u64) -> Option<Error> {
        if amount <= 0 {
            Some(Error::InvalidAmount)
        } else if !self.valid_market_id(market_id) {
            Some(Error::NotFound)
        } else if self.spec_market(market_id).resolved {
            Some(Error::MarketResolved)
        } else if now >= self.spec_market(market_id).end_time {
            Some(Error::MarketClosed)
        } else {
            None
        }
    }

    /// The failure `resolve_market` reports, if any: a non-admin caller,
    /// an unknown market, a market already resolved, a deadline not yet
    /// reached — checked in that order.
    pub open spec fn resolve_error(self, admin: u64, market_id: u64, now: u64) -> Option<Error> {
        if self.admin != Some(admin) {
            Some(Error::Unauthorized)
        } else if !self.valid_market_id(market_id) {
            Some(Error::NotFound)
        } else if self.spec_market(market_id).resolved {
            Some(Error::AlreadyResolved)
        } else if now < self.spec_market(market_id).end_time {
            Some(Error::NotYetEnded)
        } else {
            None
        }
    }

    /// The failure `claim_winnings` reports, if any: no recorded
    /// position, an unknown market, a market not yet resolved, a position
    /// on the losing side — checked in that order. (In a well-formed
    /// state a position always refers to an existing market, so the
    /// unknown-market case cannot arise once a position was found.)
    pub open spec fn claim_error(self, user: u64, market_id: u64) -> Option<Error> {
        if !has_position(self.positions@, user, market_id) {
            Some(Error::NoPosition)
        } else if !self.valid_market_id(market_id) {
            Some(Error::NotFound)
        } else if !self.spec_market(market_id).resolved {
            Some(Error::NotResolved)
        } else if self.spec_outcome(market_id) != Some(
            position_at(self.positions@, user, market_id).side,
        ) {
            Some(Error::NotAWinner)
        } else {
            None
        }
    }

    /// The position the participant held before a call, if any.
    pub open spec fn spec_prior(self, user: u64, market_id: u64) -> Option<PositionEntry> {
        if has_position(self.positions@, user, market_id) {
            Some(position_at(self.positions@, user, market_id))
        } else {
            None
        }
    }

    /// The market record after a stake of `amount` on `side`. On a side
    /// switch the prior position's whole amount leaves the old side's
    /// total while only the fresh amount joins the new side's — the
    /// stake rule reproduced here deliberately revalues the entire
    /// position under the new side without crediting the old stake to
    /// the new total.
    pub open spec fn market_after_stake(
        m: Market,
        prior: Option<PositionEntry>,
        side: PredictionSide,
        amount: i128,
    ) -> Market {
        let ty0: int = match prior {
            Some(p) => if p.side == PredictionSide::Yes && side == PredictionSide::No {
                m.total_yes - p.amount
            } else {
                m.total_yes as int
            },
            None => m.total_yes as int,
        };
        let tn0: int = match prior {
            Some(p) => if p.side == PredictionSide::No && side == PredictionSide::Yes {
                m.total_no - p.amount
            } else {
                m.total_no as int
            },
            None => m.total_no as int,
        };
        match side {
            PredictionSide::Yes => Market {
                total_yes: (ty0 + amount) as i128,
                total_no: tn0 as i128,
                ..m
            },
            PredictionSide::No => Market {
                total_yes: ty0 as i128,
                total_no: (tn0 + amount) as i128,
                ..m
            },
        }
    }

    /// The ledger after a stake: the fresh amount merges into the
    /// existing row for the key, whose side becomes the new side, or a
    /// new row is appended.
    pub open spec fn ledger_after_stake(
        s: Seq<PositionEntry>,
        user: u64,
        market_id: u64,
        side: PredictionSide,
        amount: i128,
    ) -> Seq<PositionEntry> {
        if has_position(s, user, market_id) {
            let j = position_index(s, user, market_id);
            s.update(
                j,
                PositionEntry { user, market_id, side, amount: (s[j].amount + amount) as i128 },
            )
        } else {
            s.push(PositionEntry { user, market_id, side, amount })
        }
    }

    /// What the stake arithmetic needs to stay within `i128`.
    pub open spec fn predict_arith_ok(self, user: u64, market_id: u64, amount: i128) -> bool {
        let m = self.spec_market(market_id);
        &&& m.total_yes + amount <= i128::MAX
        &&& m.total_no + amount <= i128::MAX
        &&& match self.spec_prior(user, market_id) {
            Some(p) => p.amount + amount <= i128::MAX && i128::MIN <= m.total_yes - p.amount
                && i128::MIN <= m.total_no - p.amount,
            None => true,
        }
    }

    /// What settlement arithmetic needs of the market being claimed
    /// from: a record consistent with the stated accounting invariant
    /// (non-negative totals, the winner's stake covered by the winning
    /// side's total) whose products stay within `i128`.
    pub open spec fn claim_arith_ok(self, user: u64, market_id: u64) -> bool {
        let m = self.spec_market(market_id);
        let p = position_at(self.positions@, user, market_id);
        let pot = m.total_yes + m.total_no;
        let winning: int = if p.side == PredictionSide::Yes {
            m.total_yes as int
        } else {
            m.total_no as int
        };
        let losing: int = if p.side == PredictionSide::Yes {
            m.total_no as int
        } else {
            m.total_yes as int
        };
        &&& m.total_yes >= 0
        &&& m.total_no >= 0
        &&& p.amount <= winning
        &&& pot * 10000 <= i128::MAX
        &&& losing != 0 ==> p.amount * pot <= i128::MAX
    }

    /// A winner's share of the pot before the fee, under truncating
    /// division. If nobody staked on the losing side, the winner simply
    /// recovers their own stake.
    pub open spec fn spec_gross_share(m: Market, side: PredictionSide, amount: int) -> int {
        let pot = m.total_yes + m.total_no;
        match side {
            PredictionSide::Yes => if m.total_no == 0 {
                amount
            } else {
                amount * pot / (m.total_yes as int)
            },
            PredictionSide::No => if m.total_yes == 0 {
                amount
            } else {
                amount * pot / (m.total_no as int)
            },
        }
    }

    /// The platform fee retained from a gross share, in basis points of
    /// it, truncated.
    pub open spec fn spec_fee(gross: int, fee_rate: int) -> int {
        gross * fee_rate / 10000
    }

    /// What a winning position pays out: the gross share net of the fee.
    pub open spec fn spec_payout(m: Market, side: PredictionSide, amount: int, fee_rate: int) -> int {
        Self::spec_gross_share(m, side, amount) - Self::spec_fee(
            Self::spec_gross_share(m, side, amount),
            fee_rate,
        )
    }

    /// Conservation of stakes for a market that has seen no side
    /// switches: if the market's totals equal its per-side ledger sums,
    /// then any stake that does not switch sides preserves the equality,
    /// and the pot grows by exactly the staked amount. (A side switch
    /// deliberately breaks the equality: the whole prior stake moves to
    /// the new side's positions while only the fresh amount joins the
    /// new side's total.)
    pub proof fn lemma_no_switch_stake_keeps_balance(
        positions: Seq<PositionEntry>,
        m: Market,
        user: u64,
        market_id: u64,
        side: PredictionSide,
        amount: i128,
    )
        requires
            keys_unique(positions),
            has_position(positions, user, market_id) ==> {
                let p = position_at(positions, user, market_id);
                p.side == side && p.amount >= 0 && p.amount + amount <= i128::MAX
            },
            0 < amount,
            m.total_yes + amount <= i128::MAX,
            m.total_no + amount <= i128::MAX,
            side_total(positions, market_id, PredictionSide::Yes) == m.total_yes,
            side_total(positions, market_id, PredictionSide::No) == m.total_no,
        ensures
            ({
                let prior = if has_position(positions, user, market_id) {
                    Some(position_at(positions, user, market_id))
                } else {
                    None
                };
                let m2 = Self::market_after_stake(m, prior, side, amount);
                let s2 = Self::ledger_after_stake(positions, user, market_id, side, amount);
                &&& side_total(s2, market_id, PredictionSide::Yes) == m2.total_yes
                &&& side_total(s2, market_id, PredictionSide::No) == m2.total_no
                &&& m2.total_yes + m2.total_no == m.total_yes + m.total_no + amount
            }),
    {
        if has_position(positions, user, market_id) {
            let j = position_index(positions, user, market_id);
            assert(0 <= j < positions.len() && is_key(positions[j], user, market_id));
            let p = positions[j];
            let entry = (PositionEntry {
                user,
                market_id,
                side,
                amount: (p.amount + amount) as i128,
            });
            lemma_side_total_update(positions, j, entry, market_id, PredictionSide::Yes);
            lemma_side_total_update(positions, j, entry, market_id, PredictionSide::No);
        } else {
            let entry = (PositionEntry { user, market_id, side, amount });
            lemma_side_total_push(positions, entry, market_id, PredictionSide::Yes);
            lemma_side_total_push(positions, entry, market_id, PredictionSide::No);
        }
    }

    /// A resolved market stays resolved: a repeat resolution reports
    /// `AlreadyResolved`, whoever asks and whatever the time, and no
    /// operation rewrites a recorded outcome.
    pub proof fn lemma_reresolve_fails(s: PredictionMarket, admin: u64, market_id: u64, now: u64)
        requires
            s.admin == Some(admin),
            s.valid_market_id(market_id),
            s.spec_market(market_id).resolved,
        ensures
            s.resolve_error(admin, market_id, now) == Some(Error::AlreadyResolved),
    {
    }

    /// Once a claim has erased the position, a second claim for the same
    /// participant and market reports `NoPosition`.
    pub proof fn lemma_second_claim_fails(s: PredictionMarket, user: u64, market_id: u64)
        requires
            !has_position(s.positions@, user, market_id),
        ensures
            s.claim_error(user, market_id) == Some(Error::NoPosition),
    {
    }

    /// In a market whose losing side holds nothing, a winner's share
    /// before the fee is exactly the amount they staked.
    pub proof fn lemma_degenerate_market_share(m: Market, side: PredictionSide, amount: int)
        requires
            side == PredictionSide::Yes ==> m.total_no == 0,
            side == PredictionSide::No ==> m.total_yes == 0,
        ensures
            Self::spec_gross_share(m, side, amount) == amount,
    {
    }

    /// Fresh, uninitialized state: no administrator, no markets, an empty
    /// ledger, and the default fee of 200 basis points.
    pub fn new() -> (s: Self)
        ensures
            s.wf(),
            s.admin is None,
            s.fee_rate == 200,
            s.markets@.len() == 0,
            s.outcomes@.len() == 0,
            s.positions@.len() == 0,
    {
        PredictionMarket {
            admin: None,
            fee_rate: 200,
            markets: Vec::new(),
            outcomes: Vec::new(),
            positions: Vec::new(),
        }
    }

    /// Install the administrator. Fails if one is already installed; on
    /// success the fee rate is (re)set to the 200 basis-point default.
    pub fn initialize(&mut self, admin: u64) -> (r: Result<(), Error>)
        requires
            old(self).wf(),
        ensures
            final(self).wf(),
            match r {
                Ok(()) => {
                    &&& old(self).admin is None
                    &&& final(self).admin == Some(admin)
                    &&& final(self).fee_rate == 200
                    &&& final(self).markets@ == old(self).markets@
                    &&& final(self).outcomes@ == old(self).outcomes@
                    &&& final(self).positions@ == old(self).positions@
                },
                Err(e) => {
                    &&& e == Error::AlreadyInitialized
                    &&& old(self).admin is Some
                    &&& *final(self) == *old(self)
                },
            },
    {
        if self.admin.is_some() {
            return Err(Error::AlreadyInitialized);
        }
        self.admin = Some(admin);
        self.fee_rate = 200;
        Ok(())
    }

    /// The number of markets created so far; the identifier of the most
    /// recently created market.
    pub fn get_market_count(&self) -> (r: u64)
        ensures
            r == self.markets@.len(),
    {
        self.markets.len() as u64
    }

    /// The current platform fee rate in basis points.
    pub fn get_platform_fee_rate(&self) -> (r: i128)
        ensures
            r == self.fee_rate,
    {
        self.fee_rate
    }

    /// The administrator identity.
    pub fn get_admin(&self) -> (r: u64)
        requires
            self.admin is Some,
        ensures
            Some(r) == self.admin,
    {
        match self.admin {
            Some(a) => a,
            None => vstd::pervasive::unreached(),
        }
    }

    /// Pay out a winning position of a resolved market: the position's
    /// proportional share of the whole pot, net of the platform fee at
    /// the rate in force now, at claim time, under truncating division
    /// (the dust stays in custody). The position is erased, so a repeat
    /// claim reports `NoPosition`. The caller must move the returned
    /// payout from custody to the participant in the same atomic step.
    pub fn claim_winnings(&mut self, user: u64, market_id: u64) -> (r: Result<i128, Error>)
        requires
            old(self).wf(),
            old(self).claim_error(user, market_id) is None ==> old(self).claim_arith_ok(
                user,
                market_id,
            ),
        ensures
            final(self).wf(),
            match r {
                Ok(payout) => {
                    &&& old(self).claim_error(user, market_id) is None
                    &&& payout as int == Self::spec_payout(
                        old(self).spec_market(market_id),
                        position_at(old(self).positions@, user, market_id).side,
                        position_at(old(self).positions@, user, market_id).amount as int,
                        old(self).fee_rate as int,
                    )
                    &&& 0 <= payout
                    &&& payout as int <= old(self).spec_market(market_id).total_yes + old(
                        self,
                    ).spec_market(market_id).total_no
                    &&& final(self).positions@ == old(self).positions@.remove(
                        position_index(old(self).positions@, user, market_id),
                    )
                    &&& !has_position(final(self).positions@, user, market_id)
                    &&& final(self).markets@ == old(self).markets@
                    &&& final(self).outcomes@ == old(self).outcomes@
                    &&& final(self).admin == old(self).admin
                    &&& final(self).fee_rate == old(self).fee_rate
                },
                Err(e) => {
                    &&& old(self).claim_error(user, market_id) == Some(e)
                    &&& *final(self) == *old(self)
                },
            },
    {
        let j = match self.find_position(user, market_id) {
            None => { return Err(Error::NoPosition); },
            Some(j) => j,
        };
        let p = self.positions[j];
        let n_markets = self.markets.len();
        proof {
            lemma_found_is_position_at(self.positions@, j as int, user, market_id);
            assert(Self::pos_ok(self.positions@[j as int], self.markets@.len() as int));
            assert(1 <= market_id && market_id <= n_markets);
        }
        let i = (market_id - 1) as usize;
        if !self.markets[i].resolved {
            return Err(Error::NotResolved);
        }
        let outcome = match self.outcomes[i] {
            Some(o) => o,
            None => vstd::pervasive::unreached(),
        };
        let won = match (p.side, outcome) {
            (PredictionSide::Yes, PredictionSide::Yes) => true,
            (PredictionSide::No, PredictionSide::No) => true,
            _ => false,
        };
        if !won {
            return Err(Error::NotAWinner);
        }
        let ghost m0 = self.markets@[i as int];
        let ghost pot_g: int = m0.total_yes + m0.total_no;
        proof {
            assert(old(self).claim_error(user, market_id) is None);
            assert(old(self).claim_arith_ok(user, market_id));
            assert(pot_g <= pot_g * 10000) by (nonlinear_arith)
                requires
                    pot_g >= 0,
            ;
        }
        let m_ty = self.markets[i].total_yes;
        let m_tn = self.markets[i].total_no;
        let rate = self.fee_rate;
        let (winning_total, losing_total) = match p.side {
            PredictionSide::Yes => (m_ty, m_tn),
            PredictionSide::No => (m_tn, m_ty),
        };
        let pot = m_ty + m_tn;
        let gross: i128 = if losing_total == 0 {
            p.amount
        } else {
            proof {
                lemma_mul_inequality(p.amount as int, winning_total as int, pot_g);
                lemma_div_is_ordered(
                    p.amount * pot_g,
                    winning_total * pot_g,
                    winning_total as int,
                );
                lemma_div_multiples_vanish(pot_g, winning_total as int);
            }
            let g = (p.amount as u128) * (pot as u128) / (winning_total as u128);
            g as i128
        };
        proof {
            assert(gross as int == Self::spec_gross_share(m0, p.side, p.amount as int));
            assert(0 <= gross);
            assert(gross as int <= pot_g);
            assert(gross * rate <= gross * 10000) by (nonlinear_arith)
                requires
                    rate <= 10000,
                    gross >= 0,
            ;
            lemma_div_is_ordered(gross * rate, gross * 10000, 10000);
            lemma_div_multiples_vanish(gross as int, 10000);
            lemma_mul_inequality(gross as int, pot_g, 10000);
        }
        let fee_u = (gross as u128) * (rate as u128) / 10000u128;
        let fee = fee_u as i128;
        let payout = gross - fee;
        let ghost s0 = self.positions@;
        let ghost jj = j as int;
        self.positions.remove(j);
        proof {
            let s1 = self.positions@;
            assert(s1 == s0.remove(jj));
            assert forall|a: int, b: int|
                0 <= a < s1.len() && 0 <= b < s1.len() && a != b implies !((#[trigger] s1[a]).user
                == (#[trigger] s1[b]).user && s1[a].market_id == s1[b].market_id) by {
                let a0 = if a < jj { a } else { a + 1 };
                let b0 = if b < jj { b } else { b + 1 };
                assert(s1[a] == s0[a0]);
                assert(s1[b] == s0[b0]);
            }
            assert forall|k: int| 0 <= k < s1.len() implies !is_key(
                #[trigger] s1[k],
                user,
                market_id,
            ) by {
                let k0 = if k < jj { k } else { k + 1 };
                assert(s1[k] == s0[k0]);
                assert(is_key(s0[jj], user, market_id));
            }
            assert(!has_position(s1, user, market_id));
            assert forall|k: int| 0 <= k < s1.len() implies Self::pos_ok(
                #[trigger] s1[k],
                self.markets@.len() as int,
            ) by {
                let k0 = if k < jj { k } else { k + 1 };
                assert(s1[k] == s0[k0]);
                assert(Self::pos_ok(s0[k0], old(self).markets@.len() as int));
            }
            assert forall|k: int| 0 <= k < self.markets@.len() implies Self::market_ok(
                self.positions@,
                #[trigger] self.markets@[k],
                (k + 1) as u64,
            ) by {
                let mid_k = (k + 1) as u64;
                lemma_side_total_remove(s0, jj, mid_k, PredictionSide::Yes);
                lemma_side_total_remove(s0, jj, mid_k, PredictionSide::No);
                assert(Self::market_ok(s0, self.markets@[k], mid_k));
                if !self.markets@[k].resolved {
                    assert(mid_k != market_id);
                    assert(stake_of(s0[jj], mid_k, PredictionSide::Yes) == 0);
                    assert(stake_of(s0[jj], mid_k, PredictionSide::No) == 0);
                }
            }
        }
        Ok(payout)
    }

    /// The stored record of a market.
    pub fn get_market(&self, market_id: u64) -> (r: Result<&Market, Error>)
        ensures
            match r {
                Ok(m) => self.valid_market_id(market_id) && *m == self.spec_market(market_id),
                Err(e) => e == Error::NotFound && !self.valid_market_id(market_id),
            },
    {
        if market_id < 1 || market_id > self.markets.len() as u64 {
            return Err(Error::NotFound);
        }
        let i = (market_id - 1) as usize;
        Ok(&self.markets[i])
    }

    /// Scan the ledger for the row keyed by (user, market_id).
    fn find_position(&self, user: u64, market_id: u64) -> (r: Option<usize>)
        ensures
            match r {
                Some(j) => j < self.positions@.len() && is_key(
                    self.positions@[j as int],
                    user,
                    market_id,
                ),
                None => !has_position(self.positions@, user, market_id),
            },
    {
        let n = self.positions.len();
        let mut k: usize = 0;
        while k < n
            invariant
                n == self.positions@.len(),
                k <= n,
                forall|t: int| 0 <= t < k ==> !is_key(#[trigger] self.positions@[t], user, market_id),
            decreases n - k,
        {
            let p = self.positions[k];
            if p.user == user && p.market_id == market_id {
                return Some(k);
            }
            k += 1;
        }
        None
    }

    /// A participant's recorded position in a market, if any.
    pub fn get_user_prediction(&self, user: u64, market_id: u64) -> (r: Option<Prediction>)
        requires
            self.wf(),
        ensures
            match r {
                Some(p) => {
                    &&& has_position(self.positions@, user, market_id)
                    &&& p.side == position_at(self.positions@, user, market_id).side
                    &&& p.amount == position_at(self.positions@, user, market_id).amount
                },
                None => !has_position(self.positions@, user, market_id),
            },
    {
        match self.find_position(user, market_id) {
            Some(j) => {
                let p = self.positions[j];
                proof {
                    lemma_found_is_position_at(self.positions@, j as int, user, market_id);
                }
                Some(Prediction { side: p.side, amount: p.amount })
            },
            None => None,
        }
    }

    /// Change the platform fee rate, with immediate and global effect:
    /// a later claim on any market, whenever it was created, uses the
    /// new rate.
    pub fn set_platform_fee_rate(&mut self, admin: u64, fee_rate: i128) -> (r: Result<(), Error>)
        requires
            old(self).wf(),
            old(self).admin is Some,
        ensures
            final(self).wf(),
            match r {
                Ok(()) => {
                    &&& old(self).admin == Some(admin)
                    &&& 0 <= fee_rate <= 10000
                    &&& final(self).fee_rate == fee_rate
                    &&& final(self).admin == old(self).admin
                    &&& final(self).markets@ == old(self).markets@
                    &&& final(self).outcomes@ == old(self).outcomes@
                    &&& final(self).positions@ == old(self).positions@
                },
                Err(e) => {
                    &&& *final(self) == *old(self)
                    &&& if old(self).admin != Some(admin) {
                        e == Error::Unauthorized
                    } else {
                        e == Error::InvalidFeeRate && !(0 <= fee_rate <= 10000)
                    }
                },
            },
    {
        let stored = self.get_admin();
        if admin != stored {
            return Err(Error::Unauthorized);
        }
        if fee_rate < 0 || fee_rate > 10000 {
            return Err(Error::InvalidFeeRate);
        }
        self.fee_rate = fee_rate;
        Ok(())
    }

    /// Replace the administrator identity.
    pub fn update_admin(&mut self, admin: u64, new_admin: u64) -> (r: Result<(), Error>)
        requires
            old(self).wf(),
            old(self).admin is Some,
        ensures
            final(self).wf(),
            match r {
                Ok(()) => {
                    &&& old(self).admin == Some(admin)
                    &&& final(self).admin == Some(new_admin)
                    &&& final(self).fee_rate == old(self).fee_rate
                    &&& final(self).markets@ == old(self).markets@
                    &&& final(self).outcomes@ == old(self).outcomes@
                    &&& final(self).positions@ == old(self).positions@
                },
                Err(e) => {
                    &&& e == Error::Unauthorized
                    &&& old(self).admin != Some(admin)
                    &&& *final(self) == *old(self)
                },
            },
    {
        let stored = self.get_admin();
        if admin != stored {
            return Err(Error::Unauthorized);
        }
        self.admin = Some(new_admin);
        Ok(())
    }

    /// Create a market: allocate the next sequential identifier and store
    /// a fresh record with zero totals, open for predictions until
    /// `end_time`.
    pub fn create_market(
        &mut self,
        creator: u64,
        question: String,
        description: String,
        token: u64,
        end_time: u64,
        now: u64,
    ) -> (r: Result<u64, Error>)
        requires
            old(self).wf(),
            old(self).markets@.len() < u64::MAX,
        ensures
            final(self).wf(),
            match r {
                Ok(market_id) => {
                    &&& end_time > now
                    &&& market_id == old(self).markets@.len() + 1
                    &&& final(self).markets@ == old(self).markets@.push(
                        (Market {
                            creator,
                            question,
                            description,
                            token,
                            end_time,
                            created_at: now,
                            total_yes: 0,
                            total_no: 0,
                            resolved: false,
                        }),
                    )
                    &&& final(self).outcomes@ == old(self).outcomes@.push(None)
                    &&& final(self).positions@ == old(self).positions@
                    &&& final(self).admin == old(self).admin
                    &&& final(self).fee_rate == old(self).fee_rate
                },
                Err(e) => {
                    &&& e == Error::InvalidDeadline
                    &&& end_time <= now
                    &&& *final(self) == *old(self)
                },
            },
            r is Ok ==> side_total(
                final(self).positions@,
                (old(self).markets@.len() + 1) as u64,
                PredictionSide::Yes,
            ) == 0 && side_total(
                final(self).positions@,
                (old(self).markets@.len() + 1) as u64,
                PredictionSide::No,
            ) == 0,
    {
        if end_time <= now {
            return Err(Error::InvalidDeadline);
        }
        let market_id = self.markets.len() as u64 + 1;
        let market = Market {
            creator,
            question,
            description,
            token,
            end_time,
            created_at: now,
            total_yes: 0,
            total_no: 0,
            resolved: false,
        };
        self.markets.push(market);
        self.outcomes.push(None);
        proof {
            let s = self.positions@;
            let n_old = old(self).markets@.len() as int;
            assert forall|j: int| 0 <= j < s.len() implies (#[trigger] s[j]).market_id
                != market_id by {
                assert(Self::pos_ok(s[j], n_old));
            }
            lemma_side_total_absent(s, market_id, PredictionSide::Yes);
            lemma_side_total_absent(s, market_id, PredictionSide::No);
            assert forall|i: int| 0 <= i < self.markets@.len() implies Self::market_ok(
                self.positions@,
                #[trigger] self.markets@[i],
                (i + 1) as u64,
            ) by {
                if i < n_old {
                    assert(self.markets@[i] == old(self).markets@[i]);
                    assert(Self::market_ok(s, old(self).markets@[i], (i + 1) as u64));
                } else {
                    assert(self.markets@[i] == self.markets@.last());
                    assert((i + 1) as u64 == market_id);
                }
            }
        }
        Ok(market_id)
    }

    /// Record a stake of `amount` on `side` of a market that is open at
    /// `now`. A first stake creates the position; a repeat stake on the
    /// same side adds to it; a stake on the opposite side flips the
    /// position to the new side, carrying the whole prior amount with
    /// it, while the totals lose the prior amount from the old side and
    /// gain only the fresh amount on the new side. The caller must move
    /// `amount` of the market's stake token into custody in the same
    /// atomic step, aborting this state change if the transfer fails.
    pub fn predict(
        &mut self,
        user: u64,
        market_id: u64,
        side: PredictionSide,
        amount: i128,
        now: u64,
    ) -> (r: Result<(), Error>)
        requires
            old(self).wf(),
            old(self).predict_error(market_id, amount, now) is None ==> old(self).predict_arith_ok(
                user,
                market_id,
                amount,
            ),
        ensures
            final(self).wf(),
            match r {
                Ok(()) => {
                    &&& old(self).predict_error(market_id, amount, now) is None
                    &&& final(self).markets@ == old(self).markets@.update(
                        market_id - 1,
                        Self::market_after_stake(
                            old(self).spec_market(market_id),
                            old(self).spec_prior(user, market_id),
                            side,
                            amount,
                        ),
                    )
                    &&& final(self).positions@ == Self::ledger_after_stake(
                        old(self).positions@,
                        user,
                        market_id,
                        side,
                        amount,
                    )
                    &&& final(self).outcomes@ == old(self).outcomes@
                    &&& final(self).admin == old(self).admin
                    &&& final(self).fee_rate == old(self).fee_rate
                    &&& has_position(final(self).positions@, user, market_id)
                    &&& position_at(final(self).positions@, user, market_id).side == side
                    &&& position_at(final(self).positions@, user, market_id).amount as int == amount
                        + (match old(self).spec_prior(user, market_id) {
                        Some(p) => p.amount as int,
                        None => 0,
                    })
                },
                Err(e) => {
                    &&& old(self).predict_error(market_id, amount, now) == Some(e)
                    &&& *final(self) == *old(self)
                },
            },
            forall|i: int|
                0 <= i < old(self).markets@.len() && (#[trigger] old(self).markets@[i]).resolved
                    ==> final(self).markets@[i] == old(self).markets@[i] && final(self).outcomes@[i]
                    == old(self).outcomes@[i],
    {
        if amount <= 0 {
            return Err(Error::InvalidAmount);
        }
        if market_id < 1 || market_id > self.markets.len() as u64 {
            return Err(Error::NotFound);
        }
        let i = (market_id - 1) as usize;
        if self.markets[i].resolved {
            return Err(Error::MarketResolved);
        }
        if now >= self.markets[i].end_time {
            return Err(Error::MarketClosed);
        }
        let ghost s0 = self.positions@;
        let ghost ms0 = self.markets@;
        let ghost m0 = self.markets@[i as int];
        proof {
            assert(old(self).predict_error(market_id, amount, now) is None);
        }
        match self.find_position(user, market_id) {
            None => {
                let entry = PositionEntry { user, market_id, side, amount };
                self.positions.push(entry);
                let mut m = self.markets.remove(i);
                match side {
                    PredictionSide::Yes => { m.total_yes = m.total_yes + amount; },
                    PredictionSide::No => { m.total_no = m.total_no + amount; },
                }
                let ghost m_spec = m;
                self.markets.insert(i, m);
                proof {
                    let ii = i as int;
                    let s1 = self.positions@;
                    let entry_s = (PositionEntry { user, market_id, side, amount });
                    assert(s1 == s0.push(entry_s));
                    assert(self.markets@ =~= ms0.update(ii, m_spec));
                    assert(Self::ledger_after_stake(s0, user, market_id, side, amount) == s1);
                    assert(old(self).spec_prior(user, market_id) is None);
                    assert(m_spec == Self::market_after_stake(
                        m0,
                        None::<PositionEntry>,
                        side,
                        amount,
                    ));
                    assert forall|a: int, b: int|
                        0 <= a < s1.len() && 0 <= b < s1.len() && a != b implies !((
                        #[trigger] s1[a]).user == (#[trigger] s1[b]).user && s1[a].market_id
                        == s1[b].market_id) by {
                        if a < s0.len() && b < s0.len() {
                            assert(s1[a] == s0[a]);
                            assert(s1[b] == s0[b]);
                        } else if a < s0.len() {
                            assert(s1[b] == entry_s);
                            assert(s1[a] == s0[a]);
                            if s1[a].user == user && s1[a].market_id == market_id {
                                assert(is_key(s0[a], user, market_id));
                                assert(has_position(s0, user, market_id));
                            }
                        } else {
                            assert(s1[a] == entry_s);
                            assert(s1[b] == s0[b]);
                            if s1[b].user == user && s1[b].market_id == market_id {
                                assert(is_key(s0[b], user, market_id));
                                assert(has_position(s0, user, market_id));
                            }
                        }
                    }
                    lemma_found_is_position_at(s1, s0.len() as int, user, market_id);
                    assert forall|k: int| 0 <= k < self.markets@.len() implies Self::market_ok(
                        self.positions@,
                        #[trigger] self.markets@[k],
                        (k + 1) as u64,
                    ) by {
                        let mid_k = (k + 1) as u64;
                        lemma_side_total_push(s0, entry_s, mid_k, PredictionSide::Yes);
                        lemma_side_total_push(s0, entry_s, mid_k, PredictionSide::No);
                        assert(Self::market_ok(s0, ms0[k], mid_k));
                        if k == ii {
                            assert(mid_k == market_id);
                        } else {
                            assert(self.markets@[k] == ms0[k]);
                            assert(mid_k != market_id);
                            assert(stake_of(entry_s, mid_k, PredictionSide::Yes) == 0);
                            assert(stake_of(entry_s, mid_k, PredictionSide::No) == 0);
                        }
                    }
                    assert forall|k: int|
                        0 <= k < self.markets@.len() implies ((
                        #[trigger] self.markets@[k]).resolved <==> self.outcomes@[k] is Some) by {
                        if k != ii {
                            assert(self.markets@[k] == ms0[k]);
                        }
                        assert(ms0[k].resolved <==> old(self).outcomes@[k] is Some);
                    }
                }
            },
            Some(j) => {
                let p = self.positions[j];
                proof {
                    lemma_found_is_position_at(s0, j as int, user, market_id);
                    assert(Self::pos_ok(s0[j as int], ms0.len() as int));
                    assert(old(self).spec_prior(user, market_id) == Some(p));
                }
                let new_amount = p.amount + amount;
                let entry = PositionEntry { user, market_id, side, amount: new_amount };
                let _old_row = self.positions.remove(j);
                self.positions.insert(j, entry);
                let mut m = self.markets.remove(i);
                if p.side == side {
                    match side {
                        PredictionSide::Yes => { m.total_yes = m.total_yes + amount; },
                        PredictionSide::No => { m.total_no = m.total_no + amount; },
                    }
                } else {
                    match side {
                        PredictionSide::Yes => {
                            m.total_no = m.total_no - p.amount;
                            m.total_yes = m.total_yes + amount;
                        },
                        PredictionSide::No => {
                            m.total_yes = m.total_yes - p.amount;
                            m.total_no = m.total_no + amount;
                        },
                    }
                }
                let ghost m_spec = m;
                self.markets.insert(i, m);
                proof {
                    let ii = i as int;
                    let jj = j as int;
                    let s1 = self.positions@;
                    let p_old = s0[jj];
                    let entry_s = (PositionEntry {
                        user,
                        market_id,
                        side,
                        amount: (p_old.amount + amount) as i128,
                    });
                    assert(s1 =~= s0.update(jj, entry_s));
                    assert(self.markets@ =~= ms0.update(ii, m_spec));
                    assert(position_index(s0, user, market_id) == jj);
                    assert(Self::ledger_after_stake(s0, user, market_id, side, amount) == s1);
                    assert(m_spec == Self::market_after_stake(m0, Some(p_old), side, amount));
                    assert(entry_s.user == s0[jj].user && entry_s.market_id == s0[jj].market_id);
                    assert forall|a: int, b: int|
                        0 <= a < s1.len() && 0 <= b < s1.len() && a != b implies !((
                        #[trigger] s1[a]).user == (#[trigger] s1[b]).user && s1[a].market_id
                        == s1[b].market_id) by {
                        assert(s1[a].user == s0[a].user && s1[a].market_id == s0[a].market_id);
                        assert(s1[b].user == s0[b].user && s1[b].market_id == s0[b].market_id);
                    }
                    lemma_found_is_position_at(s1, jj, user, market_id);
                    assert forall|k: int| 0 <= k < self.markets@.len() implies Self::market_ok(
                        self.positions@,
                        #[trigger] self.markets@[k],
                        (k + 1) as u64,
                    ) by {
                        let mid_k = (k + 1) as u64;
                        lemma_side_total_update(s0, jj, entry_s, mid_k, PredictionSide::Yes);
                        lemma_side_total_update(s0, jj, entry_s, mid_k, PredictionSide::No);
                        assert(Self::market_ok(s0, ms0[k], mid_k));
                        if k == ii {
                            assert(mid_k == market_id);
                        } else {
                            assert(self.markets@[k] == ms0[k]);
                            assert(mid_k != market_id);
                            assert(stake_of(p_old, mid_k, PredictionSide::Yes) == 0);
                            assert(stake_of(p_old, mid_k, PredictionSide::No) == 0);
                            assert(stake_of(entry_s, mid_k, PredictionSide::Yes) == 0);
                            assert(stake_of(entry_s, mid_k, PredictionSide::No) == 0);
                        }
                    }
                    assert forall|k: int|
                        0 <= k < self.markets@.len() implies ((
                        #[trigger] self.markets@[k]).resolved <==> self.outcomes@[k] is Some) by {
                        if k != ii {
                            assert(self.markets@[k] == ms0[k]);
                        }
                        assert(ms0[k].resolved <==> old(self).outcomes@[k] is Some);
                    }
                    assert forall|k: int| 0 <= k < s1.len() implies Self::pos_ok(
                        #[trigger] s1[k],
                        self.markets@.len() as int,
                    ) by {
                        if k != jj {
                            assert(s1[k] == s0[k]);
                        }
                        assert(Self::pos_ok(s0[k], ms0.len() as int));
                    }
                }
            },
        }
        Ok(())
    }

    /// Declare the outcome of a market whose deadline has passed: set
    /// the `resolved` flag and record the winning side, together and
    /// permanently. Only the administrator may resolve.
    pub fn resolve_market(
        &mut self,
        admin: u64,
        market_id: u64,
        winning_side: PredictionSide,
        now: u64,
    ) -> (r: Result<(), Error>)
        requires
            old(self).wf(),
            old(self).admin is Some,
        ensures
            final(self).wf(),
            match r {
                Ok(()) => {
                    &&& old(self).resolve_error(admin, market_id, now) is None
                    &&& final(self).markets@ == old(self).markets@.update(
                        market_id - 1,
                        (Market { resolved: true, ..old(self).spec_market(market_id) }),
                    )
                    &&& final(self).outcomes@ == old(self).outcomes@.update(
                        market_id - 1,
                        Some(winning_side),
                    )
                    &&& final(self).positions@ == old(self).positions@
                    &&& final(self).admin == old(self).admin
                    &&& final(self).fee_rate == old(self).fee_rate
                },
                Err(e) => {
                    &&& old(self).resolve_error(admin, market_id, now) == Some(e)
                    &&& *final(self) == *old(self)
                },
            },
            forall|i: int|
                0 <= i < old(self).markets@.len() && (#[trigger] old(self).markets@[i]).resolved
                    ==> final(self).markets@[i] == old(self).markets@[i] && final(self).outcomes@[i]
                    == old(self).outcomes@[i],
    {
        let stored = self.get_admin();
        if admin != stored {
            return Err(Error::Unauthorized);
        }
        if market_id < 1 || market_id > self.markets.len() as u64 {
            return Err(Error::NotFound);
        }
        let i = (market_id - 1) as usize;
        if self.markets[i].resolved {
            return Err(Error::AlreadyResolved);
        }
        if now < self.markets[i].end_time {
            return Err(Error::NotYetEnded);
        }
        let mut m = self.markets.remove(i);
        m.resolved = true;
        let ghost m_spec = m;
        self.markets.insert(i, m);
        let _former = self.outcomes.remove(i);
        self.outcomes.insert(i, Some(winning_side));
        proof {
            let n = old(self).markets@.len() as int;
            let ii = i as int;
            assert(self.markets@ =~= old(self).markets@.update(ii, m_spec));
            assert(self.outcomes@ =~= old(self).outcomes@.update(ii, Some(winning_side)));
            assert(m_spec == (Market { resolved: true, ..old(self).spec_market(market_id) }));
            assert forall|k: int| 0 <= k < self.markets@.len() implies Self::market_ok(
                self.positions@,
                #[trigger] self.markets@[k],
                (k + 1) as u64,
            ) by {
                assert(Self::market_ok(
                    old(self).positions@,
                    old(self).markets@[k],
                    (k + 1) as u64,
                ));
                if k != ii {
                    assert(self.markets@[k] == old(self).markets@[k]);
                }
            }
            assert forall|k: int|
                0 <= k < self.markets@.len() implies ((#[trigger] self.markets@[k]).resolved
                <==> self.outcomes@[k] is Some) by {
                if k != ii {
                    assert(self.markets@[k] == old(self).markets@[k]);
                    assert(self.outcomes@[k] == old(self).outcomes@[k]);
                    assert(old(self).markets@[k].resolved <==> old(self).outcomes@[k] is Some);
                }
            }
        }
        Ok(())
    }

    /// The recorded outcome of a market, absent until it resolves.
    pub fn get_winning_side(&self, market_id: u64) -> (r: Option<PredictionSide>)
        requires
            self.wf(),
        ensures
            r == if self.valid_market_id(market_id) {
                self.spec_outcome(market_id)
            } else {
                None::<PredictionSide>
            },
    {
        if market_id < 1 || market_id > self.markets.len() as u64 {
            return None;
        }
        let i = (market_id - 1) as usize;
        self.outcomes[i]
    }
}

} // verus!
