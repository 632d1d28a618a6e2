//! The rewarder contract: staking of NFTs as positions, reward and donation
//! crediting, score recording on behalf of whitelisted callers, and the
//! leaderboard and balance views.
//!
//! Calls that the platform makes across contracts are split in two: the
//! first half decides and says what to send, the continuation takes the
//! outcome and settles the state. The caller's account is passed in.

use vstd::prelude::*;
use crate::error::ContractError;
use crate::event::{events_of, opt_view, EventView, RewarderEvent};
use crate::ledger::{score_in, score_opt, ScoreLedger};
use crate::ranking::{bucket_after_move, bucket_at, ids_of, rank_total, BucketView};
use crate::registry::StakeRegistry;

verus! {

/// The storage prefixes of the rewarder's persistent collections.
#[derive(Clone, Copy, Debug, PartialEq, Eq, Structural)]
pub enum StorageKey {
    PrimaryNFT,
    OwnerNFT,
    Ranking,
    Scores,
    DonationAmounts,
    DonorRanking,
}

impl StorageKey {
    /// The one-byte prefix under which the collection is stored: the
    /// variant's position in the declaration.
    pub fn prefix(&self) -> (r: u8)
        ensures
            r == match self {
                StorageKey::PrimaryNFT => 0u8,
                StorageKey::OwnerNFT => 1u8,
                StorageKey::Ranking => 2u8,
                StorageKey::Scores => 3u8,
                StorageKey::DonationAmounts => 4u8,
                StorageKey::DonorRanking => 5u8,
            },
    {
        match self {
            StorageKey::PrimaryNFT => 0,
            StorageKey::OwnerNFT => 1,
            StorageKey::Ranking => 2,
            StorageKey::Scores => 3,
            StorageKey::DonationAmounts => 4,
            StorageKey::DonorRanking => 5,
        }
    }
}

/// The rewarder's state as contracts see it.
pub struct RewarderView {
    pub owner: Seq<char>,
    pub operator: Seq<char>,
    /// The callers allowed to record scores, in the order they were added.
    pub whitelist: Seq<Seq<char>>,
    pub reward_token: Seq<char>,
    pub nft: Seq<char>,
    /// Each staking account's primary position.
    pub primary: Map<Seq<char>, Seq<char>>,
    /// Each staked position's staker.
    pub stakers: Map<Seq<char>, Seq<char>>,
    pub total_nft_staked: u128,
    /// The score of each position ever scored.
    pub scores: Map<Seq<char>, u128>,
    /// The ranking buckets, highest score first.
    pub ranking: Seq<BucketView>,
    pub total_score: u128,
    pub total_distribute: u128,
    pub total_donation: u128,
    pub events: Seq<EventView>,
}

/// What the platform must do to pay a reward: transfer `amount` reward
/// tokens to `receiver_id`, then hand the outcome to `on_reward_sent`
/// together with `token_id` and `amount`.
#[derive(Clone, Debug, PartialEq, Eq)]
pub struct RewardTransfer {
    pub receiver_id: String,
    pub amount: u128,
    pub token_id: Option<String>,
}

/// The rewarder's state as plain values, for keeping it between calls.
#[derive(Clone, Debug, PartialEq, Eq)]
pub struct RewarderSnapshot {
    pub owner: String,
    pub operator: String,
    pub whitelisted_record_score_ids: Vec<String>,
    pub reward_token: String,
    pub nft: String,
    /// (account, position) for each staked position.
    pub stakes: Vec<(String, String)>,
    /// The ranking buckets, highest score first.
    pub ranking: Vec<(u128, Vec<String>)>,
    pub total_distribute: u128,
    pub total_donation: u128,
}

pub struct Contract {
    owner: String,
    operator: String,
    whitelisted_record_score_ids: Vec<String>,
    reward_token: String,
    nft: String,
    registry: StakeRegistry,
    total_nft_staked: u128,
    ledger: ScoreLedger,
    total_distribute: u128,
    total_donation: u128,
    events: Vec<RewarderEvent>,
}

/// `v` without any occurrence of `a`, the rest in order.
pub open spec fn without(v: Seq<Seq<char>>, a: Seq<char>) -> Seq<Seq<char>>
    decreases v.len(),
{
    if v.len() == 0 {
        v
    } else if v.last() == a {
        without(v.drop_last(), a)
    } else {
        without(v.drop_last(), a).push(v.last())
    }
}

/// The events that recording a score of `v` for `t` emits: a mint of
/// `amount` to the staker of `t`, where it is staked, then the new score.
pub open spec fn record_events(stakers: Map<Seq<char>, Seq<char>>, t: Seq<char>, amount: u128, v: u128) -> Seq<EventView> {
    if stakers.contains_key(t) {
        seq![EventView::FtMint { owner_id: stakers[t], amount }, EventView::ScoreRecorded { token_id: t, score: v }]
    } else {
        seq![EventView::ScoreRecorded { token_id: t, score: v }]
    }
}

/// `after` is `before` with `amount` added to the score of `t`, the
/// ranking moved accordingly, and the events of the recording emitted.
pub open spec fn recorded(before: RewarderView, after: RewarderView, t: Seq<char>, amount: u128, v: u128) -> bool {
    &&& v == score_in(before.scores, t) + amount
    &&& after.scores == before.scores.insert(t, v)
    &&& after.total_score == before.total_score + amount
    &&& forall|s: u128|
        #[trigger] bucket_at(after.ranking, s) == bucket_after_move(before.ranking, s, t, score_opt(before.scores, t), v)
    &&& after.events == before.events + record_events(before.stakers, t, amount, v)
    &&& after == RewarderView {
        scores: after.scores,
        ranking: after.ranking,
        total_score: after.total_score,
        events: after.events,
        ..before
    }
}

/// `after` is `before` with `amount` recorded for `t`, by `recorded`.
pub open spec fn recorded_amount(before: RewarderView, after: RewarderView, t: Seq<char>, amount: u128) -> bool {
    recorded(before, after, t, amount, (score_in(before.scores, t) + amount) as u128)
}

pub open spec fn primary_opt(s: RewarderView, a: Seq<char>) -> Option<Seq<char>> {
    if s.primary.contains_key(a) {
        Some(s.primary[a])
    } else {
        None
    }
}

/// The staker of `t`, if it is staked.
pub open spec fn staker_opt(s: RewarderView, t: Seq<char>) -> Option<Seq<char>> {
    if s.stakers.contains_key(t) {
        Some(s.stakers[t])
    } else {
        None
    }
}

/// `e` lists bucket `b`: its score, and each of its positions in order with
/// the position's staker, if any.
pub open spec fn lists_bucket(e: (u128, Vec<(String, Option<String>)>), b: BucketView, s: RewarderView) -> bool {
    &&& e.0 == b.0
    &&& e.1@.len() == b.1.len()
    &&& forall|k: int|
        0 <= k < b.1.len() ==> (#[trigger] e.1@[k]).0@ == b.1[k] && opt_view(e.1@[k].1) == staker_opt(s, b.1[k])
}

/// The number of buckets a leaderboard of `limit` shows: ten where no limit
/// is given, and never more than there are.
pub open spec fn shown(limit: Option<u64>, buckets: nat) -> nat {
    let wanted: nat = match limit {
        Some(l) => l as nat,
        None => 10,
    };
    if wanted < buckets {
        wanted
    } else {
        buckets
    }
}

/// Buckets descend strictly by score, none is empty and none holds a
/// position twice, and each scored position stands in the bucket of its
/// score and in no other.
pub open spec fn ranking_consistent(s: RewarderView) -> bool {
    &&& forall|i: int, j: int| 0 <= i < j < s.ranking.len() ==> #[trigger] s.ranking[i].0 > #[trigger] s.ranking[j].0
    &&& forall|i: int| 0 <= i < s.ranking.len() ==> (#[trigger] s.ranking[i]).1.len() > 0 && s.ranking[i].1.no_duplicates()
    &&& forall|i: int, p: Seq<char>|
        0 <= i < s.ranking.len() ==> (#[trigger] s.ranking[i].1.contains(p) <==> s.scores.contains_key(p)
            && s.scores[p] == s.ranking[i].0)
    &&& forall|p: Seq<char>|
        #[trigger] s.scores.contains_key(p) ==> exists|i: int| 0 <= i < s.ranking.len() && s.ranking[i].0 == s.scores[p]
}

/// Each staking account's primary position is staked by that account, each
/// staked position is the primary position of its staker, and the staked
/// count is the number of staking accounts.
pub open spec fn ownership_exclusive(s: RewarderView) -> bool {
    &&& forall|a: Seq<char>| #[trigger] s.primary.contains_key(a) ==> s.stakers.contains_key(s.primary[a])
        && s.stakers[s.primary[a]] == a
    &&& forall|t: Seq<char>| #[trigger] s.stakers.contains_key(t) ==> s.primary.contains_key(s.stakers[t])
        && s.primary[s.stakers[t]] == t
    &&& s.primary.dom().finite()
    &&& s.total_nft_staked == s.primary.dom().len()
}

/// Recording `amount` for `t` overflows the score or the total.
pub open spec fn record_overflows(s: RewarderView, t: Seq<char>, amount: u128) -> bool {
    score_in(s.scores, t) + amount > u128::MAX || s.total_score + amount > u128::MAX
}

/// No account and no position occurs in two of the pairs.
pub open spec fn stakes_distinct(v: Seq<(String, String)>) -> bool {
    forall|i: int, j: int|
        0 <= i < v.len() && 0 <= j < v.len() && i != j ==> (#[trigger] v[i]).0@ != (#[trigger] v[j]).0@
            && v[i].1@ != v[j].1@
}

/// Account `a` stakes in one of the first `n` pairs.
pub open spec fn staked_in(v: Seq<(String, String)>, n: int, a: Seq<char>) -> bool {
    exists|j: int| 0 <= j < n && (#[trigger] v[j]).0@ == a
}

/// Position `t` is staked in one of the first `n` pairs.
pub open spec fn token_in(v: Seq<(String, String)>, n: int, t: Seq<char>) -> bool {
    exists|j: int| 0 <= j < n && (#[trigger] v[j]).1@ == t
}

/// No position occurs twice in the buckets.
pub open spec fn ranked_once(r: Seq<(u128, Vec<String>)>) -> bool {
    forall|i: int, k: int, j: int, q: int|
        0 <= i < r.len() && 0 <= k < r[i].1@.len() && 0 <= j < r.len() && 0 <= q < r[j].1@.len() && (i != j
            || k != q) ==> (#[trigger] r[i].1@[k])@ != (#[trigger] r[j].1@[q])@
}

/// Position `t` occurs in the buckets before bucket `b`, or among the first
/// `k` positions of bucket `b`.
pub open spec fn ranked_before(r: Seq<(u128, Vec<String>)>, b: int, k: int, t: Seq<char>) -> bool {
    exists|j: int, q: int|
        0 <= j <= b && j < r.len() && 0 <= q < r[j].1@.len() && (j < b || q < k) && (#[trigger] r[j].1@[q])@ == t
}

/// The sum of the scores of the positions in the buckets.
pub open spec fn ranked_total(r: Seq<(u128, Vec<String>)>) -> int
    decreases r.len(),
{
    if r.len() == 0 {
        0
    } else {
        ranked_total(r.drop_last()) + r.last().0 * r.last().1@.len()
    }
}

/// The first `b + 1` buckets sum to the first `b` and bucket `b`, and no
/// prefix sums to more than the whole.
pub proof fn lemma_ranked_total_prefix(r: Seq<(u128, Vec<String>)>, b: int)
    requires
        0 <= b <= r.len(),
    ensures
        b < r.len() ==> ranked_total(r.take(b + 1)) == ranked_total(r.take(b)) + r[b].0 * r[b].1@.len(),
        ranked_total(r.take(b)) <= ranked_total(r),
    decreases r.len() - b,
{
    if b < r.len() {
        assert(r.take(b + 1).drop_last() =~= r.take(b));
        assert(r.take(b + 1).last() == r[b]);
        lemma_ranked_total_prefix(r, b + 1);
        assert(r[b].0 * r[b].1@.len() >= 0) by (nonlinear_arith);
    } else {
        assert(r.take(b) =~= r);
    }
}

impl Contract {
    pub closed spec fn view(&self) -> RewarderView {
        RewarderView {
            owner: self.owner@,
            operator: self.operator@,
            whitelist: ids_of(self.whitelisted_record_score_ids@),
            reward_token: self.reward_token@,
            nft: self.nft@,
            primary: self.registry.primary(),
            stakers: self.registry.stakers(),
            total_nft_staked: self.total_nft_staked,
            scores: self.ledger.scores_view(),
            ranking: self.ledger.ranking_view(),
            total_score: self.ledger.total_score,
            total_distribute: self.total_distribute,
            total_donation: self.total_donation,
            events: events_of(self.events@),
        }
    }

    /// The stores agree with each other: each binding is held once, the
    /// ranking ranks the scores, and the staked count is the number of
    /// bindings.
    pub closed spec fn wf(&self) -> bool {
        &&& self.registry.wf()
        &&& self.ledger.wf()
        &&& self.total_nft_staked == self.registry.stakes@.len()
    }

    pub fn new(
        owner: String,
        operator: String,
        whitelisted_record_score_ids: Vec<String>,
        reward_token: String,
        nft: String,
    ) -> (r: Self)
        ensures
            r.wf(),
            r.view() == (RewarderView {
                owner: owner@,
                operator: operator@,
                whitelist: ids_of(whitelisted_record_score_ids@),
                reward_token: reward_token@,
                nft: nft@,
                primary: Map::empty(),
                stakers: Map::empty(),
                total_nft_staked: 0,
                scores: Map::empty(),
                ranking: Seq::empty(),
                total_score: 0,
                total_distribute: 0,
                total_donation: 0,
                events: Seq::empty(),
            }),
    {
        let r = Contract {
            owner,
            operator,
            whitelisted_record_score_ids,
            reward_token,
            nft,
            registry: StakeRegistry::new(),
            total_nft_staked: 0,
            ledger: ScoreLedger::new(),
            total_distribute: 0,
            total_donation: 0,
            events: Vec::new(),
        };
        assert(events_of(r.events@) =~= Seq::<EventView>::empty());
        r
    }

    /// Adds `amount` to the score of position `primary_nft` (zero if it was
    /// never scored), moves it to the end of the bucket of its new score,
    /// adds `amount` to the total score, and emits a mint to its staker (if
    /// staked) and the new score. Returns the new score; fails with
    /// `ArithmeticOverflow`, changing nothing, where the score or the total
    /// would not fit.
    pub fn internal_record_score(&mut self, primary_nft: String, amount: u128) -> (r: Result<u128, ContractError>)
        requires
            old(self).wf(),
        ensures
            final(self).wf(),
            r is Err <==> record_overflows(old(self).view(), primary_nft@, amount),
            r matches Err(e) ==> e == ContractError::ArithmeticOverflow && final(self).view() == old(self).view(),
            r matches Ok(v) ==> recorded(old(self).view(), final(self).view(), primary_nft@, amount, v),
    {
        let ghost t = primary_nft@;
        let owner = self.registry.staker_of(&primary_nft);
        let token_id = primary_nft.clone();
        let score = match self.ledger.record(primary_nft, amount) {
            Ok(v) => v,
            Err(e) => return Err(e),
        };
        let ghost ev0 = self.events@;
        match owner {
            Some(owner_id) => {
                self.events.push(RewarderEvent::FtMint { owner_id, amount });
            },
            None => {},
        }
        self.events.push(RewarderEvent::ScoreRecorded { token_id, score });
        proof {
            assert(events_of(self.events@) =~= events_of(ev0) + record_events(old(self).view().stakers, t, amount, score));
        }
        Ok(score)
    }

    /// Binds `account_id` to position `token_id`, counts one more staked
    /// position and emits the staking. Fails with `AlreadyStaked`, changing
    /// nothing, where the account already has a primary position or the
    /// position is already staked.
    pub fn on_stake(&mut self, account_id: String, token_id: String) -> (r: Result<(), ContractError>)
        requires
            old(self).wf(),
        ensures
            final(self).wf(),
            r is Err <==> old(self).view().primary.contains_key(account_id@)
                || old(self).view().stakers.contains_key(token_id@),
            r matches Err(e) ==> e == ContractError::AlreadyStaked && final(self).view() == old(self).view(),
            r is Ok ==> final(self).view().total_nft_staked == old(self).view().total_nft_staked + 1,
            r is Ok ==> final(self).view() == (RewarderView {
                primary: old(self).view().primary.insert(account_id@, token_id@),
                stakers: old(self).view().stakers.insert(token_id@, account_id@),
                total_nft_staked: (old(self).view().total_nft_staked + 1) as u128,
                events: old(self).view().events.push(
                    EventView::NftStaked { account_id: account_id@, token_id: token_id@ },
                ),
                ..old(self).view()
            }),
    {
        if self.registry.token_of(&account_id).is_some() || self.registry.staker_of(&token_id).is_some() {
            return Err(ContractError::AlreadyStaked);
        }
        let event = RewarderEvent::NftStaked { account_id: account_id.clone(), token_id: token_id.clone() };
        proof {
            self.registry.lemma_mutual();
        }
        self.registry.bind(account_id, token_id);
        self.total_nft_staked = self.registry.stakes.len() as u128;
        let ghost ev0 = self.events@;
        self.events.push(event);
        proof {
            assert(events_of(self.events@) =~= events_of(ev0).push(event.view()));
        }
        Ok(())
    }

    /// Removes the binding of `account_id` to `token_id`, counts one staked
    /// position less and emits the unstaking; the position keeps its score.
    /// Fails with `NothingStaked`, changing nothing, unless `token_id` is the
    /// account's primary position.
    pub fn on_unstake(&mut self, account_id: String, token_id: String) -> (r: Result<(), ContractError>)
        requires
            old(self).wf(),
        ensures
            final(self).wf(),
            r is Err <==> !(old(self).view().primary.contains_key(account_id@)
                && old(self).view().primary[account_id@] == token_id@),
            r matches Err(e) ==> e == ContractError::NothingStaked && final(self).view() == old(self).view(),
            final(self).view().scores == old(self).view().scores,
            final(self).view().ranking == old(self).view().ranking,
            r is Ok ==> final(self).view().total_nft_staked == old(self).view().total_nft_staked - 1,
            r is Ok ==> final(self).view() == (RewarderView {
                primary: old(self).view().primary.remove(account_id@),
                stakers: old(self).view().stakers.remove(token_id@),
                total_nft_staked: (old(self).view().total_nft_staked - 1) as u128,
                events: old(self).view().events.push(
                    EventView::NftUnstaked { account_id: account_id@, token_id: token_id@ },
                ),
                ..old(self).view()
            }),
    {
        match self.registry.token_of(&account_id) {
            Some(t) => {
                if t != token_id {
                    return Err(ContractError::NothingStaked);
                }
            },
            None => return Err(ContractError::NothingStaked),
        }
        self.registry.unbind(&account_id, &token_id);
        self.total_nft_staked = self.total_nft_staked - 1;
        let event = RewarderEvent::NftUnstaked { account_id, token_id };
        let ghost ev0 = self.events@;
        self.events.push(event);
        proof {
            assert(events_of(self.events@) =~= events_of(ev0).push(event.view()));
        }
        Ok(())
    }

    /// The position that `caller` has staked, which the platform must return
    /// to it before calling `on_unstake`. Fails with `NothingStaked` where it
    /// has none.
    pub fn unstake(&self, caller: &String) -> (r: Result<String, ContractError>)
        requires
            self.wf(),
        ensures
            r is Err <==> !self.view().primary.contains_key(caller@),
            r matches Err(e) ==> e == ContractError::NothingStaked,
            r matches Ok(t) ==> t@ == self.view().primary[caller@],
    {
        match self.registry.token_of(caller) {
            Some(t) => Ok(t),
            None => Err(ContractError::NothingStaked),
        }
    }
    fn is_whitelisted(&self, a: &String) -> (r: bool)
        ensures
            r == self.view().whitelist.contains(a@),
    {
        let ghost names = ids_of(self.whitelisted_record_score_ids@);
        let mut i: usize = 0;
        while i < self.whitelisted_record_score_ids.len()
            invariant
                i <= self.whitelisted_record_score_ids@.len(),
                names == ids_of(self.whitelisted_record_score_ids@),
                forall|j: int| 0 <= j < i ==> (#[trigger] self.whitelisted_record_score_ids@[j])@ != a@,
            decreases self.whitelisted_record_score_ids@.len() - i,
        {
            if self.whitelisted_record_score_ids[i] == *a {
                proof {
                    assert(names[i as int] == a@);
                    assert(names.contains(a@));
                }
                return true;
            }
            i = i + 1;
        }
        proof {
            assert forall|j: int| 0 <= j < names.len() implies #[trigger] names[j] != a@ by {
                assert(names[j] == self.whitelisted_record_score_ids@[j]@);
            }
        }
        false
    }

    /// Asks for a reward of `amount` tokens to `account_id`. Only the
    /// operator may ask; where the account has a primary position, twice
    /// `amount` will be credited to it once the transfer succeeds. Emits the
    /// reward and returns the transfer to make. Fails with `Unauthorized`
    /// for another caller, and with `ArithmeticOverflow` where the doubled
    /// amount does not fit; a failure changes nothing.
    pub fn send_rewards(&mut self, caller: &String, account_id: String, amount: u128) -> (r: Result<RewardTransfer, ContractError>)
        requires
            old(self).wf(),
        ensures
            final(self).wf(),
            r is Err <==> caller@ != old(self).view().operator
                || (old(self).view().primary.contains_key(account_id@) && 2 * amount > u128::MAX),
            r matches Err(e) ==> final(self).view() == old(self).view()
                && (e == ContractError::Unauthorized <==> caller@ != old(self).view().operator)
                && (e == ContractError::Unauthorized || e == ContractError::ArithmeticOverflow),
            r matches Ok(x) ==> {
                &&& x.receiver_id@ == account_id@
                &&& x.amount == amount
                &&& opt_view(x.token_id) == primary_opt(old(self).view(), account_id@)
                &&& final(self).view() == (RewarderView {
                    events: old(self).view().events.push(
                        EventView::RewardSent { account_id: account_id@, amount, token_id: opt_view(x.token_id) },
                    ),
                    ..old(self).view()
                })
            },
    {
        if *caller != self.operator {
            return Err(ContractError::Unauthorized);
        }
        let token_id = self.registry.token_of(&account_id);
        if token_id.is_some() && amount > u128::MAX / 2 {
            return Err(ContractError::ArithmeticOverflow);
        }
        let event = RewarderEvent::RewardSent { account_id: account_id.clone(), amount, token_id: token_id.clone() };
        let ghost ev0 = self.events@;
        self.events.push(event);
        proof {
            assert(events_of(self.events@) =~= events_of(ev0).push(event.view()));
        }
        Ok(RewardTransfer { receiver_id: account_id, amount, token_id })
    }

    /// Settles a reward transfer of `amount` tokens. Where the transfer
    /// failed nothing changes. Where it succeeded, twice `amount` is recorded
    /// for `primary_nft` (if given) and `amount` is added to the total
    /// distributed. Fails with `ArithmeticOverflow`, changing nothing, where
    /// a result would not fit.
    pub fn on_reward_sent(&mut self, primary_nft: Option<String>, amount: u128, transfer_succeeded: bool) -> (r: Result<(), ContractError>)
        requires
            old(self).wf(),
        ensures
            final(self).wf(),
            !transfer_succeeded ==> r is Ok && final(self).view() == old(self).view(),
            transfer_succeeded ==> (r is Err <==> old(self).view().total_distribute + amount > u128::MAX
                || (primary_nft matches Some(t) && (2 * amount > u128::MAX
                    || record_overflows(old(self).view(), t@, (2 * amount) as u128)))),
            r matches Err(e) ==> e == ContractError::ArithmeticOverflow && final(self).view() == old(self).view(),
            transfer_succeeded && r is Ok ==> final(self).view().total_distribute == old(self).view().total_distribute + amount,
            transfer_succeeded && r is Ok && primary_nft is None ==> final(self).view() == (RewarderView {
                total_distribute: final(self).view().total_distribute,
                ..old(self).view()
            }),
            transfer_succeeded && r is Ok ==> (primary_nft matches Some(t) ==> recorded_amount(
                old(self).view(),
                RewarderView { total_distribute: old(self).view().total_distribute, ..final(self).view() },
                t@,
                (2 * amount) as u128,
            )),
    {
        if !transfer_succeeded {
            return Ok(());
        }
        let distributed = match self.total_distribute.checked_add(amount) {
            Some(v) => v,
            None => return Err(ContractError::ArithmeticOverflow),
        };
        match primary_nft {
            Some(t) => {
                if amount > u128::MAX / 2 {
                    return Err(ContractError::ArithmeticOverflow);
                }
                match self.internal_record_score(t, amount * 2) {
                    Ok(_) => {},
                    Err(e) => return Err(e),
                }
            },
            None => {},
        }
        self.total_distribute = distributed;
        Ok(())
    }

    /// Records `amount` for `primary_nft` on behalf of a whitelisted caller,
    /// as `internal_record_score` does. Fails with `Unauthorized` for a
    /// caller off the whitelist; a failure changes nothing.
    pub fn on_track_score(&mut self, caller: &String, primary_nft: String, amount: u128) -> (r: Result<u128, ContractError>)
        requires
            old(self).wf(),
        ensures
            final(self).wf(),
            r is Err <==> !old(self).view().whitelist.contains(caller@)
                || record_overflows(old(self).view(), primary_nft@, amount),
            r matches Err(e) ==> final(self).view() == old(self).view()
                && (e == ContractError::Unauthorized <==> !old(self).view().whitelist.contains(caller@))
                && (e == ContractError::Unauthorized || e == ContractError::ArithmeticOverflow),
            r matches Ok(v) ==> recorded(old(self).view(), final(self).view(), primary_nft@, amount, v),
    {
        if !self.is_whitelisted(caller) {
            return Err(ContractError::Unauthorized);
        }
        self.internal_record_score(primary_nft, amount)
    }

    /// Takes a donation of `amount` reward tokens from `sender_id`,
    /// notified by the reward token contract. Where the sender has a primary
    /// position, four times `amount` is recorded for it and `amount` is added
    /// to the total donated; otherwise nothing changes. Returns the unused
    /// amount, always zero. Fails with `Unauthorized` for another caller, and
    /// with `ArithmeticOverflow` where a result would not fit; a failure
    /// changes nothing.
    pub fn ft_on_transfer(&mut self, caller: &String, sender_id: String, amount: u128, _msg: String) -> (r: Result<u128, ContractError>)
        requires
            old(self).wf(),
        ensures
            final(self).wf(),
            r is Err <==> caller@ != old(self).view().reward_token
                || (old(self).view().primary.contains_key(sender_id@) && (4 * amount > u128::MAX
                    || old(self).view().total_donation + amount > u128::MAX
                    || record_overflows(old(self).view(), old(self).view().primary[sender_id@], (4 * amount) as u128))),
            r matches Err(e) ==> final(self).view() == old(self).view()
                && (e == ContractError::Unauthorized <==> caller@ != old(self).view().reward_token)
                && (e == ContractError::Unauthorized || e == ContractError::ArithmeticOverflow),
            r matches Ok(v) ==> v == 0,
            r is Ok && !old(self).view().primary.contains_key(sender_id@) ==> final(self).view() == old(self).view(),
            r is Ok && old(self).view().primary.contains_key(sender_id@) ==> {
                &&& final(self).view().total_donation == old(self).view().total_donation + amount
                &&& recorded_amount(
                    old(self).view(),
                    RewarderView { total_donation: old(self).view().total_donation, ..final(self).view() },
                    old(self).view().primary[sender_id@],
                    (4 * amount) as u128,
                )
            },
    {
        if *caller != self.reward_token {
            return Err(ContractError::Unauthorized);
        }
        match self.registry.token_of(&sender_id) {
            Some(t) => {
                if amount > u128::MAX / 4 {
                    return Err(ContractError::ArithmeticOverflow);
                }
                let donated = match self.total_donation.checked_add(amount) {
                    Some(v) => v,
                    None => return Err(ContractError::ArithmeticOverflow),
                };
                match self.internal_record_score(t, amount * 4) {
                    Ok(_) => {},
                    Err(e) => return Err(e),
                }
                self.total_donation = donated;
            },
            None => {},
        }
        Ok(0)
    }

    /// Takes position `token_id` staked by `previous_owner_id`, notified by
    /// the NFT contract, as `on_stake` does. Returns whether the transfer
    /// should be reverted, which it never should once accepted. Fails with
    /// `Unauthorized` for another caller; a failure changes nothing.
    pub fn nft_on_transfer(
        &mut self,
        caller: &String,
        _sender_id: String,
        previous_owner_id: String,
        token_id: String,
        _msg: String,
    ) -> (r: Result<bool, ContractError>)
        requires
            old(self).wf(),
        ensures
            final(self).wf(),
            r is Err <==> caller@ != old(self).view().nft
                || old(self).view().primary.contains_key(previous_owner_id@)
                || old(self).view().stakers.contains_key(token_id@),
            r matches Err(e) ==> final(self).view() == old(self).view()
                && (e == ContractError::Unauthorized <==> caller@ != old(self).view().nft)
                && (e == ContractError::Unauthorized || e == ContractError::AlreadyStaked),
            r matches Ok(v) ==> !v && final(self).view() == (RewarderView {
                primary: old(self).view().primary.insert(previous_owner_id@, token_id@),
                stakers: old(self).view().stakers.insert(token_id@, previous_owner_id@),
                total_nft_staked: (old(self).view().total_nft_staked + 1) as u128,
                events: old(self).view().events.push(
                    EventView::NftStaked { account_id: previous_owner_id@, token_id: token_id@ },
                ),
                ..old(self).view()
            }),
    {
        if *caller != self.nft {
            return Err(ContractError::Unauthorized);
        }
        match self.on_stake(previous_owner_id, token_id) {
            Ok(()) => Ok(false),
            Err(e) => Err(e),
        }
    }

    /// Adds `account_id` to the callers that may record scores. Only the
    /// owner may; fails with `Unauthorized`, changing nothing, otherwise.
    pub fn whitelist(&mut self, caller: &String, account_id: String) -> (r: Result<(), ContractError>)
        requires
            old(self).wf(),
        ensures
            final(self).wf(),
            r is Err <==> caller@ != old(self).view().owner,
            r matches Err(e) ==> e == ContractError::Unauthorized && final(self).view() == old(self).view(),
            r is Ok ==> final(self).view() == (RewarderView {
                whitelist: old(self).view().whitelist.push(account_id@),
                ..old(self).view()
            }),
    {
        if *caller != self.owner {
            return Err(ContractError::Unauthorized);
        }
        let ghost v0 = self.whitelisted_record_score_ids@;
        self.whitelisted_record_score_ids.push(account_id);
        proof {
            let v1 = self.whitelisted_record_score_ids@;
            assert(ids_of(v1) =~= ids_of(v0).push(v1[v0.len() as int]@));
        }
        Ok(())
    }

    /// Removes every occurrence of `account_id` from the callers that may
    /// record scores. Only the owner may; fails with `Unauthorized`, changing
    /// nothing, otherwise.
    pub fn remove_from_whitelist(&mut self, caller: &String, account_id: String) -> (r: Result<(), ContractError>)
        requires
            old(self).wf(),
        ensures
            final(self).wf(),
            r is Err <==> caller@ != old(self).view().owner,
            r matches Err(e) ==> e == ContractError::Unauthorized && final(self).view() == old(self).view(),
            r is Ok ==> final(self).view() == (RewarderView {
                whitelist: without(old(self).view().whitelist, account_id@),
                ..old(self).view()
            }),
    {
        if *caller != self.owner {
            return Err(ContractError::Unauthorized);
        }
        let ghost v0 = self.whitelisted_record_score_ids@;
        let mut kept: Vec<String> = Vec::new();
        let mut i: usize = 0;
        while i < self.whitelisted_record_score_ids.len()
            invariant
                i <= v0.len(),
                self.whitelisted_record_score_ids@ == v0,
                ids_of(kept@) == without(ids_of(v0).take(i as int), account_id@),
            decreases v0.len() - i,
        {
            let id = self.whitelisted_record_score_ids[i].clone();
            let ghost k0 = kept@;
            proof {
                let prefix = ids_of(v0).take(i + 1);
                assert(prefix.drop_last() =~= ids_of(v0).take(i as int));
                assert(prefix.last() == id@);
            }
            if id != account_id {
                kept.push(id);
                proof {
                    assert(ids_of(kept@) =~= ids_of(k0).push(id@));
                }
            }
            i = i + 1;
        }
        proof {
            assert(ids_of(v0).take(v0.len() as int) =~= ids_of(v0));
        }
        self.whitelisted_record_score_ids = kept;
        Ok(())
    }

    /// Allows a code upgrade: only the owner may ask for one. Fails with
    /// `Unauthorized` otherwise.
    pub fn upgrade(&self, caller: &String) -> (r: Result<(), ContractError>)
        ensures
            r is Err <==> caller@ != self.view().owner,
            r matches Err(e) ==> e == ContractError::Unauthorized,
    {
        if *caller != self.owner {
            Err(ContractError::Unauthorized)
        } else {
            Ok(())
        }
    }

    /// Brings state written by an earlier version up to date; the current
    /// layout needs no change.
    pub fn migrate(&mut self)
        ensures
            final(self).view() == old(self).view(),
            final(self).wf() == old(self).wf(),
    {
    }
    fn copy_names(v: &Vec<String>) -> (r: Vec<String>)
        ensures
            ids_of(r@) == ids_of(v@),
    {
        let mut out: Vec<String> = Vec::new();
        let mut i: usize = 0;
        while i < v.len()
            invariant
                i <= v@.len(),
                out@.len() == i,
                forall|j: int| 0 <= j < i ==> (#[trigger] out@[j])@ == v@[j]@,
            decreases v@.len() - i,
        {
            out.push(v[i].clone());
            i = i + 1;
        }
        assert(ids_of(out@) =~= ids_of(v@));
        out
    }

    /// The state as plain values: the stakes as (account, position) pairs,
    /// and the ranking with its buckets in order.
    pub fn snapshot(&self) -> (r: RewarderSnapshot)
        requires
            self.wf(),
        ensures
            r.owner@ == self.view().owner,
            r.operator@ == self.view().operator,
            ids_of(r.whitelisted_record_score_ids@) == self.view().whitelist,
            r.reward_token@ == self.view().reward_token,
            r.nft@ == self.view().nft,
            r.stakes@.len() == self.view().total_nft_staked,
            forall|i: int|
                0 <= i < r.stakes@.len() ==> self.view().primary.contains_key((#[trigger] r.stakes@[i]).0@)
                    && self.view().primary[r.stakes@[i].0@] == r.stakes@[i].1@,
            r.ranking@.len() == self.view().ranking.len(),
            forall|i: int|
                0 <= i < r.ranking@.len() ==> ((#[trigger] r.ranking@[i]).0, ids_of(r.ranking@[i].1@))
                    == self.view().ranking[i],
            r.total_distribute == self.view().total_distribute,
            r.total_donation == self.view().total_donation,
    {
        let stakes = self.registry.bindings();
        proof {
            assert forall|i: int|
                0 <= i < stakes@.len() implies self.view().primary.contains_key((#[trigger] stakes@[i]).0@)
                    && self.view().primary[stakes@[i].0@] == stakes@[i].1@ by {
                self.registry.lemma_binding(i);
            }
        }
        RewarderSnapshot {
            owner: self.owner.clone(),
            operator: self.operator.clone(),
            whitelisted_record_score_ids: Self::copy_names(&self.whitelisted_record_score_ids),
            reward_token: self.reward_token.clone(),
            nft: self.nft.clone(),
            stakes,
            ranking: self.ledger.buckets(),
            total_distribute: self.total_distribute,
            total_donation: self.total_donation,
        }
    }

    /// Rebuilds a contract from a snapshot by staking each pair and scoring
    /// each ranked position in turn, so that the result is well formed.
    /// Returns `None` where no contract could be in that state: an account
    /// or position staked twice, a position ranked twice, or ranked scores
    /// whose sum does not fit.
    pub fn restore(s: RewarderSnapshot) -> (r: Option<Contract>)
        ensures
            stakes_distinct(s.stakes@) && ranked_once(s.ranking@) && ranked_total(s.ranking@) <= u128::MAX
                ==> r is Some,
            r matches Some(c) ==> {
                &&& c.wf()
                &&& c.view().owner == s.owner@
                &&& c.view().operator == s.operator@
                &&& c.view().whitelist == ids_of(s.whitelisted_record_score_ids@)
                &&& c.view().reward_token == s.reward_token@
                &&& c.view().nft == s.nft@
                &&& c.view().total_nft_staked == s.stakes@.len()
                &&& forall|a: Seq<char>|
                    #[trigger] c.view().primary.contains_key(a) <==> staked_in(s.stakes@, s.stakes@.len() as int, a)
                &&& forall|i: int|
                    0 <= i < s.stakes@.len() ==> c.view().primary[(#[trigger] s.stakes@[i]).0@] == s.stakes@[i].1@
                &&& forall|t: Seq<char>|
                    #[trigger] c.view().scores.contains_key(t) <==> ranked_before(s.ranking@, s.ranking@.len() as int, 0, t)
                &&& forall|i: int, k: int|
                    0 <= i < s.ranking@.len() && 0 <= k < s.ranking@[i].1@.len()
                        ==> c.view().scores[(#[trigger] s.ranking@[i].1@[k])@] == s.ranking@[i].0
                &&& c.view().total_score == ranked_total(s.ranking@)
                &&& c.view().total_distribute == s.total_distribute
                &&& c.view().total_donation == s.total_donation
                &&& c.view().events == Seq::<EventView>::empty()
            },
    {
        let ghost fine = stakes_distinct(s.stakes@) && ranked_once(s.ranking@) && ranked_total(s.ranking@) <= u128::MAX;
        let mut c = Contract::new(
            s.owner,
            s.operator,
            s.whitelisted_record_score_ids,
            s.reward_token,
            s.nft,
        );
        let ghost first = c.view();
        let stakes = s.stakes;
        let ranking = s.ranking;
        let mut i: usize = 0;
        while i < stakes.len()
            invariant
                c.wf(),
                i <= stakes@.len(),
                fine == (stakes_distinct(stakes@) && ranked_once(ranking@) && ranked_total(ranking@) <= u128::MAX),
                stakes@ == s.stakes@,
                ranking@ == s.ranking@,
                c.view() == (RewarderView {
                    primary: c.view().primary,
                    stakers: c.view().stakers,
                    total_nft_staked: c.view().total_nft_staked,
                    events: c.view().events,
                    ..first
                }),
                c.view().total_nft_staked == i,
                forall|a: Seq<char>| #[trigger] c.view().primary.contains_key(a) <==> staked_in(stakes@, i as int, a),
                forall|t: Seq<char>| #[trigger] c.view().stakers.contains_key(t) <==> token_in(stakes@, i as int, t),
                forall|j: int| 0 <= j < i ==> c.view().primary[(#[trigger] stakes@[j]).0@] == stakes@[j].1@,
            decreases stakes@.len() - i,
        {
            let account = stakes[i].0.clone();
            let token = stakes[i].1.clone();
            let ghost before = c.view();
            if c.on_stake(account, token).is_err() {
                proof {
                    if before.primary.contains_key(stakes@[i as int].0@) {
                        let j = choose|j: int| 0 <= j < i && (#[trigger] stakes@[j]).0@ == stakes@[i as int].0@;
                        assert(!stakes_distinct(stakes@));
                    } else {
                        let j = choose|j: int| 0 <= j < i && (#[trigger] stakes@[j]).1@ == stakes@[i as int].1@;
                        assert(!stakes_distinct(stakes@));
                    }
                }
                return None;
            }
            proof {
                assert forall|a: Seq<char>| #[trigger] c.view().primary.contains_key(a) <==> staked_in(stakes@, i + 1, a) by {
                    if a == stakes@[i as int].0@ {
                        assert(staked_in(stakes@, i + 1, a));
                    } else if staked_in(stakes@, i + 1, a) {
                        let j = choose|j: int| 0 <= j < i + 1 && (#[trigger] stakes@[j]).0@ == a;
                        assert(staked_in(stakes@, i as int, a));
                    }
                }
                assert forall|t: Seq<char>| #[trigger] c.view().stakers.contains_key(t) <==> token_in(stakes@, i + 1, t) by {
                    if t == stakes@[i as int].1@ {
                        assert(token_in(stakes@, i + 1, t));
                    } else if token_in(stakes@, i + 1, t) {
                        let j = choose|j: int| 0 <= j < i + 1 && (#[trigger] stakes@[j]).1@ == t;
                        assert(token_in(stakes@, i as int, t));
                    }
                }
                assert forall|j: int| 0 <= j < i + 1 implies c.view().primary[(#[trigger] stakes@[j]).0@] == stakes@[j].1@ by {
                    if j < i {
                        assert(staked_in(stakes@, i as int, stakes@[j].0@));
                    }
                }
            }
            i = i + 1;
        }
        let ghost staked = c.view();
        proof {
            lemma_ranked_total_prefix(ranking@, 0);
            assert(ranking@.take(0) =~= Seq::<(u128, Vec<String>)>::empty());
        }
        let mut b: usize = 0;
        while b < ranking.len()
            invariant
                c.wf(),
                b <= ranking@.len(),
                fine == (stakes_distinct(stakes@) && ranked_once(ranking@) && ranked_total(ranking@) <= u128::MAX),
                stakes@ == s.stakes@,
                ranking@ == s.ranking@,
                c.view() == (RewarderView {
                    scores: c.view().scores,
                    ranking: c.view().ranking,
                    total_score: c.view().total_score,
                    events: c.view().events,
                    ..staked
                }),
                c.view().total_score == ranked_total(ranking@.take(b as int)),
                forall|t: Seq<char>|
                    #[trigger] c.view().scores.contains_key(t) <==> ranked_before(ranking@, b as int, 0, t),
                forall|j: int, q: int|
                    0 <= j < b && 0 <= q < ranking@[j].1@.len() ==> c.view().scores[(#[trigger] ranking@[j].1@[q])@]
                        == ranking@[j].0,
            decreases ranking@.len() - b,
        {
            let score = ranking[b].0;
            let ids = &ranking[b].1;
            proof {
                lemma_ranked_total_prefix(ranking@, b as int);
                lemma_ranked_total_prefix(ranking@, b + 1);
            }
            let mut k: usize = 0;
            while k < ids.len()
                invariant
                    c.wf(),
                    b < ranking@.len(),
                    *ids == ranking@[b as int].1,
                    score == ranking@[b as int].0,
                    k <= ids@.len(),
                    fine == (stakes_distinct(stakes@) && ranked_once(ranking@) && ranked_total(ranking@) <= u128::MAX),
                    stakes@ == s.stakes@,
                    ranking@ == s.ranking@,
                    c.view() == (RewarderView {
                        scores: c.view().scores,
                        ranking: c.view().ranking,
                        total_score: c.view().total_score,
                        events: c.view().events,
                        ..staked
                    }),
                    ranked_total(ranking@.take(b as int)) + score * ids@.len() == ranked_total(ranking@.take(b + 1)),
                    ranked_total(ranking@.take(b + 1)) <= ranked_total(ranking@),
                    c.view().total_score == ranked_total(ranking@.take(b as int)) + score * k,
                    forall|t: Seq<char>|
                        #[trigger] c.view().scores.contains_key(t) <==> ranked_before(ranking@, b as int, k as int, t),
                    forall|j: int, q: int|
                        0 <= j <= b && 0 <= q < ranking@[j].1@.len() && (j < b || q < k)
                            ==> c.view().scores[(#[trigger] ranking@[j].1@[q])@] == ranking@[j].0,
                decreases ids@.len() - k,
            {
                let t = ids[k].clone();
                proof {
                    assert(ranking@[b as int].1@[k as int] == ids@[k as int]);
                }
                if c.ledger.scores.get(&t).is_some() {
                    proof {
                        assert(c.view().scores.contains_key(t@));
                        let (j, q) = choose|j: int, q: int|
                            0 <= j <= b && j < ranking@.len() && 0 <= q < ranking@[j].1@.len() && (j < b || q < k)
                                && (#[trigger] ranking@[j].1@[q])@ == t@;
                        assert(!ranked_once(ranking@));
                    }
                    return None;
                }
                proof {
                    assert(score * k + score == score * (k + 1)) by (nonlinear_arith);
                    assert(score * (k + 1) <= score * ids@.len()) by (nonlinear_arith)
                        requires
                            k + 1 <= ids@.len(),
                    ;
                }
                if c.internal_record_score(t, score).is_err() {
                    proof {
                        assert(!fine);
                    }
                    return None;
                }
                proof {
                    assert forall|x: Seq<char>|
                        #[trigger] c.view().scores.contains_key(x) <==> ranked_before(ranking@, b as int, k + 1, x) by {
                        if x == t@ {
                            assert(ranking@[b as int].1@[k as int]@ == x);
                            assert(ranked_before(ranking@, b as int, k + 1, x));
                        } else if ranked_before(ranking@, b as int, k + 1, x) {
                            let (j, q) = choose|j: int, q: int|
                                0 <= j <= b && j < ranking@.len() && 0 <= q < ranking@[j].1@.len() && (j < b || q < k + 1)
                                    && (#[trigger] ranking@[j].1@[q])@ == x;
                            assert(ranked_before(ranking@, b as int, k as int, x));
                        }
                    }
                    assert forall|j: int, q: int|
                        0 <= j <= b && 0 <= q < ranking@[j].1@.len() && (j < b || q < k + 1)
                            implies c.view().scores[(#[trigger] ranking@[j].1@[q])@] == ranking@[j].0 by {
                        if ranking@[j].1@[q]@ != t@ {
                            assert(ranked_before(ranking@, b as int, k as int, ranking@[j].1@[q]@));
                        }
                    }
                }
                k = k + 1;
            }
            proof {
                assert forall|x: Seq<char>|
                    ranked_before(ranking@, b as int, ids@.len() as int, x) == ranked_before(ranking@, b + 1, 0, x) by {
                    if ranked_before(ranking@, b + 1, 0, x) {
                        let (j, q) = choose|j: int, q: int|
                            0 <= j <= b + 1 && j < ranking@.len() && 0 <= q < ranking@[j].1@.len() && (j < b + 1 || q < 0)
                                && (#[trigger] ranking@[j].1@[q])@ == x;
                        assert(ranked_before(ranking@, b as int, ids@.len() as int, x));
                    }
                    if ranked_before(ranking@, b as int, ids@.len() as int, x) {
                        let (j, q) = choose|j: int, q: int|
                            0 <= j <= b && j < ranking@.len() && 0 <= q < ranking@[j].1@.len() && (j < b || q < ids@.len())
                                && (#[trigger] ranking@[j].1@[q])@ == x;
                        assert(ranked_before(ranking@, b + 1, 0, x));
                    }
                }
            }
            b = b + 1;
        }
        proof {
            assert(ranking@.take(ranking@.len() as int) =~= ranking@);
        }
        c.total_distribute = s.total_distribute;
        c.total_donation = s.total_donation;
        c.events = Vec::new();
        proof {
            assert(events_of(c.events@) =~= Seq::<EventView>::empty());
        }
        Some(c)
    }

    /// The score of position `token_id`; zero where it was never scored.
    pub fn score_of(&self, token_id: String) -> (r: u128)
        requires
            self.wf(),
        ensures
            r == score_in(self.view().scores, token_id@),
    {
        self.ledger.score_of(&token_id)
    }

    /// The account that has `token_id` staked, if any.
    pub fn staker_of(&self, token_id: String) -> (r: Option<String>)
        requires
            self.wf(),
        ensures
            opt_view(r) == staker_opt(self.view(), token_id@),
    {
        self.registry.staker_of(&token_id)
    }

    /// The primary position of `account_id` with its score, if it has one.
    pub fn primary_nft_of(&self, account_id: String) -> (r: Option<(String, u128)>)
        requires
            self.wf(),
        ensures
            r is None <==> !self.view().primary.contains_key(account_id@),
            r matches Some(p) ==> p.0@ == self.view().primary[account_id@]
                && p.1 == score_in(self.view().scores, p.0@),
    {
        match self.registry.token_of(&account_id) {
            Some(t) => {
                let score = self.ledger.score_of(&t);
                Some((t, score))
            },
            None => None,
        }
    }

    /// The sum of all scores, the supply of the score token.
    pub fn ft_total_supply(&self) -> (r: u128)
        ensures
            r == self.view().total_score,
    {
        self.ledger.total_score
    }

    /// The score balance of `account_id`: the score of its primary position,
    /// or zero where it has none.
    pub fn ft_balance_of(&self, account_id: String) -> (r: u128)
        requires
            self.wf(),
        ensures
            r == if self.view().primary.contains_key(account_id@) {
                score_in(self.view().scores, self.view().primary[account_id@])
            } else {
                0
            },
    {
        match self.primary_nft_of(account_id) {
            Some(p) => p.1,
            None => 0,
        }
    }

    pub fn total_nft_staked(&self) -> (r: u128)
        ensures
            r == self.view().total_nft_staked,
    {
        self.total_nft_staked
    }

    pub fn total_distribute(&self) -> (r: u128)
        ensures
            r == self.view().total_distribute,
    {
        self.total_distribute
    }

    pub fn total_donation(&self) -> (r: u128)
        ensures
            r == self.view().total_donation,
    {
        self.total_donation
    }

    /// The events emitted so far, oldest first.
    pub fn events(&self) -> (r: &Vec<RewarderEvent>)
        ensures
            events_of(r@) == self.view().events,
    {
        &self.events
    }

    /// The highest `limit` buckets of the ranking (ten where no limit is
    /// given), highest score first, each with its positions in the order
    /// they reached the score and the staker of each, if any.
    pub fn get_leaderboard(&self, limit: Option<u64>) -> (r: Vec<(u128, Vec<(String, Option<String>)>)>)
        requires
            self.wf(),
        ensures
            r@.len() == shown(limit, self.view().ranking.len()),
            forall|i: int| 0 <= i < r@.len() ==> lists_bucket(#[trigger] r@[i], self.view().ranking[i], self.view()),
    {
        let wanted: u64 = match limit {
            Some(l) => l,
            None => 10,
        };
        let len = self.ledger.ranking.len();
        let n: usize = if (wanted as u128) < (len as u128) {
            wanted as usize
        } else {
            len
        };
        let ghost rv = self.view().ranking;
        let mut out: Vec<(u128, Vec<(String, Option<String>)>)> = Vec::new();
        let mut i: usize = 0;
        while i < n
            invariant
                self.wf(),
                rv == self.view().ranking,
                n <= self.ledger.ranking@.len(),
                rv.len() == self.ledger.ranking@.len(),
                i <= n,
                out@.len() == i,
                forall|j: int| 0 <= j < i ==> lists_bucket(#[trigger] out@[j], rv[j], self.view()),
            decreases n - i,
        {
            let bucket = &self.ledger.ranking[i];
            let ghost b = rv[i as int];
            assert(b == bucket.view());
            let mut members: Vec<(String, Option<String>)> = Vec::new();
            let mut k: usize = 0;
            while k < bucket.token_ids.len()
                invariant
                    self.wf(),
                    b == bucket.view(),
                    k <= bucket.token_ids@.len(),
                    members@.len() == k,
                    forall|q: int|
                        0 <= q < k ==> (#[trigger] members@[q]).0@ == b.1[q] && opt_view(members@[q].1)
                            == staker_opt(self.view(), b.1[q]),
                decreases bucket.token_ids@.len() - k,
            {
                let t = bucket.token_ids[k].clone();
                let staker = self.registry.staker_of(&t);
                members.push((t, staker));
                k = k + 1;
            }
            out.push((bucket.score, members));
            i = i + 1;
        }
        out
    }
}

/// `after` follows `before` by one recording, of some amount for some
/// position.
pub open spec fn records_some(before: RewarderView, after: RewarderView) -> bool {
    exists|t: Seq<char>, amount: u128| #[trigger] recorded_amount(before, after, t, amount)
}

/// A recording never lowers any position's score.
pub proof fn lemma_record_keeps_scores(before: RewarderView, after: RewarderView, t: Seq<char>, amount: u128, p: Seq<char>)
    requires
        recorded_amount(before, after, t, amount),
    ensures
        score_in(before.scores, p) <= score_in(after.scores, p),
{
}

/// Along any run of score recordings, every position's score only grows.
pub proof fn lemma_scores_never_decrease(states: Seq<RewarderView>, p: Seq<char>)
    requires
        forall|i: int| 0 <= i < states.len() - 1 ==> #[trigger] records_some(states[i], states[i + 1]),
    ensures
        forall|i: int, j: int|
            0 <= i <= j < states.len() ==> score_in(#[trigger] states[i].scores, p) <= score_in(
                #[trigger] states[j].scores,
                p,
            ),
    decreases states.len(),
{
    if states.len() > 1 {
        let prefix = states.drop_last();
        assert forall|i: int| 0 <= i < prefix.len() - 1 implies #[trigger] records_some(prefix[i], prefix[i + 1]) by {
            assert(prefix[i] == states[i] && prefix[i + 1] == states[i + 1]);
            assert(records_some(states[i], states[i + 1]));
        }
        lemma_scores_never_decrease(prefix, p);
        let last = states.len() - 1;
        let before_last = last - 1;
        assert(records_some(states[before_last], states[before_last + 1]));
        let (t, amount) = choose|t: Seq<char>, amount: u128| #[trigger] recorded_amount(states[last - 1], states[last], t, amount);
        lemma_record_keeps_scores(states[last - 1], states[last], t, amount, p);
        assert forall|i: int, j: int|
            0 <= i <= j < states.len() implies score_in(#[trigger] states[i].scores, p) <= score_in(
                #[trigger] states[j].scores,
                p,
            ) by {
            if j < last {
                assert(prefix[i] == states[i] && prefix[j] == states[j]);
            } else if i < last {
                assert(prefix[i] == states[i] && prefix[last - 1] == states[last - 1]);
            }
        }
    }
}

impl Contract {
    /// In every well-formed state, and so after every operation, the ranking
    /// is consistent with the scores.
    pub proof fn lemma_ranking_consistent(&self)
        requires
            self.wf(),
        ensures
            ranking_consistent(self.view()),
    {
        let s = self.view();
        assert forall|i: int, p: Seq<char>|
            0 <= i < s.ranking.len() implies (#[trigger] s.ranking[i].1.contains(p) <==> s.scores.contains_key(p)
                && s.scores[p] == s.ranking[i].0) by {
            if s.ranking[i].1.contains(p) {
                let k = choose|k: int| 0 <= k < s.ranking[i].1.len() && s.ranking[i].1[k] == p;
                assert(s.ranking[i].1[k] == p);
            }
            if s.scores.contains_key(p) && s.scores[p] == s.ranking[i].0 {
                let j = choose|j: int| 0 <= j < s.ranking.len() && s.ranking[j].0 == s.scores[p] && #[trigger] s.ranking[j].1.contains(p);
                if j < i {
                    assert(s.ranking[j].0 > s.ranking[i].0);
                } else if i < j {
                    assert(s.ranking[i].0 > s.ranking[j].0);
                }
            }
        }
        assert forall|p: Seq<char>|
            #[trigger] s.scores.contains_key(p) implies exists|i: int| 0 <= i < s.ranking.len() && s.ranking[i].0 == s.scores[p] by {
            let j = choose|j: int| 0 <= j < s.ranking.len() && s.ranking[j].0 == s.scores[p] && #[trigger] s.ranking[j].1.contains(p);
        }
    }

    /// In every well-formed state, and so after every operation, the total
    /// score is the sum of the scores of all positions: each bucket's score
    /// once per position in it, every scored position standing in exactly
    /// one bucket.
    pub proof fn lemma_total_is_sum(&self)
        requires
            self.wf(),
        ensures
            self.view().total_score == rank_total(self.view().ranking),
            ranking_consistent(self.view()),
    {
        self.lemma_ranking_consistent();
    }

    /// In every well-formed state, and so after every operation, an account
    /// has at most one primary position, staked by that account.
    pub proof fn lemma_ownership_exclusive(&self)
        requires
            self.wf(),
        ensures
            ownership_exclusive(self.view()),
    {
        self.registry.lemma_mutual();
    }
}

} // verus!
