//! The cross-farm bonus: a claim queries the claimer's staked balance on
//! three external farms, turns each balance into a bonus on a square-root
//! curve with a floor and a cap, and forwards the sum to the rewarder as a
//! score for the claimer's primary position. Claims are spaced by a cooldown.
//!
//! A claim runs in two halves around the platform's queries:
//! `claim_ref_memeseason` checks the cooldown and says what to query, and
//! `on_claim_ref_memeseason` takes the answers, settles the checkpoint and
//! says what score to forward.

use vstd::prelude::*;
use vstd::arithmetic::power::{lemma_pow_positive, pow};
use crate::error::ContractError;
use crate::keyed::KeyedList;
use crate::wide::{
    bound128, bound256, isqrt, lemma_isqrt_unique, lemma_product_bound, lemma_root_bound,
    wide_checked_div, wide_checked_mul, wide_exp10, wide_isqrt, Wide,
};

verus! {

/// The minimum time between two claims of one account, in nanoseconds.
pub const INTERVAL: u64 = 60 * 60 * 16 * 1_000_000_000;

/// 10^24, the scale of the bonus curve's `factor`.
pub const ONE_NEAR: u128 = 1_000_000_000_000_000_000_000_000;

/// The storage prefixes of the bonus contract's persistent collections.
#[derive(Clone, Copy, Debug, PartialEq, Eq, Structural)]
pub enum StorageKey {
    Checkpoint,
}

impl StorageKey {
    /// The one-byte prefix under which the collection is stored.
    pub fn prefix(&self) -> (r: u8)
        ensures
            r == 0,
    {
        match self {
            StorageKey::Checkpoint => 0,
        }
    }
}

/// A farm's answer to a balance query: the claimer's free staked amount.
#[derive(Clone, Copy, Debug, Default, PartialEq, Eq)]
pub struct FarmerSeed {
    pub free_amount: u128,
}

/// How one farm's staked balance becomes a bonus: the farm and seed to
/// query, and the curve `min(base + sqrt(balance * 10^decimals) * 10^24
/// / factor / 10^(decimals - 18), cap)`.
#[derive(Clone, Debug, PartialEq, Eq)]
pub struct FarmConfig {
    pub farm_id: String,
    pub seed_id: String,
    pub factor: u128,
    pub base: u128,
    pub cap: u128,
    pub decimals: u8,
}

pub struct FarmConfigView {
    pub farm_id: Seq<char>,
    pub seed_id: Seq<char>,
    pub factor: u128,
    pub base: u128,
    pub cap: u128,
    pub decimals: u8,
}

impl FarmConfig {
    pub open spec fn view(&self) -> FarmConfigView {
        FarmConfigView {
            farm_id: self.farm_id@,
            seed_id: self.seed_id@,
            factor: self.factor,
            base: self.base,
            cap: self.cap,
            decimals: self.decimals,
        }
    }

    fn copy(&self) -> (r: FarmConfig)
        ensures
            r.view() == self.view(),
    {
        FarmConfig {
            farm_id: self.farm_id.clone(),
            seed_id: self.seed_id.clone(),
            factor: self.factor,
            base: self.base,
            cap: self.cap,
            decimals: self.decimals,
        }
    }
}

/// The configurations of the three farms.
pub struct FarmConfigs {
    pub xref: FarmConfig,
    pub shitzu: FarmConfig,
    pub lp: FarmConfig,
}

/// A farm to ask for the claimer's balance.
#[derive(Clone, Debug, PartialEq, Eq)]
pub struct FarmQuery {
    pub farm_id: String,
    pub seed_id: String,
}

/// What the platform must do for a claim: ask `rewarder` for the primary
/// position of `claimer` and each farm for its balance, all at once, then
/// hand the answers, by farm, to `on_claim_ref_memeseason`.
#[derive(Clone, Debug, PartialEq, Eq)]
pub struct ClaimRequest {
    pub claimer: String,
    pub rewarder: String,
    pub xref: FarmQuery,
    pub shitzu: FarmQuery,
    pub lp: FarmQuery,
}

/// The score to forward to the rewarder's `on_track_score` for a claim.
#[derive(Clone, Debug, PartialEq, Eq)]
pub struct ScoreTrack {
    pub rewarder: String,
    pub token_id: String,
    pub amount: u128,
}

/// The curve can be evaluated: the decimals lie between 18 and 77, the
/// factor is positive, and the scaled balance fits 256 bits.
pub open spec fn score_computable(amount: u128, c: FarmConfigView) -> bool {
    &&& 18 <= c.decimals <= 77
    &&& c.factor > 0
    &&& amount * pow(10, c.decimals as nat) < bound256()
}

/// The curve before the cap: `base + sqrt(balance * 10^decimals) * 10^24
/// / factor / 10^(decimals - 18)`, each division truncating.
pub open spec fn bonus_raw(amount: u128, c: FarmConfigView) -> int {
    c.base + isqrt((amount * pow(10, c.decimals as nat)) as nat) * ONE_NEAR / (c.factor as int) / pow(
        10,
        (c.decimals - 18) as nat,
    )
}

/// The bonus of a staked `amount`: the curve, capped at `cap`.
pub open spec fn bonus_score(amount: u128, c: FarmConfigView) -> int {
    let raw = bonus_raw(amount, c);
    if raw < c.cap {
        raw
    } else {
        c.cap as int
    }
}

/// A farm's contribution to a claim: its bonus, or zero where its query
/// failed.
pub open spec fn contribution(seed: Option<FarmerSeed>, c: FarmConfigView) -> int {
    match seed {
        Some(s) => bonus_score(s.free_amount, c),
        None => 0,
    }
}

pub open spec fn contribution_computable(seed: Option<FarmerSeed>, c: FarmConfigView) -> bool {
    match seed {
        Some(s) => score_computable(s.free_amount, c),
        None => true,
    }
}

/// `now` lies more than `INTERVAL` past the last claim of `a`, or `a` never
/// claimed.
pub open spec fn may_claim(checkpoints: Map<Seq<char>, u64>, a: Seq<char>, now: u64) -> bool {
    !checkpoints.contains_key(a) || now - checkpoints[a] > INTERVAL
}

/// No account occurs in two of the pairs.
pub open spec fn checkpoints_distinct(v: Seq<(String, u64)>) -> bool {
    forall|i: int, j: int| 0 <= i < v.len() && 0 <= j < v.len() && i != j ==> (#[trigger] v[i]).0@ != (#[trigger] v[j]).0@
}

/// The bonus contract's state as contracts see it.
pub struct MemeseasonView {
    pub rewarder: Seq<char>,
    pub xref: FarmConfigView,
    pub shitzu: FarmConfigView,
    pub lp: FarmConfigView,
    /// The time of each account's last successful claim.
    pub checkpoints: Map<Seq<char>, u64>,
}

/// The bonus contract's state as plain values, for keeping it between calls.
#[derive(Clone, Debug, PartialEq, Eq)]
pub struct MemeseasonSnapshot {
    pub rewarder: String,
    pub xref: FarmConfig,
    pub shitzu: FarmConfig,
    pub lp: FarmConfig,
    /// (account, time of its last claim) for each account that claimed.
    pub checkpoints: Vec<(String, u64)>,
}

pub struct Contract {
    rewarder: String,
    configs: FarmConfigs,
    checkpoint: KeyedList<u64>,
}

impl Contract {
    pub closed spec fn view(&self) -> MemeseasonView {
        MemeseasonView {
            rewarder: self.rewarder@,
            xref: self.configs.xref.view(),
            shitzu: self.configs.shitzu.view(),
            lp: self.configs.lp.view(),
            checkpoints: self.checkpoint.view(),
        }
    }

    pub closed spec fn wf(&self) -> bool {
        self.checkpoint.wf()
    }

    pub fn new(rewarder: String, xref: FarmConfig, shitzu: FarmConfig, lp: FarmConfig) -> (r: Self)
        ensures
            r.wf(),
            r.view() == (MemeseasonView {
                rewarder: rewarder@,
                xref: xref.view(),
                shitzu: shitzu.view(),
                lp: lp.view(),
                checkpoints: Map::empty(),
            }),
    {
        Contract { rewarder, configs: FarmConfigs { xref, shitzu, lp }, checkpoint: KeyedList::new() }
    }

    /// Replaces the three farm configurations at once. Only the contract's
    /// own account may; fails with `Unauthorized`, changing nothing,
    /// otherwise.
    pub fn change_farm_configs(
        &mut self,
        caller: &String,
        current_account_id: &String,
        xref: FarmConfig,
        shitzu: FarmConfig,
        lp: FarmConfig,
    ) -> (r: Result<(), ContractError>)
        requires
            old(self).wf(),
        ensures
            final(self).wf(),
            r is Err <==> caller@ != current_account_id@,
            r matches Err(e) ==> e == ContractError::Unauthorized && final(self).view() == old(self).view(),
            r is Ok ==> final(self).view() == (MemeseasonView {
                xref: xref.view(),
                shitzu: shitzu.view(),
                lp: lp.view(),
                ..old(self).view()
            }),
    {
        if *caller != *current_account_id {
            return Err(ContractError::Unauthorized);
        }
        self.configs = FarmConfigs { xref, shitzu, lp };
        Ok(())
    }

    /// The bonus of a staked `amount` under `config`. Fails with
    /// `ArithmeticOverflow` where the curve cannot be evaluated: decimals
    /// outside 18 to 77, a zero factor, or a scaled balance beyond 256 bits.
    pub fn internal_calculate_staking_score(&self, amount: u128, config: &FarmConfig) -> (r: Result<u128, ContractError>)
        ensures
            r is Ok <==> score_computable(amount, config.view()),
            r matches Ok(v) ==> v == bonus_score(amount, config.view()),
            r matches Err(e) ==> e == ContractError::ArithmeticOverflow,
    {
        if config.decimals < 18 || config.decimals > 77 || config.factor == 0 {
            return Err(ContractError::ArithmeticOverflow);
        }
        let ghost d = config.decimals as nat;
        let scale = wide_exp10(config.decimals as usize);
        let scaled = match wide_checked_mul(Wide::from_u128(amount), scale) {
            Some(v) => v,
            None => return Err(ContractError::ArithmeticOverflow),
        };
        let root = wide_isqrt(scaled);
        proof {
            lemma_isqrt_unique(root.value(), scaled.value());
            lemma_root_bound(root.value(), scaled.value());
            lemma_product_bound(root.value(), ONE_NEAR as nat);
        }
        let grown = wide_checked_mul(root, Wide::from_u128(ONE_NEAR)).unwrap();
        let per_factor = wide_checked_div(grown, Wide::from_u128(config.factor)).unwrap();
        let shift = wide_exp10((config.decimals - 18) as usize);
        proof {
            lemma_pow_positive(10, (d - 18) as nat);
        }
        let curve = wide_checked_div(per_factor, shift).unwrap();
        proof {
            assert(curve.value() == isqrt((amount * pow(10, d)) as nat) * ONE_NEAR / (config.factor as int) / pow(10, (d - 18) as nat));
        }
        let total = match curve.to_u128() {
            Some(v) => config.base.checked_add(v),
            None => None,
        };
        match total {
            Some(v) => {
                if v < config.cap {
                    Ok(v)
                } else {
                    Ok(config.cap)
                }
            },
            None => Ok(config.cap),
        }
    }

    fn contribution_of(&self, seed: Option<FarmerSeed>, config: &FarmConfig) -> (r: Result<u128, ContractError>)
        ensures
            r is Ok <==> contribution_computable(seed, config.view()),
            r matches Ok(v) ==> v == contribution(seed, config.view()),
            r matches Err(e) ==> e == ContractError::ArithmeticOverflow,
    {
        match seed {
            Some(s) => self.internal_calculate_staking_score(s.free_amount, config),
            None => Ok(0),
        }
    }

    /// Starts a claim by `caller` at time `now`: returns the queries to make.
    /// Fails with `TooSoon` where the caller's last claim lies `INTERVAL` or
    /// less before `now`.
    pub fn claim_ref_memeseason(&self, caller: &String, now: u64) -> (r: Result<ClaimRequest, ContractError>)
        requires
            self.wf(),
        ensures
            r is Err <==> !may_claim(self.view().checkpoints, caller@, now),
            r matches Err(e) ==> e == ContractError::TooSoon,
            r matches Ok(q) ==> {
                &&& q.claimer@ == caller@
                &&& q.rewarder@ == self.view().rewarder
                &&& q.xref.farm_id@ == self.view().xref.farm_id && q.xref.seed_id@ == self.view().xref.seed_id
                &&& q.shitzu.farm_id@ == self.view().shitzu.farm_id && q.shitzu.seed_id@ == self.view().shitzu.seed_id
                &&& q.lp.farm_id@ == self.view().lp.farm_id && q.lp.seed_id@ == self.view().lp.seed_id
            },
    {
        if !self.cooled_down(caller, now) {
            return Err(ContractError::TooSoon);
        }
        Ok(ClaimRequest {
            claimer: caller.clone(),
            rewarder: self.rewarder.clone(),
            xref: FarmQuery { farm_id: self.configs.xref.farm_id.clone(), seed_id: self.configs.xref.seed_id.clone() },
            shitzu: FarmQuery { farm_id: self.configs.shitzu.farm_id.clone(), seed_id: self.configs.shitzu.seed_id.clone() },
            lp: FarmQuery { farm_id: self.configs.lp.farm_id.clone(), seed_id: self.configs.lp.seed_id.clone() },
        })
    }

    fn cooled_down(&self, account: &String, now: u64) -> (r: bool)
        requires
            self.wf(),
        ensures
            r == may_claim(self.view().checkpoints, account@, now),
    {
        match self.checkpoint.get(account) {
            Some(last) => now > last && now - last > INTERVAL,
            None => true,
        }
    }

    /// Finishes the claim of `claimer` at time `now` with the answers to its
    /// queries: the claimer's primary position, and each farm's balance
    /// (`None` where the query failed, which counts as zero). Sets the
    /// claimer's checkpoint to `now` and returns the sum of the three
    /// contributions to forward for the position. Fails, changing nothing,
    /// with `NoPrimaryPosition` where the claimer has no position, with
    /// `TooSoon` where another claim has completed within the cooldown
    /// meanwhile, and with `ArithmeticOverflow` where a contribution cannot
    /// be evaluated or the sum does not fit.
    pub fn on_claim_ref_memeseason(
        &mut self,
        claimer: String,
        primary_nft: Option<(String, u128)>,
        xref: Option<FarmerSeed>,
        shitzu: Option<FarmerSeed>,
        lp: Option<FarmerSeed>,
        now: u64,
    ) -> (r: Result<ScoreTrack, ContractError>)
        requires
            old(self).wf(),
        ensures
            final(self).wf(),
            r matches Err(e) ==> final(self).view() == old(self).view() && (e == ContractError::NoPrimaryPosition
                || e == ContractError::TooSoon || e == ContractError::ArithmeticOverflow),
            primary_nft is Some && may_claim(old(self).view().checkpoints, claimer@, now)
                && contribution_computable(xref, old(self).view().xref)
                && contribution_computable(shitzu, old(self).view().shitzu)
                && contribution_computable(lp, old(self).view().lp)
                && contribution(xref, old(self).view().xref) + contribution(shitzu, old(self).view().shitzu)
                    + contribution(lp, old(self).view().lp) <= u128::MAX ==> r is Ok,
            primary_nft is None <==> r == Err::<ScoreTrack, ContractError>(ContractError::NoPrimaryPosition),
            primary_nft is Some ==> (r == Err::<ScoreTrack, ContractError>(ContractError::TooSoon)
                <==> !may_claim(old(self).view().checkpoints, claimer@, now)),
            primary_nft is Some && may_claim(old(self).view().checkpoints, claimer@, now) ==> (
                r == Err::<ScoreTrack, ContractError>(ContractError::ArithmeticOverflow) <==> !(
                    contribution_computable(xref, old(self).view().xref)
                    && contribution_computable(shitzu, old(self).view().shitzu)
                    && contribution_computable(lp, old(self).view().lp)
                    && contribution(xref, old(self).view().xref) + contribution(shitzu, old(self).view().shitzu)
                        + contribution(lp, old(self).view().lp) <= u128::MAX)),
            r matches Ok(t) ==> {
                &&& primary_nft matches Some(p) && t.token_id@ == p.0@
                &&& t.rewarder@ == old(self).view().rewarder
                &&& t.amount == contribution(xref, old(self).view().xref) + contribution(shitzu, old(self).view().shitzu)
                    + contribution(lp, old(self).view().lp)
                &&& final(self).view() == (MemeseasonView {
                    checkpoints: old(self).view().checkpoints.insert(claimer@, now),
                    ..old(self).view()
                })
            },
    {
        let token_id = match primary_nft {
            Some(p) => p.0,
            None => return Err(ContractError::NoPrimaryPosition),
        };
        if !self.cooled_down(&claimer, now) {
            return Err(ContractError::TooSoon);
        }
        let xref_score = match self.contribution_of(xref, &self.configs.xref) {
            Ok(v) => v,
            Err(e) => return Err(e),
        };
        let shitzu_score = match self.contribution_of(shitzu, &self.configs.shitzu) {
            Ok(v) => v,
            Err(e) => return Err(e),
        };
        let lp_score = match self.contribution_of(lp, &self.configs.lp) {
            Ok(v) => v,
            Err(e) => return Err(e),
        };
        let amount = match xref_score.checked_add(shitzu_score) {
            Some(v) => match v.checked_add(lp_score) {
                Some(w) => w,
                None => return Err(ContractError::ArithmeticOverflow),
            },
            None => return Err(ContractError::ArithmeticOverflow),
        };
        self.checkpoint.insert(claimer, now);
        Ok(ScoreTrack { rewarder: self.rewarder.clone(), token_id, amount })
    }

    /// The state as plain values.
    pub fn snapshot(&self) -> (r: MemeseasonSnapshot)
        requires
            self.wf(),
        ensures
            r.rewarder@ == self.view().rewarder,
            r.xref.view() == self.view().xref,
            r.shitzu.view() == self.view().shitzu,
            r.lp.view() == self.view().lp,
            forall|i: int|
                0 <= i < r.checkpoints@.len() ==> self.view().checkpoints.contains_key((#[trigger] r.checkpoints@[i]).0@)
                    && self.view().checkpoints[r.checkpoints@[i].0@] == r.checkpoints@[i].1,
            forall|a: Seq<char>|
                #[trigger] self.view().checkpoints.contains_key(a) ==> exists|i: int|
                    0 <= i < r.checkpoints@.len() && (#[trigger] r.checkpoints@[i]).0@ == a,
    {
        let entries = &self.checkpoint.entries;
        let mut out: Vec<(String, u64)> = Vec::new();
        let mut i: usize = 0;
        while i < entries.len()
            invariant
                self.wf(),
                *entries == self.checkpoint.entries,
                i <= entries@.len(),
                out@.len() == i,
                forall|j: int|
                    0 <= j < i ==> (#[trigger] out@[j]).0@ == entries@[j].key@ && out@[j].1 == entries@[j].value,
            decreases entries@.len() - i,
        {
            out.push((entries[i].key.clone(), entries[i].value));
            i = i + 1;
        }
        proof {
            assert forall|j: int|
                0 <= j < out@.len() implies self.view().checkpoints.contains_key((#[trigger] out@[j]).0@)
                    && self.view().checkpoints[out@[j].0@] == out@[j].1 by {
                self.checkpoint.lemma_entry(j);
            }
            assert forall|a: Seq<char>|
                #[trigger] self.view().checkpoints.contains_key(a) implies exists|j: int|
                    0 <= j < out@.len() && (#[trigger] out@[j]).0@ == a by {
                let j = choose|j: int| 0 <= j < entries@.len() && #[trigger] entries@[j].key@ == a;
                assert(out@[j].0@ == a);
            }
        }
        let ghost listed = out@;
        let r = MemeseasonSnapshot {
            rewarder: self.rewarder.clone(),
            xref: self.configs.xref.copy(),
            shitzu: self.configs.shitzu.copy(),
            lp: self.configs.lp.copy(),
            checkpoints: out,
        };
        assert(r.checkpoints@ == listed);
        r
    }

    /// Rebuilds a contract from a snapshot. Returns `None` where an account
    /// has two checkpoints.
    pub fn restore(s: MemeseasonSnapshot) -> (r: Option<Contract>)
        ensures
            checkpoints_distinct(s.checkpoints@) ==> r is Some,
            r matches Some(c) ==> {
                &&& c.wf()
                &&& c.view().rewarder == s.rewarder@
                &&& c.view().xref == s.xref.view()
                &&& c.view().shitzu == s.shitzu.view()
                &&& c.view().lp == s.lp.view()
                &&& forall|i: int|
                    0 <= i < s.checkpoints@.len() ==> c.view().checkpoints.contains_key((#[trigger] s.checkpoints@[i]).0@)
                        && c.view().checkpoints[s.checkpoints@[i].0@] == s.checkpoints@[i].1
                &&& forall|a: Seq<char>|
                    #[trigger] c.view().checkpoints.contains_key(a) ==> exists|i: int|
                        0 <= i < s.checkpoints@.len() && (#[trigger] s.checkpoints@[i]).0@ == a
            },
    {
        let mut c = Contract::new(s.rewarder, s.xref, s.shitzu, s.lp);
        let ghost first = c.view();
        let checkpoints = s.checkpoints;
        let mut i: usize = 0;
        while i < checkpoints.len()
            invariant
                c.wf(),
                checkpoints@ == s.checkpoints@,
                i <= checkpoints@.len(),
                c.view() == (MemeseasonView { checkpoints: c.view().checkpoints, ..first }),
                forall|j: int|
                    0 <= j < i ==> c.view().checkpoints.contains_key((#[trigger] checkpoints@[j]).0@)
                        && c.view().checkpoints[checkpoints@[j].0@] == checkpoints@[j].1,
                forall|a: Seq<char>|
                    #[trigger] c.view().checkpoints.contains_key(a) ==> exists|j: int|
                        0 <= j < i && (#[trigger] checkpoints@[j]).0@ == a,
            decreases checkpoints@.len() - i,
        {
            let account = checkpoints[i].0.clone();
            if c.checkpoint.get(&account).is_some() {
                proof {
                    let j = choose|j: int| 0 <= j < i && (#[trigger] checkpoints@[j]).0@ == account@;
                    assert(!checkpoints_distinct(checkpoints@));
                }
                return None;
            }
            c.checkpoint.insert(account, checkpoints[i].1);
            proof {
                assert forall|a: Seq<char>|
                    #[trigger] c.view().checkpoints.contains_key(a) implies exists|j: int|
                        0 <= j < i + 1 && (#[trigger] checkpoints@[j]).0@ == a by {
                    if a != checkpoints@[i as int].0@ {
                        let j = choose|j: int| 0 <= j < i && (#[trigger] checkpoints@[j]).0@ == a;
                    }
                }
            }
            i = i + 1;
        }
        Some(c)
    }

    /// The time of the last successful claim of `account_id`, if any.
    pub fn get_user_checkpoint(&self, account_id: String) -> (r: Option<u64>)
        requires
            self.wf(),
        ensures
            r is None <==> !self.view().checkpoints.contains_key(account_id@),
            r matches Some(t) ==> t == self.view().checkpoints[account_id@],
    {
        self.checkpoint.get(&account_id)
    }

    /// The three farm configurations.
    pub fn get_farm_configs(&self) -> (r: (FarmConfig, FarmConfig, FarmConfig))
        ensures
            r.0.view() == self.view().xref,
            r.1.view() == self.view().shitzu,
            r.2.view() == self.view().lp,
    {
        (self.configs.xref.copy(), self.configs.shitzu.copy(), self.configs.lp.copy())
    }
}

/// Once a claim of `a` has completed at `t1`, a claim of `a` at a time `t2`
/// no more than `INTERVAL` later is refused.
pub proof fn lemma_cooldown_enforced(before: MemeseasonView, after: MemeseasonView, a: Seq<char>, t1: u64, t2: u64)
    requires
        after.checkpoints == before.checkpoints.insert(a, t1),
        t2 - t1 <= INTERVAL,
    ensures
        !may_claim(after.checkpoints, a, t2),
{
}

/// A zero balance earns exactly the base, where the base lies within the
/// cap.
pub proof fn lemma_bonus_at_zero(c: FarmConfigView)
    requires
        score_computable(0, c),
        c.base <= c.cap,
    ensures
        bonus_score(0, c) == c.base,
{
    assert(isqrt(0) == 0);
    lemma_pow_positive(10, (c.decimals - 18) as nat);
    assert(0 * ONE_NEAR / (c.factor as int) == 0);
    assert(0int / pow(10, (c.decimals - 18) as nat) == 0);
}

/// Where the curve reaches the cap, the bonus is exactly the cap.
pub proof fn lemma_bonus_capped(amount: u128, c: FarmConfigView)
    requires
        bonus_raw(amount, c) >= c.cap,
    ensures
        bonus_score(amount, c) == c.cap,
{
}

} // verus!
