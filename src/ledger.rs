//! The score ledger: a score per position, the ranking index over those
//! scores, and the sum of all scores.

use vstd::prelude::*;
use crate::error::ContractError;
use crate::keyed::KeyedList;
use crate::ranking::{
    bucket_after_move, bucket_at, ids_of, insert_position, rank_total, ranking_of, ranks, remove_position, Bucket,
    BucketView,
};

verus! {

pub struct ScoreLedger {
    pub scores: KeyedList<u128>,
    pub ranking: Vec<Bucket>,
    pub total_score: u128,
}

/// The score of `t` in `m`; a position never scored has score zero.
pub open spec fn score_in(m: Map<Seq<char>, u128>, t: Seq<char>) -> u128 {
    if m.contains_key(t) {
        m[t]
    } else {
        0
    }
}

/// The score of `t` in `m`, where it has one.
pub open spec fn score_opt(m: Map<Seq<char>, u128>, t: Seq<char>) -> Option<u128> {
    if m.contains_key(t) {
        Some(m[t])
    } else {
        None
    }
}

impl ScoreLedger {
    pub open spec fn scores_view(&self) -> Map<Seq<char>, u128> {
        self.scores.view()
    }

    pub open spec fn ranking_view(&self) -> Seq<BucketView> {
        ranking_of(self.ranking@)
    }

    pub open spec fn wf(&self) -> bool {
        &&& self.scores.wf()
        &&& ranks(self.ranking_view(), self.scores_view())
        &&& self.total_score == rank_total(self.ranking_view())
    }

    pub fn new() -> (r: Self)
        ensures
            r.wf(),
            r.scores_view() == Map::<Seq<char>, u128>::empty(),
            r.ranking_view() == Seq::<BucketView>::empty(),
            r.total_score == 0,
    {
        let r = ScoreLedger { scores: KeyedList::new(), ranking: Vec::new(), total_score: 0 };
        assert(r.ranking_view() =~= Seq::<BucketView>::empty());
        r
    }

    pub fn score_of(&self, t: &String) -> (r: u128)
        requires
            self.wf(),
        ensures
            r == score_in(self.scores_view(), t@),
    {
        match self.scores.get(t) {
            Some(v) => v,
            None => 0,
        }
    }

    /// Adds `amount` to the score of `t` and to the total, and moves `t` to
    /// the end of the bucket of its new score. Returns the new score.
    pub fn record(&mut self, t: String, amount: u128) -> (r: Result<u128, ContractError>)
        requires
            old(self).wf(),
        ensures
            final(self).wf(),
            r is Err <==> score_in(old(self).scores_view(), t@) + amount > u128::MAX
                || old(self).total_score + amount > u128::MAX,
            r matches Err(e) ==> e == ContractError::ArithmeticOverflow && *final(self) == *old(self),
            r matches Ok(v) ==> {
                &&& v == score_in(old(self).scores_view(), t@) + amount
                &&& final(self).scores_view() == old(self).scores_view().insert(t@, v)
                &&& final(self).total_score == old(self).total_score + amount
                &&& forall|s: u128|
                    #[trigger] bucket_at(final(self).ranking_view(), s) == bucket_after_move(
                        old(self).ranking_view(),
                        s,
                        t@,
                        score_opt(old(self).scores_view(), t@),
                        v,
                    )
            },
    {
        let previous = self.scores.get(&t);
        let current: u128 = match previous {
            Some(v) => v,
            None => 0,
        };
        let updated = match current.checked_add(amount) {
            Some(v) => v,
            None => return Err(ContractError::ArithmeticOverflow),
        };
        let total = match self.total_score.checked_add(amount) {
            Some(v) => v,
            None => return Err(ContractError::ArithmeticOverflow),
        };
        let ghost m0 = self.scores_view();
        let ghost r0 = self.ranking_view();
        let ghost m1: Map<Seq<char>, u128>;
        if previous.is_some() {
            remove_position(&mut self.ranking, current, &t, Ghost(m0));
            proof {
                m1 = m0.remove(t@);
            }
        } else {
            proof {
                m1 = m0;
            }
        }
        let ghost r1 = self.ranking_view();
        insert_position(&mut self.ranking, updated, t.clone(), Ghost(m1));
        self.scores.insert(t, updated);
        self.total_score = total;
        proof {
            assert(m1.insert(t@, updated) =~= m0.insert(t@, updated));
            assert forall|s: u128|
                #[trigger] bucket_at(self.ranking_view(), s) == bucket_after_move(r0, s, t@, score_opt(m0, t@), updated)
            by {
                assert(bucket_at(self.ranking_view(), s) == if s == updated { bucket_at(r1, s).push(t@) } else { bucket_at(r1, s) });
            }
        }
        Ok(updated)
    }
    /// The ranking buckets, highest score first, each with its positions.
    pub fn buckets(&self) -> (r: Vec<(u128, Vec<String>)>)
        ensures
            r@.len() == self.ranking_view().len(),
            forall|i: int|
                0 <= i < r@.len() ==> ((#[trigger] r@[i]).0, ids_of(r@[i].1@)) == self.ranking_view()[i],
    {
        let mut out: Vec<(u128, Vec<String>)> = Vec::new();
        let mut i: usize = 0;
        while i < self.ranking.len()
            invariant
                i <= self.ranking@.len(),
                out@.len() == i,
                forall|j: int|
                    0 <= j < i ==> ((#[trigger] out@[j]).0, ids_of(out@[j].1@)) == self.ranking_view()[j],
            decreases self.ranking@.len() - i,
        {
            let bucket = &self.ranking[i];
            let mut ids: Vec<String> = Vec::new();
            let mut k: usize = 0;
            while k < bucket.token_ids.len()
                invariant
                    k <= bucket.token_ids@.len(),
                    ids@.len() == k,
                    forall|q: int| 0 <= q < k ==> (#[trigger] ids@[q])@ == bucket.token_ids@[q]@,
                decreases bucket.token_ids@.len() - k,
            {
                ids.push(bucket.token_ids[k].clone());
                k = k + 1;
            }
            proof {
                assert(ids_of(ids@) =~= ids_of(bucket.token_ids@));
                assert(self.ranking_view()[i as int] == bucket.view());
            }
            out.push((bucket.score, ids));
            i = i + 1;
        }
        out
    }
}

} // verus!
