//! The stake registry: which account has which position staked. Each binding
//! is held once, so the account-to-position and position-to-account views
//! always change together.

use vstd::prelude::*;

verus! {

pub struct Stake {
    pub account_id: String,
    pub token_id: String,
}

pub struct StakeRegistry {
    pub stakes: Vec<Stake>,
}

impl StakeRegistry {
    /// No account and no position occurs in two bindings.
    pub open spec fn wf(&self) -> bool {
        &&& forall|i: int, j: int|
            0 <= i < self.stakes@.len() && 0 <= j < self.stakes@.len() && i != j
                ==> #[trigger] self.stakes@[i].account_id@ != #[trigger] self.stakes@[j].account_id@
        &&& forall|i: int, j: int|
            0 <= i < self.stakes@.len() && 0 <= j < self.stakes@.len() && i != j
                ==> #[trigger] self.stakes@[i].token_id@ != #[trigger] self.stakes@[j].token_id@
    }

    pub open spec fn binds(&self, a: Seq<char>, t: Seq<char>) -> bool {
        exists|i: int|
            0 <= i < self.stakes@.len() && #[trigger] self.stakes@[i].account_id@ == a
                && self.stakes@[i].token_id@ == t
    }

    /// Each staking account's primary position.
    pub open spec fn primary(&self) -> Map<Seq<char>, Seq<char>> {
        Map::new(
            |a: Seq<char>| exists|i: int| 0 <= i < self.stakes@.len() && #[trigger] self.stakes@[i].account_id@ == a,
            |a: Seq<char>|
                self.stakes@[choose|i: int|
                    0 <= i < self.stakes@.len() && #[trigger] self.stakes@[i].account_id@ == a].token_id@,
        )
    }

    /// Each staked position's staker.
    pub open spec fn stakers(&self) -> Map<Seq<char>, Seq<char>> {
        Map::new(
            |t: Seq<char>| exists|i: int| 0 <= i < self.stakes@.len() && #[trigger] self.stakes@[i].token_id@ == t,
            |t: Seq<char>|
                self.stakes@[choose|i: int|
                    0 <= i < self.stakes@.len() && #[trigger] self.stakes@[i].token_id@ == t].account_id@,
        )
    }

    pub proof fn lemma_binding(&self, i: int)
        requires
            self.wf(),
            0 <= i < self.stakes@.len(),
        ensures
            self.primary().contains_key(self.stakes@[i].account_id@),
            self.primary()[self.stakes@[i].account_id@] == self.stakes@[i].token_id@,
            self.stakers().contains_key(self.stakes@[i].token_id@),
            self.stakers()[self.stakes@[i].token_id@] == self.stakes@[i].account_id@,
    {
        let a = self.stakes@[i].account_id@;
        let t = self.stakes@[i].token_id@;
        assert(self.primary().contains_key(a));
        assert(self.stakers().contains_key(t));
        let j = choose|j: int| 0 <= j < self.stakes@.len() && #[trigger] self.stakes@[j].account_id@ == a;
        let k = choose|k: int| 0 <= k < self.stakes@.len() && #[trigger] self.stakes@[k].token_id@ == t;
        assert(i == j);
        assert(i == k);
    }

    /// An account's position and a position's staker name each other.
    pub proof fn lemma_mutual(&self)
        requires
            self.wf(),
        ensures
            forall|a: Seq<char>| #[trigger] self.primary().contains_key(a) ==> self.stakers().contains_key(self.primary()[a])
                && self.stakers()[self.primary()[a]] == a,
            forall|t: Seq<char>| #[trigger] self.stakers().contains_key(t) ==> self.primary().contains_key(self.stakers()[t])
                && self.primary()[self.stakers()[t]] == t,
            self.primary().dom().finite(),
            self.primary().dom().len() == self.stakes@.len(),
    {
        assert forall|a: Seq<char>| #[trigger] self.primary().contains_key(a) implies self.stakers().contains_key(self.primary()[a])
            && self.stakers()[self.primary()[a]] == a by {
            let i = choose|i: int| 0 <= i < self.stakes@.len() && #[trigger] self.stakes@[i].account_id@ == a;
            self.lemma_binding(i);
        }
        assert forall|t: Seq<char>| #[trigger] self.stakers().contains_key(t) implies self.primary().contains_key(self.stakers()[t])
            && self.primary()[self.stakers()[t]] == t by {
            let i = choose|i: int| 0 <= i < self.stakes@.len() && #[trigger] self.stakes@[i].token_id@ == t;
            self.lemma_binding(i);
        }
        self.lemma_count();
    }

    proof fn lemma_count(&self)
        requires
            self.wf(),
        ensures
            self.primary().dom().finite(),
            self.primary().dom().len() == self.stakes@.len(),
    {
        let accounts = self.stakes@.map_values(|s: Stake| s.account_id@);
        assert(accounts.no_duplicates());
        accounts.unique_seq_to_set();
        assert(self.primary().dom() =~= accounts.to_set()) by {
            assert forall|a: Seq<char>| self.primary().dom().contains(a) == accounts.to_set().contains(a) by {
                if self.primary().dom().contains(a) {
                    let i = choose|i: int| 0 <= i < self.stakes@.len() && #[trigger] self.stakes@[i].account_id@ == a;
                    assert(accounts[i] == a);
                }
                if accounts.to_set().contains(a) {
                    let i = choose|i: int| 0 <= i < accounts.len() && accounts[i] == a;
                    assert(self.stakes@[i].account_id@ == a);
                }
            }
        }
    }

    pub fn new() -> (r: Self)
        ensures
            r.wf(),
            r.primary() == Map::<Seq<char>, Seq<char>>::empty(),
            r.stakers() == Map::<Seq<char>, Seq<char>>::empty(),
            r.stakes@.len() == 0,
    {
        let r = StakeRegistry { stakes: Vec::new() };
        assert(r.primary() =~= Map::<Seq<char>, Seq<char>>::empty());
        assert(r.stakers() =~= Map::<Seq<char>, Seq<char>>::empty());
        r
    }

    fn index_of_account(&self, a: &String) -> (r: Option<usize>)
        requires
            self.wf(),
        ensures
            r is None <==> !self.primary().contains_key(a@),
            r matches Some(i) ==> i < self.stakes@.len() && self.stakes@[i as int].account_id@ == a@,
    {
        let mut i: usize = 0;
        while i < self.stakes.len()
            invariant
                self.wf(),
                i <= self.stakes@.len(),
                forall|j: int| 0 <= j < i ==> (#[trigger] self.stakes@[j]).account_id@ != a@,
            decreases self.stakes@.len() - i,
        {
            if self.stakes[i].account_id == *a {
                proof {
                    self.lemma_binding(i as int);
                }
                return Some(i);
            }
            i = i + 1;
        }
        None
    }

    fn index_of_token(&self, t: &String) -> (r: Option<usize>)
        requires
            self.wf(),
        ensures
            r is None <==> !self.stakers().contains_key(t@),
            r matches Some(i) ==> i < self.stakes@.len() && self.stakes@[i as int].token_id@ == t@,
    {
        let mut i: usize = 0;
        while i < self.stakes.len()
            invariant
                self.wf(),
                i <= self.stakes@.len(),
                forall|j: int| 0 <= j < i ==> (#[trigger] self.stakes@[j]).token_id@ != t@,
            decreases self.stakes@.len() - i,
        {
            if self.stakes[i].token_id == *t {
                proof {
                    self.lemma_binding(i as int);
                }
                return Some(i);
            }
            i = i + 1;
        }
        None
    }

    /// The primary position of `a`, if it has one.
    pub fn token_of(&self, a: &String) -> (r: Option<String>)
        requires
            self.wf(),
        ensures
            r is None <==> !self.primary().contains_key(a@),
            r matches Some(t) ==> t@ == self.primary()[a@],
    {
        match self.index_of_account(a) {
            Some(i) => {
                proof {
                    self.lemma_binding(i as int);
                }
                Some(self.stakes[i].token_id.clone())
            },
            None => None,
        }
    }

    /// The account that has `t` staked, if any.
    pub fn staker_of(&self, t: &String) -> (r: Option<String>)
        requires
            self.wf(),
        ensures
            r is None <==> !self.stakers().contains_key(t@),
            r matches Some(a) ==> a@ == self.stakers()[t@],
    {
        match self.index_of_token(t) {
            Some(i) => {
                proof {
                    self.lemma_binding(i as int);
                }
                Some(self.stakes[i].account_id.clone())
            },
            None => None,
        }
    }

    /// Binds `a` to `t`; neither may be bound yet.
    pub fn bind(&mut self, a: String, t: String)
        requires
            old(self).wf(),
            !old(self).primary().contains_key(a@),
            !old(self).stakers().contains_key(t@),
        ensures
            final(self).wf(),
            final(self).primary() == old(self).primary().insert(a@, t@),
            final(self).stakers() == old(self).stakers().insert(t@, a@),
            final(self).stakes@.len() == old(self).stakes@.len() + 1,
    {
        let ghost (av, tv) = (a@, t@);
        let ghost n = self.stakes@.len();
        proof {
            assert forall|j: int| 0 <= j < n implies #[trigger] self.stakes@[j].account_id@ != av
                && self.stakes@[j].token_id@ != tv by {
                self.lemma_binding(j);
            }
        }
        self.stakes.push(Stake { account_id: a, token_id: t });
        proof {
            assert(self.stakes@[n as int].account_id@ == av);
            assert(self.stakes@[n as int].token_id@ == tv);
            assert forall|j: int| 0 <= j < n implies #[trigger] self.stakes@[j] == old(self).stakes@[j] by {}
            assert(self.wf());
            assert(self.primary() =~= old(self).primary().insert(av, tv)) by {
                assert forall|x: Seq<char>| #![auto] self.primary().contains_key(x) == old(self).primary().insert(av, tv).contains_key(x) by {
                    if self.primary().contains_key(x) && x != av {
                        let i = choose|i: int| 0 <= i < self.stakes@.len() && #[trigger] self.stakes@[i].account_id@ == x;
                        assert(old(self).stakes@[i].account_id@ == x);
                    }
                    if old(self).primary().contains_key(x) {
                        let i = choose|i: int| 0 <= i < old(self).stakes@.len() && #[trigger] old(self).stakes@[i].account_id@ == x;
                        assert(self.stakes@[i].account_id@ == x);
                    }
                }
                assert forall|x: Seq<char>| #![auto] self.primary().contains_key(x) implies self.primary()[x] == old(self).primary().insert(av, tv)[x] by {
                    let i = choose|i: int| 0 <= i < self.stakes@.len() && #[trigger] self.stakes@[i].account_id@ == x;
                    self.lemma_binding(i);
                    if i < n {
                        old(self).lemma_binding(i);
                    }
                }
            }
            assert(self.stakers() =~= old(self).stakers().insert(tv, av)) by {
                assert forall|x: Seq<char>| #![auto] self.stakers().contains_key(x) == old(self).stakers().insert(tv, av).contains_key(x) by {
                    if self.stakers().contains_key(x) && x != tv {
                        let i = choose|i: int| 0 <= i < self.stakes@.len() && #[trigger] self.stakes@[i].token_id@ == x;
                        assert(old(self).stakes@[i].token_id@ == x);
                    }
                    if old(self).stakers().contains_key(x) {
                        let i = choose|i: int| 0 <= i < old(self).stakes@.len() && #[trigger] old(self).stakes@[i].token_id@ == x;
                        assert(self.stakes@[i].token_id@ == x);
                    }
                }
                assert forall|x: Seq<char>| #![auto] self.stakers().contains_key(x) implies self.stakers()[x] == old(self).stakers().insert(tv, av)[x] by {
                    let i = choose|i: int| 0 <= i < self.stakes@.len() && #[trigger] self.stakes@[i].token_id@ == x;
                    self.lemma_binding(i);
                    if i < n {
                        old(self).lemma_binding(i);
                    }
                }
            }
        }
    }

    /// Removes the binding of `a` to `t`, which must exist.
    pub fn unbind(&mut self, a: &String, t: &String)
        requires
            old(self).wf(),
            old(self).primary().contains_key(a@),
            old(self).primary()[a@] == t@,
        ensures
            final(self).wf(),
            final(self).primary() == old(self).primary().remove(a@),
            final(self).stakers() == old(self).stakers().remove(t@),
            final(self).stakes@.len() == old(self).stakes@.len() - 1,
    {
        let i = self.index_of_account(a).unwrap();
        proof {
            self.lemma_binding(i as int);
        }
        let ghost s0 = self.stakes@;
        self.stakes.remove(i);
        proof {
            let s1 = self.stakes@;
            assert forall|j: int| 0 <= j < s1.len() implies #[trigger] s1[j] == s0[if j < i { j } else { j + 1 }] by {}
            assert(s0[i as int].account_id@ == a@ && s0[i as int].token_id@ == t@);
            assert forall|j: int| 0 <= j < s1.len() implies #[trigger] s1[j].account_id@ != a@ && s1[j].token_id@ != t@ by {
                let j0 = if j < i { j } else { j + 1 };
                assert(s1[j] == s0[j0]);
                assert(s0[j0].account_id@ != s0[i as int].account_id@);
                assert(s0[j0].token_id@ != s0[i as int].token_id@);
            }
            assert forall|x: int, y: int| 0 <= x < s1.len() && 0 <= y < s1.len() && x != y implies
                #[trigger] s1[x].account_id@ != #[trigger] s1[y].account_id@ by {
                let x0 = if x < i { x } else { x + 1 };
                let y0 = if y < i { y } else { y + 1 };
                assert(s1[x] == s0[x0] && s1[y] == s0[y0]);
            }
            assert forall|x: int, y: int| 0 <= x < s1.len() && 0 <= y < s1.len() && x != y implies
                #[trigger] s1[x].token_id@ != #[trigger] s1[y].token_id@ by {
                let x0 = if x < i { x } else { x + 1 };
                let y0 = if y < i { y } else { y + 1 };
                assert(s1[x] == s0[x0] && s1[y] == s0[y0]);
            }
            assert(self.primary() =~= old(self).primary().remove(a@)) by {
                assert forall|q: Seq<char>| #![auto] self.primary().contains_key(q) == old(self).primary().remove(a@).contains_key(q) by {
                    if self.primary().contains_key(q) {
                        let j = choose|j: int| 0 <= j < s1.len() && #[trigger] s1[j].account_id@ == q;
                        let j0 = if j < i { j } else { j + 1 };
                        assert(s0[j0].account_id@ == q);
                    }
                    if old(self).primary().contains_key(q) && q != a@ {
                        let j0 = choose|j: int| 0 <= j < s0.len() && #[trigger] s0[j].account_id@ == q;
                        assert(j0 != i);
                        let j = if j0 < i { j0 } else { j0 - 1 };
                        assert(s1[j].account_id@ == q);
                    }
                }
                assert forall|q: Seq<char>| #![auto] self.primary().contains_key(q) implies self.primary()[q] == old(self).primary().remove(a@)[q] by {
                    let j = choose|j: int| 0 <= j < s1.len() && #[trigger] s1[j].account_id@ == q;
                    self.lemma_binding(j);
                    let j0 = if j < i { j } else { j + 1 };
                    old(self).lemma_binding(j0);
                }
            }
            assert(self.stakers() =~= old(self).stakers().remove(t@)) by {
                assert forall|q: Seq<char>| #![auto] self.stakers().contains_key(q) == old(self).stakers().remove(t@).contains_key(q) by {
                    if self.stakers().contains_key(q) {
                        let j = choose|j: int| 0 <= j < s1.len() && #[trigger] s1[j].token_id@ == q;
                        let j0 = if j < i { j } else { j + 1 };
                        assert(s0[j0].token_id@ == q);
                    }
                    if old(self).stakers().contains_key(q) && q != t@ {
                        let j0 = choose|j: int| 0 <= j < s0.len() && #[trigger] s0[j].token_id@ == q;
                        assert(j0 != i);
                        let j = if j0 < i { j0 } else { j0 - 1 };
                        assert(s1[j].token_id@ == q);
                    }
                }
                assert forall|q: Seq<char>| #![auto] self.stakers().contains_key(q) implies self.stakers()[q] == old(self).stakers().remove(t@)[q] by {
                    let j = choose|j: int| 0 <= j < s1.len() && #[trigger] s1[j].token_id@ == q;
                    self.lemma_binding(j);
                    let j0 = if j < i { j } else { j + 1 };
                    old(self).lemma_binding(j0);
                }
            }
        }
    }
    /// Every binding, as (account, position) pairs in the order they were made.
    pub fn bindings(&self) -> (r: Vec<(String, String)>)
        ensures
            r@.len() == self.stakes@.len(),
            forall|i: int|
                0 <= i < r@.len() ==> (#[trigger] r@[i]).0@ == self.stakes@[i].account_id@ && r@[i].1@
                    == self.stakes@[i].token_id@,
    {
        let mut out: Vec<(String, String)> = Vec::new();
        let mut i: usize = 0;
        while i < self.stakes.len()
            invariant
                i <= self.stakes@.len(),
                out@.len() == i,
                forall|j: int|
                    0 <= j < i ==> (#[trigger] out@[j]).0@ == self.stakes@[j].account_id@ && out@[j].1@
                        == self.stakes@[j].token_id@,
            decreases self.stakes@.len() - i,
        {
            out.push((self.stakes[i].account_id.clone(), self.stakes[i].token_id.clone()));
            i = i + 1;
        }
        out
    }
}

} // verus!
