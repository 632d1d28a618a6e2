//! The ranking index: buckets of positions that share a score, kept in
//! strictly descending score order, each bucket in the order its positions
//! reached that score.

use vstd::prelude::*;

verus! {

/// Positions that share one score.
pub struct Bucket {
    pub score: u128,
    pub token_ids: Vec<String>,
}

/// A bucket as contracts see it: its score and its positions.
pub type BucketView = (u128, Seq<Seq<char>>);

pub open spec fn ids_of(v: Seq<String>) -> Seq<Seq<char>> {
    v.map_values(|s: String| s@)
}

impl Bucket {
    pub open spec fn view(&self) -> BucketView {
        (self.score, ids_of(self.token_ids@))
    }
}

pub open spec fn ranking_of(r: Seq<Bucket>) -> Seq<BucketView> {
    r.map_values(|b: Bucket| b.view())
}

/// Scores strictly descend and every bucket holds at least one position,
/// none of them twice.
pub open spec fn buckets_ordered(r: Seq<BucketView>) -> bool {
    &&& forall|i: int, j: int| 0 <= i < j < r.len() ==> #[trigger] r[i].0 > #[trigger] r[j].0
    &&& forall|i: int|
        0 <= i < r.len() ==> (#[trigger] r[i]).1.len() > 0 && r[i].1.no_duplicates()
}

/// `r` ranks the scores `m`: each bucket holds only positions with its score,
/// and each position of `m` stands in the bucket of its score.
pub open spec fn ranks(r: Seq<BucketView>, m: Map<Seq<char>, u128>) -> bool {
    &&& buckets_ordered(r)
    &&& forall|i: int, k: int|
        0 <= i < r.len() && 0 <= k < r[i].1.len() ==> m.contains_key(#[trigger] r[i].1[k])
            && m[r[i].1[k]] == r[i].0
    &&& forall|t: Seq<char>|
        m.contains_key(t) ==> exists|i: int|
            0 <= i < r.len() && r[i].0 == m[t] && #[trigger] r[i].1.contains(t)
}

/// The sum of the scores of all positions in the buckets: each bucket's
/// score once per position in it.
pub open spec fn rank_total(r: Seq<BucketView>) -> int
    decreases r.len(),
{
    if r.len() == 0 {
        0
    } else {
        rank_total(r.drop_last()) + r.last().0 * r.last().1.len()
    }
}

pub proof fn lemma_rank_total_concat(a: Seq<BucketView>, b: Seq<BucketView>)
    ensures
        rank_total(a + b) == rank_total(a) + rank_total(b),
    decreases b.len(),
{
    if b.len() == 0 {
        assert(a + b =~= a);
    } else {
        assert((a + b).drop_last() =~= a + b.drop_last());
        lemma_rank_total_concat(a, b.drop_last());
    }
}

/// Replacing, dropping or inserting the bucket at `i` changes the sum by the
/// difference of the terms.
pub proof fn lemma_rank_total_at(r: Seq<BucketView>, i: int, x: BucketView)
    requires
        0 <= i < r.len(),
    ensures
        rank_total(r.update(i, x)) == rank_total(r) - r[i].0 * r[i].1.len() + x.0 * x.1.len(),
        rank_total(r.remove(i)) == rank_total(r) - r[i].0 * r[i].1.len(),
{
    let pre = r.take(i);
    let post = r.skip(i + 1);
    assert(r =~= pre + seq![r[i]] + post);
    assert(r.update(i, x) =~= pre + seq![x] + post);
    assert(r.remove(i) =~= pre + post);
    lemma_rank_total_concat(pre + seq![r[i]], post);
    lemma_rank_total_concat(pre, seq![r[i]]);
    lemma_rank_total_concat(pre + seq![x], post);
    lemma_rank_total_concat(pre, seq![x]);
    lemma_rank_total_concat(pre, post);
    assert(seq![r[i]].drop_last() =~= Seq::<BucketView>::empty());
    assert(seq![x].drop_last() =~= Seq::<BucketView>::empty());
    lemma_rank_total_single(r[i]);
    lemma_rank_total_single(x);
}

pub proof fn lemma_rank_total_insert(r: Seq<BucketView>, i: int, x: BucketView)
    requires
        0 <= i <= r.len(),
    ensures
        rank_total(r.insert(i, x)) == rank_total(r) + x.0 * x.1.len(),
{
    let pre = r.take(i);
    let post = r.skip(i);
    assert(r =~= pre + post);
    assert(r.insert(i, x) =~= pre + seq![x] + post);
    lemma_rank_total_concat(pre + seq![x], post);
    lemma_rank_total_concat(pre, seq![x]);
    lemma_rank_total_concat(pre, post);
    lemma_rank_total_single(x);
}

proof fn lemma_rank_total_single(x: BucketView)
    ensures
        rank_total(seq![x]) == x.0 * x.1.len(),
{
    let q = seq![x];
    assert(q.drop_last() =~= Seq::<BucketView>::empty());
    assert(q.last() == x);
    assert(rank_total(q.drop_last()) == 0);
}

/// The positions holding score `s`, in the order they reached it.
pub open spec fn bucket_at(r: Seq<BucketView>, s: u128) -> Seq<Seq<char>> {
    if exists|i: int| 0 <= i < r.len() && #[trigger] r[i].0 == s {
        r[choose|i: int| 0 <= i < r.len() && #[trigger] r[i].0 == s].1
    } else {
        Seq::empty()
    }
}

/// The bucket under `s` once `t` has left score `from` (where it had one) and
/// reached score `to`: it leaves its old bucket and comes last in its new one.
pub open spec fn bucket_after_move(
    r: Seq<BucketView>,
    s: u128,
    t: Seq<char>,
    from: Option<u128>,
    to: u128,
) -> Seq<Seq<char>> {
    let left = if from == Some(s) {
        bucket_at(r, s).remove_value(t)
    } else {
        bucket_at(r, s)
    };
    if s == to {
        left.push(t)
    } else {
        left
    }
}

pub proof fn lemma_bucket_at(r: Seq<BucketView>, i: int)
    requires
        buckets_ordered(r),
        0 <= i < r.len(),
    ensures
        bucket_at(r, r[i].0) == r[i].1,
{
    let s = r[i].0;
    assert(exists|i: int| 0 <= i < r.len() && #[trigger] r[i].0 == s);
    let j = choose|j: int| 0 <= j < r.len() && #[trigger] r[j].0 == s;
    if j < i {
        assert(r[j].0 > r[i].0);
    } else if i < j {
        assert(r[i].0 > r[j].0);
    }
}

pub proof fn lemma_bucket_absent(r: Seq<BucketView>, s: u128)
    requires
        forall|i: int| 0 <= i < r.len() ==> #[trigger] r[i].0 != s,
    ensures
        bucket_at(r, s) == Seq::<Seq<char>>::empty(),
{
}

/// Where `ranks(r, m)` holds, a position of `m` stands in exactly one bucket,
/// the one of its score, and there only once.
pub proof fn lemma_unique_place(r: Seq<BucketView>, m: Map<Seq<char>, u128>, t: Seq<char>, i: int, k: int)
    requires
        ranks(r, m),
        0 <= i < r.len(),
        0 <= k < r[i].1.len(),
        r[i].1[k] == t,
    ensures
        r[i].0 == m[t],
        forall|j: int, l: int|
            0 <= j < r.len() && 0 <= l < r[j].1.len() && #[trigger] r[j].1[l] == t ==> j == i
                && l == k,
{
    assert forall|j: int, l: int|
        0 <= j < r.len() && 0 <= l < r[j].1.len() && #[trigger] r[j].1[l] == t implies j == i
            && l == k by {
        assert(r[j].0 == m[t]);
        if j < i {
            assert(r[j].0 > r[i].0);
        } else if i < j {
            assert(r[i].0 > r[j].0);
        }
        assert(r[i].1.no_duplicates());
    }
}

/// Replacing the positions of bucket `i` changes only the bucket of its score.
pub proof fn lemma_update_bucket(r: Seq<BucketView>, i: int, ids: Seq<Seq<char>>)
    requires
        buckets_ordered(r),
        0 <= i < r.len(),
        ids.len() > 0,
        ids.no_duplicates(),
    ensures
        buckets_ordered(r.update(i, (r[i].0, ids))),
        forall|s: u128|
            #[trigger] bucket_at(r.update(i, (r[i].0, ids)), s) == if s == r[i].0 {
                ids
            } else {
                bucket_at(r, s)
            },
{
    let r2 = r.update(i, (r[i].0, ids));
    assert forall|j: int| 0 <= j < r.len() implies #[trigger] r2[j].0 == r[j].0 by {}
    assert forall|s: u128|
        #[trigger] bucket_at(r2, s) == if s == r[i].0 {
            ids
        } else {
            bucket_at(r, s)
        } by {
        if exists|j: int| 0 <= j < r.len() && #[trigger] r[j].0 == s {
            let j = choose|j: int| 0 <= j < r.len() && #[trigger] r[j].0 == s;
            lemma_bucket_at(r, j);
            lemma_bucket_at(r2, j);
        } else {
            assert forall|j: int| 0 <= j < r2.len() implies #[trigger] r2[j].0 != s by {
                assert(r2[j].0 == r[j].0);
            }
        }
    }
}

/// Dropping bucket `i` empties only the bucket of its score.
pub proof fn lemma_remove_bucket(r: Seq<BucketView>, i: int)
    requires
        buckets_ordered(r),
        0 <= i < r.len(),
    ensures
        buckets_ordered(r.remove(i)),
        forall|s: u128|
            #[trigger] bucket_at(r.remove(i), s) == if s == r[i].0 {
                Seq::<Seq<char>>::empty()
            } else {
                bucket_at(r, s)
            },
{
    let r2 = r.remove(i);
    assert forall|a: int, b: int| 0 <= a < b < r2.len() implies #[trigger] r2[a].0 > #[trigger] r2[b].0 by {
        let a0 = if a < i { a } else { a + 1 };
        let b0 = if b < i { b } else { b + 1 };
        assert(r2[a] == r[a0] && r2[b] == r[b0]);
    }
    assert forall|a: int| 0 <= a < r2.len() implies (#[trigger] r2[a]).1.len() > 0 && r2[a].1.no_duplicates() by {
        let a0 = if a < i { a } else { a + 1 };
        assert(r2[a] == r[a0]);
    }
    assert forall|s: u128|
        #[trigger] bucket_at(r2, s) == if s == r[i].0 {
            Seq::<Seq<char>>::empty()
        } else {
            bucket_at(r, s)
        } by {
        if s == r[i].0 {
            assert forall|a: int| 0 <= a < r2.len() implies #[trigger] r2[a].0 != s by {
                let a0 = if a < i { a } else { a + 1 };
                assert(r2[a] == r[a0]);
            }
        } else if exists|j: int| 0 <= j < r.len() && #[trigger] r[j].0 == s {
            let j = choose|j: int| 0 <= j < r.len() && #[trigger] r[j].0 == s;
            lemma_bucket_at(r, j);
            let j2 = if j < i { j } else { j - 1 };
            assert(r2[j2] == r[j]);
            lemma_bucket_at(r2, j2);
        } else {
            assert forall|a: int| 0 <= a < r2.len() implies #[trigger] r2[a].0 != s by {
                let a0 = if a < i { a } else { a + 1 };
                assert(r2[a] == r[a0]);
            }
        }
    }
}

/// Inserting a bucket for a new score at its place in the order adds only
/// the bucket of that score.
pub proof fn lemma_insert_bucket(r: Seq<BucketView>, i: int, b: BucketView)
    requires
        buckets_ordered(r),
        0 <= i <= r.len(),
        forall|j: int| 0 <= j < i ==> #[trigger] r[j].0 > b.0,
        i < r.len() ==> r[i].0 < b.0,
        b.1.len() > 0,
        b.1.no_duplicates(),
    ensures
        buckets_ordered(r.insert(i, b)),
        forall|s: u128|
            #[trigger] bucket_at(r.insert(i, b), s) == if s == b.0 {
                b.1
            } else {
                bucket_at(r, s)
            },
{
    let r2 = r.insert(i, b);
    assert forall|x: int, y: int| 0 <= x < y < r2.len() implies #[trigger] r2[x].0 > #[trigger] r2[y].0 by {
        if x < i && y < i {
            assert(r2[x] == r[x] && r2[y] == r[y]);
        } else if x < i && y == i {
            assert(r2[x] == r[x]);
        } else if x < i {
            assert(r2[x] == r[x] && r2[y] == r[y - 1]);
            if y - 1 > i {
                assert(r[i].0 > r[y - 1].0);
            }
        } else if x == i {
            assert(r2[y] == r[y - 1]);
            if y - 1 > i {
                assert(r[i].0 > r[y - 1].0);
            }
        } else {
            assert(r2[x] == r[x - 1] && r2[y] == r[y - 1]);
        }
    }
    assert forall|a: int| 0 <= a < r2.len() implies (#[trigger] r2[a]).1.len() > 0 && r2[a].1.no_duplicates() by {
        if a < i {
            assert(r2[a] == r[a]);
        } else if a > i {
            assert(r2[a] == r[a - 1]);
        }
    }
    assert forall|s: u128|
        #[trigger] bucket_at(r2, s) == if s == b.0 {
            b.1
        } else {
            bucket_at(r, s)
        } by {
        if s == b.0 {
            assert(r2[i] == b);
            lemma_bucket_at(r2, i);
        } else if exists|j: int| 0 <= j < r.len() && #[trigger] r[j].0 == s {
            let j = choose|j: int| 0 <= j < r.len() && #[trigger] r[j].0 == s;
            lemma_bucket_at(r, j);
            let j2 = if j < i { j } else { j + 1 };
            assert(r2[j2] == r[j]);
            lemma_bucket_at(r2, j2);
        } else {
            assert forall|a: int| 0 <= a < r2.len() implies #[trigger] r2[a].0 != s by {
                if a < i {
                    assert(r2[a] == r[a]);
                } else if a > i {
                    assert(r2[a] == r[a - 1]);
                }
            }
        }
    }
}

/// Takes `t` out of the bucket of its score `s`, dropping the bucket if it
/// becomes empty.
#[verifier::rlimit(40)]
pub fn remove_position(ranking: &mut Vec<Bucket>, s: u128, t: &String, Ghost(m): Ghost<Map<Seq<char>, u128>>)
    requires
        ranks(ranking_of(old(ranking)@), m),
        m.contains_key(t@),
        m[t@] == s,
    ensures
        ranks(ranking_of(final(ranking)@), m.remove(t@)),
        rank_total(ranking_of(final(ranking)@)) == rank_total(ranking_of(old(ranking)@)) - s,
        forall|x: u128|
            #[trigger] bucket_at(ranking_of(final(ranking)@), x) == if x == s {
                bucket_at(ranking_of(old(ranking)@), s).remove_value(t@)
            } else {
                bucket_at(ranking_of(old(ranking)@), x)
            },
{
    let ghost r0 = ranking_of(ranking@);
    let i = seek(ranking, s);
    proof {
        let j = choose|j: int| 0 <= j < r0.len() && r0[j].0 == m[t@] && #[trigger] r0[j].1.contains(t@);
        assert(r0[j] == ranking@[j].view());
        if j < i {
            assert(ranking@[j].score > s);
        } else if i < j {
            assert(r0[i as int].0 > r0[j].0);
        }
        assert(i == j);
    }
    let k = index_in(&ranking[i].token_ids, t).unwrap();
    let ghost ids0 = r0[i as int].1;
    proof {
        assert(ids0[k as int] == t@);
        lemma_unique_place(r0, m, t@, i as int, k as int);
        ids0.index_of_first_ensures(t@);
        assert(ids0.remove_value(t@) == ids0.remove(k as int));
        lemma_bucket_at(r0, i as int);
    }
    let mut b = ranking.remove(i);
    b.token_ids.remove(k);
    let ghost ids1 = ids0.remove(k as int);
    assert(ids_of(b.token_ids@) =~= ids1);
    assert(ranking_of(ranking@) =~= r0.remove(i as int));
    let ghost r1: Seq<BucketView>;
    if b.token_ids.len() > 0 {
        ranking.insert(i, b);
        proof {
            r1 = r0.update(i as int, (s, ids1));
            assert(ranking_of(ranking@) =~= r1);
            assert(ids1.no_duplicates());
            lemma_update_bucket(r0, i as int, ids1);
            lemma_rank_total_at(r0, i as int, (s, ids1));
            assert(s * ids0.len() - s * ids1.len() == s) by (nonlinear_arith)
                requires
                    ids1.len() == ids0.len() - 1,
            ;
        }
    } else {
        proof {
            r1 = r0.remove(i as int);
            lemma_remove_bucket(r0, i as int);
            lemma_rank_total_at(r0, i as int, (s, ids1));
            assert(r0[i as int].0 * r0[i as int].1.len() == s) by (nonlinear_arith)
                requires
                    r0[i as int].0 == s,
                    r0[i as int].1.len() == 1,
            ;
            assert(ids1 =~= Seq::<Seq<char>>::empty());
        }
    }
    proof {
        let m1 = m.remove(t@);
        // every entry of the new ranking comes from an entry of the old one other than t
        assert forall|a: int, l: int|
            0 <= a < r1.len() && 0 <= l < r1[a].1.len() implies m1.contains_key(#[trigger] r1[a].1[l])
                && m1[r1[a].1[l]] == r1[a].0 by {
            let a0 = if r1.len() == r0.len() || a < i { a } else { a + 1 };
            let l0 = if a0 == i && l >= k { l + 1 } else { l };
            assert(r1[a].1[l] == r0[a0].1[l0]);
            assert(r1[a].0 == r0[a0].0);
            assert(r0[a0].1[l0] != t@);
        }
        assert forall|x: Seq<char>| m1.contains_key(x) implies exists|a: int|
            0 <= a < r1.len() && r1[a].0 == m1[x] && #[trigger] r1[a].1.contains(x) by {
            let j = choose|j: int| 0 <= j < r0.len() && r0[j].0 == m[x] && #[trigger] r0[j].1.contains(x);
            let l = choose|l: int| 0 <= l < r0[j].1.len() && r0[j].1[l] == x;
            assert(x != t@);
            if j == i {
                assert(l != k);
                let l1 = if l < k { l } else { l - 1 };
                assert(ids1[l1] == x);
                assert(ids1.len() > 0);
                assert(r1[j] == (s, ids1));
                assert(r1[j].1.contains(x));
            } else {
                let a = if r1.len() == r0.len() || j < i { j } else { j - 1 };
                assert(r1[a] == r0[j]);
                assert(r1[a].1.contains(x));
            }
        }
    }
}

/// Puts `t`, which has no score yet, last in the bucket of score `s`,
/// making that bucket where there is none.
pub fn insert_position(ranking: &mut Vec<Bucket>, s: u128, t: String, Ghost(m): Ghost<Map<Seq<char>, u128>>)
    requires
        ranks(ranking_of(old(ranking)@), m),
        !m.contains_key(t@),
    ensures
        ranks(ranking_of(final(ranking)@), m.insert(t@, s)),
        rank_total(ranking_of(final(ranking)@)) == rank_total(ranking_of(old(ranking)@)) + s,
        forall|x: u128|
            #[trigger] bucket_at(ranking_of(final(ranking)@), x) == if x == s {
                bucket_at(ranking_of(old(ranking)@), s).push(t@)
            } else {
                bucket_at(ranking_of(old(ranking)@), x)
            },
{
    let ghost r0 = ranking_of(ranking@);
    let ghost tv = t@;
    let i = seek(ranking, s);
    let ghost r1: Seq<BucketView>;
    let ghost ids1: Seq<Seq<char>>;
    proof {
        assert forall|j: int| 0 <= j < i implies #[trigger] r0[j].0 > s by {
            assert(r0[j] == ranking@[j].view());
        }
        assert forall|a: int, l: int| 0 <= a < r0.len() && 0 <= l < r0[a].1.len() implies #[trigger] r0[a].1[l] != tv by {
        }
    }
    if i < ranking.len() && ranking[i].score == s {
        let mut b = ranking.remove(i);
        b.token_ids.push(t);
        proof {
            ids1 = r0[i as int].1.push(tv);
            assert(ids_of(b.token_ids@) =~= ids1);
            assert(!r0[i as int].1.contains(tv));
            assert(ids1.no_duplicates());
            lemma_bucket_at(r0, i as int);
        }
        ranking.insert(i, b);
        proof {
            r1 = r0.update(i as int, (s, ids1));
            assert(ranking_of(ranking@) =~= r1);
            lemma_update_bucket(r0, i as int, ids1);
            lemma_rank_total_at(r0, i as int, (s, ids1));
            assert(s * ids1.len() - s * r0[i as int].1.len() == s) by (nonlinear_arith)
                requires
                    ids1.len() == r0[i as int].1.len() + 1,
            ;
        }
    } else {
        let mut ids: Vec<String> = Vec::new();
        ids.push(t);
        let b = Bucket { score: s, token_ids: ids };
        proof {
            ids1 = seq![tv];
            assert(ids_of(b.token_ids@) =~= ids1);
            if i < r0.len() {
                assert(r0[i as int] == ranking@[i as int].view());
            }
            assert forall|j: int| 0 <= j < r0.len() implies #[trigger] r0[j].0 != s by {
                if j < i {
                } else if j > i {
                    assert(r0[i as int].0 > r0[j].0);
                }
            }
            lemma_bucket_absent(r0, s);
            assert(Seq::<Seq<char>>::empty().push(tv) =~= ids1);
        }
        ranking.insert(i, b);
        proof {
            r1 = r0.insert(i as int, (s, ids1));
            assert(ranking_of(ranking@) =~= r1);
            lemma_insert_bucket(r0, i as int, (s, ids1));
            lemma_rank_total_insert(r0, i as int, (s, ids1));
        }
    }
    proof {
        let m1 = m.insert(tv, s);
        assert forall|a: int, l: int|
            0 <= a < r1.len() && 0 <= l < r1[a].1.len() implies m1.contains_key(#[trigger] r1[a].1[l])
                && m1[r1[a].1[l]] == r1[a].0 by {
            if r1[a].0 == s && r1[a].1[l] == tv {
            } else if r1.len() == r0.len() {
                assert(r1[a].0 == r0[a].0);
                if a == i {
                    assert(r1[a].1[l] == r0[a].1[l]);
                } else {
                    assert(r1[a] == r0[a]);
                }
            } else {
                let a0 = if a < i { a } else { a - 1 };
                assert(a != i);
                assert(r1[a] == r0[a0]);
            }
        }
        assert forall|x: Seq<char>| m1.contains_key(x) implies exists|a: int|
            0 <= a < r1.len() && r1[a].0 == m1[x] && #[trigger] r1[a].1.contains(x) by {
            if x == tv {
                assert(r1[i as int].1 == ids1);
                assert(ids1[ids1.len() - 1] == tv);
                assert(r1[i as int].1.contains(x));
            } else {
                let j = choose|j: int| 0 <= j < r0.len() && r0[j].0 == m[x] && #[trigger] r0[j].1.contains(x);
                let l = choose|l: int| 0 <= l < r0[j].1.len() && r0[j].1[l] == x;
                if r1.len() == r0.len() {
                    if j == i {
                        assert(ids1[l] == x);
                    }
                    assert(r1[j].1[l] == x);
                    assert(r1[j].1.contains(x));
                } else {
                    let a = if j < i { j } else { j + 1 };
                    assert(r1[a] == r0[j]);
                    assert(r1[a].1.contains(x));
                }
            }
        }
    }
}

/// The first index whose score is not above `score`.
fn seek(ranking: &Vec<Bucket>, score: u128) -> (i: usize)
    requires
        buckets_ordered(ranking_of(ranking@)),
    ensures
        i <= ranking@.len(),
        forall|j: int| 0 <= j < i ==> (#[trigger] ranking@[j]).score > score,
        i < ranking@.len() ==> ranking@[i as int].score <= score,
{
    let mut i: usize = 0;
    while i < ranking.len()
        invariant
            i <= ranking@.len(),
            forall|j: int| 0 <= j < i ==> (#[trigger] ranking@[j]).score > score,
        decreases ranking@.len() - i,
    {
        if ranking[i].score <= score {
            return i;
        }
        i = i + 1;
    }
    i
}

/// The index of `t` in `ids`, if it is there.
fn index_in(ids: &Vec<String>, t: &String) -> (r: Option<usize>)
    ensures
        r is None <==> !ids_of(ids@).contains(t@),
        r matches Some(k) ==> k < ids@.len() && ids@[k as int]@ == t@,
{
    let mut k: usize = 0;
    while k < ids.len()
        invariant
            k <= ids@.len(),
            forall|j: int| 0 <= j < k ==> (#[trigger] ids@[j])@ != t@,
        decreases ids@.len() - k,
    {
        if ids[k] == *t {
            assert(ids_of(ids@)[k as int] == t@);
            return Some(k);
        }
        k = k + 1;
    }
    assert forall|j: int| 0 <= j < ids_of(ids@).len() implies #[trigger] ids_of(ids@)[j] != t@ by {
        assert(ids_of(ids@)[j] == ids@[j]@);
    }
    None
}

} // verus!
