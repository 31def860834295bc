//! The insight store: an in-memory cache of records keyed by identifier,
//! with every decision the durable layer needs.
//!
//! The caller owns the files. It loads records into the cache in bulk,
//! persists the bytes of a changed record, and commits the matching cache
//! change. Contracts describe the cache as a sequence of record models.

use vstd::prelude::*;
use vstd::pervasive::VecAdditionalExecFns;

use crate::constants::SCALE;
use crate::codec;
use crate::dates::ts_in_range;
use crate::models::{
    Insight, InsightView, HippoMetadata, ModifyInsightParams, ReinforcementType, reinforced,
};

verus! {

/// Failures surfaced by the store's decisions.
#[derive(Debug, Clone, PartialEq)]
pub enum StorageError {
    /// No insight with this identifier exists.
    InsightNotFound { id: u128 },
    /// A supplied importance lies outside the unit interval.
    InvalidImportance,
}

/// The models of the cached records.
pub open spec fn views(s: Seq<Insight>) -> Seq<InsightView> {
    s.map_values(|i: Insight| i@)
}

/// First cache index holding `id`, or -1.
pub open spec fn vfind(s: Seq<InsightView>, id: u128) -> int
    decreases s.len(),
{
    if s.len() == 0 {
        -1
    } else if s[0].uuid == id {
        0
    } else {
        let r = vfind(s.drop_first(), id);
        if r < 0 {
            -1
        } else {
            r + 1
        }
    }
}

pub open spec fn contains_id(s: Seq<InsightView>, id: u128) -> bool {
    vfind(s, id) >= 0
}

/// The cached record with `id`, if any.
pub open spec fn vlookup(s: Seq<InsightView>, id: u128) -> Option<InsightView> {
    if vfind(s, id) >= 0 {
        Option::Some(s[vfind(s, id)])
    } else {
        Option::None
    }
}

/// The cache after storing `v`: overwrite in place, or append.
pub open spec fn upsert_v(s: Seq<InsightView>, v: InsightView) -> Seq<InsightView> {
    if vfind(s, v.uuid) >= 0 {
        s.update(vfind(s, v.uuid), v)
    } else {
        s.push(v)
    }
}

/// Where `vfind` points and what lies before it.
pub proof fn lemma_vfind(s: Seq<InsightView>, id: u128)
    ensures
        -1 <= vfind(s, id) < s.len(),
        vfind(s, id) >= 0 ==> s[vfind(s, id)].uuid == id,
        vfind(s, id) == -1 ==> forall|k: int| 0 <= k < s.len() ==> (#[trigger] s[k]).uuid != id,
        forall|k: int| 0 <= k < vfind(s, id) ==> (#[trigger] s[k]).uuid != id,
    decreases s.len(),
{
    if s.len() > 0 && s[0].uuid != id {
        lemma_vfind(s.drop_first(), id);
        assert forall|k: int| 0 <= k < s.len() && vfind(s, id) == -1 implies (#[trigger] s[k]).uuid
            != id by {
            if k > 0 {
                assert(s.drop_first()[k - 1] == s[k]);
            }
        }
        assert forall|k: int| 0 <= k < vfind(s, id) implies (#[trigger] s[k]).uuid != id by {
            if k > 0 {
                assert(s.drop_first()[k - 1] == s[k]);
            }
        }
    }
}

/// Replacing an entry with one of the same identifier moves no index.
pub proof fn lemma_vfind_update(s: Seq<InsightView>, k: int, v: InsightView, id: u128)
    requires
        0 <= k < s.len(),
        s[k].uuid == v.uuid,
    ensures
        vfind(s.update(k, v), id) == vfind(s, id),
    decreases s.len(),
{
    if s.len() > 0 {
        if k == 0 {
            assert(s.update(k, v).drop_first() =~= s.drop_first());
        } else {
            assert(s.update(k, v)[0] == s[0]);
            if s[0].uuid != id {
                assert(s.update(k, v).drop_first() =~= s.drop_first().update(k - 1, v));
                lemma_vfind_update(s.drop_first(), k - 1, v, id);
            }
        }
    }
}

/// Appending a fresh identifier finds old entries as before, and the new
/// one at the end.
pub proof fn lemma_vfind_push(s: Seq<InsightView>, v: InsightView, id: u128)
    requires
        forall|k: int| 0 <= k < s.len() ==> (#[trigger] s[k]).uuid != v.uuid,
    ensures
        id == v.uuid ==> vfind(s.push(v), id) == s.len(),
        id != v.uuid ==> vfind(s.push(v), id) == vfind(s, id),
    decreases s.len(),
{
    if s.len() == 0 {
        assert(s.push(v)[0] == v);
        if id != v.uuid {
            assert(s.push(v).drop_first() =~= Seq::<InsightView>::empty());
            assert(vfind(s.push(v).drop_first(), id) == -1);
            assert(vfind(s.push(v), id) == -1);
        } else {
            assert(vfind(s.push(v), id) == 0);
        }
    } else {
        assert(s.push(v)[0] == s[0]);
        if s[0].uuid == id {
            assert(vfind(s.push(v), id) == 0);
            assert(vfind(s, id) == 0);
            assert(id != v.uuid);
        } else {
            assert(s.push(v).drop_first() =~= s.drop_first().push(v));
            assert forall|k: int| 0 <= k < s.drop_first().len() implies (
            #[trigger] s.drop_first()[k]).uuid != v.uuid by {
                assert(s.drop_first()[k] == s[k + 1]);
            }
            lemma_vfind_push(s.drop_first(), v, id);
            assert(vfind(s.push(v).drop_first(), id) == vfind(s.drop_first().push(v), id));
            if id == v.uuid {
                assert(vfind(s.drop_first().push(v), id) == s.drop_first().len());
                assert(vfind(s.push(v), id) == s.len());
            } else {
                assert(vfind(s.push(v), id) == (if vfind(s.drop_first(), id) < 0 {
                    -1int
                } else {
                    vfind(s.drop_first(), id) + 1
                }));
                assert(vfind(s, id) == (if vfind(s.drop_first(), id) < 0 {
                    -1int
                } else {
                    vfind(s.drop_first(), id) + 1
                }));
            }
        }
    }
}

/// The in-memory store over the cached records.
pub struct Store {
    /// The cached insights; identifiers are unique.
    pub insights: Vec<Insight>,
}

impl Store {
    /// The cache invariant: well-formed records under unique identifiers.
    pub open spec fn wf(self) -> bool {
        &&& forall|k: int, l: int|
            0 <= k < l < self.insights@.len() ==> (#[trigger] self.insights@[k]).uuid != (
            #[trigger] self.insights@[l]).uuid
        &&& forall|k: int| 0 <= k < self.insights@.len() ==> (#[trigger] self.insights@[k]).wf()
    }

    /// The models of the cached records.
    pub open spec fn view_seq(self) -> Seq<InsightView> {
        views(self.insights@)
    }

    /// An empty store; the caller loads records into it.
    pub fn new() -> (r: Store)
        ensures
            r.wf(),
            r.view_seq().len() == 0,
    {
        proof {
            assert(views(Seq::<Insight>::empty()) =~= Seq::<InsightView>::empty());
        }
        Store { insights: Vec::new() }
    }

    /// First cache index holding `id`.
    fn find(&self, id: u128) -> (r: Option<usize>)
        ensures
            match r {
                Option::Some(k) => k < self.insights@.len() && vfind(self.view_seq(), id)
                    == k as int,
                Option::None => vfind(self.view_seq(), id) == -1,
            },
    {
        proof {
            lemma_vfind(self.view_seq(), id);
        }
        let n = self.insights.len();
        let mut k: usize = 0;
        while k < n
            invariant
                k <= n,
                n == self.insights@.len(),
                forall|q: int| 0 <= q < k ==> (#[trigger] self.view_seq()[q]).uuid != id,
                -1 <= vfind(self.view_seq(), id) < n,
                vfind(self.view_seq(), id) >= 0 ==> self.view_seq()[vfind(self.view_seq(), id)].uuid
                    == id,
                vfind(self.view_seq(), id) == -1 ==> forall|q: int|
                    0 <= q < n ==> (#[trigger] self.view_seq()[q]).uuid != id,
                forall|q: int|
                    0 <= q < vfind(self.view_seq(), id) ==> (#[trigger] self.view_seq()[q]).uuid
                        != id,
            decreases n - k,
        {
            if self.insights[k].uuid == id {
                proof {
                    assert(self.view_seq()[k as int].uuid == id);
                    let f = vfind(self.view_seq(), id);
                    if f != k as int {
                        if f < k as int {
                            if f >= 0 {
                                assert(self.view_seq()[f].uuid != id);
                            }
                        } else {
                            assert(self.view_seq()[k as int].uuid != id);
                        }
                        assert(false);
                    }
                }
                return Option::Some(k);
            }
            proof {
                assert(self.view_seq()[k as int].uuid != id);
            }
            k = k + 1;
        }
        proof {
            let f = vfind(self.view_seq(), id);
            if f >= 0 {
                assert(self.view_seq()[f].uuid != id);
            }
        }
        Option::None
    }

    /// The cached record with `id`, if any.
    pub fn get_insight(&self, id: u128) -> (r: Option<&Insight>)
        ensures
            match r {
                Option::Some(i) => vlookup(self.view_seq(), id) == Option::Some(i@) && i.wf()
                    || !self.wf(),
                Option::None => vlookup(self.view_seq(), id) is None,
            },
    {
        match self.find(id) {
            Option::Some(k) => Option::Some(&self.insights[k]),
            Option::None => Option::None,
        }
    }

    /// All cached records.
    pub fn get_all_insights(&self) -> (r: &Vec<Insight>)
        ensures
            r@ == self.insights@,
    {
        &self.insights
    }

    /// Commits a stored record to the cache: overwrites the entry with the
    /// same identifier, or appends. The caller has already persisted it.
    pub fn store_insight(&mut self, insight: Insight)
        requires
            old(self).wf(),
            insight.wf(),
        ensures
            final(self).wf(),
            final(self).view_seq() == upsert_v(old(self).view_seq(), insight@),
            vlookup(final(self).view_seq(), insight.uuid) == Option::Some(insight@),
            forall|id2: u128|
                id2 != insight.uuid ==> #[trigger] vlookup(final(self).view_seq(), id2) == vlookup(
                    old(self).view_seq(),
                    id2,
                ),
    {
        proof {
            lemma_vfind(self.view_seq(), insight.uuid);
        }
        let ghost pre = self.view_seq();
        match self.find(insight.uuid) {
            Option::Some(k) => {
                let ghost iv = insight@;
                self.insights.set(k, insight);
                proof {
                    assert(self.view_seq() =~= pre.update(k as int, iv));
                    assert forall|id2: u128| true implies #[trigger] vfind(self.view_seq(), id2)
                        == vfind(pre, id2) by {
                        lemma_vfind_update(pre, k as int, iv, id2);
                    }
                    lemma_vfind(self.view_seq(), iv.uuid);
                    assert forall|id2: u128|
                        id2 != iv.uuid implies #[trigger] vlookup(self.view_seq(), id2) == vlookup(
                        pre,
                        id2,
                    ) by {
                        lemma_vfind(pre, id2);
                    }
                }
            },
            Option::None => {
                let ghost iv = insight@;
                proof {
                    lemma_vfind(pre, iv.uuid);
                }
                self.insights.push(insight);
                proof {
                    assert(self.view_seq() =~= pre.push(iv));
                    assert forall|id2: u128| true implies (id2 == iv.uuid ==> #[trigger] vfind(
                        self.view_seq(),
                        id2,
                    ) == pre.len()) && (id2 != iv.uuid ==> vfind(self.view_seq(), id2) == vfind(
                        pre,
                        id2,
                    )) by {
                        lemma_vfind_push(pre, iv, id2);
                    }
                    assert forall|id2: u128|
                        id2 != iv.uuid implies #[trigger] vlookup(self.view_seq(), id2) == vlookup(
                        pre,
                        id2,
                    ) by {
                        lemma_vfind(pre, id2);
                    }
                    assert forall|k: int, l: int|
                        0 <= k < l < self.insights@.len() implies (
                    #[trigger] self.insights@[k]).uuid != (#[trigger] self.insights@[l]).uuid by {
                        if l == self.insights@.len() - 1 {
                            assert(self.view_seq()[k].uuid != iv.uuid);
                        }
                    }
                }
            },
        }
    }

    /// Commits an update: strictly a mutation of an existing record. An
    /// unknown identifier is rejected with a not-found error and the cache
    /// is left unchanged.
    pub fn update_insight(&mut self, insight: Insight) -> (r: Result<(), StorageError>)
        requires
            old(self).wf(),
            insight.wf(),
        ensures
            final(self).wf(),
            contains_id(old(self).view_seq(), insight.uuid) ==> {
                &&& r is Ok
                &&& final(self).view_seq() == upsert_v(old(self).view_seq(), insight@)
                &&& vlookup(final(self).view_seq(), insight.uuid) == Option::Some(insight@)
                &&& forall|id2: u128|
                    id2 != insight.uuid ==> #[trigger] vlookup(final(self).view_seq(), id2)
                        == vlookup(old(self).view_seq(), id2)
            },
            !contains_id(old(self).view_seq(), insight.uuid) ==> r == Result::<
                (),
                StorageError,
            >::Err(StorageError::InsightNotFound { id: insight.uuid }) && *final(self) == *old(
                self,
            ),
    {
        match self.find(insight.uuid) {
            Option::Some(_) => {
                self.store_insight(insight);
                Result::Ok(())
            },
            Option::None => Result::Err(StorageError::InsightNotFound { id: insight.uuid }),
        }
    }
}

/// The reinforcement anchor: `now`, never earlier than the creation time.
pub open spec fn anchor(now: i64, created: i64) -> i64 {
    if now < created {
        created
    } else {
        now
    }
}

/// One record after reinforcement.
pub open spec fn reinforce_view(v: InsightView, upvote: bool, now: i64) -> InsightView {
    InsightView {
        importance: reinforced(v.importance as int, upvote) as u64,
        importance_modified_at: anchor(now, v.created_at),
        ..v
    }
}

/// The cache after reinforcing one identifier; unknown identifiers are
/// silently skipped.
pub open spec fn reinforce_one_v(s: Seq<InsightView>, id: u128, upvote: bool, now: i64) -> Seq<
    InsightView,
> {
    if vfind(s, id) >= 0 {
        s.update(vfind(s, id), reinforce_view(s[vfind(s, id)], upvote, now))
    } else {
        s
    }
}

/// The cache after reinforcing a list of identifiers in order.
pub open spec fn reinforce_ids_v(
    s: Seq<InsightView>,
    ids: Seq<u128>,
    upvote: bool,
    now: i64,
) -> Seq<InsightView>
    decreases ids.len(),
{
    if ids.len() == 0 {
        s
    } else {
        reinforce_ids_v(reinforce_one_v(s, ids[0], upvote, now), ids.drop_first(), upvote, now)
    }
}

/// The copies handed back for persistence while reinforcing a list of
/// identifiers in order: one reinforced record per found identifier.
pub open spec fn reinforce_outs_v(
    s: Seq<InsightView>,
    ids: Seq<u128>,
    upvote: bool,
    now: i64,
) -> Seq<InsightView>
    decreases ids.len(),
{
    if ids.len() == 0 {
        Seq::empty()
    } else {
        let rest = reinforce_outs_v(
            reinforce_one_v(s, ids[0], upvote, now),
            ids.drop_first(),
            upvote,
            now,
        );
        if vfind(s, ids[0]) >= 0 {
            seq![reinforce_view(s[vfind(s, ids[0])], upvote, now)] + rest
        } else {
            rest
        }
    }
}

/// One record after an access on `day` was recorded.
pub open spec fn access_view(v: InsightView, day: u32) -> InsightView {
    InsightView {
        daily_access_counts: crate::models::record_access_spec(v.daily_access_counts, day),
        ..v
    }
}

impl Store {
    /// Reinforces one cached record; unknown identifiers are skipped.
    /// Returns a copy of the updated record for the caller to persist.
    fn reinforce_id(&mut self, id: u128, upvote: bool, now: i64) -> (r: Option<Insight>)
        requires
            old(self).wf(),
            ts_in_range(now as int),
        ensures
            final(self).wf(),
            final(self).view_seq() == reinforce_one_v(old(self).view_seq(), id, upvote, now),
            match r {
                Option::Some(i) => {
                    &&& i.wf()
                    &&& vfind(old(self).view_seq(), id) >= 0
                    &&& i@ == reinforce_view(
                        old(self).view_seq()[vfind(old(self).view_seq(), id)],
                        upvote,
                        now,
                    )
                    &&& vlookup(final(self).view_seq(), id) == Option::Some(i@)
                },
                Option::None => !contains_id(old(self).view_seq(), id),
            },
    {
        proof {
            lemma_vfind(self.view_seq(), id);
        }
        let ghost pre = self.view_seq();
        match self.find(id) {
            Option::None => Option::None,
            Option::Some(k) => {
                let mut x = self.insights.remove(k);
                let t: i64 = if now < x.created_at {
                    x.created_at
                } else {
                    now
                };
                x.apply_reinforcement(upvote, t);
                let ghost xv = x@;
                let copy = x.duplicate();
                self.insights.insert(k, x);
                proof {
                    assert(self.insights@ =~= old(self).insights@.update(k as int, x));
                    assert(self.view_seq() =~= pre.update(k as int, xv));
                    assert(xv == reinforce_view(pre[k as int], upvote, now));
                    assert forall|a: int, b: int|
                        0 <= a < b < self.insights@.len() implies (
                    #[trigger] self.insights@[a]).uuid != (#[trigger] self.insights@[b]).uuid by {
                        assert(old(self).insights@[a].uuid != old(self).insights@[b].uuid);
                    }
                    lemma_vfind_update(pre, k as int, xv, id);
                    lemma_vfind(self.view_seq(), id);
                }
                Option::Some(copy)
            },
        }
    }

    /// Applies batched reinforcement: every known identifier among the
    /// upvotes, then among the downvotes, compounding in order; unknown
    /// identifiers are silently skipped. Returns copies of the updated
    /// records, in application order, for the caller to persist.
    pub fn apply_reinforcement(
        &mut self,
        upvotes: &Vec<u128>,
        downvotes: &Vec<u128>,
        now: i64,
    ) -> (r: Vec<Insight>)
        requires
            old(self).wf(),
            ts_in_range(now as int),
        ensures
            final(self).wf(),
            final(self).view_seq() == reinforce_ids_v(
                reinforce_ids_v(old(self).view_seq(), upvotes@, true, now),
                downvotes@,
                false,
                now,
            ),
            views(r@) == reinforce_outs_v(old(self).view_seq(), upvotes@, true, now)
                + reinforce_outs_v(
                reinforce_ids_v(old(self).view_seq(), upvotes@, true, now),
                downvotes@,
                false,
                now,
            ),
            forall|k: int| 0 <= k < r@.len() ==> (#[trigger] r@[k]).wf(),
    {
        let ghost mid = reinforce_ids_v(old(self).view_seq(), upvotes@, true, now);
        let ghost up_outs = reinforce_outs_v(old(self).view_seq(), upvotes@, true, now);
        proof {
            assert(upvotes@.skip(0) =~= upvotes@);
            assert(views(Seq::<Insight>::empty()) =~= Seq::<InsightView>::empty());
        }
        let mut out: Vec<Insight> = Vec::new();
        let mut q: usize = 0;
        let nu = upvotes.len();
        while q < nu
            invariant
                q <= nu,
                nu == upvotes@.len(),
                self.wf(),
                ts_in_range(now as int),
                reinforce_ids_v(self.view_seq(), upvotes@.skip(q as int), true, now) == mid,
                views(out@) + reinforce_outs_v(self.view_seq(), upvotes@.skip(q as int), true, now)
                    == up_outs,
                forall|k: int| 0 <= k < out@.len() ==> (#[trigger] out@[k]).wf(),
            decreases nu - q,
        {
            let ghost pre = self.view_seq();
            let ghost pre_out = out@;
            let got = self.reinforce_id(upvotes[q], true, now);
            match got {
                Option::Some(i) => {
                    let ghost iv = i@;
                    out.push(i);
                    proof {
                        assert(views(out@) =~= views(pre_out).push(iv));
                    }
                },
                Option::None => {
                },
            }
            proof {
                assert(upvotes@.skip(q as int)[0] == upvotes@[q as int]);
                assert(upvotes@.skip(q as int).drop_first() =~= upvotes@.skip(q as int + 1));
                assert(reinforce_ids_v(pre, upvotes@.skip(q as int), true, now)
                    == reinforce_ids_v(self.view_seq(), upvotes@.skip(q as int + 1), true, now));
                if vfind(pre, upvotes@[q as int]) >= 0 {
                    assert(reinforce_outs_v(pre, upvotes@.skip(q as int), true, now)
                        == seq![reinforce_view(pre[vfind(pre, upvotes@[q as int])], true, now)]
                        + reinforce_outs_v(self.view_seq(), upvotes@.skip(q as int + 1), true,
                    now));
                    assert(views(pre_out) + reinforce_outs_v(pre, upvotes@.skip(q as int), true,
                    now) =~= views(out@) + reinforce_outs_v(
                        self.view_seq(),
                        upvotes@.skip(q as int + 1),
                        true,
                        now,
                    ));
                } else {
                    assert(reinforce_outs_v(pre, upvotes@.skip(q as int), true, now)
                        == reinforce_outs_v(self.view_seq(), upvotes@.skip(q as int + 1), true,
                    now));
                }
            }
            q = q + 1;
        }
        proof {
            assert(upvotes@.skip(nu as int) =~= Seq::<u128>::empty());
            assert(self.view_seq() == mid);
            assert(views(out@) + Seq::<InsightView>::empty() =~= views(out@));
            assert(views(out@) == up_outs);
        }
        let ghost fin = reinforce_ids_v(mid, downvotes@, false, now);
        let ghost down_outs = reinforce_outs_v(mid, downvotes@, false, now);
        proof {
            assert(downvotes@.skip(0) =~= downvotes@);
        }
        let mut q2: usize = 0;
        let nd = downvotes.len();
        while q2 < nd
            invariant
                q2 <= nd,
                nd == downvotes@.len(),
                self.wf(),
                ts_in_range(now as int),
                reinforce_ids_v(self.view_seq(), downvotes@.skip(q2 as int), false, now) == fin,
                views(out@) + reinforce_outs_v(
                    self.view_seq(),
                    downvotes@.skip(q2 as int),
                    false,
                    now,
                ) == up_outs + down_outs,
                forall|k: int| 0 <= k < out@.len() ==> (#[trigger] out@[k]).wf(),
            decreases nd - q2,
        {
            let ghost pre = self.view_seq();
            let ghost pre_out = out@;
            let got = self.reinforce_id(downvotes[q2], false, now);
            match got {
                Option::Some(i) => {
                    let ghost iv = i@;
                    out.push(i);
                    proof {
                        assert(views(out@) =~= views(pre_out).push(iv));
                    }
                },
                Option::None => {
                },
            }
            proof {
                assert(downvotes@.skip(q2 as int)[0] == downvotes@[q2 as int]);
                assert(downvotes@.skip(q2 as int).drop_first() =~= downvotes@.skip(q2 as int + 1));
                assert(reinforce_ids_v(pre, downvotes@.skip(q2 as int), false, now)
                    == reinforce_ids_v(self.view_seq(), downvotes@.skip(q2 as int + 1), false,
                now));
                if vfind(pre, downvotes@[q2 as int]) >= 0 {
                    assert(reinforce_outs_v(pre, downvotes@.skip(q2 as int), false, now)
                        == seq![reinforce_view(pre[vfind(pre, downvotes@[q2 as int])], false, now)]
                        + reinforce_outs_v(self.view_seq(), downvotes@.skip(q2 as int + 1), false,
                    now));
                    assert(views(pre_out) + reinforce_outs_v(pre, downvotes@.skip(q2 as int),
                    false, now) =~= views(out@) + reinforce_outs_v(
                        self.view_seq(),
                        downvotes@.skip(q2 as int + 1),
                        false,
                        now,
                    ));
                } else {
                    assert(reinforce_outs_v(pre, downvotes@.skip(q2 as int), false, now)
                        == reinforce_outs_v(self.view_seq(), downvotes@.skip(q2 as int + 1), false,
                    now));
                }
            }
            q2 = q2 + 1;
        }
        proof {
            assert(downvotes@.skip(nd as int) =~= Seq::<u128>::empty());
            assert(views(out@) + Seq::<InsightView>::empty() =~= views(out@));
        }
        out
    }

    /// Records one access to a cached record on the given logical day.
    /// Unknown identifiers, and days older than the newest recorded day,
    /// leave the cache unchanged. Returns a copy of the updated record for
    /// the caller to persist.
    pub fn record_insight_access(&mut self, id: u128, current_active_day: u32) -> (r: Option<
        Insight,
    >)
        requires
            old(self).wf(),
        ensures
            final(self).wf(),
            ({
                let f = vfind(old(self).view_seq(), id);
                if f >= 0 && (old(self).view_seq()[f].daily_access_counts.len() == 0 || old(
                    self,
                ).view_seq()[f].daily_access_counts.last().0 <= current_active_day) {
                    &&& final(self).view_seq() == old(self).view_seq().update(
                        f,
                        access_view(old(self).view_seq()[f], current_active_day),
                    )
                    &&& match r {
                        Option::Some(i) => i.wf() && i@ == access_view(
                            old(self).view_seq()[f],
                            current_active_day,
                        ),
                        Option::None => false,
                    }
                } else {
                    *final(self) == *old(self) && r is None
                }
            }),
    {
        proof {
            lemma_vfind(self.view_seq(), id);
        }
        let ghost pre = self.view_seq();
        match self.find(id) {
            Option::None => Option::None,
            Option::Some(k) => {
                let n = self.insights[k].daily_access_counts.len();
                let fresh_ok = n == 0 || self.insights[k].daily_access_counts[n - 1].0
                    <= current_active_day;
                if !fresh_ok {
                    return Option::None;
                }
                let mut x = self.insights.remove(k);
                x.record_access(current_active_day);
                let ghost xv = x@;
                let copy = x.duplicate();
                self.insights.insert(k, x);
                proof {
                    assert(self.insights@ =~= old(self).insights@.update(k as int, x));
                    assert(self.view_seq() =~= pre.update(k as int, xv));
                    assert(xv == access_view(pre[k as int], current_active_day));
                    assert forall|a: int, b: int|
                        0 <= a < b < self.insights@.len() implies (
                    #[trigger] self.insights@[a]).uuid != (#[trigger] self.insights@[b]).uuid by {
                        assert(old(self).insights@[a].uuid != old(self).insights@[b].uuid);
                    }
                }
                Option::Some(copy)
            },
        }
    }

    /// Applies a modification to a cached record: optional new content,
    /// tags, and importance, then the requested reinforcement. An unknown
    /// identifier or an out-of-range importance is rejected and the cache
    /// left unchanged. Returns a copy of the updated record for the caller
    /// to persist.
    pub fn modify_insight(&mut self, params: ModifyInsightParams, now: i64) -> (r: Result<
        Insight,
        StorageError,
    >)
        requires
            old(self).wf(),
            ts_in_range(now as int),
        ensures
            final(self).wf(),
            ({
                let f = vfind(old(self).view_seq(), params.uuid);
                if f < 0 {
                    r == Result::<Insight, StorageError>::Err(
                        StorageError::InsightNotFound { id: params.uuid },
                    ) && *final(self) == *old(self)
                } else if match params.importance {
                    Option::Some(m) => !(0 <= m <= SCALE),
                    Option::None => false,
                } {
                    r == Result::<Insight, StorageError>::Err(StorageError::InvalidImportance)
                        && *final(self) == *old(self)
                } else {
                    let v = modified_view(old(self).view_seq()[f], params, now);
                    &&& final(self).view_seq() == old(self).view_seq().update(f, v)
                    &&& match r {
                        Result::Ok(i) => i.wf() && i@ == v,
                        Result::Err(_) => false,
                    }
                }
            }),
    {
        proof {
            lemma_vfind(self.view_seq(), params.uuid);
        }
        let ghost pre = self.view_seq();
        let k = match self.find(params.uuid) {
            Option::None => {
                return Result::Err(StorageError::InsightNotFound { id: params.uuid });
            },
            Option::Some(k) => k,
        };
        match &params.importance {
            Option::Some(m) => {
                if !crate::models::importance_in_range(*m) {
                    return Result::Err(StorageError::InvalidImportance);
                }
            },
            Option::None => {},
        }
        let mut x = self.insights.remove(k);
        let ghost pv = pre[k as int];
        match params.content {
            Option::Some(c) => {
                x.content = c;
            },
            Option::None => {},
        }
        match params.situation {
            Option::Some(sit) => {
                x.situation = sit;
            },
            Option::None => {},
        }
        match params.importance {
            Option::Some(m) => {
                x.base_importance = m as u64;
                x.importance = m as u64;
            },
            Option::None => {},
        }
        let t: i64 = if now < x.created_at {
            x.created_at
        } else {
            now
        };
        match params.reinforce {
            ReinforcementType::Upvote => {
                x.apply_reinforcement(true, t);
            },
            ReinforcementType::Downvote => {
                x.apply_reinforcement(false, t);
            },
            ReinforcementType::Unchanged => {},
        }
        let ghost xv = x@;
        let copy = x.duplicate();
        self.insights.insert(k, x);
        proof {
            assert(self.insights@ =~= old(self).insights@.update(k as int, x));
            assert(self.view_seq() =~= pre.update(k as int, xv));
            assert(xv == modified_view(pv, params, now));
            assert forall|a: int, b: int| 0 <= a < b < self.insights@.len() implies (
            #[trigger] self.insights@[a]).uuid != (#[trigger] self.insights@[b]).uuid by {
                assert(old(self).insights@[a].uuid != old(self).insights@[b].uuid);
            }
        }
        Result::Ok(copy)
    }
}

/// One record after a modification was applied.
pub open spec fn modified_view(v: InsightView, params: ModifyInsightParams, now: i64) -> InsightView {
    let content = match params.content {
        Option::Some(c) => c@,
        Option::None => v.content,
    };
    let situation = match params.situation {
        Option::Some(s) => s.deep_view(),
        Option::None => v.situation,
    };
    let (base, imp) = match params.importance {
        Option::Some(m) => (m as u64, m as u64),
        Option::None => (v.base_importance, v.importance),
    };
    let edited = InsightView {
        content,
        situation,
        base_importance: base,
        importance: imp,
        ..v
    };
    match params.reinforce {
        ReinforcementType::Upvote => reinforce_view(edited, true, now),
        ReinforcementType::Downvote => reinforce_view(edited, false, now),
        ReinforcementType::Unchanged => edited,
    }
}

/// The cache a fresh store holds after loading a directory of record
/// files: each parseable record in order, later duplicates overwriting
/// earlier ones, corrupt records skipped.
pub open spec fn load_v(rs: Seq<Seq<u8>>) -> Seq<InsightView>
    decreases rs.len(),
{
    if rs.len() == 0 {
        Seq::empty()
    } else {
        let prev = load_v(rs.drop_last());
        match codec::dec_insight(rs.last()) {
            Option::Some(v) => upsert_v(prev, v),
            Option::None => prev,
        }
    }
}

/// The restart law: a fresh store loaded from record files that each spell
/// one record, with no identifier repeated, holds exactly those records.
/// Since every written record file spells the record it was written from,
/// a restart over a store directory loses nothing.
pub proof fn lemma_load_recovers(rs: Seq<Seq<u8>>, vs: Seq<InsightView>)
    requires
        rs.len() == vs.len(),
        forall|k: int|
            0 <= k < rs.len() ==> codec::dec_insight(#[trigger] rs[k]) == Option::Some(vs[k]),
        forall|k: int, l: int|
            0 <= k < l < vs.len() ==> (#[trigger] vs[k]).uuid != (#[trigger] vs[l]).uuid,
    ensures
        load_v(rs) == vs,
    decreases rs.len(),
{
    if rs.len() == 0 {
        assert(load_v(rs) =~= vs);
    } else {
        let rs0 = rs.drop_last();
        let vs0 = vs.drop_last();
        assert forall|k: int| 0 <= k < rs0.len() implies codec::dec_insight(#[trigger] rs0[k])
            == Option::Some(vs0[k]) by {
            assert(rs0[k] == rs[k]);
            assert(vs0[k] == vs[k]);
        }
        assert forall|k: int, l: int| 0 <= k < l < vs0.len() implies (#[trigger] vs0[k]).uuid != (
        #[trigger] vs0[l]).uuid by {
            assert(vs0[k] == vs[k] && vs0[l] == vs[l]);
        }
        lemma_load_recovers(rs0, vs0);
        let last = vs[vs.len() - 1];
        assert(codec::dec_insight(rs.last()) == Option::Some(last));
        lemma_vfind(vs0, last.uuid);
        if vfind(vs0, last.uuid) >= 0 {
            assert(vs0[vfind(vs0, last.uuid)].uuid == last.uuid);
            assert(false);
        }
        assert(load_v(rs) == upsert_v(vs0, last));
        assert(vs0.push(last) =~= vs);
    }
}

impl Store {
    /// Builds the cache from raw record files, skipping corrupt ones.
    pub fn load_from_records(records: &Vec<Vec<u8>>) -> (r: Store)
        ensures
            r.wf(),
            r.view_seq() == load_v(records.deep_view()),
    {
        let mut store = Store::new();
        let n = records.len();
        let mut q: usize = 0;
        proof {
            assert(store.view_seq() =~= load_v(records.deep_view().subrange(0, 0)));
        }
        while q < n
            invariant
                q <= n,
                n == records@.len(),
                records.deep_view().len() == n,
                store.wf(),
                store.view_seq() == load_v(records.deep_view().subrange(0, q as int)),
            decreases n - q,
        {
            proof {
                codec::lemma_u8vec_deep_view(records[q as int]);
                assert(records.deep_view()[q as int] == records@[q as int]@);
                assert(records.deep_view().subrange(0, q as int + 1).drop_last()
                    =~= records.deep_view().subrange(0, q as int));
                assert(records.deep_view().subrange(0, q as int + 1).last()
                    == records.deep_view()[q as int]);
            }
            match codec::parse_insight(&records[q]) {
                Option::Some(i) => {
                    store.store_insight(i);
                },
                Option::None => {},
            }
            q = q + 1;
        }
        proof {
            assert(records.deep_view().subrange(0, n as int) =~= records.deep_view());
        }
        store
    }
}

/// Loads the clock state from the metadata file's bytes. A missing file
/// yields the default state; unreadable bytes yield the default state and
/// ask the caller to set the corrupt file aside under a backup name.
pub fn load_metadata(bytes: Option<&Vec<u8>>) -> (r: (HippoMetadata, bool))
    ensures
        match bytes {
            Option::None => r.0 == (HippoMetadata {
                active_day_counter: 0,
                last_calendar_date_used: Option::None,
            }) && !r.1,
            Option::Some(b) => match codec::dec_meta(b@) {
                Option::Some(m) => r.0 == m && !r.1,
                Option::None => r.0 == (HippoMetadata {
                    active_day_counter: 0,
                    last_calendar_date_used: Option::None,
                }) && r.1,
            },
        },
        match r.0.last_calendar_date_used {
            Option::Some(d) => crate::dates::date_valid(d),
            Option::None => true,
        },
{
    match bytes {
        Option::None => (HippoMetadata::default(), false),
        Option::Some(b) => {
            match codec::parse_metadata(b) {
                Option::Some(m) => (m, false),
                Option::None => (HippoMetadata::default(), true),
            }
        },
    }
}

} // verus!
