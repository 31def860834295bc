//! The insight record, its pure temporal functions, and the clock state.
//!
//! Text is carried as UTF-8 bytes, ratings as micro-units, and timestamps as
//! milliseconds since the epoch, so that every rule of the engine is plain
//! integer arithmetic.

use vstd::prelude::*;
use vstd::pervasive::VecAdditionalExecFns;

use crate::constants::{
    SCALE, FREQUENCY_WINDOW_DAYS, RECENCY_DAY_FACTOR, IMPORTANCE_DECAY_FACTOR,
    MAX_DAILY_ACCESS_ENTRIES, MILLIS_PER_DAY,
};
use crate::dates::{ts_in_range, ts_in_range_exec, date_valid, CivilDate};
use crate::fixed::{decay_pow, decay_value};
use crate::sys;

verus! {

/// Days of an access history run strictly upward.
pub open spec fn days_strictly_increasing(s: Seq<(u32, u32)>) -> bool {
    forall|k: int, l: int| 0 <= k < l < s.len() ==> (#[trigger] s[k]).0 < (#[trigger] s[l]).0
}

/// Every entry of an access history counts at least one access.
pub open spec fn counts_positive(s: Seq<(u32, u32)>) -> bool {
    forall|k: int| 0 <= k < s.len() ==> (#[trigger] s[k]).1 >= 1
}

/// The mathematical model of an insight record.
pub struct InsightView {
    pub uuid: u128,
    pub content: Seq<u8>,
    pub situation: Seq<Seq<u8>>,
    pub base_importance: u64,
    pub importance: u64,
    pub created_at: i64,
    pub importance_modified_at: i64,
    pub daily_access_counts: Seq<(u32, u32)>,
}

/// The record invariant, on the model.
pub open spec fn view_wf(v: InsightView) -> bool {
    &&& v.base_importance <= SCALE
    &&& v.importance <= SCALE
    &&& ts_in_range(v.created_at as int)
    &&& ts_in_range(v.importance_modified_at as int)
    &&& v.created_at <= v.importance_modified_at
    &&& v.daily_access_counts.len() <= MAX_DAILY_ACCESS_ENTRIES
    &&& days_strictly_increasing(v.daily_access_counts)
    &&& counts_positive(v.daily_access_counts)
}

/// The unit of memory: an atomic fact with situational tags, an importance
/// rating, and a bounded history of daily access counts.
#[derive(Debug, Clone, PartialEq)]
pub struct Insight {
    /// Unique identifier, assigned at creation, never reused.
    pub uuid: u128,
    /// The recorded fact, as UTF-8 bytes.
    pub content: Vec<u8>,
    /// Independent situational tags, as UTF-8 bytes each.
    pub situation: Vec<Vec<u8>>,
    /// Importance assigned at creation or manual edit, in micro-units.
    pub base_importance: u64,
    /// Current importance after reinforcement, in micro-units.
    pub importance: u64,
    /// Creation time, milliseconds since the epoch.
    pub created_at: i64,
    /// Time of the last reinforcement or manual importance edit.
    pub importance_modified_at: i64,
    /// Pairs of (logical day, access count), strictly increasing in the day.
    pub daily_access_counts: Vec<(u32, u32)>,
}

impl View for Insight {
    type V = InsightView;

    open spec fn view(&self) -> InsightView {
        InsightView {
            uuid: self.uuid,
            content: self.content@,
            situation: self.situation.deep_view(),
            base_importance: self.base_importance,
            importance: self.importance,
            created_at: self.created_at,
            importance_modified_at: self.importance_modified_at,
            daily_access_counts: self.daily_access_counts@,
        }
    }
}

impl Insight {
    /// The record invariant.
    pub open spec fn wf(self) -> bool {
        &&& self.base_importance <= SCALE
        &&& self.importance <= SCALE
        &&& ts_in_range(self.created_at as int)
        &&& ts_in_range(self.importance_modified_at as int)
        &&& self.created_at <= self.importance_modified_at
        &&& self.daily_access_counts@.len() <= MAX_DAILY_ACCESS_ENTRIES
        &&& days_strictly_increasing(self.daily_access_counts@)
        &&& counts_positive(self.daily_access_counts@)
    }

    /// Two records hold the same data.
    pub open spec fn eqv(self, other: Insight) -> bool {
        &&& self.uuid == other.uuid
        &&& self.content@ == other.content@
        &&& self.situation.deep_view() == other.situation.deep_view()
        &&& self.base_importance == other.base_importance
        &&& self.importance == other.importance
        &&& self.created_at == other.created_at
        &&& self.importance_modified_at == other.importance_modified_at
        &&& self.daily_access_counts@ == other.daily_access_counts@
    }

    /// Creates a new insight with a fresh identifier and the current time.
    /// The importance must have been validated at the boundary.
    pub fn new(content: Vec<u8>, situation: Vec<Vec<u8>>, importance: u64) -> (r: Insight)
        requires
            importance <= SCALE,
        ensures
            r.wf(),
            r.content@ == content@,
            r.situation.deep_view() == situation.deep_view(),
            r.base_importance == importance,
            r.importance == importance,
            r.created_at == r.importance_modified_at,
            r.daily_access_counts@.len() == 0,
    {
        let now = sys::now_millis();
        let t: i64 = if ts_in_range_exec(now) {
            now
        } else {
            proof {
                crate::dates::lemma_days_before_year_bounds(1970, 10000);
            }
            0
        };
        Insight {
            uuid: sys::fresh_id(),
            content,
            situation,
            base_importance: importance,
            importance,
            created_at: t,
            importance_modified_at: t,
            daily_access_counts: Vec::new(),
        }
    }

    /// A field-for-field copy of the record.
    pub fn duplicate(&self) -> (r: Insight)
        ensures
            r.eqv(*self),
    {
        let content = self.content.clone();
        proof {
            assert(content@ =~= self.content@);
        }
        let situation = self.situation.clone();
        proof {
            assert forall|i: int| 0 <= i < self.situation@.len() implies (
                #[trigger] situation.deep_view()[i]) == self.situation.deep_view()[i] by {
                assert(cloned::<Vec<u8>>(self.situation[i], situation[i]));
                assert(situation[i]@ =~= self.situation[i]@);
            }
            assert(situation.deep_view() =~= self.situation.deep_view());
        }
        let mut dac: Vec<(u32, u32)> = Vec::new();
        let mut j: usize = 0;
        while j < self.daily_access_counts.len()
            invariant
                j <= self.daily_access_counts@.len(),
                dac@ == self.daily_access_counts@.subrange(0, j as int),
            decreases self.daily_access_counts@.len() - j,
        {
            dac.push(self.daily_access_counts[j]);
            proof {
                assert(dac@ =~= self.daily_access_counts@.subrange(0, j as int + 1));
            }
            j = j + 1;
        }
        proof {
            assert(dac@ =~= self.daily_access_counts@);
        }
        Insight {
            uuid: self.uuid,
            content,
            situation,
            base_importance: self.base_importance,
            importance: self.importance,
            created_at: self.created_at,
            importance_modified_at: self.importance_modified_at,
            daily_access_counts: dac,
        }
    }

    /// Applies reinforcement: an upvote multiplies the importance by 1.5 and
    /// clamps at 1.0; a downvote halves it. Both floor to micro-units.
    /// Repeated calls compound. The decay anchor moves to `now`.
    pub fn apply_reinforcement(&mut self, upvote: bool, now: i64)
        requires
            old(self).wf(),
            old(self).created_at <= now,
            ts_in_range(now as int),
        ensures
            final(self).wf(),
            final(self).importance == reinforced(old(self).importance as int, upvote),
            final(self).importance_modified_at == now,
            final(self).uuid == old(self).uuid,
            final(self).content == old(self).content,
            final(self).situation == old(self).situation,
            final(self).base_importance == old(self).base_importance,
            final(self).created_at == old(self).created_at,
            final(self).daily_access_counts == old(self).daily_access_counts,
    {
        let v = self.importance;
        let scaled: u64 = if upvote {
            let up = (v * 3) / 2;
            if up > SCALE {
                SCALE
            } else {
                up
            }
        } else {
            v / 2
        };
        self.importance = scaled;
        self.importance_modified_at = now;
    }

    /// Current importance with exponential decay applied: one decay step per
    /// whole day elapsed since the last importance change.
    pub fn compute_current_importance(&self, now: i64) -> (r: u64)
        requires
            self.wf(),
        ensures
            r == decayed_importance(*self, now),
            r <= self.importance,
    {
        let days: u64 = if now <= self.importance_modified_at {
            0
        } else {
            let diff: u64 = (now - self.importance_modified_at) as u64;
            diff / 86_400_000
        };
        decay_value(self.importance, IMPORTANCE_DECAY_FACTOR, days)
    }

    /// Records one access on the given logical day: bumps the count of the
    /// newest entry when it is that day, otherwise appends a fresh entry and
    /// evicts the oldest entry if the history would exceed its cap.
    pub fn record_access(&mut self, current_active_day: u32)
        requires
            old(self).wf(),
            old(self).daily_access_counts@.len() > 0 ==> old(
                self,
            ).daily_access_counts@.last().0 <= current_active_day,
        ensures
            final(self).wf(),
            final(self).daily_access_counts@ == record_access_spec(
                old(self).daily_access_counts@,
                current_active_day,
            ),
            final(self).uuid == old(self).uuid,
            final(self).content == old(self).content,
            final(self).situation == old(self).situation,
            final(self).base_importance == old(self).base_importance,
            final(self).importance == old(self).importance,
            final(self).created_at == old(self).created_at,
            final(self).importance_modified_at == old(self).importance_modified_at,
    {
        let n = self.daily_access_counts.len();
        if n > 0 {
            let last = self.daily_access_counts[n - 1];
            if last.0 == current_active_day {
                let c: u32 = if last.1 < u32::MAX {
                    last.1 + 1
                } else {
                    last.1
                };
                self.daily_access_counts.set(n - 1, (current_active_day, c));
                return ;
            }
        }
        self.daily_access_counts.push((current_active_day, 1));
        if self.daily_access_counts.len() > MAX_DAILY_ACCESS_ENTRIES {
            self.daily_access_counts.remove(0);
            proof {
                let s = old(self).daily_access_counts@.push((current_active_day, 1u32));
                assert(final(self).daily_access_counts@ =~= s.remove(0));
            }
        }
    }

    /// Accesses per active day over the trailing window, in micro-units:
    /// total accesses on days within the window, which is bounded on both
    /// ends, divided by the days actually spanned by the in-window entries.
    /// Zero when nothing falls in the window.
    pub fn calculate_frequency(&self, current_active_day: u32, window_days: u32) -> (r: u64)
        requires
            self.wf(),
            window_days >= 1,
        ensures
            r == frequency_micro(self.daily_access_counts@, current_active_day, window_days),
    {
        let s = &self.daily_access_counts;
        let n = s.len();
        let start: u32 = if current_active_day >= window_days - 1 {
            current_active_day - (window_days - 1)
        } else {
            0
        };
        let ghost st = window_start(current_active_day, window_days);
        let mut lo: usize = 0;
        while lo < n && s[lo].0 < start
            invariant
                lo <= n,
                n == s@.len(),
                forall|k: int| 0 <= k < lo ==> (#[trigger] s@[k]).0 < st,
                start == st,
            decreases n - lo,
        {
            lo = lo + 1;
        }
        let mut hi: usize = lo;
        while hi < n && s[hi].0 <= current_active_day
            invariant
                lo <= hi <= n,
                n == s@.len(),
                forall|k: int| lo <= k < hi ==> (#[trigger] s@[k]).0 <= current_active_day,
            decreases n - hi,
        {
            hi = hi + 1;
        }
        proof {
            assert forall|k: int| lo <= k < hi implies st <= (#[trigger] s@[k]).0
                <= current_active_day by {
                if k > lo {
                    assert(s@[lo as int].0 < s@[k].0);
                }
            }
            assert forall|k: int| hi <= k < n implies (#[trigger] s@[k]).0
                > current_active_day by {
                if k > hi {
                    assert(s@[hi as int].0 < s@[k].0);
                }
            }
            lemma_window_is_segment(s@, st, current_active_day as int, lo as int, hi as int);
        }
        if lo == hi {
            proof {
                assert(window_seq(s@, st, current_active_day as int) =~= Seq::<(
                    u32,
                    u32,
                )>::empty());
            }
            return 0;
        }
        let mut acc: u64 = 0;
        let mut j: usize = lo;
        while j < hi
            invariant
                lo <= j <= hi <= n,
                n == s@.len(),
                n <= MAX_DAILY_ACCESS_ENTRIES,
                acc == total_count(s@.subrange(lo as int, j as int)),
                acc <= (j - lo) * 0xffff_ffffu64,
            decreases hi - j,
        {
            proof {
                assert(s@.subrange(lo as int, j as int + 1).drop_last() =~= s@.subrange(
                    lo as int,
                    j as int,
                ));
                assert(s@.subrange(lo as int, j as int + 1).last() == s@[j as int]);
            }
            acc = acc + (s[j].1 as u64);
            j = j + 1;
        }
        proof {
            assert(s@.subrange(lo as int, hi as int) == window_seq(
                s@,
                st,
                current_active_day as int,
            ));
        }
        let first = s[lo];
        let last = s[hi - 1];
        proof {
            if lo < hi - 1 {
                assert(s@[lo as int].0 < s@[hi - 1].0);
            }
            assert(window_seq(s@, st, current_active_day as int)[0] == s@[lo as int]);
            assert(window_seq(s@, st, current_active_day as int).last() == s@[hi - 1]);
        }
        let span: u64 = (last.0 - first.0) as u64 + 1;
        (acc * SCALE) / span
    }

    /// Frequency over the default window.
    pub fn calculate_frequency_default(&self, current_active_day: u32) -> (r: u64)
        requires
            self.wf(),
        ensures
            r == frequency_micro(
                self.daily_access_counts@,
                current_active_day,
                FREQUENCY_WINDOW_DAYS,
            ),
    {
        self.calculate_frequency(current_active_day, FREQUENCY_WINDOW_DAYS)
    }

    /// Recency score in micro-units: one retention step per active day since
    /// the last recorded access; zero without any access history.
    pub fn calculate_recency_score(&self, current_active_day: u32, decay_factor: u64) -> (r: u64)
        requires
            self.wf(),
            decay_factor <= SCALE,
        ensures
            r == recency_micro(self.daily_access_counts@, current_active_day, decay_factor),
            r <= SCALE,
    {
        let n = self.daily_access_counts.len();
        if n == 0 {
            return 0;
        }
        let last = self.daily_access_counts[n - 1];
        let days: u64 = if current_active_day >= last.0 {
            (current_active_day - last.0) as u64
        } else {
            0
        };
        decay_value(SCALE, decay_factor, days)
    }

    /// Recency score with the default retention factor.
    pub fn calculate_recency_score_default(&self, current_active_day: u32) -> (r: u64)
        requires
            self.wf(),
        ensures
            r == recency_micro(
                self.daily_access_counts@,
                current_active_day,
                RECENCY_DAY_FACTOR,
            ),
            r <= SCALE,
    {
        self.calculate_recency_score(current_active_day, RECENCY_DAY_FACTOR)
    }

    /// Days since creation, in micro-days, for display.
    pub fn days_since_created(&self, now: i64) -> (r: u64)
        ensures
            r == micro_days_between(self.created_at, now),
    {
        micro_days_exec(self.created_at, now)
    }

    /// Days since the last importance change, in micro-days, for display.
    pub fn days_since_importance_modified(&self, now: i64) -> (r: u64)
        ensures
            r == micro_days_between(self.importance_modified_at, now),
    {
        micro_days_exec(self.importance_modified_at, now)
    }
}

/// The record invariant and its model-level form agree.
pub proof fn lemma_wf_is_view_wf(i: Insight)
    ensures
        i.wf() <==> view_wf(i@),
{
}

/// Importance after one reinforcement, in micro-units.
pub open spec fn reinforced(v: int, upvote: bool) -> int {
    if upvote {
        if (v * 3) / 2 > SCALE {
            SCALE as int
        } else {
            (v * 3) / 2
        }
    } else {
        v / 2
    }
}

/// Whole days elapsed from `m` to `now`; zero when `now` is not after `m`.
pub open spec fn elapsed_days(m: i64, now: i64) -> nat {
    if now <= m {
        0
    } else {
        (((now - m) as int) / 86_400_000) as nat
    }
}

/// Importance decayed by one step per elapsed whole day.
pub open spec fn decayed_importance(i: Insight, now: i64) -> int {
    decay_pow(
        i.importance as int,
        IMPORTANCE_DECAY_FACTOR as int,
        elapsed_days(i.importance_modified_at, now),
    )
}

/// Access history after recording one access on `day`.
pub open spec fn record_access_spec(s: Seq<(u32, u32)>, day: u32) -> Seq<(u32, u32)> {
    if s.len() > 0 && s.last().0 == day {
        s.update(s.len() - 1, (day, sat_inc(s.last().1)))
    } else if s.len() < MAX_DAILY_ACCESS_ENTRIES {
        s.push((day, 1u32))
    } else {
        s.push((day, 1u32)).remove(0)
    }
}

pub open spec fn sat_inc(c: u32) -> u32 {
    if c < u32::MAX {
        (c + 1) as u32
    } else {
        c
    }
}

/// First logical day of the trailing window that ends at `day`.
pub open spec fn window_start(day: u32, window: u32) -> int
    recommends
        window >= 1,
{
    if day as int >= window - 1 {
        day - (window - 1)
    } else {
        0
    }
}

/// The in-window entries: those on a day between the window start and the
/// window end, both inclusive. Entries are sorted by day, so this is a
/// contiguous segment of the history.
pub open spec fn window_seq(s: Seq<(u32, u32)>, start: int, end: int) -> Seq<(u32, u32)>
    decreases s.len(),
{
    if s.len() == 0 {
        s
    } else {
        let rest = window_seq(s.drop_last(), start, end);
        if start <= s.last().0 <= end {
            rest.push(s.last())
        } else {
            rest
        }
    }
}

/// Total accesses of an access history.
pub open spec fn total_count(s: Seq<(u32, u32)>) -> int
    decreases s.len(),
{
    if s.len() == 0 {
        0
    } else {
        total_count(s.drop_last()) + s.last().1
    }
}

/// Frequency in micro-units: in-window accesses per day actually spanned.
/// The window ends at `day` and reaches back `window` days, inclusive on
/// both ends.
pub open spec fn frequency_micro(s: Seq<(u32, u32)>, day: u32, window: u32) -> int {
    let w = window_seq(s, window_start(day, window), day as int);
    if w.len() == 0 {
        0
    } else {
        total_count(w) * (SCALE as int) / (w.last().0 - w[0].0 + 1)
    }
}

/// Recency score in micro-units.
pub open spec fn recency_micro(s: Seq<(u32, u32)>, day: u32, factor: u64) -> int {
    if s.len() == 0 {
        0
    } else {
        decay_pow(SCALE as int, factor as int, days_since(s.last().0, day))
    }
}

pub open spec fn days_since(last: u32, day: u32) -> nat {
    if day >= last {
        (day - last) as nat
    } else {
        0
    }
}

/// Fractional days from `a` to `b` in micro-days; zero when `b` is not after
/// `a`.
pub open spec fn micro_days_between(a: i64, b: i64) -> int {
    if b <= a {
        0
    } else {
        (b - a) * (SCALE as int) / 86_400_000
    }
}

fn micro_days_exec(a: i64, b: i64) -> (r: u64)
    ensures
        r == micro_days_between(a, b),
{
    if b <= a {
        return 0;
    }
    let diff: i128 = (b as i128) - (a as i128);
    proof {
        assert(0 < diff <= 0xffff_ffff_ffff_ffffi128);
        assert(diff * (SCALE as i128) <= 0xffff_ffff_ffff_ffffi128 * 1_000_000)
            by (nonlinear_arith)
            requires
                0 < diff <= 0xffff_ffff_ffff_ffffi128,
        ;
        assert(diff * (SCALE as i128) > 0) by (nonlinear_arith)
            requires
                diff > 0,
        ;
        assert(diff * (SCALE as i128) <= diff * 86_400_000) by (nonlinear_arith)
            requires
                0 <= diff,
        ;
        vstd::arithmetic::div_mod::lemma_div_is_ordered(
            0,
            diff * (SCALE as i128),
            86_400_000,
        );
        vstd::arithmetic::div_mod::lemma_div_is_ordered(
            diff * (SCALE as i128),
            diff * 86_400_000,
            86_400_000,
        );
        assert((diff * 86_400_000) / 86_400_000 == diff) by (nonlinear_arith);
    }
    let md: i128 = (diff * (SCALE as i128)) / 86_400_000;
    md as u64
}

/// In-window entries of a sorted history form the contiguous segment from
/// the first index at or past the window start to the last index not past
/// the window end.
proof fn lemma_window_is_segment(s: Seq<(u32, u32)>, start: int, end: int, lo: int, hi: int)
    requires
        days_strictly_increasing(s),
        0 <= lo <= hi <= s.len(),
        forall|k: int| 0 <= k < lo ==> (#[trigger] s[k]).0 < start,
        forall|k: int| lo <= k < hi ==> start <= (#[trigger] s[k]).0 <= end,
        forall|k: int| hi <= k < s.len() ==> (#[trigger] s[k]).0 > end,
    ensures
        window_seq(s, start, end) == s.subrange(lo, hi),
    decreases s.len(),
{
    if s.len() == 0 {
        assert(window_seq(s, start, end) =~= s.subrange(lo, hi));
    } else {
        let s0 = s.drop_last();
        let n = s.len() as int;
        assert(s0 =~= s.subrange(0, n - 1));
        if hi <= n - 1 {
            // the last entry lies past the window end
            assert(s[n - 1].0 > end);
            assert(window_seq(s, start, end) == window_seq(s0, start, end));
            lemma_window_is_segment(s0, start, end, lo, hi);
            assert(window_seq(s, start, end) =~= s.subrange(lo, hi));
        } else if lo <= n - 1 {
            // the last entry lies in the window, so hi == s.len()
            assert(start <= s[n - 1].0 <= end);
            assert(window_seq(s, start, end) == window_seq(s0, start, end).push(s.last()));
            lemma_window_is_segment(s0, start, end, lo, n - 1);
            assert(window_seq(s, start, end) =~= s.subrange(lo, hi));
        } else {
            // the whole history lies before the window start
            assert(lo == n && hi == n);
            assert(s[n - 1].0 < start);
            assert(window_seq(s, start, end) == window_seq(s0, start, end));
            lemma_window_is_segment(s0, start, end, n - 1, n - 1);
            assert(window_seq(s, start, end) =~= s.subrange(lo, hi));
        }
    }
}

/// A search hit: the matched insight, its composite relevance, and display
/// ages in micro-days. Never persisted.
#[derive(Debug, Clone, PartialEq)]
pub struct SearchResult {
    /// The matching insight.
    pub insight: Insight,
    /// Composite relevance in micro-units.
    pub relevance: i64,
    /// Age of the record in micro-days at search time.
    pub days_since_created: u64,
    /// Micro-days since the last importance change at search time.
    pub days_since_importance_modified: u64,
}

impl SearchResult {
    /// Builds a search result for `insight` scored `relevance` at time `now`.
    pub fn new(insight: Insight, relevance: i64, now: i64) -> (r: SearchResult)
        ensures
            r.insight == insight,
            r.relevance == relevance,
            r.days_since_created == micro_days_between(insight.created_at, now),
            r.days_since_importance_modified == micro_days_between(
                insight.importance_modified_at,
                now,
            ),
    {
        let days_since_created = insight.days_since_created(now);
        let days_since_importance_modified = insight.days_since_importance_modified(now);
        SearchResult { insight, relevance, days_since_created, days_since_importance_modified }
    }
}

/// A timestamp in the supported range: the wall clock when it is sane, the
/// epoch otherwise.
pub fn now_in_range() -> (r: i64)
    ensures
        ts_in_range(r as int),
{
    let t = sys::now_millis();
    if ts_in_range_exec(t) {
        t
    } else {
        proof {
            crate::dates::lemma_days_before_year_bounds(1970, 10000);
        }
        0
    }
}

/// True when a boundary importance value lies in `[0, 1]`.
pub fn importance_in_range(v: i64) -> (r: bool)
    ensures
        r == (0 <= v <= SCALE),
{
    0 <= v && v <= (SCALE as i64)
}

/// Boundary parameters for recording a new insight. The importance arrives
/// unvalidated, in micro-units.
#[derive(Debug, Clone, PartialEq)]
pub struct RecordInsightParams {
    pub content: Vec<u8>,
    pub situation: Vec<Vec<u8>>,
    pub importance: i64,
}

/// Relevance range filter of a search, in micro-units.
#[derive(Debug, Clone, PartialEq)]
pub struct RelevanceRange {
    pub min: i64,
    pub max: Option<i64>,
}

/// Pagination of a search.
#[derive(Debug, Clone, PartialEq)]
pub struct PaginationLimit {
    pub offset: usize,
    pub count: usize,
}

impl Default for PaginationLimit {
    /// The first page of ten results.
    fn default() -> (r: Self)
        ensures
            r.offset == 0,
            r.count == crate::constants::DEFAULT_SEARCH_COUNT,
    {
        PaginationLimit { offset: 0, count: crate::constants::DEFAULT_SEARCH_COUNT }
    }
}

/// Boundary parameters for a search.
#[derive(Debug, Clone, PartialEq)]
pub struct SearchInsightsParams {
    pub query: Vec<u8>,
    pub situation_filter: Option<Vec<Vec<u8>>>,
    pub relevance_range: Option<RelevanceRange>,
    pub limit: Option<PaginationLimit>,
}

/// Reinforcement requested along with a modification.
#[derive(Debug, Clone, PartialEq, Eq, Structural)]
pub enum ReinforcementType {
    Upvote,
    Downvote,
    Unchanged,
}

/// Boundary parameters for modifying an insight.
#[derive(Debug, Clone, PartialEq)]
pub struct ModifyInsightParams {
    pub uuid: u128,
    pub content: Option<Vec<u8>>,
    pub situation: Option<Vec<Vec<u8>>>,
    pub importance: Option<i64>,
    pub reinforce: ReinforcementType,
}

/// Boundary parameters for batched reinforcement feedback.
#[derive(Debug, Clone, PartialEq)]
pub struct ReinforceInsightParams {
    pub upvotes: Vec<u128>,
    pub downvotes: Vec<u128>,
}

/// Persistent clock state: the logical active-day counter and the calendar
/// date on which it was last advanced.
#[derive(Debug, Clone, PartialEq)]
pub struct HippoMetadata {
    /// Logical day counter; starts at 0, becomes 1 on first use.
    pub active_day_counter: u32,
    /// Calendar date of the last increment; absent before first use.
    pub last_calendar_date_used: Option<CivilDate>,
}

impl Default for HippoMetadata {
    fn default() -> (r: Self)
        ensures
            r.active_day_counter == 0,
            r.last_calendar_date_used is None,
    {
        HippoMetadata { active_day_counter: 0, last_calendar_date_used: None }
    }
}

/// Today advances the clock when no increment has happened yet or the stored
/// date differs from today.
pub open spec fn is_new_day(meta: HippoMetadata, today: CivilDate) -> bool {
    match meta.last_calendar_date_used {
        Option::None => true,
        Option::Some(d) => d != today,
    }
}

impl HippoMetadata {
    /// Returns the current logical active day, incrementing the counter on
    /// the first call of a new calendar day. `updated` reports whether the
    /// state changed and must be persisted.
    pub fn get_current_active_day(&mut self, today: CivilDate, updated: &mut bool) -> (r: u32)
        requires
            date_valid(today),
            old(self).active_day_counter < u32::MAX,
        ensures
            *final(updated) == is_new_day(*old(self), today),
            is_new_day(*old(self), today) ==> {
                &&& final(self).active_day_counter == old(self).active_day_counter + 1
                &&& final(self).last_calendar_date_used == Option::Some(today)
            },
            !is_new_day(*old(self), today) ==> *final(self) == *old(self),
            r == final(self).active_day_counter,
    {
        let new_day: bool = match &self.last_calendar_date_used {
            Option::None => true,
            Option::Some(d) => !(d.year == today.year && d.month == today.month && d.day
                == today.day),
        };
        if new_day {
            self.active_day_counter = self.active_day_counter + 1;
            self.last_calendar_date_used = Option::Some(today);
            *updated = true;
        } else {
            *updated = false;
        }
        self.active_day_counter
    }
}

} // verus!
