//! The relevance engine: situational matching, composite scoring, and the
//! ranked, paginated search over a candidate set.
//!
//! Semantic similarity comes from outside: the caller obtains one content
//! relevance score per candidate from its embedding capability and passes
//! them in micro-units. Everything after that point is verified.

use vstd::prelude::*;
use vstd::relations::{sorted_by, total_ordering};
use vstd::seq_lib::lemma_sorted_unique;

use crate::constants::{
    SCALE, FREQUENCY_WINDOW_DAYS, RECENCY_DAY_FACTOR, CONTENT_MATCH_THRESHOLD,
    SITUATION_MATCH_THRESHOLD, MAX_REASONABLE_FREQUENCY, RELEVANCE_WEIGHT_RECENCY,
    RELEVANCE_WEIGHT_FREQUENCY, RELEVANCE_WEIGHT_IMPORTANCE, RELEVANCE_WEIGHT_CONTEXT,
};
use crate::fixed::{decay_pow, lemma_decay_pow_le};
use crate::models::{
    Insight, SearchResult, recency_micro, frequency_micro, decayed_importance,
    micro_days_between,
};

verus! {

/// ASCII lowercase of one byte. Case folding is ASCII-only throughout the
/// matcher: bytes outside the ASCII letters pass through unchanged, so
/// non-ASCII tags and filters match only byte-for-byte.
pub open spec fn lower_byte(b: u8) -> u8 {
    if 65 <= b <= 90 {
        (b + 32) as u8
    } else {
        b
    }
}

/// ASCII lowercase of a byte string.
pub open spec fn lower_seq(s: Seq<u8>) -> Seq<u8> {
    s.map_values(|b: u8| lower_byte(b))
}

/// `needle` occurs in `hay` starting at position `k`.
pub open spec fn is_substring_at(hay: Seq<u8>, needle: Seq<u8>, k: int) -> bool {
    0 <= k && k + needle.len() <= hay.len() && hay.subrange(k, k + needle.len()) == needle
}

/// `needle` occurs somewhere in `hay`.
pub open spec fn contains_bytes(hay: Seq<u8>, needle: Seq<u8>) -> bool {
    exists|k: int| is_substring_at(hay, needle, k)
}

/// Some filter is a case-insensitive substring of some tag; case is folded
/// for ASCII letters only.
pub open spec fn situation_matches(filters: Seq<Seq<u8>>, tags: Seq<Seq<u8>>) -> bool {
    exists|i: int, j: int|
        0 <= i < filters.len() && 0 <= j < tags.len() && contains_bytes(
            lower_seq(#[trigger] tags[j]),
            lower_seq(#[trigger] filters[i]),
        )
}

/// Situation relevance in micro-units: full relevance without filters or on
/// a match, zero otherwise. The match is binary, not proportional.
pub open spec fn situation_relevance(filters: Seq<Seq<u8>>, tags: Seq<Seq<u8>>) -> int {
    if filters.len() == 0 || situation_matches(filters, tags) {
        SCALE as int
    } else {
        0
    }
}

/// Frequency normalized against the maximum reasonable frequency and capped
/// at full scale.
pub open spec fn norm_frequency(f: int) -> int {
    let scaled = f * (SCALE as int) / (MAX_REASONABLE_FREQUENCY as int);
    if scaled > SCALE {
        SCALE as int
    } else {
        scaled
    }
}

/// Composite relevance in micro-units: the fixed-weight blend of recency,
/// normalized frequency, decayed importance, and situation relevance.
pub open spec fn relevance_of(ins: Insight, filters: Seq<Seq<u8>>, day: u32, now: i64) -> int {
    ((RELEVANCE_WEIGHT_RECENCY as int) * recency_micro(
        ins.daily_access_counts@,
        day,
        RECENCY_DAY_FACTOR,
    ) + (RELEVANCE_WEIGHT_FREQUENCY as int) * norm_frequency(
        frequency_micro(ins.daily_access_counts@, day, FREQUENCY_WINDOW_DAYS),
    ) + (RELEVANCE_WEIGHT_IMPORTANCE as int) * decayed_importance(ins, now)
        + (RELEVANCE_WEIGHT_CONTEXT as int) * situation_relevance(
        filters,
        ins.situation.deep_view(),
    )) / (SCALE as int)
}

/// ASCII lowercase of a byte string.
fn lower_vec(s: &Vec<u8>) -> (r: Vec<u8>)
    ensures
        r@ == lower_seq(s@),
{
    let mut out: Vec<u8> = Vec::new();
    let mut i: usize = 0;
    while i < s.len()
        invariant
            i <= s@.len(),
            out@ == lower_seq(s@).subrange(0, i as int),
        decreases s@.len() - i,
    {
        let b = s[i];
        let lb: u8 = if 65 <= b && b <= 90 {
            b + 32
        } else {
            b
        };
        out.push(lb);
        proof {
            assert(out@ =~= lower_seq(s@).subrange(0, i as int + 1));
        }
        i = i + 1;
    }
    proof {
        assert(out@ =~= lower_seq(s@));
    }
    out
}

/// Naive substring search over bytes.
fn contains_sub(hay: &Vec<u8>, needle: &Vec<u8>) -> (r: bool)
    ensures
        r == contains_bytes(hay@, needle@),
{
    let hl = hay.len();
    let nl = needle.len();
    if nl > hl {
        proof {
            assert forall|k: int| !is_substring_at(hay@, needle@, k) by {}
        }
        return false;
    }
    let mut k: usize = 0;
    while k <= hl - nl
        invariant
            nl <= hl,
            hl == hay@.len(),
            nl == needle@.len(),
            k <= hl - nl + 1,
            forall|k0: int| 0 <= k0 < k ==> !is_substring_at(hay@, needle@, k0),
        decreases hl - nl + 1 - k,
    {
        let mut j: usize = 0;
        while j < nl && hay[k + j] == needle[j]
            invariant
                k + nl <= hl,
                hl == hay@.len(),
                nl == needle@.len(),
                j <= nl,
                forall|j0: int| 0 <= j0 < j ==> hay@[k + j0] == needle@[j0],
            decreases nl - j,
        {
            j = j + 1;
        }
        if j == nl {
            proof {
                assert(hay@.subrange(k as int, k as int + nl as int) =~= needle@);
                assert(is_substring_at(hay@, needle@, k as int));
            }
            return true;
        }
        proof {
            assert(hay@[k as int + j as int] != needle@[j as int]);
            assert forall|q: int| q == k as int implies !is_substring_at(hay@, needle@, q) by {
                if is_substring_at(hay@, needle@, q) {
                    assert(hay@.subrange(q, q + nl as int)[j as int] == needle@[j as int]);
                }
            }
        }
        k = k + 1;
    }
    proof {
        assert forall|k0: int| !is_substring_at(hay@, needle@, k0) by {
            if 0 <= k0 && k0 + needle@.len() <= hay@.len() {
                assert(k0 < k);
            }
        }
    }
    false
}

/// Case-insensitive situational match of any filter against any tag.
pub fn situation_matches_exec(filters: &Vec<Vec<u8>>, tags: &Vec<Vec<u8>>) -> (r: bool)
    ensures
        r == situation_matches(filters.deep_view(), tags.deep_view()),
{
    let ghost fv = filters.deep_view();
    let ghost tv = tags.deep_view();
    let mut i: usize = 0;
    while i < filters.len()
        invariant
            i <= fv.len(),
            fv == filters.deep_view(),
            tv == tags.deep_view(),
            fv.len() == filters@.len(),
            tv.len() == tags@.len(),
            forall|i0: int, j0: int|
                0 <= i0 < i && 0 <= j0 < tv.len() ==> !contains_bytes(
                    lower_seq(#[trigger] tv[j0]),
                    lower_seq(#[trigger] fv[i0]),
                ),
        decreases fv.len() - i,
    {
        let lf = lower_vec(&filters[i]);
        proof {
            assert(filters[i as int]@ == fv[i as int]);
        }
        let mut j: usize = 0;
        while j < tags.len()
            invariant
                j <= tv.len(),
                i < fv.len(),
                fv == filters.deep_view(),
                tv == tags.deep_view(),
                tv.len() == tags@.len(),
                lf@ == lower_seq(fv[i as int]),
                forall|j0: int|
                    0 <= j0 < j ==> !contains_bytes(
                        lower_seq(#[trigger] tv[j0]),
                        lower_seq(fv[i as int]),
                    ),
            decreases tv.len() - j,
        {
            let lt = lower_vec(&tags[j]);
            proof {
                assert(tags[j as int]@ == tv[j as int]);
            }
            if contains_sub(&lt, &lf) {
                return true;
            }
            j = j + 1;
        }
        i = i + 1;
    }
    false
}

/// Candidate order: higher relevance first, earlier candidate first on ties.
pub open spec fn cand_precedes(a: (usize, i64), b: (usize, i64)) -> bool {
    a.1 > b.1 || (a.1 == b.1 && a.0 <= b.0)
}

/// The candidate order as a relation value.
pub open spec fn cand_order() -> spec_fn((usize, i64), (usize, i64)) -> bool {
    |a: (usize, i64), b: (usize, i64)| cand_precedes(a, b)
}

/// The relation value applies as the candidate order.
pub proof fn lemma_cand_order_is(a: (usize, i64), b: (usize, i64))
    ensures
        (cand_order())(a, b) == cand_precedes(a, b),
{
}

/// The candidate order is total, so the sorted candidate list is unique.
pub proof fn lemma_cand_order_total()
    ensures
        total_ordering(cand_order()),
{
    let r = cand_order();
    assert forall|x: (usize, i64)| #[trigger] r(x, x) by {}
    assert forall|x: (usize, i64), y: (usize, i64)| #[trigger] r(x, y) && #[trigger] r(y, x)
        implies x == y by {}
    assert forall|x: (usize, i64), y: (usize, i64), z: (usize, i64)|
        #[trigger] r(x, y) && #[trigger] r(y, z) implies r(x, z) by {}
    assert forall|x: (usize, i64), y: (usize, i64)| #[trigger] r(x, y) || #[trigger] r(y, x) by {}
}

/// A candidate passes the gates and the relevance range: the semantic gate
/// when a query was given, the situational gate when filters were given, and
/// the `[rmin, rmax]` band on the composite relevance.
pub open spec fn keeps(
    insights: Seq<Insight>,
    scores: Seq<i64>,
    filters: Seq<Seq<u8>>,
    query_empty: bool,
    day: u32,
    now: i64,
    rmin: i64,
    rmax: i64,
    i: int,
) -> bool {
    let rel = relevance_of(insights[i], filters, day, now);
    &&& (query_empty || scores[i] > CONTENT_MATCH_THRESHOLD)
    &&& (filters.len() == 0 || situation_relevance(filters, insights[i].situation.deep_view())
        > SITUATION_MATCH_THRESHOLD as int)
    &&& rmin as int <= rel <= rmax as int
}

/// The surviving candidates among the first `upto` insights, in input order,
/// each paired with its composite relevance.
pub open spec fn candidates(
    insights: Seq<Insight>,
    scores: Seq<i64>,
    filters: Seq<Seq<u8>>,
    query_empty: bool,
    day: u32,
    now: i64,
    rmin: i64,
    rmax: i64,
    upto: int,
) -> Seq<(usize, i64)>
    decreases upto,
{
    if upto <= 0 {
        Seq::empty()
    } else {
        let prev = candidates(insights, scores, filters, query_empty, day, now, rmin, rmax, upto
            - 1);
        if keeps(insights, scores, filters, query_empty, day, now, rmin, rmax, upto - 1) {
            prev.push(
                (
                    (upto - 1) as usize,
                    relevance_of(insights[upto - 1], filters, day, now) as i64,
                ),
            )
        } else {
            prev
        }
    }
}

/// Every candidate indexes an insight before `upto`, passed the gates, and
/// carries that insight's composite relevance.
pub proof fn lemma_candidates_elems(
    insights: Seq<Insight>,
    scores: Seq<i64>,
    filters: Seq<Seq<u8>>,
    query_empty: bool,
    day: u32,
    now: i64,
    rmin: i64,
    rmax: i64,
    upto: int,
    k: int,
)
    requires
        upto <= usize::MAX,
        0 <= k < candidates(insights, scores, filters, query_empty, day, now, rmin, rmax,
            upto).len(),
    ensures
        ({
            let e = candidates(insights, scores, filters, query_empty, day, now, rmin, rmax,
                upto)[k];
            &&& e.0 < upto
            &&& keeps(insights, scores, filters, query_empty, day, now, rmin, rmax, e.0 as int)
            &&& e.1 == relevance_of(insights[e.0 as int], filters, day, now) as i64
        }),
    decreases upto,
{
    if upto > 0 {
        let prev = candidates(insights, scores, filters, query_empty, day, now, rmin, rmax, upto
            - 1);
        if k < prev.len() {
            lemma_candidates_elems(insights, scores, filters, query_empty, day, now, rmin, rmax,
                upto - 1, k);
        }
    }
}

/// One page entry reports candidate `e`: the insight it indexes, its
/// composite relevance, and the display ages at time `now`.
pub open spec fn page_entry_ok(
    sr: SearchResult,
    insights: Seq<Insight>,
    e: (usize, i64),
    now: i64,
) -> bool {
    &&& e.0 < insights.len()
    &&& sr.insight.eqv(insights[e.0 as int])
    &&& sr.relevance == e.1
    &&& sr.days_since_created == micro_days_between(insights[e.0 as int].created_at, now)
    &&& sr.days_since_importance_modified == micro_days_between(
        insights[e.0 as int].importance_modified_at,
        now,
    )
}

fn precedes_exec(a: (usize, i64), b: (usize, i64)) -> (r: bool)
    ensures
        r == cand_precedes(a, b),
{
    a.1 > b.1 || (a.1 == b.1 && a.0 <= b.0)
}

/// Sorts candidates by descending relevance, keeping input order on ties.
fn sort_candidates(input: Vec<(usize, i64)>) -> (r: Vec<(usize, i64)>)
    ensures
        r@ == input@.sort_by(cand_order()),
{
    broadcast use vstd::seq_lib::group_to_multiset_ensures;

    let mut out: Vec<(usize, i64)> = Vec::new();
    let mut i: usize = 0;
    while i < input.len()
        invariant
            i <= input@.len(),
            sorted_by(out@, cand_order()),
            out@.to_multiset() == input@.subrange(0, i as int).to_multiset(),
        decreases input@.len() - i,
    {
        let x = input[i];
        let mut p: usize = 0;
        while p < out.len() && precedes_exec(out[p], x)
            invariant
                p <= out@.len(),
                forall|q: int| 0 <= q < p ==> cand_precedes(#[trigger] out@[q], x),
            decreases out@.len() - p,
        {
            p = p + 1;
        }
        let ghost pre = out@;
        out.insert(p, x);
        proof {
            assert(out@ == pre.insert(p as int, x));
            assert forall|a: int, b: int| 0 <= a < b < out@.len() implies (cand_order())(
                out@[a],
                out@[b],
            ) by {
                let oa = out@[a];
                let ob = out@[b];
                lemma_cand_order_is(oa, ob);
                if a < p && b < p {
                    assert(oa == pre[a] && ob == pre[b]);
                    assert((cand_order())(pre[a], pre[b]));
                } else if a < p && b == p {
                    assert(oa == pre[a] && ob == x);
                    assert(cand_precedes(pre[a], x));
                } else if a < p && b > p {
                    assert(oa == pre[a] && ob == pre[b - 1]);
                    assert((cand_order())(pre[a], pre[b - 1]));
                    lemma_cand_order_is(pre[a], pre[b - 1]);
                } else if a == p && b > p {
                    assert(oa == x && ob == pre[b - 1]);
                    assert(p < pre.len());
                    assert(!cand_precedes(pre[p as int], x));
                    if b - 1 > p {
                        assert((cand_order())(pre[p as int], pre[b - 1]));
                        lemma_cand_order_is(pre[p as int], pre[b - 1]);
                    }
                    assert(cand_precedes(x, pre[b - 1]));
                } else {
                    assert(a > p && b > p);
                    assert(oa == pre[a - 1] && ob == pre[b - 1]);
                    assert((cand_order())(pre[a - 1], pre[b - 1]));
                    lemma_cand_order_is(pre[a - 1], pre[b - 1]);
                }
            }
            assert(input@.subrange(0, i as int + 1) =~= input@.subrange(0, i as int).push(
                input@[i as int],
            ));
            vstd::seq_lib::to_multiset_build(input@.subrange(0, i as int), input@[i as int]);
            vstd::seq_lib::to_multiset_insert(pre, p as int, x);
            assert(pre.insert(p as int, x).to_multiset() == pre.to_multiset().insert(x));
        }
        i = i + 1;
    }
    proof {
        assert(input@.subrange(0, input@.len() as int) =~= input@);
        input@.lemma_sort_by_ensures(cand_order());
        lemma_cand_order_total();
        lemma_sorted_unique(out@, input@.sort_by(cand_order()), cand_order());
    }
    out
}

/// Composite relevance of one insight, given its situation relevance.
fn score_insight(
    ins: &Insight,
    sit_rel: u64,
    day: u32,
    now: i64,
    Ghost(filters): Ghost<Seq<Seq<u8>>>,
) -> (r: u64)
    requires
        ins.wf(),
        sit_rel as int == situation_relevance(filters, ins.situation.deep_view()),
    ensures
        r as int == relevance_of(*ins, filters, day, now),
        r <= SCALE,
{
    let rec = ins.calculate_recency_score_default(day);
    let freq = ins.calculate_frequency_default(day);
    let nf_raw = freq / 10;
    let nf: u64 = if nf_raw > SCALE {
        SCALE
    } else {
        nf_raw
    };
    proof {
        let f = freq as int;
        assert((f * 1_000_000) / 1_000_000 == f) by {
            vstd::arithmetic::div_mod::lemma_div_multiples_vanish(f, 1_000_000);
            assert(1_000_000 * f == f * 1_000_000) by (nonlinear_arith);
        }
        vstd::arithmetic::div_mod::lemma_div_denominator(f * 1_000_000, 1_000_000, 10);
        assert(nf as int == norm_frequency(f));
    }
    let imp = ins.compute_current_importance(now);
    let sum: u64 = RELEVANCE_WEIGHT_RECENCY * rec + RELEVANCE_WEIGHT_FREQUENCY * nf
        + RELEVANCE_WEIGHT_IMPORTANCE * imp + RELEVANCE_WEIGHT_CONTEXT * sit_rel;
    proof {
        assert(sit_rel <= SCALE);
        assert(sum <= 1_000_000_000_000u64);
        vstd::arithmetic::div_mod::lemma_div_is_ordered(
            sum as int,
            1_000_000_000_000,
            SCALE as int,
        );
    }
    sum / SCALE
}

/// Ranked, paginated search.
///
/// `content_scores` holds one semantic similarity score per candidate, in
/// micro-units, obtained by the caller from its embedding capability; it is
/// ignored when the query is empty. Candidates pass the semantic and
/// situational gates and the relevance band, are sorted by descending
/// composite relevance with input order breaking ties, and the page
/// `[offset, offset + limit)` of the ranking is returned. An offset beyond
/// the ranking yields an empty list.
pub fn search(
    query: &Vec<u8>,
    insights: &Vec<Insight>,
    content_scores: &Vec<i64>,
    current_active_day: u32,
    relevance_min: i64,
    relevance_max: i64,
    situation_filters: &Vec<Vec<u8>>,
    limit: usize,
    offset: usize,
    now: i64,
) -> (r: Vec<SearchResult>)
    requires
        content_scores@.len() == insights@.len(),
        forall|k: int| 0 <= k < insights@.len() ==> (#[trigger] insights@[k]).wf(),
    ensures
        ({
            let cands = candidates(
                insights@,
                content_scores@,
                situation_filters.deep_view(),
                query@.len() == 0,
                current_active_day,
                now,
                relevance_min,
                relevance_max,
                insights@.len() as int,
            );
            let ranked = cands.sort_by(cand_order());
            let lo = if offset as int <= ranked.len() {
                offset as int
            } else {
                ranked.len() as int
            };
            let hi = if offset + limit <= ranked.len() {
                offset as int + limit as int
            } else {
                ranked.len() as int
            };
            &&& r@.len() == hi - lo
            &&& forall|k: int|
                0 <= k < r@.len() ==> page_entry_ok(#[trigger] r@[k], insights@, ranked[lo + k], now)
        }),
        forall|a: int, b: int|
            0 <= a < b < r@.len() ==> (#[trigger] r@[a]).relevance >= (#[trigger] r@[b]).relevance,
{
    let ghost fv = situation_filters.deep_view();
    let ghost qe = query@.len() == 0;
    let query_empty = query.len() == 0;
    let n_ins = insights.len();
    let mut cands: Vec<(usize, i64)> = Vec::new();
    let mut i: usize = 0;
    while i < n_ins
        invariant
            n_ins == insights@.len(),
            i <= insights@.len(),
            content_scores@.len() == insights@.len(),
            forall|k: int| 0 <= k < insights@.len() ==> (#[trigger] insights@[k]).wf(),
            fv == situation_filters.deep_view(),
            qe == (query@.len() == 0),
            query_empty == qe,
            cands@ == candidates(
                insights@,
                content_scores@,
                fv,
                qe,
                current_active_day,
                now,
                relevance_min,
                relevance_max,
                i as int,
            ),
        decreases insights@.len() - i,
    {
        let ins = &insights[i];
        let matched = situation_matches_exec(situation_filters, &ins.situation);
        let sit_rel: u64 = if situation_filters.len() == 0 || matched {
            SCALE
        } else {
            0
        };
        proof {
            assert(sit_rel as int == situation_relevance(fv, ins.situation.deep_view()));
        }
        let rel = score_insight(ins, sit_rel, current_active_day, now, Ghost(fv));
        let content_ok = query_empty || content_scores[i] > CONTENT_MATCH_THRESHOLD;
        let sit_ok = situation_filters.len() == 0 || sit_rel > SITUATION_MATCH_THRESHOLD;
        if content_ok && sit_ok && relevance_min <= (rel as i64) && (rel as i64)
            <= relevance_max {
            cands.push((i, rel as i64));
            proof {
                assert(keeps(
                    insights@,
                    content_scores@,
                    fv,
                    qe,
                    current_active_day,
                    now,
                    relevance_min,
                    relevance_max,
                    i as int,
                ));
            }
        } else {
            proof {
                assert(!keeps(
                    insights@,
                    content_scores@,
                    fv,
                    qe,
                    current_active_day,
                    now,
                    relevance_min,
                    relevance_max,
                    i as int,
                ));
            }
        }
        i = i + 1;
    }
    let ranked = sort_candidates(cands);
    let ghost cands_spec = candidates(
        insights@,
        content_scores@,
        fv,
        qe,
        current_active_day,
        now,
        relevance_min,
        relevance_max,
        insights@.len() as int,
    );
    let ghost ranked_spec = cands_spec.sort_by(cand_order());
    proof {
        cands_spec.lemma_sort_by_ensures(cand_order());
        lemma_cand_order_total();
    }
    let total = ranked.len();
    let lo: usize = if offset < total {
        offset
    } else {
        total
    };
    let remaining = total - lo;
    let take: usize = if limit < remaining {
        limit
    } else {
        remaining
    };
    let mut out: Vec<SearchResult> = Vec::new();
    let mut k: usize = 0;
    while k < take
        invariant
            k <= take,
            lo + take <= ranked@.len(),
            ranked@.len() <= usize::MAX,
            n_ins == insights@.len(),
            ranked@ == ranked_spec,
            forall|q: int| 0 <= q < insights@.len() ==> (#[trigger] insights@[q]).wf(),
            cands_spec == candidates(
                insights@,
                content_scores@,
                fv,
                qe,
                current_active_day,
                now,
                relevance_min,
                relevance_max,
                insights@.len() as int,
            ),
            ranked_spec == cands_spec.sort_by(cand_order()),
            cands_spec.to_multiset() == ranked_spec.to_multiset(),
            out@.len() == k,
            forall|q: int|
                0 <= q < k ==> page_entry_ok(#[trigger] out@[q], insights@, ranked_spec[lo + q], now),
        decreases take - k,
    {
        let e = ranked[lo + k];
        proof {
            assert(ranked_spec.contains(e)) by {
                assert(ranked_spec[lo as int + k as int] == e);
            }
            vstd::seq_lib::to_multiset_contains(ranked_spec, e);
            vstd::seq_lib::to_multiset_contains(cands_spec, e);
            assert(cands_spec.contains(e));
            assert(insights@.len() <= usize::MAX);
            let w = choose|w: int| 0 <= w < cands_spec.len() && cands_spec[w] == e;
            lemma_candidates_elems(
                insights@,
                content_scores@,
                fv,
                qe,
                current_active_day,
                now,
                relevance_min,
                relevance_max,
                insights@.len() as int,
                w,
            );
            assert(e.0 < insights@.len());
        }
        let dup = insights[e.0].duplicate();
        let sr = SearchResult::new(dup, e.1, now);
        let ghost out_pre = out@;
        out.push(sr);
        proof {
            assert(out@[k as int] == sr);
            assert forall|q: int| 0 <= q < k + 1 implies page_entry_ok(
                #[trigger] out@[q],
                insights@,
                ranked_spec[lo + q],
                now,
            ) by {
                if q < k {
                    assert(out@[q] == out_pre[q]);
                    assert(page_entry_ok(out_pre[q], insights@, ranked_spec[lo + q], now));
                } else {
                    assert(out@[q] == sr);
                    assert(ranked_spec[lo + q] == e);
                    assert(sr.insight == dup);
                    assert(dup.eqv(insights@[e.0 as int]));
                    assert(page_entry_ok(sr, insights@, e, now));
                }
            }
        }
        k = k + 1;
    }
    proof {
        assert forall|a: int, b: int| 0 <= a < b < out@.len() implies (#[trigger] out@[a]).relevance
            >= (#[trigger] out@[b]).relevance by {
            assert((cand_order())(ranked_spec[lo + a], ranked_spec[lo + b]));
        }
    }
    out
}

} // verus!

