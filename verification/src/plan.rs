//! Drawing synthetic sessions from distributions, and preparing them for
//! storage.

use rand::seq::SliceRandom;
use rand::Rng;
use rand_distr::Distribution;
use vstd::prelude::*;

use crate::codec::{cp1251_encoded, encode_cp1251};
use crate::dist::{DistView, Distributions};
use crate::freq::{entries_total, entry_views};
use crate::render::{
    last_search, plan_in_range, render_plan, render_text, BodyView, EventView, PlanView,
    SessionPlan,
};
use crate::draws::{
    body_draw_fits, build_plan, choice_views, chosen, draws_fit, event_draw_views,
    param_choice_views, plan_of, BodyDraw, DrawsView, EventDraw, SessionDraws,
};
use crate::scan::opt_view;
use crate::text::same_text;
use crate::timestamp::{clock_now, epoch_instant, seconds_since_epoch, MAX_TIMESTAMP, MIN_TIMESTAMP};

verus! {

#[verifier::external_type_specification]
#[verifier::external_body]
pub struct ExThreadRng(rand::rngs::ThreadRng);

/// The thread-local generator of `rand` (`rand::thread_rng`).
#[verifier::external_body]
pub(crate) fn session_rng() -> rand::rngs::ThreadRng {
    rand::thread_rng()
}

/// A uniform draw from `lo..hi` with `rand::Rng::gen_range`.
/// Claimed: the result lies in the range, which must not be empty (the call
/// panics on an empty range).
#[verifier::external_body]
fn uniform(rng: &mut rand::rngs::ThreadRng, lo: u64, hi: u64) -> (r: u64)
    requires
        lo < hi,
    ensures
        lo <= r < hi,
{
    rng.gen_range(lo..hi)
}

/// A uniform choice of an element with `rand::seq::SliceRandom::choose`.
/// Claimed: `None` exactly for an empty vector, else one of its elements.
#[verifier::external_body]
fn choose_one<'a, T>(rng: &mut rand::rngs::ThreadRng, items: &'a Vec<T>) -> (r: Option<&'a T>)
    ensures
        r is None <==> items@.len() == 0,
        r matches Some(x) ==> items@.contains(*x),
{
    items.choose(rng)
}

/// A `rand_distr::WeightedIndex<u64>` over event-kind weights.
#[verifier::external_body]
pub struct KindSampler {
    index: rand_distr::WeightedIndex<u64>,
}

/// The weights a kind sampler was built from.
pub uninterp spec fn sampler_weights(w: KindSampler) -> Seq<u64>;

/// Builds a `rand_distr::WeightedIndex` from the entries' counts
/// (`WeightedIndex::new`). Claimed: it holds those weights. `new` fails on no
/// weights or a zero total, and its integer total must not overflow; the
/// bounds leave those out.
#[verifier::external_body]
fn weighted_index(entries: &Vec<(String, u64)>) -> (w: KindSampler)
    requires
        entries@.len() > 0,
        0 < entries_total(entry_views(entries@)) <= u64::MAX,
    ensures
        sampler_weights(w).len() == entries@.len(),
        forall|i: int| 0 <= i < entries@.len() ==> #[trigger] sampler_weights(w)[i] == entries@[i].1,
{
    KindSampler { index: rand_distr::WeightedIndex::new(entries.iter().map(|e| e.1)).unwrap() }
}

/// Draws an index from a weighted index (`Distribution::sample`). Claimed: the
/// index of a weight, and that weight is positive (a zero weight is never
/// drawn).
#[verifier::external_body]
fn draw_weighted(w: &KindSampler, rng: &mut rand::rngs::ThreadRng) -> (i: usize)
    ensures
        i < sampler_weights(*w).len(),
        sampler_weights(*w)[i as int] > 0,
{
    w.index.sample(rng)
}

/// A lowercase hexadecimal digit.
pub open spec fn is_lower_hex(c: char) -> bool {
    ('0' <= c && c <= '9') || ('a' <= c && c <= 'f')
}

/// The hyphenated lowercase text of a version-4 (random) UUID: hex digits in
/// groups of 8-4-4-4-12, the version digit `4` at index 14 and the variant
/// digit (one of `8`, `9`, `a`, `b`) at index 19.
pub open spec fn is_uuid_v4_text(s: Seq<char>) -> bool {
    &&& s.len() == 36
    &&& forall|i: int|
        0 <= i < 36 ==> if i == 8 || i == 13 || i == 18 || i == 23 {
            #[trigger] s[i] == '-'
        } else {
            is_lower_hex(s[i])
        }
    &&& s[14] == '4'
    &&& (s[19] == '8' || s[19] == '9' || s[19] == 'a' || s[19] == 'b')
}

/// A random version-4 UUID in its hyphenated text form (`uuid::Uuid::new_v4`
/// and `to_string`). Claimed: the text has the version-4 shape; `new_v4`
/// masks the version and variant bits into its random value, and `Display`
/// writes the hyphenated lowercase form.
#[verifier::external_body]
fn random_uuid_text() -> (s: String)
    ensures
        is_uuid_v4_text(s@),
{
    uuid::Uuid::new_v4().to_string()
}

/// `x` is one of `s`, or `default` when `s` is empty.
pub open spec fn pick_or<A>(s: Seq<A>, x: A, default: A) -> bool {
    if s.len() == 0 {
        x == default
    } else {
        s.contains(x)
    }
}

/// The document ids of the distributions.
pub open spec fn doc_names(d: DistView) -> Seq<Seq<char>> {
    d.doc_ids.map_values(|e: (Seq<char>, u64)| e.0)
}

/// An event count brought into `1..=50`.
pub open spec fn clamp_events(n: nat) -> nat {
    if n < 1 {
        1
    } else if n > 50 {
        50
    } else {
        n
    }
}

/// The largest element (0 for none).
pub open spec fn seq_max(s: Seq<u32>) -> nat
    decreases s.len(),
{
    if s.len() == 0 {
        0
    } else {
        let m = seq_max(s.drop_last());
        if s.last() > m {
            s.last() as nat
        } else {
            m
        }
    }
}

/// The most events a drawn session can have.
pub open spec fn max_events(d: DistView) -> nat {
    if d.events_per_session.len() == 0 {
        5
    } else {
        clamp_events(seq_max(d.events_per_session))
    }
}

/// The longest gap a drawn session can have.
pub open spec fn max_gap(d: DistView) -> nat {
    if d.inter_event_seconds.len() == 0 {
        5
    } else {
        seq_max(d.inter_event_seconds)
    }
}

/// The most seconds a drawn session can extend past its start.
pub open spec fn session_span(d: DistView) -> nat {
    max_events(d) * max_gap(d) + 15
}

/// Event kinds can be drawn: there is at least one, and their weights have a
/// positive total that fits in a `u64`.
pub open spec fn kinds_drawable(d: DistView) -> bool {
    d.event_kinds.len() > 0 && 0 < entries_total(d.event_kinds) <= u64::MAX
}

/// An event body fits the event kind `kind` it was drawn for, after a search
/// (`searched`) or not.
pub open spec fn body_fits(b: BodyView, kind: Seq<char>, d: DistView, searched: bool) -> bool {
    if kind == "QS"@ {
        b matches BodyView::Query { query, search_id, docs } && pick_or(d.queries, query, "test"@)
            && 1_000_000 <= search_id < 999_999_999 && 1 <= docs.len() < 20 && forall|i: int|
            0 <= i < docs.len() ==> pick_or(doc_names(d), #[trigger] docs[i], "LAW_0"@)
    } else if kind == "CARD"@ {
        b matches BodyView::Card { search_id, params, docs } && 1_000_000 <= search_id
            < 999_999_999 && 1 <= params.len() <= 2 && (forall|i: int|
            0 <= i < params.len() ==> #[trigger] params[i].0 < 200 && pick_or(
                doc_names(d),
                params[i].1,
                Seq::empty(),
            )) && 1 <= docs.len() < 30 && forall|i: int|
            0 <= i < docs.len() ==> pick_or(doc_names(d), #[trigger] docs[i], "LAW_0"@)
    } else if kind == "DOC_OPEN"@ && searched {
        b matches BodyView::Open { doc } && pick_or(doc_names(d), doc, "LAW_0"@)
    } else {
        b is Idle
    }
}

/// An event fits some event kind of positive weight.
pub open spec fn event_fits(e: EventView, d: DistView, searched: bool) -> bool {
    exists|i: int|
        #![trigger d.event_kinds[i]]
        0 <= i < d.event_kinds.len() && d.event_kinds[i].1 > 0 && body_fits(
            e.body,
            d.event_kinds[i].0,
            d,
            searched,
        )
}

/// A plan is one that drawing from `d` at time `now` can give: a start at
/// `now`; an event count drawn from the session sizes (5 without
/// any) brought into `1..=50`; gaps drawn from the recorded gaps (5 without
/// any); each event fitting a kind of positive weight, a document opening only
/// after a search; and an end 1 to 15 seconds after the last event.
pub open spec fn plan_fits(p: PlanView, d: DistView, now: i64) -> bool {
    &&& p.start == now
    &&& if d.events_per_session.len() == 0 {
        p.events.len() == 5
    } else {
        exists|i: int|
            0 <= i < d.events_per_session.len() && p.events.len() == clamp_events(
                #[trigger] d.events_per_session[i] as nat,
            )
    }
    &&& forall|k: int|
        0 <= k < p.events.len() ==> pick_or(d.inter_event_seconds, #[trigger] p.events[k].gap, 5u32)
    &&& forall|k: int|
        0 <= k < p.events.len() ==> event_fits(
            #[trigger] p.events[k],
            d,
            last_search(p.events.take(k)) is Some,
        )
    &&& 1 <= p.end_gap <= 15
}

/// The text is the rendering of a session made from draws from `d` at some
/// time since the epoch.
pub open spec fn is_session_text(text: Seq<char>, d: DistView) -> bool {
    exists|now: i64, dr: DrawsView|
        0 <= now && draws_fit(dr, d) && #[trigger] drawn_at(text, d, now, dr)
}

/// The text is the rendering of the plan that the draws `dr` make from `d`
/// at time `now`, a plan that fits `d` and lies within `chrono`'s range.
pub open spec fn drawn_at(text: Seq<char>, d: DistView, now: i64, dr: DrawsView) -> bool {
    &&& plan_fits(plan_of(d, now, dr), d, now)
    &&& plan_in_range(plan_of(d, now, dr))
    &&& text == render_text(plan_of(d, now, dr))
}

pub proof fn lemma_seq_max(s: Seq<u32>, i: int)
    requires
        0 <= i < s.len(),
    ensures
        s[i] <= seq_max(s),
    decreases s.len(),
{
    if i < s.len() - 1 {
        lemma_seq_max(s.drop_last(), i);
    }
}

/// The largest element (0 for none).
fn max_of(v: &Vec<u32>) -> (m: u32)
    ensures
        m == seq_max(v@),
{
    let mut m: u32 = 0;
    let mut i: usize = 0;
    while i < v.len()
        invariant
            0 <= i <= v@.len(),
            m == seq_max(v@.take(i as int)),
        decreases v@.len() - i,
    {
        assert(v@.take(i + 1).drop_last() =~= v@.take(i as int));
        if v[i] > m {
            m = v[i];
        }
        i = i + 1;
    }
    assert(v@.take(v@.len() as int) =~= v@);
    m
}

/// The most seconds a session drawn from `d` can extend past its start.
pub fn span_of(d: &Distributions) -> (s: u64)
    ensures
        s == session_span(d@),
{
    let me: u64 = if d.events_per_session.len() == 0 {
        5
    } else {
        let m = max_of(&d.events_per_session);
        if m < 1 {
            1
        } else if m > 50 {
            50
        } else {
            m as u64
        }
    };
    let mg: u64 = if d.inter_event_seconds.len() == 0 {
        5
    } else {
        max_of(&d.inter_event_seconds) as u64
    };
    assert(me * mg <= 50 * 4294967295) by (nonlinear_arith)
        requires
            me <= 50,
            mg <= 4294967295,
    ;
    me * mg + 15
}

/// Whether event kinds can be drawn from `d`.
pub fn can_draw_kinds(d: &Distributions) -> (b: bool)
    ensures
        b == kinds_drawable(d@),
{
    if d.event_kinds.len() == 0 {
        return false;
    }
    let mut total: u64 = 0;
    let mut i: usize = 0;
    while i < d.event_kinds.len()
        invariant
            0 <= i <= d.event_kinds@.len(),
            total == entries_total(entry_views(d.event_kinds@).take(i as int)),
        decreases d.event_kinds@.len() - i,
    {
        let ghost e = entry_views(d.event_kinds@);
        assert(e.take(i + 1).drop_last() =~= e.take(i as int));
        assert(e.take(i + 1).last().1 == d.event_kinds@[i as int].1);
        let w = d.event_kinds[i].1;
        if w > u64::MAX - total {
            proof {
                lemma_total_prefix(e, i + 1);
            }
            return false;
        }
        total = total + w;
        i = i + 1;
    }
    assert(entry_views(d.event_kinds@).take(d.event_kinds@.len() as int) =~= entry_views(
        d.event_kinds@,
    ));
    total > 0
}

pub proof fn lemma_total_prefix(e: Seq<(Seq<char>, u64)>, k: int)
    requires
        0 <= k <= e.len(),
    ensures
        entries_total(e.take(k)) <= entries_total(e),
    decreases e.len() - k,
{
    if k < e.len() {
        lemma_total_prefix(e, k + 1);
        assert(e.take(k + 1).drop_last() =~= e.take(k));
    } else {
        assert(e.take(k) =~= e);
    }
}

/// A document id chosen from the distributions (`None` without any).
fn draw_doc_choice(d: &Distributions, rng: &mut rand::rngs::ThreadRng) -> (c: Option<String>)
    ensures
        chosen(opt_view(c), doc_names(d@)),
{
    match choose_one(rng, &d.doc_ids) {
        Some(x) => {
            let s = x.0.clone();
            proof {
                let i = choose|i: int| 0 <= i < d.doc_ids@.len() && d.doc_ids@[i] == *x;
                assert(doc_names(d@)[i] == s@);
            }
            Some(s)
        },
        None => None,
    }
}

/// `n` document ids chosen from the distributions.
fn draw_doc_choices(d: &Distributions, rng: &mut rand::rngs::ThreadRng, n: usize) -> (v: Vec<
    Option<String>,
>)
    ensures
        v@.len() == n,
        forall|i: int| 0 <= i < n ==> chosen(#[trigger] choice_views(v@)[i], doc_names(d@)),
{
    let mut v: Vec<Option<String>> = Vec::new();
    let mut i: usize = 0;
    while i < n
        invariant
            0 <= i <= n,
            v@.len() == i,
            forall|k: int| 0 <= k < i ==> chosen(#[trigger] choice_views(v@)[k], doc_names(d@)),
        decreases n - i,
    {
        let c = draw_doc_choice(d, rng);
        let ghost before = v@;
        v.push(c);
        proof {
            assert(choice_views(v@) =~= choice_views(before).push(opt_view(c)));
        }
        i = i + 1;
    }
    v
}

/// A query chosen from the distributions (`None` without any).
fn draw_query_choice(d: &Distributions, rng: &mut rand::rngs::ThreadRng) -> (c: Option<String>)
    ensures
        chosen(opt_view(c), d@.queries),
{
    match choose_one(rng, &d.queries) {
        Some(q) => {
            let s = q.clone();
            proof {
                let i = choose|i: int| 0 <= i < d.queries@.len() && d.queries@[i] == *q;
                assert(d@.queries[i] == s@);
            }
            Some(s)
        },
        None => None,
    }
}

/// The values drawn for the body of an event of kind `kind`.
fn draw_body(d: &Distributions, rng: &mut rand::rngs::ThreadRng, kind: &String) -> (b: BodyDraw)
    ensures
        body_draw_fits(b@, kind@, d@),
{
    if same_text(kind.as_str(), "QS") {
        let query = draw_query_choice(d, rng);
        let search_id = uniform(rng, 1_000_000, 999_999_999);
        let n = uniform(rng, 1, 20) as usize;
        let docs = draw_doc_choices(d, rng, n);
        BodyDraw { query, search_id, params: Vec::new(), docs, doc: None }
    } else if same_text(kind.as_str(), "CARD") {
        let search_id = uniform(rng, 1_000_000, 999_999_999);
        let n_params = uniform(rng, 1, 3);
        let mut params: Vec<(u32, Option<String>)> = Vec::new();
        let mut j: u64 = 0;
        while j < n_params
            invariant
                0 <= j <= n_params <= 2,
                params@.len() == j,
                forall|i: int|
                    0 <= i < j ==> #[trigger] param_choice_views(params@)[i].0 < 200 && chosen(
                        param_choice_views(params@)[i].1,
                        doc_names(d@),
                    ),
            decreases n_params - j,
        {
            let pid = uniform(rng, 0, 200) as u32;
            let pval = draw_doc_choice(d, rng);
            let ghost before = params@;
            params.push((pid, pval));
            proof {
                assert(param_choice_views(params@) =~= param_choice_views(before).push(
                    (pid, opt_view(pval)),
                ));
            }
            j = j + 1;
        }
        let n = uniform(rng, 1, 30) as usize;
        let docs = draw_doc_choices(d, rng, n);
        BodyDraw { query: None, search_id, params, docs, doc: None }
    } else if same_text(kind.as_str(), "DOC_OPEN") {
        let doc = draw_doc_choice(d, rng);
        BodyDraw { query: None, search_id: 0, params: Vec::new(), docs: Vec::new(), doc }
    } else {
        BodyDraw { query: None, search_id: 0, params: Vec::new(), docs: Vec::new(), doc: None }
    }
}

/// Draws the random values of one synthetic session from `d`: the session
/// size, and for each event a gap, a kind by weight and the values its body
/// needs, then the end gap.
pub fn draw_session(d: &Distributions, rng: &mut rand::rngs::ThreadRng) -> (dr: SessionDraws)
    requires
        kinds_drawable(d@),
    ensures
        draws_fit(dr@, d@),
{
    let count: Option<u32> = match choose_one(rng, &d.events_per_session) {
        Some(x) => Some(*x),
        None => None,
    };
    let n_pick: u32 = match count {
        Some(x) => x,
        None => 5,
    };
    let n_events: usize = if n_pick < 1 {
        1
    } else if n_pick > 50 {
        50
    } else {
        n_pick as usize
    };
    let kind_dist = weighted_index(&d.event_kinds);
    let ghost dv = d@;
    let mut events: Vec<EventDraw> = Vec::new();
    let mut k: usize = 0;
    while k < n_events
        invariant
            0 <= k <= n_events <= 50,
            dv == d@,
            kinds_drawable(d@),
            sampler_weights(kind_dist).len() == d.event_kinds@.len(),
            forall|i: int|
                0 <= i < d.event_kinds@.len() ==> #[trigger] sampler_weights(kind_dist)[i]
                    == d.event_kinds@[i].1,
            events@.len() == k,
            forall|j: int|
                0 <= j < k ==> {
                    &&& chosen((#[trigger] event_draw_views(events@)[j]).gap, dv.inter_event_seconds)
                    &&& event_draw_views(events@)[j].kind < dv.event_kinds.len()
                    &&& dv.event_kinds[event_draw_views(events@)[j].kind as int].1 > 0
                    &&& body_draw_fits(
                        event_draw_views(events@)[j].body,
                        dv.event_kinds[event_draw_views(events@)[j].kind as int].0,
                        dv,
                    )
                },
        decreases n_events - k,
    {
        let gap: Option<u32> = match choose_one(rng, &d.inter_event_seconds) {
            Some(x) => Some(*x),
            None => None,
        };
        let ki = draw_weighted(&kind_dist, rng);
        proof {
            assert(entry_views(d.event_kinds@)[ki as int] == (
                d.event_kinds@[ki as int].0@,
                d.event_kinds@[ki as int].1,
            ));
        }
        let body = draw_body(d, rng, &d.event_kinds[ki].0);
        let ghost before = events@;
        events.push(EventDraw { gap, kind: ki, body });
        proof {
            assert(event_draw_views(events@) =~= event_draw_views(before).push(
                events@[k as int]@,
            ));
        }
        k = k + 1;
    }
    let end_gap = uniform(rng, 1, 16) as u32;
    SessionDraws { count, events, end_gap }
}

/// Draws the plan of a synthetic session from `d` at time `now`: the draws
/// of [`draw_session`], made into a plan by [`build_plan`].
pub fn plan_session(d: &Distributions, rng: &mut rand::rngs::ThreadRng, now: i64) -> (p:
    SessionPlan)
    requires
        kinds_drawable(d@),
        fits_time(d@, now),
    ensures
        exists|dr: DrawsView| #[trigger] draws_fit(dr, d@) && p@ == plan_of(d@, now, dr),
        plan_fits(p@, d@, now),
        plan_in_range(p@),
{
    let draws = draw_session(d, rng);
    let p = build_plan(d, now, &draws);
    proof {
        assert(draws_fit(draws@, d@));
    }
    p
}

/// A session drawn from `d` at time `now` stays within the range of instants
/// `chrono` represents.
pub open spec fn fits_time(d: DistView, now: i64) -> bool {
    MIN_TIMESTAMP <= now && now + session_span(d) <= MAX_TIMESTAMP
}

/// Renders one synthetic session drawn from `d` at time `now`; `None` exactly
/// when such a session could run out of the range of instants `chrono`
/// represents.
pub fn render_session_at(d: &Distributions, rng: &mut rand::rngs::ThreadRng, now: i64) -> (r:
    Option<String>)
    requires
        kinds_drawable(d@),
    ensures
        r is Some <==> fits_time(d@, now),
        r matches Some(s) ==> exists|dr: DrawsView|
            #[trigger] draws_fit(dr, d@) && drawn_at(s@, d@, now, dr),
{
    let span = span_of(d);
    if (now as i128) < MIN_TIMESTAMP as i128 || span as i128 > MAX_TIMESTAMP as i128
        - now as i128 {
        return None;
    }
    let draws = draw_session(d, rng);
    let p = build_plan(d, now, &draws);
    let s = render_plan(&p);
    proof {
        assert(draws_fit(draws@, d@));
        assert(drawn_at(s@, d@, now, draws@));
    }
    Some(s)
}

/// Renders one synthetic session drawn from `d` at the time a clock reading
/// gives, in whole seconds since the epoch (`None` for a reading before the
/// epoch): `None` exactly when there is no such reading, it lies past the
/// latest instant `chrono` represents, or a session drawn then could run out
/// of that range.
pub fn render_session_from_clock(
    d: &Distributions,
    rng: &mut rand::rngs::ThreadRng,
    reading: Option<u64>,
) -> (r: Option<String>)
    requires
        kinds_drawable(d@),
    ensures
        r is Some <==> (reading matches Some(s) && s <= MAX_TIMESTAMP && fits_time(d@, s as i64)),
        r matches Some(s) ==> is_session_text(s@, d@),
        r matches Some(s) ==> reading matches Some(t) && exists|dr: DrawsView|
            #[trigger] draws_fit(dr, d@) && drawn_at(s@, d@, t as i64, dr),
{
    let now = match epoch_instant(reading) {
        Some(t) => t,
        None => return None,
    };
    let r = render_session_at(d, rng, now);
    proof {
        if r is Some {
            let dr = choose|dr: DrawsView| #[trigger] draws_fit(dr, d@) && drawn_at(r->0@, d@, now, dr);
            assert(draws_fit(dr, d@));
        }
    }
    r
}

/// Renders one synthetic session drawn from `d` at the current time of the
/// system clock. When it renders one, the text is a session drawn from `d` at
/// some time; `None` comes when the clock reads before the epoch, or so late
/// that the session could run out of the range of instants `chrono`
/// represents (as [`render_session_from_clock`] states for each reading).
pub fn render_session(d: &Distributions) -> (r: Option<String>)
    requires
        kinds_drawable(d@),
    ensures
        r matches Some(s) ==> is_session_text(s@, d@),
{
    let now = clock_now();
    let reading = seconds_since_epoch(&now);
    let mut rng = session_rng();
    render_session_from_clock(d, &mut rng, reading)
}

/// The storage key of a synthetic session with the given id.
pub fn object_key(id: &str) -> (key: String)
    ensures
        key@ == "synthetic-"@ + id@ + ".txt"@,
{
    let mut key = String::from_str("synthetic-");
    key.append(id);
    key.append(".txt");
    key
}

/// A session text ready for storage under the id `id`: its key
/// `synthetic-<id>.txt` and the text encoded as Windows-1251; `None` exactly
/// when the text is longer than `usize::MAX / 64` characters (too long to
/// encode).
pub fn upload_for(text: &str, id: &str) -> (r: Option<(String, Vec<u8>)>)
    ensures
        r is None <==> text@.len() > usize::MAX / 64,
        r matches Some(u) ==> u.0@ == "synthetic-"@ + id@ + ".txt"@ && u.1@ == cp1251_encoded(
            text@,
        ),
{
    if text.unicode_len() > usize::MAX / 64 {
        return None;
    }
    let body = encode_cp1251(text);
    let key = object_key(id);
    Some((key, body))
}

/// A synthetic session ready for storage: its key, `synthetic-<uuid>.txt`
/// with a fresh random version-4 UUID,
/// and its text drawn from `d` and encoded as Windows-1251 (as
/// [`upload_for`] states for a given text and id). `None` when
/// [`render_session`] gives none, or when the text is longer than
/// `usize::MAX / 64` characters (too long to encode).
pub fn make_upload(d: &Distributions) -> (r: Option<(String, Vec<u8>)>)
    requires
        kinds_drawable(d@),
    ensures
        r matches Some(u) ==> {
            &&& exists|id: Seq<char>| is_uuid_v4_text(id) && u.0@ == "synthetic-"@ + id + ".txt"@
            &&& exists|text: Seq<char>|
                is_session_text(text, d@) && u.1@ == #[trigger] cp1251_encoded(text)
        },
{
    let text = match render_session(d) {
        Some(t) => t,
        None => return None,
    };
    let id = random_uuid_text();
    upload_for(text.as_str(), id.as_str())
}

} // verus!
