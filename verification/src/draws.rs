//! The random values drawn for one synthetic session, and the session plan
//! they make.

use vstd::prelude::*;

use crate::dist::{DistView, Distributions};
use crate::freq::entry_views;
use crate::plan::{
    body_fits, clamp_events, doc_names, event_fits, fits_time, lemma_seq_max, max_events, max_gap,
    pick_or, plan_fits, session_span,
};
use crate::render::{
    event_views, gap_total, last_search, param_views, plan_end, plan_in_range, BodyView,
    EventBody, EventView, PlanView, PlannedEvent, SessionPlan,
};
use crate::scan::opt_view;
use crate::text::{lemma_views_push, same_text, views};

verus! {

/// The values drawn for the body of one event. Which of them count depends
/// on the event's kind: a query, a search id and result documents for `QS`;
/// a search id, `(parameter id, value)` pairs and result documents for
/// `CARD`; an opened document for `DOC_OPEN`. A drawn choice is `None` when
/// there was nothing to choose from.
pub struct BodyDraw {
    pub query: Option<String>,
    pub search_id: u64,
    pub params: Vec<(u32, Option<String>)>,
    pub docs: Vec<Option<String>>,
    pub doc: Option<String>,
}

/// The values drawn for one event: its gap (a recorded gap, `None` without
/// any), the index of its kind among the event kinds, and its body.
pub struct EventDraw {
    pub gap: Option<u32>,
    pub kind: usize,
    pub body: BodyDraw,
}

/// The values drawn for one session: the session size (`None` without any
/// recorded), one draw per event, and the seconds from the last event to the
/// end.
pub struct SessionDraws {
    pub count: Option<u32>,
    pub events: Vec<EventDraw>,
    pub end_gap: u32,
}

pub struct BodyDrawView {
    pub query: Option<Seq<char>>,
    pub search_id: u64,
    pub params: Seq<(u32, Option<Seq<char>>)>,
    pub docs: Seq<Option<Seq<char>>>,
    pub doc: Option<Seq<char>>,
}

pub struct EventDrawView {
    pub gap: Option<u32>,
    pub kind: usize,
    pub body: BodyDrawView,
}

pub struct DrawsView {
    pub count: Option<u32>,
    pub events: Seq<EventDrawView>,
    pub end_gap: u32,
}

pub open spec fn param_choice_views(ps: Seq<(u32, Option<String>)>) -> Seq<(u32, Option<Seq<char>>)> {
    ps.map_values(|p: (u32, Option<String>)| (p.0, opt_view(p.1)))
}

pub open spec fn choice_views(cs: Seq<Option<String>>) -> Seq<Option<Seq<char>>> {
    cs.map_values(|c: Option<String>| opt_view(c))
}

impl View for BodyDraw {
    type V = BodyDrawView;

    open spec fn view(&self) -> BodyDrawView {
        BodyDrawView {
            query: opt_view(self.query),
            search_id: self.search_id,
            params: param_choice_views(self.params@),
            docs: choice_views(self.docs@),
            doc: opt_view(self.doc),
        }
    }
}

impl View for EventDraw {
    type V = EventDrawView;

    open spec fn view(&self) -> EventDrawView {
        EventDrawView { gap: self.gap, kind: self.kind, body: self.body@ }
    }
}

pub open spec fn event_draw_views(es: Seq<EventDraw>) -> Seq<EventDrawView> {
    es.map_values(|e: EventDraw| e@)
}

impl View for SessionDraws {
    type V = DrawsView;

    open spec fn view(&self) -> DrawsView {
        DrawsView {
            count: self.count,
            events: event_draw_views(self.events@),
            end_gap: self.end_gap,
        }
    }
}

/// A choice drawn from `s`: one of its elements, or `None` when `s` is empty.
pub open spec fn chosen<A>(c: Option<A>, s: Seq<A>) -> bool {
    match c {
        Some(x) => s.contains(x),
        None => s.len() == 0,
    }
}

/// The value of a choice, or `default` for none.
pub open spec fn or_default<A>(c: Option<A>, default: A) -> A {
    match c {
        Some(x) => x,
        None => default,
    }
}

/// The body values drawn for an event of kind `kind` are draws from `d`:
/// choices among the queries and document ids, search ids in
/// `1_000_000..999_999_999`, 1 to 19 result documents of a quick search,
/// 1 or 2 parameters with ids below 200 and 1 to 29 result documents of a
/// card search.
pub open spec fn body_draw_fits(b: BodyDrawView, kind: Seq<char>, d: DistView) -> bool {
    if kind == "QS"@ {
        &&& chosen(b.query, d.queries)
        &&& 1_000_000 <= b.search_id < 999_999_999
        &&& 1 <= b.docs.len() < 20
        &&& forall|i: int| 0 <= i < b.docs.len() ==> chosen(#[trigger] b.docs[i], doc_names(d))
    } else if kind == "CARD"@ {
        &&& 1_000_000 <= b.search_id < 999_999_999
        &&& 1 <= b.params.len() <= 2
        &&& forall|i: int|
            0 <= i < b.params.len() ==> #[trigger] b.params[i].0 < 200 && chosen(
                b.params[i].1,
                doc_names(d),
            )
        &&& 1 <= b.docs.len() < 30
        &&& forall|i: int| 0 <= i < b.docs.len() ==> chosen(#[trigger] b.docs[i], doc_names(d))
    } else if kind == "DOC_OPEN"@ {
        chosen(b.doc, doc_names(d))
    } else {
        true
    }
}

/// Result documents from their drawn choices (`LAW_0` for none).
pub open spec fn docs_of(cs: Seq<Option<Seq<char>>>) -> Seq<Seq<char>> {
    cs.map_values(|c: Option<Seq<char>>| or_default(c, "LAW_0"@))
}

/// Card parameters from their drawn choices (an empty value for none).
pub open spec fn params_of(ps: Seq<(u32, Option<Seq<char>>)>) -> Seq<(u32, Seq<char>)> {
    ps.map_values(|p: (u32, Option<Seq<char>>)| (p.0, or_default(p.1, Seq::empty())))
}

/// What an event of kind `kind` writes from its drawn values: a quick search
/// (query `test` without any), a card search, a document opening only after
/// a search (`LAW_0` without any document), and nothing for another kind.
pub open spec fn body_of(b: BodyDrawView, kind: Seq<char>, searched: bool) -> BodyView {
    if kind == "QS"@ {
        BodyView::Query {
            query: or_default(b.query, "test"@),
            search_id: b.search_id,
            docs: docs_of(b.docs),
        }
    } else if kind == "CARD"@ {
        BodyView::Card { search_id: b.search_id, params: params_of(b.params), docs: docs_of(b.docs) }
    } else if kind == "DOC_OPEN"@ && searched {
        BodyView::Open { doc: or_default(b.doc, "LAW_0"@) }
    } else {
        BodyView::Idle
    }
}

/// The events made by the event draws, in order: each with its drawn gap (5
/// without any) and the body its drawn kind writes.
pub open spec fn events_of(d: DistView, evs: Seq<EventDrawView>) -> Seq<EventView>
    decreases evs.len(),
{
    if evs.len() == 0 {
        Seq::empty()
    } else {
        let prev = events_of(d, evs.drop_last());
        let e = evs.last();
        prev.push(
            EventView {
                gap: or_default(e.gap, 5u32),
                body: body_of(e.body, d.event_kinds[e.kind as int].0, last_search(prev) is Some),
            },
        )
    }
}

/// The draws are draws from `d`: a session size among the recorded ones, as
/// many event draws as that size brought into `1..=50` (5 without any), each
/// with a recorded gap, the index of a kind of positive weight and body
/// values fitting that kind, and an end gap of 1 to 15 seconds.
pub open spec fn draws_fit(dr: DrawsView, d: DistView) -> bool {
    &&& chosen(dr.count, d.events_per_session)
    &&& dr.events.len() == clamp_events(or_default(dr.count, 5u32) as nat)
    &&& forall|k: int|
        0 <= k < dr.events.len() ==> {
            &&& chosen((#[trigger] dr.events[k]).gap, d.inter_event_seconds)
            &&& dr.events[k].kind < d.event_kinds.len()
            &&& d.event_kinds[dr.events[k].kind as int].1 > 0
            &&& body_draw_fits(dr.events[k].body, d.event_kinds[dr.events[k].kind as int].0, d)
        }
    &&& 1 <= dr.end_gap <= 15
}

/// The plan the draws make at time `now`: it starts at `now`, has the events
/// the event draws make, and ends the drawn end gap after the last event.
pub open spec fn plan_of(d: DistView, now: i64, dr: DrawsView) -> PlanView {
    PlanView { start: now, events: events_of(d, dr.events), end_gap: dr.end_gap }
}

proof fn lemma_chosen_pick<A>(c: Option<A>, s: Seq<A>, default: A)
    requires
        chosen(c, s),
    ensures
        pick_or(s, or_default(c, default), default),
{
}

proof fn lemma_body_fits(b: BodyDrawView, kind: Seq<char>, d: DistView, searched: bool)
    requires
        body_draw_fits(b, kind, d),
    ensures
        body_fits(body_of(b, kind, searched), kind, d, searched),
{
    if kind == "QS"@ {
        lemma_chosen_pick(b.query, d.queries, "test"@);
        assert forall|i: int| 0 <= i < docs_of(b.docs).len() implies pick_or(
            doc_names(d),
            #[trigger] docs_of(b.docs)[i],
            "LAW_0"@,
        ) by {
            lemma_chosen_pick(b.docs[i], doc_names(d), "LAW_0"@);
        }
    } else if kind == "CARD"@ {
        let ps = params_of(b.params);
        assert forall|i: int| 0 <= i < ps.len() implies #[trigger] ps[i].0 < 200 && pick_or(
            doc_names(d),
            ps[i].1,
            Seq::empty(),
        ) by {
            assert(b.params[i].0 < 200);
            assert(ps[i] == (b.params[i].0, or_default(b.params[i].1, Seq::<char>::empty())));
            lemma_chosen_pick(b.params[i].1, doc_names(d), Seq::empty());
        }
        assert forall|i: int| 0 <= i < docs_of(b.docs).len() implies pick_or(
            doc_names(d),
            #[trigger] docs_of(b.docs)[i],
            "LAW_0"@,
        ) by {
            lemma_chosen_pick(b.docs[i], doc_names(d), "LAW_0"@);
        }
    } else if kind == "DOC_OPEN"@ && searched {
        lemma_chosen_pick(b.doc, doc_names(d), "LAW_0"@);
    }
}

/// The text of a choice, or `default` for none.
fn text_or(c: &Option<String>, default: &str) -> (s: String)
    ensures
        s@ == or_default(opt_view(*c), default@),
{
    match c {
        Some(x) => x.clone(),
        None => String::from_str(default),
    }
}

/// Result documents from their drawn choices.
fn docs_from(cs: &Vec<Option<String>>) -> (v: Vec<String>)
    ensures
        views(v@) == docs_of(choice_views(cs@)),
{
    let mut v: Vec<String> = Vec::new();
    let mut i: usize = 0;
    while i < cs.len()
        invariant
            0 <= i <= cs@.len(),
            views(v@) == docs_of(choice_views(cs@.take(i as int))),
        decreases cs@.len() - i,
    {
        let s = text_or(&cs[i], "LAW_0");
        proof {
            lemma_views_push(v@, s);
            assert(docs_of(choice_views(cs@.take(i + 1))) =~= docs_of(
                choice_views(cs@.take(i as int)),
            ).push(s@));
        }
        v.push(s);
        i = i + 1;
    }
    assert(cs@.take(cs@.len() as int) =~= cs@);
    v
}

/// Card parameters from their drawn choices.
fn params_from(ps: &Vec<(u32, Option<String>)>) -> (v: Vec<(u32, String)>)
    ensures
        param_views(v@) == params_of(param_choice_views(ps@)),
{
    let mut v: Vec<(u32, String)> = Vec::new();
    let mut i: usize = 0;
    while i < ps.len()
        invariant
            0 <= i <= ps@.len(),
            param_views(v@) == params_of(param_choice_views(ps@.take(i as int))),
        decreases ps@.len() - i,
    {
        let value = text_or(&ps[i].1, "");
        proof {
            reveal_strlit("");
            assert(""@ =~= Seq::<char>::empty());
            assert(value@ == or_default(opt_view(ps@[i as int].1), Seq::<char>::empty()));
        }
        let ghost before = v@;
        v.push((ps[i].0, value));
        proof {
            assert(param_views(v@) =~= param_views(before).push((ps@[i as int].0, value@)));
            assert(params_of(param_choice_views(ps@.take(i + 1))) =~= params_of(
                param_choice_views(ps@.take(i as int)),
            ).push((ps@[i as int].0, value@)));
        }
        i = i + 1;
    }
    assert(ps@.take(ps@.len() as int) =~= ps@);
    v
}

/// What an event of kind `kind` writes from its drawn values, after a search
/// (`searched`) or not.
pub fn body_from_draw(b: &BodyDraw, kind: &String, searched: bool) -> (r: EventBody)
    ensures
        r@ == body_of(b@, kind@, searched),
{
    if same_text(kind.as_str(), "QS") {
        let query = text_or(&b.query, "test");
        let docs = docs_from(&b.docs);
        EventBody::Query { query, search_id: b.search_id, docs }
    } else if same_text(kind.as_str(), "CARD") {
        let params = params_from(&b.params);
        let docs = docs_from(&b.docs);
        EventBody::Card { search_id: b.search_id, params, docs }
    } else if same_text(kind.as_str(), "DOC_OPEN") && searched {
        EventBody::Open { doc: text_or(&b.doc, "LAW_0") }
    } else {
        EventBody::Idle
    }
}

/// The plan that the draws `draws` make from `d` at time `now`.
pub fn build_plan(d: &Distributions, now: i64, draws: &SessionDraws) -> (p: SessionPlan)
    requires
        draws_fit(draws@, d@),
        fits_time(d@, now),
    ensures
        p@ == plan_of(d@, now, draws@),
        plan_fits(p@, d@, now),
        plan_in_range(p@),
{
    let ghost dv = d@;
    let ghost dr = draws@;
    let n = draws.events.len();
    proof {
        match dr.count {
            Some(c) => {
                if d.events_per_session@.len() > 0 {
                    let i = choose|i: int|
                        0 <= i < d.events_per_session@.len() && d.events_per_session@[i] == c;
                    lemma_seq_max(d.events_per_session@, i);
                }
            },
            None => {},
        }
        assert(n <= max_events(d@));
    }
    let mut events: Vec<PlannedEvent> = Vec::new();
    let mut last: Option<u64> = None;
    let mut k: usize = 0;
    assert(event_views(events@) =~= events_of(dv, dr.events.take(0)));
    while k < n
        invariant
            0 <= k <= n,
            n == dr.events.len(),
            n <= max_events(dv),
            n <= 50,
            dv == d@,
            dr == draws@,
            draws_fit(dr, dv),
            events@.len() == k,
            event_views(events@) == events_of(dv, dr.events.take(k as int)),
            last == last_search(event_views(events@)),
            forall|j: int|
                0 <= j < k ==> pick_or(
                    dv.inter_event_seconds,
                    #[trigger] event_views(events@)[j].gap,
                    5u32,
                ),
            forall|j: int|
                0 <= j < k ==> event_fits(
                    #[trigger] event_views(events@)[j],
                    dv,
                    last_search(event_views(events@).take(j)) is Some,
                ),
            gap_total(event_views(events@)) <= k * max_gap(dv),
        decreases n - k,
    {
        let ev = &draws.events[k];
        let ghost evv = dr.events[k as int];
        assert(evv == ev@);
        let gap: u32 = match ev.gap {
            Some(g) => g,
            None => 5,
        };
        proof {
            if dv.inter_event_seconds.len() > 0 {
                let i = choose|i: int|
                    0 <= i < dv.inter_event_seconds.len() && dv.inter_event_seconds[i] == gap;
                lemma_seq_max(dv.inter_event_seconds, i);
            }
            assert(gap <= max_gap(dv));
            lemma_chosen_pick(evv.gap, dv.inter_event_seconds, 5u32);
        }
        let ki = ev.kind;
        let kind = &d.event_kinds[ki].0;
        proof {
            assert(entry_views(d.event_kinds@)[ki as int] == (
                d.event_kinds@[ki as int].0@,
                d.event_kinds@[ki as int].1,
            ));
            assert(kind@ == dv.event_kinds[ki as int].0);
        }
        let body = body_from_draw(&ev.body, kind, last.is_some());
        let ghost old_ev = event_views(events@);
        let new_last = match &body {
            EventBody::Query { search_id, .. } => Some(*search_id),
            EventBody::Card { search_id, .. } => Some(*search_id),
            _ => last,
        };
        let e = PlannedEvent { gap, body };
        let ghost newe = e@;
        events.push(e);
        last = new_last;
        proof {
            let nv = event_views(events@);
            assert(nv =~= old_ev.push(newe));
            assert(nv.drop_last() =~= old_ev);
            assert(dr.events.take(k + 1).drop_last() =~= dr.events.take(k as int));
            assert(dr.events.take(k + 1).last() == evv);
            assert(nv == events_of(dv, dr.events.take(k + 1)));
            lemma_body_fits(evv.body, dv.event_kinds[ki as int].0, dv, last_search(old_ev) is Some);
            assert(event_fits(newe, dv, last_search(old_ev) is Some));
            assert forall|j: int|
                0 <= j < k + 1 implies event_fits(
                #[trigger] nv[j],
                dv,
                last_search(nv.take(j)) is Some,
            ) by {
                if j < k {
                    assert(nv.take(j) =~= old_ev.take(j));
                    assert(nv[j] == old_ev[j]);
                } else {
                    assert(nv.take(j) =~= old_ev);
                }
            }
            assert forall|j: int|
                0 <= j < k + 1 implies pick_or(dv.inter_event_seconds, #[trigger] nv[j].gap, 5u32) by {
                if j < k {
                    assert(nv[j] == old_ev[j]);
                }
            }
            assert(gap_total(nv) == gap_total(old_ev) + gap);
            assert(k * max_gap(dv) + max_gap(dv) == (k + 1) * max_gap(dv)) by (nonlinear_arith);
        }
        k = k + 1;
    }
    let p = SessionPlan { start: now, events, end_gap: draws.end_gap };
    proof {
        assert(dr.events.take(n as int) =~= dr.events);
        assert(p@.events == event_views(p.events@));
        assert(n * max_gap(dv) <= max_events(dv) * max_gap(dv)) by (nonlinear_arith)
            requires
                n <= max_events(dv),
        ;
        assert(plan_end(p@) <= now + session_span(dv));
        if dv.events_per_session.len() > 0 {
            let c = dr.count->0;
            let i = choose|i: int|
                0 <= i < dv.events_per_session.len() && dv.events_per_session[i] == c;
            assert(p@.events.len() == clamp_events(dv.events_per_session[i] as nat));
        }
    }
    p
}

} // verus!
