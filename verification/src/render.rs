//! Synthetic sessions: a plan of events drawn from distributions, and its
//! rendering as session-log text.

use vstd::prelude::*;

use crate::text::{push_char, views};
use crate::timestamp::{
    dec, fmt_ts, fmt_ts_spec, push_decimal, MAX_TIMESTAMP, MIN_TIMESTAMP,
};

verus! {

/// What one planned event writes.
pub enum EventBody {
    /// A quick search: its query, search id and result documents.
    Query { query: String, search_id: u64, docs: Vec<String> },
    /// A card search: its search id, `(parameter id, value)` pairs and result
    /// documents.
    Card { search_id: u64, params: Vec<(u32, String)>, docs: Vec<String> },
    /// A document opened from the latest search.
    Open { doc: String },
    /// Nothing written.
    Idle,
}

/// One planned event: the seconds since the previous one, and what it writes.
pub struct PlannedEvent {
    pub gap: u32,
    pub body: EventBody,
}

/// A synthetic session: its start (epoch seconds), its events, and the
/// seconds from the last event to its end.
pub struct SessionPlan {
    pub start: i64,
    pub events: Vec<PlannedEvent>,
    pub end_gap: u32,
}

pub enum BodyView {
    Query { query: Seq<char>, search_id: u64, docs: Seq<Seq<char>> },
    Card { search_id: u64, params: Seq<(u32, Seq<char>)>, docs: Seq<Seq<char>> },
    Open { doc: Seq<char> },
    Idle,
}

pub struct EventView {
    pub gap: u32,
    pub body: BodyView,
}

pub struct PlanView {
    pub start: i64,
    pub events: Seq<EventView>,
    pub end_gap: u32,
}

pub open spec fn param_views(ps: Seq<(u32, String)>) -> Seq<(u32, Seq<char>)> {
    ps.map_values(|p: (u32, String)| (p.0, p.1@))
}

impl View for EventBody {
    type V = BodyView;

    open spec fn view(&self) -> BodyView {
        match self {
            EventBody::Query { query, search_id, docs } => BodyView::Query {
                query: query@,
                search_id: *search_id,
                docs: views(docs@),
            },
            EventBody::Card { search_id, params, docs } => BodyView::Card {
                search_id: *search_id,
                params: param_views(params@),
                docs: views(docs@),
            },
            EventBody::Open { doc } => BodyView::Open { doc: doc@ },
            EventBody::Idle => BodyView::Idle,
        }
    }
}

impl View for PlannedEvent {
    type V = EventView;

    open spec fn view(&self) -> EventView {
        EventView { gap: self.gap, body: self.body@ }
    }
}

pub open spec fn event_views(evs: Seq<PlannedEvent>) -> Seq<EventView> {
    evs.map_values(|e: PlannedEvent| e@)
}

impl View for SessionPlan {
    type V = PlanView;

    open spec fn view(&self) -> PlanView {
        PlanView { start: self.start, events: event_views(self.events@), end_gap: self.end_gap }
    }
}

/// Words separated by single spaces (`join(" ")`).
pub open spec fn join_words(ws: Seq<Seq<char>>) -> Seq<char>
    decreases ws.len(),
{
    if ws.len() == 0 {
        Seq::empty()
    } else if ws.len() == 1 {
        ws[0]
    } else {
        join_words(ws.drop_last()) + seq![' '] + ws.last()
    }
}

/// The parameter lines `$<id> <value>` of a card search.
pub open spec fn params_text(ps: Seq<(u32, Seq<char>)>) -> Seq<char>
    decreases ps.len(),
{
    if ps.len() == 0 {
        Seq::empty()
    } else {
        params_text(ps.drop_last()) + seq!['$'] + dec(ps.last().0 as nat) + seq![' '] + ps.last().1
            + seq!['\n']
    }
}

/// The result line `<search id> <doc> <doc> ...` of a search.
pub open spec fn result_text(search_id: u64, docs: Seq<Seq<char>>) -> Seq<char> {
    dec(search_id as nat) + seq![' '] + join_words(docs) + seq!['\n']
}

/// The lines an event writes at time `t`, after the search `last`.
pub open spec fn event_text(b: BodyView, t: i64, last: Option<u64>) -> Seq<char> {
    match b {
        BodyView::Query { query, search_id, docs } => "QS "@ + fmt_ts_spec(t) + " {"@ + query
            + "}\n"@ + result_text(search_id, docs),
        BodyView::Card { search_id, params, docs } => "CARD_SEARCH_START "@ + fmt_ts_spec(t)
            + "\n"@ + params_text(params) + "CARD_SEARCH_END\n"@ + result_text(search_id, docs),
        BodyView::Open { doc } => match last {
            Some(s) => "DOC_OPEN "@ + fmt_ts_spec(t) + seq![' '] + dec(s as nat) + seq![' '] + doc
                + seq!['\n'],
            None => Seq::empty(),
        },
        BodyView::Idle => Seq::empty(),
    }
}

/// The search id an event leaves as the latest one.
pub open spec fn search_after(b: BodyView, last: Option<u64>) -> Option<u64> {
    match b {
        BodyView::Query { search_id, .. } => Some(search_id),
        BodyView::Card { search_id, .. } => Some(search_id),
        _ => last,
    }
}

/// The latest search id after a sequence of events.
pub open spec fn last_search(evs: Seq<EventView>) -> Option<u64>
    decreases evs.len(),
{
    if evs.len() == 0 {
        None
    } else {
        search_after(evs.last().body, last_search(evs.drop_last()))
    }
}

/// The seconds from the start to the last of a sequence of events.
pub open spec fn gap_total(evs: Seq<EventView>) -> nat
    decreases evs.len(),
{
    if evs.len() == 0 {
        0
    } else {
        gap_total(evs.drop_last()) + evs.last().gap as nat
    }
}

/// The lines of a sequence of events of a session that started at `start`.
pub open spec fn events_text(start: i64, evs: Seq<EventView>) -> Seq<char>
    decreases evs.len(),
{
    if evs.len() == 0 {
        Seq::empty()
    } else {
        events_text(start, evs.drop_last()) + event_text(
            evs.last().body,
            (start + gap_total(evs)) as i64,
            last_search(evs.drop_last()),
        )
    }
}

/// The end time of a plan.
pub open spec fn plan_end(p: PlanView) -> int {
    p.start + gap_total(p.events) + p.end_gap
}

/// All times of the plan lie in the range that `chrono` represents.
pub open spec fn plan_in_range(p: PlanView) -> bool {
    MIN_TIMESTAMP <= p.start && plan_end(p) <= MAX_TIMESTAMP
}

/// The session-log text of a plan.
pub open spec fn render_text(p: PlanView) -> Seq<char> {
    "SESSION_START "@ + fmt_ts_spec(p.start) + "\n"@ + events_text(p.start, p.events)
        + "SESSION_END "@ + fmt_ts_spec(plan_end(p) as i64) + "\n"@
}

pub proof fn lemma_gap_total_prefix(evs: Seq<EventView>, k: int)
    requires
        0 <= k <= evs.len(),
    ensures
        gap_total(evs.take(k)) <= gap_total(evs),
    decreases evs.len() - k,
{
    if k < evs.len() {
        lemma_gap_total_prefix(evs, k + 1);
        assert(evs.take(k + 1).drop_last() =~= evs.take(k));
    } else {
        assert(evs.take(k) =~= evs);
    }
}

/// Appends words separated by single spaces.
fn push_words(out: &mut String, ws: &Vec<String>)
    ensures
        final(out)@ == old(out)@ + join_words(views(ws@)),
{
    let ghost o = out@;
    let mut i: usize = 0;
    while i < ws.len()
        invariant
            0 <= i <= ws@.len(),
            out@ == o + join_words(views(ws@).take(i as int)),
        decreases ws@.len() - i,
    {
        let ghost t = views(ws@).take(i + 1);
        assert(t.drop_last() =~= views(ws@).take(i as int));
        assert(t.last() == ws@[i as int]@);
        if i > 0 {
            out.append(" ");
            proof {
                reveal_strlit(" ");
            }
        } else {
            assert(t =~= seq![ws@[0]@]);
        }
        out.append(ws[i].as_str());
        i = i + 1;
        assert(out@ =~= o + join_words(views(ws@).take(i as int)));
    }
    assert(views(ws@).take(ws@.len() as int) =~= views(ws@));
}

/// Appends the result line of a search.
fn push_result_line(out: &mut String, search_id: u64, docs: &Vec<String>)
    ensures
        final(out)@ == old(out)@ + result_text(search_id, views(docs@)),
{
    let ghost o = out@;
    push_decimal(out, search_id);
    push_char(out, ' ');
    push_words(out, docs);
    push_char(out, '\n');
    assert(out@ =~= o + result_text(search_id, views(docs@)));
}

/// Appends the parameter lines of a card search.
fn push_params(out: &mut String, ps: &Vec<(u32, String)>)
    ensures
        final(out)@ == old(out)@ + params_text(param_views(ps@)),
{
    let ghost o = out@;
    let mut i: usize = 0;
    while i < ps.len()
        invariant
            0 <= i <= ps@.len(),
            out@ == o + params_text(param_views(ps@).take(i as int)),
        decreases ps@.len() - i,
    {
        let ghost t = param_views(ps@).take(i + 1);
        assert(t.drop_last() =~= param_views(ps@).take(i as int));
        assert(t.last() == (ps@[i as int].0, ps@[i as int].1@));
        push_char(out, '$');
        push_decimal(out, ps[i].0 as u64);
        push_char(out, ' ');
        out.append(ps[i].1.as_str());
        push_char(out, '\n');
        i = i + 1;
        assert(out@ =~= o + params_text(param_views(ps@).take(i as int)));
    }
    assert(param_views(ps@).take(ps@.len() as int) =~= param_views(ps@));
}

/// Appends the lines of one event at time `t` after the search `last`.
fn push_event(out: &mut String, body: &EventBody, t: i64, last: Option<u64>)
    requires
        MIN_TIMESTAMP <= t <= MAX_TIMESTAMP,
    ensures
        final(out)@ == old(out)@ + event_text(body@, t, last),
{
    let ghost o = out@;
    match body {
        EventBody::Query { query, search_id, docs } => {
            out.append("QS ");
            out.append(fmt_ts(t).as_str());
            out.append(" {");
            out.append(query.as_str());
            out.append("}\n");
            push_result_line(out, *search_id, docs);
            assert(out@ =~= o + event_text(body@, t, last));
        },
        EventBody::Card { search_id, params, docs } => {
            out.append("CARD_SEARCH_START ");
            out.append(fmt_ts(t).as_str());
            out.append("\n");
            push_params(out, params);
            out.append("CARD_SEARCH_END\n");
            push_result_line(out, *search_id, docs);
            assert(out@ =~= o + event_text(body@, t, last));
        },
        EventBody::Open { doc } => {
            match last {
                Some(s) => {
                    out.append("DOC_OPEN ");
                    out.append(fmt_ts(t).as_str());
                    push_char(out, ' ');
                    push_decimal(out, s);
                    push_char(out, ' ');
                    out.append(doc.as_str());
                    push_char(out, '\n');
                    assert(out@ =~= o + event_text(body@, t, last));
                },
                None => {
                    assert(out@ =~= o + event_text(body@, t, last));
                },
            }
        },
        EventBody::Idle => {
            assert(out@ =~= o + event_text(body@, t, last));
        },
    }
}

/// The session-log text of a plan: a `SESSION_START` line, the lines of each
/// event at its time, and a `SESSION_END` line.
pub fn render_plan(p: &SessionPlan) -> (s: String)
    requires
        plan_in_range(p@),
    ensures
        s@ == render_text(p@),
{
    let ghost evs = p@.events;
    let mut out = String::new();
    out.append("SESSION_START ");
    out.append(fmt_ts(p.start).as_str());
    out.append("\n");
    let ghost head = out@;
    let mut t: i64 = p.start;
    let mut last: Option<u64> = None;
    let mut k: usize = 0;
    assert(evs.take(0) =~= Seq::<EventView>::empty());
    while k < p.events.len()
        invariant
            0 <= k <= p.events@.len(),
            evs == p@.events,
            evs.len() == p.events@.len(),
            plan_in_range(p@),
            out@ == head + events_text(p.start, evs.take(k as int)),
            t == p.start + gap_total(evs.take(k as int)),
            last == last_search(evs.take(k as int)),
        decreases p.events@.len() - k,
    {
        let ghost pre = evs.take(k as int);
        let ghost nxt = evs.take(k + 1);
        proof {
            assert(nxt.drop_last() =~= pre);
            assert(nxt.last() == evs[k as int]);
            assert(evs[k as int] == p.events@[k as int]@);
            lemma_gap_total_prefix(evs, k + 1);
        }
        let e = &p.events[k];
        t = t + e.gap as i64;
        push_event(&mut out, &e.body, t, last);
        last = match &e.body {
            EventBody::Query { search_id, .. } => Some(*search_id),
            EventBody::Card { search_id, .. } => Some(*search_id),
            _ => last,
        };
        k = k + 1;
        assert(out@ =~= head + events_text(p.start, evs.take(k as int)));
    }
    proof {
        assert(evs.take(evs.len() as int) =~= evs);
    }
    let end = t + p.end_gap as i64;
    out.append("SESSION_END ");
    out.append(fmt_ts(end).as_str());
    out.append("\n");
    assert(out@ =~= render_text(p@));
    out
}

} // verus!
