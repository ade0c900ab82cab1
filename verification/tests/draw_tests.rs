use generator::dist::Distributions;
use generator::draws::{body_from_draw, build_plan, BodyDraw, EventDraw, SessionDraws};
use generator::render::{render_plan, EventBody};
use generator::plan::draw_session;

const T0: i64 = 1706781600; // 01.02.2024 10:00:00 UTC

fn s(x: &str) -> String {
    x.to_string()
}

fn dists() -> Distributions {
    Distributions {
        sample_size: 2,
        events_per_session: vec![3, 80],
        event_kinds: vec![(s("QS"), 2), (s("CARD"), 1), (s("DOC_OPEN"), 3), (s("OTHER"), 0)],
        inter_event_seconds: vec![1, 30],
        doc_ids: vec![(s("LAW_1"), 4), (s("ACC_2"), 1)],
        queries: vec![s("налоги"), s("договор")],
    }
}

fn no_body() -> BodyDraw {
    BodyDraw { query: None, search_id: 0, params: vec![], docs: vec![], doc: None }
}

#[test]
fn drawn_values_make_the_plan() {
    let d = dists();
    let draws = SessionDraws {
        count: Some(3),
        events: vec![
            EventDraw { gap: Some(1), kind: 2, body: BodyDraw { doc: Some(s("LAW_1")), ..no_body() } },
            EventDraw {
                gap: Some(30),
                kind: 0,
                body: BodyDraw {
                    query: Some(s("договор")),
                    search_id: 1234567,
                    docs: vec![Some(s("ACC_2")), Some(s("LAW_1"))],
                    ..no_body()
                },
            },
            EventDraw { gap: Some(1), kind: 2, body: BodyDraw { doc: Some(s("ACC_2")), ..no_body() } },
        ],
        end_gap: 4,
    };
    let p = build_plan(&d, T0, &draws);
    assert_eq!(p.start, T0);
    assert_eq!(p.end_gap, 4);
    assert_eq!(p.events.len(), 3);
    assert_eq!(p.events[0].gap, 1);
    assert!(matches!(p.events[0].body, EventBody::Idle));
    assert!(matches!(&p.events[1].body,
        EventBody::Query { query, search_id: 1234567, docs }
            if query == "договор" && *docs == vec![s("ACC_2"), s("LAW_1")]));
    assert!(matches!(&p.events[2].body, EventBody::Open { doc } if doc == "ACC_2"));
    assert_eq!(
        render_plan(&p),
        s("SESSION_START 01.02.2024_10:00:00\n\
           QS 01.02.2024_10:00:31 {договор}\n\
           1234567 ACC_2 LAW_1\n\
           DOC_OPEN 01.02.2024_10:00:32 1234567 ACC_2\n\
           SESSION_END 01.02.2024_10:00:36\n")
    );
}

#[test]
fn card_draws_fill_defaults() {
    let b = BodyDraw {
        search_id: 2000000,
        params: vec![(7, None), (9, Some(s("LAW_1")))],
        docs: vec![None],
        ..no_body()
    };
    match body_from_draw(&b, &s("CARD"), false) {
        EventBody::Card { search_id, params, docs } => {
            assert_eq!(search_id, 2000000);
            assert_eq!(params, vec![(7, s("")), (9, s("LAW_1"))]);
            assert_eq!(docs, vec![s("LAW_0")]);
        }
        _ => panic!("a card search"),
    }
    assert!(matches!(body_from_draw(&no_body(), &s("QS"), false),
        EventBody::Query { query, .. } if query == "test"));
    assert!(matches!(body_from_draw(&no_body(), &s("OTHER"), true), EventBody::Idle));
}

#[test]
fn drawn_sessions_use_positive_kinds() {
    let d = dists();
    let mut rng = rand::thread_rng();
    for _ in 0..50 {
        let dr = draw_session(&d, &mut rng);
        let n = match dr.count {
            Some(3) => 3,
            Some(80) => 50,
            other => panic!("unexpected count {:?}", other),
        };
        assert_eq!(dr.events.len(), n);
        assert!(dr.events.iter().all(|e| e.kind < 3));
        assert!((1..=15).contains(&dr.end_gap));
    }
}
