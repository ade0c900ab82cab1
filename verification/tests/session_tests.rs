use generator::dist::{
    sample_count, scan_object, DistributionBuilder, Distributions, KeyListing, DOC_LIMIT,
    QUERY_LIMIT,
};
use generator::freq::FreqTable;
use generator::plan::{
    can_draw_kinds, make_upload, object_key, upload_for, plan_session, render_session, render_session_at,
    render_session_from_clock,
    span_of,
};
use generator::render::{render_plan, EventBody, PlannedEvent, SessionPlan};
use generator::scan::{
    extract_query, extract_ts, gap_between, scan_line, scan_session, SessionScanner, SessionStats,
};
use generator::text::{chars_of, tokens_of, trimmed};
use generator::timestamp::{epoch_instant, fmt_ts, format_timestamp, LogTime};

const T0: i64 = 1706781600; // 01.02.2024 10:00:00 UTC

fn at(secs: i64) -> LogTime {
    LogTime { secs, nanos: 0 }
}

fn s(x: &str) -> String {
    x.to_string()
}

fn sample_text() -> String {
    [
        "SESSION_START 01.02.2024_10:00:00",
        "QS 01.02.2024_10:00:05 {налог на прибыль}",
        "123456 LAW_1 ACC_2 nodoc",
        "  DOC_OPEN 01.02.2024_10:00:20 123456 LAW_1  ",
        "",
        "CARD_SEARCH_START 01.02.2024_11:30:00",
        "$0 LAW_9",
        "CARD_SEARCH_END",
        "-77 DOC_3",
        "SESSION_END 01.02.2024_11:30:10",
        "",
    ]
    .join("\r\n")
}

#[test]
fn extract_query_takes_text_between_outer_braces() {
    assert_eq!(extract_query("QS 01.02.2024_10:00:05 {hello world}"), Some(s("hello world")));
    assert_eq!(extract_query("QS x {a{b}c}"), Some(s("a{b}c")));
    assert_eq!(extract_query("QS x {}"), Some(s("")));
    assert_eq!(extract_query("QS x }{"), None);
    assert_eq!(extract_query("QS x {abc"), None);
    assert_eq!(extract_query("QS x abc}"), None);
}

#[test]
fn extract_ts_reads_the_second_token() {
    assert_eq!(extract_ts("QS 01.02.2024_10:00:05 {q}"), Some(at(T0 + 5)));
    assert_eq!(extract_ts("SESSION_START    01.02.2024_10:00:00"), Some(at(T0)));
    assert_eq!(extract_ts("SESSION_START"), None);
    assert_eq!(extract_ts("123456 LAW_1"), None);
    assert_eq!(extract_ts("X 2024-02-01T10:00:00"), None);
}

#[test]
fn gap_between_clamps_and_wraps() {
    assert_eq!(gap_between(at(T0 + 7), at(T0)), 7);
    assert_eq!(gap_between(at(T0), at(T0 + 7)), 0);
    assert_eq!(gap_between(at(4294967296 + 5), at(0)), 5);
}

#[test]
fn second_sixty_is_a_leap_second() {
    let before = extract_ts("X 01.02.2024_23:59:59").unwrap();
    let leap = extract_ts("X 01.02.2024_23:59:60").unwrap();
    let after = extract_ts("X 02.02.2024_00:00:01").unwrap();
    assert_eq!(leap, LogTime { secs: before.secs, nanos: 1_000_000_000 });
    assert_eq!(gap_between(leap, before), 1);
    assert_eq!(gap_between(before, leap), 0);
    assert_eq!(gap_between(after, leap), 1);
    let text = "QS 01.02.2024_23:59:59 {a}\nQS 01.02.2024_23:59:60 {b}\nQS 02.02.2024_00:00:01 {c}\n";
    assert_eq!(scan_session(text).gaps, vec![1, 1]);
}

#[test]
fn clock_readings_become_instants() {
    assert_eq!(epoch_instant(Some(T0 as u64)), Some(T0));
    assert_eq!(epoch_instant(None), None);
    assert_eq!(epoch_instant(Some(u64::MAX)), None);
    assert_eq!(epoch_instant(Some(8210266876799)), Some(8210266876799));
    assert_eq!(epoch_instant(Some(8210266876800)), None);
}

#[test]
fn scan_session_collects_kinds_docs_queries_and_gaps() {
    let text = sample_text();
    let stats = scan_session(&text);
    assert_eq!(stats.event_count, 3);
    assert_eq!(stats.kinds, vec![s("QS"), s("DOC_OPEN"), s("CARD")]);
    assert_eq!(stats.queries, vec![s("налог на прибыль")]);
    assert_eq!(stats.docs, vec![s("LAW_1"), s("ACC_2"), s("LAW_1"), s("DOC_3")]);
    // 10:00:00 -> 10:00:05 -> 10:00:20; 11:30:00 is an outlier; 11:30:10
    assert_eq!(stats.gaps, vec![5, 15, 10]);
}

#[test]
fn scanning_joined_texts_appends_their_records() {
    let a = "QS 01.02.2024_10:00:00 {a}\nDOC_OPEN 01.02.2024_10:00:10 X_1\n";
    let b = "QS 01.02.2024_10:00:30 {b}\n5 Y_2\n";
    let (x, y) = (scan_session(a), scan_session(b));
    let z = scan_session(&format!("{}{}", a, b));
    assert_eq!(z.event_count, x.event_count + y.event_count);
    assert_eq!(z.kinds, [x.kinds.clone(), y.kinds.clone()].concat());
    assert_eq!(z.docs, [x.docs.clone(), y.docs.clone()].concat());
    assert_eq!(z.queries, vec![s("a"), s("b")]);
    assert_eq!(x.gaps, vec![10]);
    assert!(y.gaps.is_empty());
    assert_eq!(z.gaps, vec![10, 20]);
}

#[test]
fn blank_lines_and_padding_leave_a_scan_alone() {
    let plain = "QS 01.02.2024_10:00:00 {a}\nDOC_OPEN 01.02.2024_10:00:10 X_1\n7 Y_2";
    let padded = "\n \t\r\n  QS 01.02.2024_10:00:00 {a}\t\r\n\n\tDOC_OPEN 01.02.2024_10:00:10 X_1  \n \n7 Y_2 \r\n";
    let (x, y) = (scan_session(plain), scan_session(padded));
    assert_eq!(x.event_count, y.event_count);
    assert_eq!(x.gaps, y.gaps);
    assert_eq!(x.kinds, y.kinds);
    assert_eq!(x.docs, y.docs);
    assert_eq!(x.queries, y.queries);
}

#[test]
fn scan_session_of_empty_text_is_empty() {
    let stats = scan_session("");
    assert_eq!(stats.event_count, 0);
    assert!(stats.gaps.is_empty() && stats.kinds.is_empty());
    assert!(stats.docs.is_empty() && stats.queries.is_empty());
}

#[test]
fn scan_session_records_backward_time_as_zero_gap() {
    let text = "QS 01.02.2024_10:00:05 {a}\nQS 01.02.2024_10:00:00 {b}\n";
    let stats = scan_session(text);
    assert_eq!(stats.gaps, vec![0]);
    assert_eq!(stats.queries, vec![s("a"), s("b")]);
}

#[test]
fn doc_open_prefix_needs_no_space() {
    let stats = scan_session("DOC_OPENED something X_1");
    assert_eq!(stats.kinds, vec![s("DOC_OPEN")]);
    assert_eq!(stats.docs, vec![s("X_1")]);
    let stats = scan_session("QSX 01.02.2024_10:00:05 {a}");
    assert_eq!(stats.event_count, 0);
}

#[test]
fn scan_line_uses_the_given_timestamp() {
    let mut scan = SessionScanner::new();
    scan_line(&mut scan, "SESSION_START whatever", Some(at(100)));
    scan_line(&mut scan, "QS later {q}", Some(at(160)));
    scan_line(&mut scan, "", Some(at(10_000)));
    scan_line(&mut scan, "9 A_1 B C_2", None);
    assert_eq!(scan.last_ts, Some(at(160)));
    assert_eq!(scan.stats.gaps, vec![60]);
    assert_eq!(scan.stats.kinds, vec![s("QS")]);
    assert_eq!(scan.stats.docs, vec![s("A_1"), s("C_2")]);
    assert_eq!(scan.stats.queries, vec![s("q")]);
}

#[test]
fn scan_object_decodes_windows_1251() {
    let mut bytes: Vec<u8> = b"QS 01.02.2024_10:00:05 {".to_vec();
    bytes.extend_from_slice(&[0xef, 0xf0, 0xe8, 0xe2, 0xe5, 0xf2]);
    bytes.extend_from_slice(b"}\n");
    let stats = scan_object(&bytes).unwrap();
    assert_eq!(stats.queries, vec![s("привет")]);
    assert_eq!(stats.event_count, 1);
}

#[test]
fn text_helpers_trim_and_split() {
    let cs = chars_of("\t a  b\u{3000}c \r");
    assert_eq!(trimmed(&cs), s("a  b\u{3000}c"));
    assert_eq!(tokens_of(&cs), vec![s("a"), s("b"), s("c")]);
    assert!(tokens_of(&chars_of("   ")).is_empty());
}

#[test]
fn timestamps_render_zero_padded() {
    assert_eq!(format_timestamp(2024, 2, 1, 10, 0, 5), s("01.02.2024_10:00:05"));
    assert_eq!(format_timestamp(-5, 12, 31, 23, 59, 59), s("31.12.-005_23:59:59"));
    assert_eq!(format_timestamp(12345, 1, 1, 0, 0, 0), s("01.01.12345_00:00:00"));
    assert_eq!(format_timestamp(7, 1, 1, 0, 0, 0), s("01.01.0007_00:00:00"));
    assert_eq!(fmt_ts(T0 + 5), s("01.02.2024_10:00:05"));
    assert_eq!(fmt_ts(0), s("01.01.1970_00:00:00"));
    assert_eq!(fmt_ts(-1), s("31.12.1969_23:59:59"));
    assert_eq!(fmt_ts(951782400), s("29.02.2000_00:00:00"));
    assert_eq!(fmt_ts(-8334601228800), s("01.01.-262143_00:00:00"));
    assert_eq!(fmt_ts(8210266876799), s("31.12.262142_23:59:59"));
}

#[test]
fn timestamps_round_trip_through_the_log_format() {
    for t in [T0, T0 + 86399, 0, 951782400, 4102444799] {
        let line = format!("X {}", fmt_ts(t));
        assert_eq!(extract_ts(&line), Some(at(t)));
    }
}

fn sample_plan() -> SessionPlan {
    SessionPlan {
        start: T0,
        events: vec![
            PlannedEvent {
                gap: 5,
                body: EventBody::Query {
                    query: s("q1"),
                    search_id: 1_000_000,
                    docs: vec![s("A_1"), s("B_2")],
                },
            },
            PlannedEvent { gap: 10, body: EventBody::Open { doc: s("A_1") } },
            PlannedEvent {
                gap: 3,
                body: EventBody::Card {
                    search_id: 2_000_000,
                    params: vec![(7, s("C_3"))],
                    docs: vec![s("D_4")],
                },
            },
            PlannedEvent { gap: 1, body: EventBody::Idle },
        ],
        end_gap: 2,
    }
}

#[test]
fn render_plan_writes_the_session_log() {
    let expected = [
        "SESSION_START 01.02.2024_10:00:00",
        "QS 01.02.2024_10:00:05 {q1}",
        "1000000 A_1 B_2",
        "DOC_OPEN 01.02.2024_10:00:15 1000000 A_1",
        "CARD_SEARCH_START 01.02.2024_10:00:18",
        "$7 C_3",
        "CARD_SEARCH_END",
        "2000000 D_4",
        "SESSION_END 01.02.2024_10:00:21",
        "",
    ]
    .join("\n");
    assert_eq!(render_plan(&sample_plan()), expected);
}

#[test]
fn open_before_any_search_writes_nothing() {
    let plan = SessionPlan {
        start: T0,
        events: vec![PlannedEvent { gap: 4, body: EventBody::Open { doc: s("A_1") } }],
        end_gap: 1,
    };
    assert_eq!(
        render_plan(&plan),
        s("SESSION_START 01.02.2024_10:00:00\nSESSION_END 01.02.2024_10:00:05\n")
    );
}

#[test]
fn rendered_plan_scans_back() {
    let text = render_plan(&sample_plan());
    let stats = scan_session(&text);
    assert_eq!(stats.kinds, vec![s("QS"), s("DOC_OPEN"), s("CARD")]);
    assert_eq!(stats.event_count, 3);
    assert_eq!(stats.queries, vec![s("q1")]);
    assert_eq!(stats.gaps, vec![5, 10, 3, 3]);
}

fn small_distributions() -> Distributions {
    Distributions {
        sample_size: 2,
        events_per_session: vec![3, 80],
        event_kinds: vec![(s("QS"), 2), (s("CARD"), 1), (s("DOC_OPEN"), 3), (s("OTHER"), 0)],
        inter_event_seconds: vec![1, 30],
        doc_ids: vec![(s("LAW_1"), 4), (s("ACC_2"), 1)],
        queries: vec![s("налоги"), s("договор")],
    }
}

#[test]
fn planned_sessions_follow_the_distributions() {
    let d = small_distributions();
    let mut rng = rand::thread_rng();
    for _ in 0..50 {
        let p = plan_session(&d, &mut rng, T0);
        assert_eq!(p.start, T0);
        assert!(p.events.len() == 3 || p.events.len() == 50);
        assert!(1 <= p.end_gap && p.end_gap <= 15);
        let mut searched = false;
        for e in &p.events {
            assert!(e.gap == 1 || e.gap == 30);
            match &e.body {
                EventBody::Query { query, search_id, docs } => {
                    assert!(d.queries.contains(query));
                    assert!((1_000_000..999_999_999).contains(search_id));
                    assert!(!docs.is_empty() && docs.len() < 20);
                    assert!(docs.iter().all(|x| x == "LAW_1" || x == "ACC_2"));
                    searched = true;
                }
                EventBody::Card { search_id, params, docs } => {
                    assert!((1_000_000..999_999_999).contains(search_id));
                    assert!(params.len() == 1 || params.len() == 2);
                    assert!(params.iter().all(|(id, v)| *id < 200 && (v == "LAW_1" || v == "ACC_2")));
                    assert!(!docs.is_empty() && docs.len() < 30);
                    searched = true;
                }
                EventBody::Open { doc } => {
                    assert!(searched);
                    assert!(doc == "LAW_1" || doc == "ACC_2");
                }
                EventBody::Idle => {}
            }
        }
    }
}

#[test]
fn planned_session_defaults_without_samples() {
    let d = Distributions {
        sample_size: 0,
        events_per_session: vec![],
        event_kinds: vec![(s("QS"), 1)],
        inter_event_seconds: vec![],
        doc_ids: vec![],
        queries: vec![],
    };
    let mut rng = rand::thread_rng();
    let p = plan_session(&d, &mut rng, T0);
    assert_eq!(p.events.len(), 5);
    for e in &p.events {
        assert_eq!(e.gap, 5);
        match &e.body {
            EventBody::Query { query, docs, .. } => {
                assert_eq!(query, "test");
                assert!(docs.iter().all(|x| x == "LAW_0"));
            }
            _ => panic!("only quick searches can be drawn"),
        }
    }
    assert_eq!(span_of(&d), 5 * 5 + 15);
}

#[test]
fn rendered_sessions_scan_back_to_their_plan() {
    let d = small_distributions();
    let mut rng = rand::thread_rng();
    for _ in 0..20 {
        let text = render_session_at(&d, &mut rng, T0).unwrap();
        assert!(text.starts_with("SESSION_START "));
        assert!(text.ends_with("\n"));
        let stats = scan_session(&text);
        assert_eq!(stats.event_count as usize, stats.kinds.len());
        assert!(stats.kinds.iter().all(|k| k == "QS" || k == "CARD" || k == "DOC_OPEN"));
        assert!(stats.queries.iter().all(|q| d.queries.contains(q)));
    }
    assert!(render_session(&d).is_some());
}

#[test]
fn sessions_cannot_be_drawn_too_late() {
    let d = small_distributions();
    let mut rng = rand::thread_rng();
    let span = span_of(&d) as i64;
    assert_eq!(span, 50 * 30 + 15);
    let last = 8210266876799 - span;
    assert!(render_session_at(&d, &mut rng, last).is_some());
    assert!(render_session_at(&d, &mut rng, last + 1).is_none());
}

#[test]
fn clock_readings_decide_whether_a_session_renders() {
    let d = small_distributions();
    let mut rng = rand::thread_rng();
    let text = render_session_from_clock(&d, &mut rng, Some(T0 as u64)).unwrap();
    assert_eq!(text.lines().next(), Some("SESSION_START 01.02.2024_10:00:00"));
    assert!(render_session_from_clock(&d, &mut rng, None).is_none());
    assert!(render_session_from_clock(&d, &mut rng, Some(u64::MAX)).is_none());
    let last = (8210266876799 - span_of(&d) as i64) as u64;
    assert!(render_session_from_clock(&d, &mut rng, Some(last)).is_some());
    assert!(render_session_from_clock(&d, &mut rng, Some(last + 1)).is_none());
}

#[test]
fn kinds_drawable_needs_positive_weight() {
    assert!(can_draw_kinds(&small_distributions()));
    let mut d = small_distributions();
    d.event_kinds = vec![(s("QS"), 0)];
    assert!(!can_draw_kinds(&d));
    d.event_kinds = vec![];
    assert!(!can_draw_kinds(&d));
    d.event_kinds = vec![(s("QS"), u64::MAX), (s("CARD"), 1)];
    assert!(!can_draw_kinds(&d));
}

#[test]
fn uploads_pair_the_key_with_the_encoded_text() {
    let (key, body) = upload_for("QS 01.02.2024_10:00:05 {налоги}\n", "abc").unwrap();
    assert_eq!(key, s("synthetic-abc.txt"));
    let mut expected = b"QS 01.02.2024_10:00:05 {".to_vec();
    expected.extend_from_slice(&[0xed, 0xe0, 0xeb, 0xee, 0xe3, 0xe8]);
    expected.extend_from_slice(b"}\n");
    assert_eq!(body, expected);
    assert_eq!(upload_for("", "x"), Some((s("synthetic-x.txt"), vec![])));
}

#[test]
fn object_keys_wrap_the_id() {
    assert_eq!(object_key("abc"), s("synthetic-abc.txt"));
}

#[test]
fn uploads_are_encoded_sessions() {
    let d = small_distributions();
    let (key, body) = make_upload(&d).unwrap();
    assert!(key.starts_with("synthetic-") && key.ends_with(".txt"));
    assert_eq!(key.len(), "synthetic-".len() + 36 + ".txt".len());
    let id: Vec<char> = key["synthetic-".len()..key.len() - ".txt".len()].chars().collect();
    for (i, c) in id.iter().enumerate() {
        if [8, 13, 18, 23].contains(&i) {
            assert_eq!(*c, '-');
        } else {
            assert!(c.is_ascii_digit() || ('a'..='f').contains(c));
        }
    }
    assert_eq!(id[14], '4');
    assert!(['8', '9', 'a', 'b'].contains(&id[19]));
    let stats = scan_object(&body).unwrap();
    assert!(stats.queries.iter().all(|q| d.queries.contains(q)));
    if stats.queries.iter().any(|q| q == "налоги") {
        assert!(body.windows(6).any(|w| w == [0xed, 0xe0, 0xeb, 0xee, 0xe3, 0xe8]));
    }
}

#[test]
fn freq_table_counts_and_ranks() {
    let mut t = FreqTable::new();
    for k in ["b", "a", "b", "c", "b", "a"] {
        t.add(&s(k));
    }
    assert_eq!(t.total(), 6);
    assert_eq!(t.len(), 3);
    assert_eq!(t.entries(), &vec![(s("b"), 3), (s("a"), 2), (s("c"), 1)]);
    assert_eq!(t.top(2), vec![(s("b"), 3), (s("a"), 2)]);
    let mut u = FreqTable::new();
    u.add_all(&vec![s("x"), s("y"), s("y")]);
    assert_eq!(u.top(10), vec![(s("y"), 2), (s("x"), 1)]);
}

fn stats(count: u32, kinds: &[&str], docs: &[&str], queries: &[&str], gaps: &[u32]) -> SessionStats {
    SessionStats {
        event_count: count,
        gaps: gaps.to_vec(),
        kinds: kinds.iter().map(|k| s(k)).collect(),
        docs: docs.iter().map(|k| s(k)).collect(),
        queries: queries.iter().map(|k| s(k)).collect(),
    }
}

#[test]
fn builder_folds_sessions_into_distributions() {
    let mut b = DistributionBuilder::new();
    let s1 = stats(2, &["QS", "DOC_OPEN"], &["D_1", "D_2", "D_1"], &["q1"], &[5, 7]);
    let s2 = stats(1, &["QS"], &["D_2", "D_3", "D_2", "D_2"], &["q2"], &[9]);
    assert!(b.can_add(&s1));
    b.add_session(s1);
    b.add_session(s2);
    let d = b.finish(2);
    assert_eq!(d.sample_size, 2);
    assert_eq!(d.events_per_session, vec![2, 1]);
    assert_eq!(d.inter_event_seconds, vec![5, 7, 9]);
    assert_eq!(d.event_kinds, vec![(s("QS"), 2), (s("DOC_OPEN"), 1)]);
    assert_eq!(d.doc_ids, vec![(s("D_2"), 4), (s("D_1"), 2), (s("D_3"), 1)]);
    assert_eq!(d.queries, vec![s("q1"), s("q2")]);
}

#[test]
fn builder_keeps_limits() {
    let mut b = DistributionBuilder::new();
    let queries: Vec<String> = (0..250).map(|i| format!("q{}", i)).collect();
    let docs: Vec<String> = (0..5003).map(|i| format!("D_{}", i)).collect();
    let mut extra = docs.clone();
    extra.push(s("D_5002"));
    b.add_session(SessionStats {
        event_count: 0,
        gaps: vec![],
        kinds: vec![],
        docs: extra,
        queries: queries.clone(),
    });
    let d = b.finish(1);
    assert_eq!(d.queries.len(), QUERY_LIMIT);
    assert_eq!(d.queries[..], queries[..200]);
    assert_eq!(d.doc_ids.len(), DOC_LIMIT);
    assert_eq!(d.doc_ids[0], (s("D_5002"), 2));
    assert!(d.doc_ids[1..].iter().all(|e| e.1 == 1));
}

#[test]
fn sample_count_caps_at_five_hundred() {
    assert_eq!(sample_count(10), 10);
    assert_eq!(sample_count(500), 500);
    assert_eq!(sample_count(10_000), 500);
}

#[test]
fn listing_follows_continuation_tokens() {
    let mut l = KeyListing::new();
    l.absorb_page(Some(vec![Some(s("a")), None, Some(s("b"))]), Some(true), Some(s("t1")));
    assert!(!l.done);
    assert_eq!(l.continuation, Some(s("t1")));
    l.absorb_page(None, None, None);
    assert!(l.done);
    assert_eq!(l.continuation, Some(s("t1")));
    l.absorb_page(Some(vec![Some(s("c"))]), Some(false), Some(s("t2")));
    assert!(l.done);
    assert_eq!(l.keys, vec![s("a"), s("b"), s("c")]);
}

#[test]
fn timestamps_render_at_the_ends_of_the_range() {
    assert_eq!(fmt_ts(-8334601228800), s("01.01.-262143_00:00:00"));
    assert_eq!(fmt_ts(8210266876799), s("31.12.262142_23:59:59"));
}

#[test]
fn zero_weight_kinds_are_never_drawn() {
    let d = Distributions {
        sample_size: 1,
        events_per_session: vec![50],
        event_kinds: vec![(s("QS"), 0), (s("CARD"), 7), (s("DOC_OPEN"), 0)],
        inter_event_seconds: vec![2],
        doc_ids: vec![(s("LAW_1"), 1)],
        queries: vec![s("q")],
    };
    let mut rng = rand::thread_rng();
    let p = plan_session(&d, &mut rng, T0);
    assert_eq!(p.events.len(), 50);
    assert!(p.events.iter().all(|e| matches!(e.body, EventBody::Card { .. })));
}

#[test]
fn uploads_encode_as_windows_1251() {
    let d = Distributions {
        sample_size: 1,
        events_per_session: vec![1],
        event_kinds: vec![(s("QS"), 1)],
        inter_event_seconds: vec![1],
        doc_ids: vec![(s("LAW_1"), 1)],
        queries: vec![s("налоги")],
    };
    let (_, body) = make_upload(&d).unwrap();
    assert!(body.windows(8).any(|w| w == [b'{', 0xed, 0xe0, 0xeb, 0xee, 0xe3, 0xe8, b'}']));
    assert!(body.is_ascii() == false);
    let stats = scan_object(&body).unwrap();
    assert_eq!(stats.kinds, vec![s("QS")]);
    assert_eq!(stats.queries, vec![s("налоги")]);
    assert!(!stats.docs.is_empty() && stats.docs.len() < 20);
    assert!(stats.docs.iter().all(|x| x == "LAW_1"));
}
