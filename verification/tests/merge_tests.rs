use vcd_merge::events::{Event, EventMap};
use vcd_merge::schema::{signals, split_path, find_var_code, leaf_name, ScopeEntry};
use vcd_merge::trace::{combine, CombineError, LoadError, TimescaleUnit, VCD};

fn var(name: &str, code: u64) -> ScopeEntry {
    ScopeEntry::Var { name: name.to_string(), code }
}

fn scope(name: &str, children: Vec<ScopeEntry>) -> ScopeEntry {
    ScopeEntry::Scope { name: name.to_string(), children }
}

fn rows(values: &EventMap) -> Vec<(u64, Vec<(usize, bool)>)> {
    let mut out = Vec::new();
    let n = values.num_times();
    let mut i = 0;
    while i < n {
        out.push((values.time_at(i), values.changes_at(i).clone()));
        i += 1;
    }
    out
}

fn load(items: Vec<ScopeEntry>, reset: &str, events: Vec<Event>) -> VCD {
    VCD::new(Some((1, TimescaleUnit::NS)), &items, reset, &events).unwrap()
}

#[test]
fn schema_collector_flattens_depth_first() {
    let items = vec![
        scope("top", vec![var("clk", 1), scope("sub", vec![var("d", 2), var("q", 3)]), var("rst", 4)]),
    ];
    let sigs = signals(&items);
    let got: Vec<(String, u64)> = sigs.iter().map(|s| (s.name.clone(), s.code)).collect();
    assert_eq!(
        got,
        vec![
            ("top.clk".to_string(), 1),
            ("top.sub.d".to_string(), 2),
            ("top.sub.q".to_string(), 3),
            ("top.rst".to_string(), 4),
        ]
    );
}

#[test]
fn path_split_and_resolution() {
    assert_eq!(split_path("a.b.c"), vec!["a", "b", "c"]);
    assert_eq!(split_path("rst"), vec!["rst"]);
    let items = vec![scope("top", vec![var("rst", 7), scope("sub", vec![var("rst", 9)])])];
    assert_eq!(find_var_code(&items, &split_path("top.rst")), Some(7));
    assert_eq!(find_var_code(&items, &split_path("top.sub.rst")), Some(9));
    assert_eq!(find_var_code(&items, &split_path("top.nope")), None);
    assert_eq!(find_var_code(&items, &split_path("rst")), None);
}

#[test]
fn leaf_names_flatten_scope_paths() {
    assert_eq!(leaf_name("top.sub.q"), "q");
    assert_eq!(leaf_name("plain"), "plain");
    let t = load(
        vec![scope("top", vec![var("rst", 1), scope("s", vec![var("d", 2)])])],
        "top.rst",
        vec![],
    );
    assert_eq!(t.leaf_names(), vec!["rst".to_string(), "d".to_string()]);
}

// Every local id the loader hands out is a position in the signal list.
#[test]
fn local_ids_match_collected_names() {
    let items = vec![scope("top", vec![var("rst", 5), var("a", 6), var("b", 7)])];
    let events = vec![
        Event::Change { code: 6, value: true },
        Event::Time(3),
        Event::Change { code: 7, value: true },
        Event::Change { code: 5, value: true },
        Event::Change { code: 99, value: true }, // undeclared: dropped silently
    ];
    let t = load(items, "top.rst", events);
    assert_eq!(t.signals.len(), 3);
    for (_, changes) in rows(&t.values) {
        for (id, _) in changes {
            assert!(id < t.signals.len());
        }
    }
    assert_eq!(
        rows(&t.values),
        vec![(0, vec![(1, true)]), (3, vec![(2, true), (0, true)])]
    );
}

// Reset-end is the last tick where reset is seen inactive (logic-1).
#[test]
fn reset_end_is_last_inactive_tick() {
    let items = vec![scope("top", vec![var("rst", 1)])];
    let events = vec![
        Event::Time(5),
        Event::Change { code: 1, value: true },
        Event::Time(9),
        Event::Change { code: 1, value: true },
        Event::Time(15),
        Event::Change { code: 1, value: false },
        Event::Time(20),
        Event::Change { code: 1, value: true },
    ];
    let t = load(items, "top.rst", events);
    assert_eq!(t.rst_end, 20);
}

#[test]
fn reset_never_inactive_yields_zero() {
    let items = vec![scope("top", vec![var("rst", 1)])];
    let events = vec![Event::Time(4), Event::Change { code: 1, value: false }];
    let t = load(items, "top.rst", events);
    assert_eq!(t.rst_end, 0);
}

fn two_traces() -> (VCD, VCD) {
    // A: 4 signals, reset-end 50
    let a = load(
        vec![scope("a", vec![var("rst", 1), var("w", 2), var("x", 3), var("y", 4)])],
        "a.rst",
        vec![
            Event::Time(50),
            Event::Change { code: 1, value: true },
            Event::Change { code: 2, value: true },
        ],
    );
    // B: 3 signals, reset-end 30, one event at tick 0
    let b = load(
        vec![scope("b", vec![var("rst", 1), var("m", 2), var("n", 3)])],
        "b.rst",
        vec![
            Event::Change { code: 2, value: true },
            Event::Time(30),
            Event::Change { code: 1, value: true },
        ],
    );
    (a, b)
}

// Skew: with reset-ends 50 and 30 every timestamp of B shifts by 20.
#[test]
fn skew_shifts_donor_timestamps() {
    let (a, b) = two_traces();
    assert_eq!(a.rst_end, 50);
    assert_eq!(b.rst_end, 30);
    let merged = combine(a, b).unwrap();
    // B's event at tick 0 (its "m", local id 1, merged id 5) lands at tick 20
    let r = rows(&merged.values);
    let at20: Vec<(usize, bool)> = r.iter().find(|e| e.0 == 20).unwrap().1.clone();
    assert_eq!(at20, vec![(5, true)]);
    // B's reset edge at 30 lands at 50, after A's own changes there
    let at50: Vec<(usize, bool)> = r.iter().find(|e| e.0 == 50).unwrap().1.clone();
    assert_eq!(at50, vec![(0, true), (1, true), (4, true)]);
}

// Identifier offset: B's 3 signals occupy merged ids {4, 5, 6} in order.
#[test]
fn donor_ids_follow_receiver_ids() {
    let (a, b) = two_traces();
    let merged = combine(a, b).unwrap();
    assert_eq!(
        merged.signals,
        vec!["a.rst", "a.w", "a.x", "a.y", "b.rst", "b.m", "b.n"]
    );
}

// Name collision: the second clk becomes clk_2, and events against the
// donor's clk reference the clk_2 slot.
#[test]
fn colliding_name_gets_suffix() {
    let a = load(
        vec![var("rst", 1), var("clk", 2)],
        "rst",
        vec![Event::Time(10), Event::Change { code: 1, value: true }],
    );
    let b = load(
        vec![var("rst", 1), var("clk", 2)],
        "rst",
        vec![
            Event::Time(2),
            Event::Change { code: 2, value: true },
            Event::Time(5),
            Event::Change { code: 1, value: true },
        ],
    );
    let merged = combine(a, b).unwrap();
    assert_eq!(merged.signals, vec!["rst", "clk", "rst_2", "clk_2"]);
    assert_eq!(merged.signals.iter().filter(|s| *s == "clk").count(), 1);
    assert_eq!(merged.signals.iter().filter(|s| *s == "clk_2").count(), 1);
    // B's clk (local id 1) now holds merged id 3: the clk_2 slot
    let r = rows(&merged.values);
    let at7: Vec<(usize, bool)> = r.iter().find(|e| e.0 == 7).unwrap().1.clone();
    assert_eq!(at7, vec![(3, true)]);
}

// Initial frame: after a merge, timestamp 0 holds exactly one low value
// per signal of the final schema.
#[test]
fn merge_synthesizes_low_frame_at_zero() {
    let (a, b) = two_traces();
    let merged = combine(a, b).unwrap();
    let r = rows(&merged.values);
    assert_eq!(r[0].0, 0);
    let want: Vec<(usize, bool)> = (0..7).map(|i| (i, false)).collect();
    assert_eq!(r[0].1, want);
    // exactly one entry at timestamp 0
    assert_eq!(r.iter().filter(|e| e.0 == 0).count(), 1);
}

#[test]
fn missing_timescale_is_fatal() {
    let items = vec![var("rst", 1)];
    let r = VCD::new(None, &items, "rst", &vec![]);
    assert_eq!(r.unwrap_err(), LoadError::MissingTimescale);
}

#[test]
fn unresolved_reset_is_fatal() {
    let items = vec![var("clk", 1)];
    let r = VCD::new(Some((1, TimescaleUnit::NS)), &items, "rst", &vec![]);
    assert_eq!(r.unwrap_err(), LoadError::ResetNotFound);
}

#[test]
fn mismatched_timescales_refuse_to_combine() {
    let a = VCD::new(Some((1, TimescaleUnit::NS)), &vec![var("rst", 1)], "rst", &vec![]).unwrap();
    let b = VCD::new(Some((10, TimescaleUnit::NS)), &vec![var("rst", 1)], "rst", &vec![]).unwrap();
    assert_eq!(combine(a, b).unwrap_err(), CombineError::TimescaleValue);
    let a = VCD::new(Some((1, TimescaleUnit::NS)), &vec![var("rst", 1)], "rst", &vec![]).unwrap();
    let b = VCD::new(Some((1, TimescaleUnit::PS)), &vec![var("rst", 1)], "rst", &vec![]).unwrap();
    assert_eq!(combine(a, b).unwrap_err(), CombineError::TimescaleUnit);
}

// The earlier-resetting trace always absorbs into the later one, whichever
// argument order the caller picks.
#[test]
fn combine_orients_by_reset_end() {
    let (a, b) = two_traces();
    let merged = combine(b, a).unwrap();
    assert_eq!(merged.rst_end, 50);
    assert_eq!(merged.signals[0], "a.rst");
}

#[test]
fn event_map_keeps_ascending_unique_timestamps() {
    let mut m = EventMap::new();
    m.push_change(9, 0, true);
    m.push_change(3, 1, false);
    m.push_change(9, 2, true);
    m.push_change(5, 0, false);
    let got = rows(&m);
    assert_eq!(
        got,
        vec![
            (3, vec![(1, false)]),
            (5, vec![(0, false)]),
            (9, vec![(0, true), (2, true)]),
        ]
    );
}

#[test]
fn split_keeps_empty_segments() {
    assert_eq!(split_path("a..b"), vec!["a", "", "b"]);
    assert_eq!(split_path(""), vec![""]);
    assert_eq!(split_path(".x"), vec!["", "x"]);
}

#[test]
fn leaf_of_trailing_dot_is_empty() {
    assert_eq!(leaf_name("a."), "");
    assert_eq!(leaf_name("."), "");
}

// With equal reset-ends the second trace absorbs the first and nothing
// shifts.
#[test]
fn equal_reset_ends_need_no_shift() {
    let a = load(
        vec![var("rst", 1), var("p", 2)],
        "rst",
        vec![Event::Time(10), Event::Change { code: 1, value: true }],
    );
    let b = load(
        vec![var("rst", 1), var("q", 2)],
        "rst",
        vec![
            Event::Time(10),
            Event::Change { code: 1, value: true },
            Event::Time(12),
            Event::Change { code: 2, value: true },
        ],
    );
    let merged = combine(a, b).unwrap();
    // b is the receiver, a's signals follow b's and its reset collides
    assert_eq!(merged.signals, vec!["rst", "q", "rst_2", "p"]);
    let r = rows(&merged.values);
    let at10: Vec<(usize, bool)> = r.iter().find(|e| e.0 == 10).unwrap().1.clone();
    assert_eq!(at10, vec![(0, true), (2, true)]);
    let at12: Vec<(usize, bool)> = r.iter().find(|e| e.0 == 12).unwrap().1.clone();
    assert_eq!(at12, vec![(1, true)]);
}
