use std::collections::HashMap;

use vcd_merge::events::{Event, EventMap};
use vcd_merge::schema::ScopeEntry;
use vcd_merge::trace::{combine, TimescaleUnit, VCD};

fn var(name: &str, code: u64) -> ScopeEntry {
    ScopeEntry::Var { name: name.to_string(), code }
}

fn scope(name: &str, children: Vec<ScopeEntry>) -> ScopeEntry {
    ScopeEntry::Scope { name: name.to_string(), children }
}

fn rows(values: &EventMap) -> Vec<(u64, Vec<(usize, bool)>)> {
    let mut out = Vec::new();
    for i in 0..values.num_times() {
        out.push((values.time_at(i), values.changes_at(i).clone()));
    }
    out
}

fn to_unit(u: TimescaleUnit) -> vcd::TimescaleUnit {
    match u {
        TimescaleUnit::S => vcd::TimescaleUnit::S,
        TimescaleUnit::MS => vcd::TimescaleUnit::MS,
        TimescaleUnit::US => vcd::TimescaleUnit::US,
        TimescaleUnit::NS => vcd::TimescaleUnit::NS,
        TimescaleUnit::PS => vcd::TimescaleUnit::PS,
        TimescaleUnit::FS => vcd::TimescaleUnit::FS,
    }
}

fn from_unit(u: vcd::TimescaleUnit) -> TimescaleUnit {
    match u {
        vcd::TimescaleUnit::S => TimescaleUnit::S,
        vcd::TimescaleUnit::MS => TimescaleUnit::MS,
        vcd::TimescaleUnit::US => TimescaleUnit::US,
        vcd::TimescaleUnit::NS => TimescaleUnit::NS,
        vcd::TimescaleUnit::PS => TimescaleUnit::PS,
        vcd::TimescaleUnit::FS => TimescaleUnit::FS,
    }
}

/// Emit a trace through the external serializer, byte for byte as the
/// writer adapter does.
fn write_out(t: &VCD) -> Vec<u8> {
    let mut buf: Vec<u8> = Vec::new();
    {
        let mut w = vcd::Writer::new(&mut buf);
        w.timescale(t.timescale_value, to_unit(t.timescale_unit)).unwrap();
        w.add_module("top").unwrap();
        let mut ids: HashMap<usize, vcd::IdCode> = HashMap::new();
        for (i, leaf) in t.leaf_names().into_iter().enumerate() {
            let code = w.add_wire(1, &leaf).unwrap();
            ids.insert(i, code);
        }
        w.upscope().unwrap();
        w.enddefinitions().unwrap();
        for (ts, changes) in rows(&t.values) {
            w.timestamp(ts).unwrap();
            for (id, value) in changes {
                w.change_scalar(ids[&id], value).unwrap();
            }
        }
    }
    buf
}

fn convert_items(items: &[vcd::ScopeItem], codes: &mut HashMap<vcd::IdCode, u64>) -> Vec<ScopeEntry> {
    let mut out = Vec::new();
    for item in items {
        match item {
            vcd::ScopeItem::Var(v) => {
                let next = codes.len() as u64;
                let code = *codes.entry(v.code).or_insert(next);
                out.push(var(&v.reference, code));
            }
            vcd::ScopeItem::Scope(s) => {
                let children = convert_items(&s.items, codes);
                out.push(scope(&s.identifier, children));
            }
            _ => {}
        }
    }
    out
}

/// Parse bytes through the external parser into the plain header and
/// stream the loader takes.
fn parse_back(bytes: &[u8], reset: &str) -> VCD {
    let mut parser = vcd::Parser::new(&bytes[..]);
    let header = parser.parse_header().unwrap();
    let (tv, tu) = header.timescale.unwrap();
    let mut codes: HashMap<vcd::IdCode, u64> = HashMap::new();
    let items = convert_items(&header.items, &mut codes);
    let mut events = Vec::new();
    for cmd in (&mut parser).flatten() {
        match cmd {
            vcd::Command::Timestamp(ts) => events.push(Event::Time(ts)),
            vcd::Command::ChangeScalar(id, value) => {
                if let Some(code) = codes.get(&id) {
                    events.push(Event::Change { code: *code, value: value == vcd::Value::V1 });
                }
            }
            _ => {}
        }
    }
    VCD::new(Some((tv, from_unit(tu))), &items, reset, &events).unwrap()
}

fn leaf(name: &str) -> String {
    name.rsplit('.').next().unwrap().to_string()
}

// Writing a merged trace and re-parsing it through the same external
// parser and serializer yields the same timescale, the same signal names
// modulo flattening to leaf segments, and the same ordered events.
#[test]
fn written_trace_reparses_identically() {
    let a = VCD::new(
        Some((10, TimescaleUnit::PS)),
        &vec![scope("a", vec![var("rst", 1), var("w", 2)])],
        "a.rst",
        &vec![
            Event::Time(8),
            Event::Change { code: 2, value: true },
            Event::Time(40),
            Event::Change { code: 1, value: true },
        ],
    )
    .unwrap();
    let b = VCD::new(
        Some((10, TimescaleUnit::PS)),
        &vec![scope("b", vec![var("rst", 1), var("m", 2)])],
        "b.rst",
        &vec![
            Event::Time(3),
            Event::Change { code: 2, value: false },
            Event::Time(10),
            Event::Change { code: 1, value: true },
        ],
    )
    .unwrap();
    let merged = combine(a, b).unwrap();
    let bytes = write_out(&merged);
    // the merged trace's own reset signal keeps its leaf name
    let again = parse_back(&bytes, "top.rst");
    assert_eq!(again.timescale_value, merged.timescale_value);
    assert_eq!(again.timescale_unit, merged.timescale_unit);
    let merged_leaves: Vec<String> = merged.signals.iter().map(|s| leaf(s)).collect();
    let again_leaves: Vec<String> = again.signals.iter().map(|s| leaf(s)).collect();
    assert_eq!(again_leaves, merged_leaves);
    assert_eq!(rows(&again.values), rows(&merged.values));
}

// Folding three traces in either valid order gives the same per-timestamp
// set of (signal name, value) changes.
#[test]
fn fold_orders_agree() {
    let make = |prefix: &str, reset_at: u64, tick: u64, code2_at: u64| {
        VCD::new(
            Some((1, TimescaleUnit::NS)),
            &vec![scope(prefix, vec![var("rst", 1), var("d", 2)])],
            &format!("{}.rst", prefix),
            &vec![
                Event::Time(code2_at),
                Event::Change { code: 2, value: true },
                Event::Time(reset_at),
                Event::Change { code: 1, value: true },
                Event::Time(tick),
                Event::Change { code: 2, value: false },
            ],
        )
        .unwrap()
    };
    let named = |t: &VCD| -> Vec<(u64, Vec<(String, bool)>)> {
        let mut out = Vec::new();
        for (ts, changes) in rows(&t.values) {
            let mut bucket: Vec<(String, bool)> = changes
                .into_iter()
                .map(|(id, v)| (t.signals[id].clone(), v))
                .collect();
            bucket.sort();
            out.push((ts, bucket));
        }
        out
    };
    let r1 = {
        let (a, b, c) = (make("a", 90, 100, 4), make("b", 50, 70, 2), make("c", 20, 95, 1));
        combine(combine(a, b).unwrap(), c).unwrap()
    };
    let r2 = {
        let (a, b, c) = (make("a", 90, 100, 4), make("b", 50, 70, 2), make("c", 20, 95, 1));
        combine(combine(a, c).unwrap(), b).unwrap()
    };
    assert_eq!(r1.rst_end, r2.rst_end);
    let mut n1 = r1.signals.clone();
    let mut n2 = r2.signals.clone();
    n1.sort();
    n2.sort();
    assert_eq!(n1, n2);
    assert_eq!(named(&r1), named(&r2));
}
