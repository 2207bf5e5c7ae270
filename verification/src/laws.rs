use vstd::prelude::*;
use crate::events::{at_time, has_time, insert_pos, sorted_keys, spec_push, Rows};
use crate::events::{lemma_insert_pos_bounds, lemma_key_unique};
use crate::events::Event;
use crate::schema::{flatten_entries, leaf_of, qualify, ScopeEntry};
use crate::schema::lemma_leaf_suffix;
use crate::trace::{code_index, collect_from, collect_step, has_code, ids_below, spec_collect};
use crate::trace::lemma_code_index;
use crate::trace::{donor_at, donor_has, init_frame, merge_spec, shift_changes, VCD};
use crate::trace::lemma_identifier_offset;
use vstd::seq_lib::lemma_multiset_commutative;

verus! {

/// The change commands the writer emits for one bucket, each local id
/// translated to its declared code.
pub open spec fn render_changes(c: Seq<(usize, bool)>, codes: Seq<u64>) -> Seq<Event> {
    c.map_values(|p: (usize, bool)| Event::Change { code: codes[p.0 as int], value: p.1 })
}

/// The stream the writer emits for one bucket: its time marker, then its
/// changes in recorded order.
pub open spec fn render_bucket(t: u64, c: Seq<(usize, bool)>, codes: Seq<u64>) -> Seq<Event> {
    seq![Event::Time(t)] + render_changes(c, codes)
}

/// The whole stream the writer emits for an event map: every bucket in
/// ascending time order.
pub open spec fn render_events(m: Rows, codes: Seq<u64>) -> Seq<Event>
    decreases m.len(),
{
    if m.len() == 0 {
        Seq::empty()
    } else {
        render_bucket(m[0].0, m[0].1, codes) + render_events(m.drop_first(), codes)
    }
}

/// Consuming a concatenated stream is consuming the two parts in turn.
proof fn lemma_collect_concat(
    sigs: Seq<(Seq<char>, u64)>,
    e1: Seq<Event>,
    e2: Seq<Event>,
    rst: u64,
    m: Rows,
    now: u64,
    acc: u64,
)
    ensures
        ({
            let st = collect_from(sigs, e1, rst, m, now, acc);
            collect_from(sigs, e1 + e2, rst, m, now, acc) == collect_from(
                sigs,
                e2,
                rst,
                st.0,
                st.1,
                st.2,
            )
        }),
    decreases e1.len(),
{
    if e1.len() == 0 {
        assert(e1 + e2 =~= e2);
    } else {
        assert((e1 + e2)[0] == e1[0]);
        assert((e1 + e2).drop_first() =~= e1.drop_first() + e2);
        let st0 = collect_step(sigs, m, now, acc, rst, e1[0]);
        lemma_collect_concat(sigs, e1.drop_first(), e2, rst, st0.0, st0.1, st0.2);
    }
}

/// With pairwise-distinct identifiers, an identifier resolves to its own
/// position.
proof fn lemma_code_index_inj(sigs: Seq<(Seq<char>, u64)>, id: int)
    requires
        0 <= id < sigs.len(),
        forall|i: int, j: int| 0 <= i < j < sigs.len() ==> sigs[i].1 != sigs[j].1,
    ensures
        has_code(sigs, sigs[id].1),
        code_index(sigs, sigs[id].1) == id,
{
    assert(has_code(sigs, sigs[id].1));
    lemma_code_index(sigs, sigs[id].1);
    let ci = code_index(sigs, sigs[id].1);
    if ci < id {
        assert(sigs[id].1 != sigs[id].1);
    }
    if ci > id {
        assert(sigs[id].1 != sigs[ci].1);
    }
}

/// A change at a time past every recorded timestamp opens a new last
/// bucket.
proof fn lemma_push_append_new(m: Rows, t: u64, id: usize, v: bool)
    requires
        sorted_keys(m),
        forall|i: int| 0 <= i < m.len() ==> m[i].0 < t,
    ensures
        spec_push(m, t, id, v) == m.push((t, seq![(id, v)])),
        sorted_keys(m.push((t, seq![(id, v)]))),
{
    lemma_insert_pos_bounds(m, t);
    let p = insert_pos(m, t);
    assert(p == m.len()) by {
        if p < m.len() {
            assert(m[p].0 < t);
        }
    }
    if has_time(m, t) {
        let i = crate::events::time_index(m, t);
        assert(0 <= i < m.len() && m[i].0 == t);
    }
    assert(m.insert(p, (t, seq![(id, v)])) =~= m.push((t, seq![(id, v)])));
    let r = m.push((t, seq![(id, v)]));
    assert forall|i: int, j: int| 0 <= i < j < r.len() implies r[i].0 < r[j].0 by {
        if j < m.len() {
            assert(r[i] == m[i] && r[j] == m[j]);
        } else {
            assert(r[i] == m[i] && r[j].0 == t);
        }
    }
}

/// A change at the last recorded timestamp extends the last bucket.
proof fn lemma_push_append_last(m: Rows, t: u64, id: usize, v: bool)
    requires
        sorted_keys(m),
        m.len() > 0,
        m.last().0 == t,
    ensures
        spec_push(m, t, id, v) == m.update(
            m.len() - 1,
            (t, m.last().1.push((id, v))),
        ),
        sorted_keys(spec_push(m, t, id, v)),
{
    lemma_insert_pos_bounds(m, t);
    lemma_key_unique(m, t, m.len() - 1);
    let p = insert_pos(m, t);
    assert(p == m.len() - 1) by {
        if p < m.len() - 1 {
            assert(m[p].0 == t);
            assert(m[p].0 < m[m.len() - 1].0);
        }
    }
    let r = spec_push(m, t, id, v);
    assert(r =~= m.update(m.len() - 1, (t, m.last().1.push((id, v)))));
    assert forall|i: int, j: int| 0 <= i < j < r.len() implies r[i].0 < r[j].0 by {
        assert(r[i].0 == m[i].0 && r[j].0 == m[j].0);
    }
}

/// Replaying a bucket's changes, with the current time at the last
/// recorded timestamp, extends exactly the last bucket, in order.
proof fn lemma_collect_changes(
    sigs: Seq<(Seq<char>, u64)>,
    codes: Seq<u64>,
    changes: Seq<(usize, bool)>,
    t0: u64,
    m: Rows,
    acc: u64,
    rst: u64,
)
    requires
        sorted_keys(m),
        m.len() > 0,
        m.last().0 == t0,
        codes.len() == sigs.len(),
        forall|i: int| 0 <= i < sigs.len() ==> sigs[i].1 == codes[i],
        forall|i: int, j: int| 0 <= i < j < sigs.len() ==> sigs[i].1 != sigs[j].1,
        forall|i: int| 0 <= i < changes.len() ==> changes[i].0 < sigs.len(),
    ensures
        ({
            let st = collect_from(sigs, render_changes(changes, codes), rst, m, t0, acc);
            st.0 == m.update(m.len() - 1, (t0, m.last().1 + changes)) && st.1 == t0
        }),
        sorted_keys(
            collect_from(sigs, render_changes(changes, codes), rst, m, t0, acc).0,
        ),
    decreases changes.len(),
{
    let ev = render_changes(changes, codes);
    if changes.len() == 0 {
        assert(ev =~= Seq::<Event>::empty());
        assert(m.last().1 + changes =~= m.last().1);
        assert(m.update(m.len() - 1, (t0, m.last().1)) =~= m);
    } else {
        let c0 = changes[0];
        assert(ev[0] == Event::Change { code: codes[c0.0 as int], value: c0.1 });
        lemma_code_index_inj(sigs, c0.0 as int);
        assert(sigs[c0.0 as int].1 == codes[c0.0 as int]);
        assert(has_code(sigs, codes[c0.0 as int]));
        assert(code_index(sigs, codes[c0.0 as int]) == c0.0 as int);
        lemma_push_append_last(m, t0, c0.0, c0.1);
        let m1 = m.update(m.len() - 1, (t0, m.last().1.push(c0)));
        assert(m1.last().0 == t0);
        let st0 = collect_step(sigs, m, t0, acc, rst, ev[0]);
        assert(st0.0 == m1 && st0.1 == t0);
        assert(forall|i: int|
            0 <= i < changes.drop_first().len() ==> changes.drop_first()[i] == changes[i + 1]);
        assert(ev.drop_first() =~= render_changes(changes.drop_first(), codes));
        lemma_collect_changes(sigs, codes, changes.drop_first(), t0, m1, st0.2, rst);
        let st = collect_from(sigs, ev, rst, m, t0, acc);
        assert(st == collect_from(
            sigs,
            render_changes(changes.drop_first(), codes),
            rst,
            m1,
            t0,
            st0.2,
        ));
        assert(m1.update(m1.len() - 1, (t0, m1.last().1 + changes.drop_first())) =~= m.update(
            m.len() - 1,
            (t0, m.last().1 + changes),
        )) by {
            assert(m1.last().1 + changes.drop_first() =~= m.last().1 + changes);
        }
    }
}

/// Replaying a whole rendered event map on top of a map of earlier buckets
/// rebuilds it bucket for bucket.
proof fn lemma_collect_render(
    sigs: Seq<(Seq<char>, u64)>,
    codes: Seq<u64>,
    m: Rows,
    base: Rows,
    now: u64,
    acc: u64,
    rst: u64,
)
    requires
        sorted_keys(m),
        sorted_keys(base),
        forall|i: int, j: int|
            0 <= i < base.len() && 0 <= j < m.len() ==> base[i].0 < m[j].0,
        forall|i: int| 0 <= i < m.len() ==> m[i].1.len() > 0,
        ids_below(m, sigs.len() as int),
        codes.len() == sigs.len(),
        forall|i: int| 0 <= i < sigs.len() ==> sigs[i].1 == codes[i],
        forall|i: int, j: int| 0 <= i < j < sigs.len() ==> sigs[i].1 != sigs[j].1,
    ensures
        collect_from(sigs, render_events(m, codes), rst, base, now, acc).0 == base + m,
    decreases m.len(),
{
    if m.len() == 0 {
        assert(base + m =~= base);
    } else {
        let t0 = m[0].0;
        let c = m[0].1;
        let rest = m.drop_first();
        let evb = render_bucket(t0, c, codes);
        let evr = render_events(rest, codes);
        assert(render_events(m, codes) == evb + evr);
        // the bucket's own stream: its time marker, then its changes
        let tmark = seq![Event::Time(t0)];
        assert(evb == tmark + render_changes(c, codes));
        lemma_collect_concat(sigs, tmark, render_changes(c, codes), rst, base, now, acc);
        assert(tmark.drop_first() =~= Seq::<Event>::empty());
        let st_t = collect_from(sigs, tmark, rst, base, now, acc);
        assert(tmark[0] == Event::Time(t0));
        assert(collect_step(sigs, base, now, acc, rst, tmark[0]) == (base, t0, acc));
        assert(collect_from(sigs, Seq::<Event>::empty(), rst, base, t0, acc) == (base, t0, acc));
        assert(st_t == (base, t0, acc));
        // the first change opens the bucket, the rest extend it
        let c0 = c[0];
        assert(c0.0 < sigs.len());
        let ev_c = render_changes(c, codes);
        assert(ev_c[0] == Event::Change { code: codes[c0.0 as int], value: c0.1 });
        lemma_code_index_inj(sigs, c0.0 as int);
        lemma_push_append_new(base, t0, c0.0, c0.1);
        let base1 = base.push((t0, seq![c0]));
        assert(collect_step(sigs, base, t0, acc, rst, ev_c[0]).0 == base1);
        let acc1 = collect_step(sigs, base, t0, acc, rst, ev_c[0]).2;
        assert(ev_c.drop_first() =~= render_changes(c.drop_first(), codes));
        assert(forall|i: int|
            0 <= i < c.drop_first().len() ==> c.drop_first()[i] == c[i + 1]);
        lemma_collect_changes(sigs, codes, c.drop_first(), t0, base1, acc1, rst);
        let st_c = collect_from(sigs, ev_c, rst, base, t0, acc);
        assert(st_c.0 == base1.update(base1.len() - 1, (t0, seq![c0] + c.drop_first())));
        assert(st_c.0 =~= base.push(m[0])) by {
            assert(seq![c0] + c.drop_first() =~= c);
        }
        assert(st_c.1 == t0);
        lemma_collect_concat(sigs, evb, evr, rst, base, now, acc);
        lemma_collect_concat(sigs, tmark, render_changes(c, codes), rst, base, now, acc);
        let st_b = collect_from(sigs, evb, rst, base, now, acc);
        assert(st_b.0 == base.push(m[0]) && st_b.1 == t0);
        // the remaining buckets replay on top of the grown base
        let base2 = base.push(m[0]);
        assert(sorted_keys(base2)) by {
            assert(forall|i: int| 0 <= i < base.len() ==> base2[i] == base[i] && base[i].0 < t0);
        }
        assert forall|i: int, j: int|
            0 <= i < base2.len() && 0 <= j < rest.len() implies base2[i].0 < rest[j].0 by {
            assert(rest[j] == m[j + 1]);
            if i < base.len() {
                assert(base2[i] == base[i]);
            } else {
                assert(base2[i].0 == t0);
                assert(m[0].0 < m[j + 1].0);
            }
        }
        assert(forall|i: int| 0 <= i < rest.len() ==> rest[i] == m[i + 1]);
        assert(sorted_keys(rest));
        assert(ids_below(rest, sigs.len() as int)) by {
            assert(forall|i: int, j: int|
                0 <= i < rest.len() && 0 <= j < rest[i].1.len() ==> rest[i].1[j]
                    == m[i + 1].1[j]);
        }
        lemma_collect_render(sigs, codes, rest, base2, st_b.1, st_b.2, rst);
        assert(collect_from(sigs, render_events(m, codes), rst, base, now, acc).0 == base2
            + rest);
        assert(base2 + rest =~= base + m);
    }
}

/// The leaf of a name never holds a dot.
proof fn lemma_leaf_no_dots(s: Seq<char>)
    ensures
        forall|k: int| 0 <= k < leaf_of(s).len() ==> leaf_of(s)[k] != '.',
    decreases s.len(),
{
    if s.len() > 0 && s.last() != '.' {
        lemma_leaf_no_dots(s.drop_last());
        let l = leaf_of(s);
        assert(l == leaf_of(s.drop_last()).push(s.last()));
        assert forall|k: int| 0 <= k < l.len() implies l[k] != '.' by {
            if k < l.len() - 1 {
                assert(l[k] == leaf_of(s.drop_last())[k]);
            } else {
                assert(l[k] == s.last());
            }
        }
    }
}

/// Flattening a list of plain variables pairs each qualified name with its
/// identifier, in declaration order.
proof fn lemma_flatten_vars(cs: Seq<ScopeEntry>, prefix: Seq<char>)
    requires
        forall|i: int| 0 <= i < cs.len() ==> cs[i] is Var,
    ensures
        flatten_entries(cs, prefix).len() == cs.len(),
        forall|i: int|
            0 <= i < cs.len() ==> flatten_entries(cs, prefix)[i] == (
                qualify(prefix, cs[i]->Var_name@),
                cs[i]->Var_code,
            ),
    decreases cs.len(),
{
    if cs.len() > 0 {
        assert(forall|i: int|
            0 <= i < cs.drop_first().len() ==> cs.drop_first()[i] == cs[i + 1]);
        lemma_flatten_vars(cs.drop_first(), prefix);
        assert(flatten_entries(cs, prefix) == seq![
            (qualify(prefix, cs[0]->Var_name@), cs[0]->Var_code),
        ] + flatten_entries(cs.drop_first(), prefix));
    }
}

/// Round trip: writing a trace out and parsing the written form back
/// through the same header and stream contracts rebuilds the same data.
/// `items` is the header the written file parses to: one module scope
/// holding one variable per signal, named by the signal's leaf name and
/// carrying the code the writer assigned (`codes`, pairwise distinct, in
/// declaration order). Re-collecting the rendered stream against that
/// header yields the identical event map, and the collected names equal
/// the trace's names flattened to their leaf segments. A trace with an
/// empty bucket is excluded: the format keeps no record of a timestamp
/// without changes.
pub proof fn lemma_round_trip(
    t: crate::trace::VCD,
    items: Seq<ScopeEntry>,
    cs: Seq<ScopeEntry>,
    codes: Seq<u64>,
    rst: u64,
)
    requires
        t.wf(),
        forall|i: int| 0 <= i < t.values@.len() ==> t.values@[i].1.len() > 0,
        codes.len() == t.signals@.len(),
        forall|i: int, j: int| 0 <= i < j < codes.len() ==> codes[i] != codes[j],
        items.len() == 1,
        items[0] is Scope,
        items[0]->Scope_children@ == cs,
        cs.len() == codes.len(),
        forall|i: int| 0 <= i < cs.len() ==> (#[trigger] cs[i]) is Var,
        forall|i: int| 0 <= i < cs.len() ==> (#[trigger] cs[i])->Var_name@ == leaf_of(
            t.names()[i],
        ),
        forall|i: int| 0 <= i < cs.len() ==> (#[trigger] cs[i])->Var_code == codes[i],
    ensures
        ({
            let sigs = flatten_entries(items, Seq::<char>::empty());
            &&& sigs.len() == t.signals@.len()
            &&& forall|i: int| 0 <= i < sigs.len() ==> sigs[i].1 == codes[i]
            &&& forall|i: int|
                0 <= i < sigs.len() ==> leaf_of(sigs[i].0) == leaf_of(t.names()[i])
            &&& spec_collect(sigs, render_events(t.values@, codes), rst).0 == t.values@
        }),
{
    let top = items[0]->Scope_name@;
    let sigs = flatten_entries(items, Seq::<char>::empty());

    assert(items.drop_first() =~= Seq::<ScopeEntry>::empty());
    assert(flatten_entries(items.drop_first(), Seq::<char>::empty()) == Seq::<(
        Seq<char>,
        u64,
    )>::empty());
    assert(qualify(Seq::<char>::empty(), top) == top);
    lemma_flatten_vars(cs, top);
    assert(sigs =~= flatten_entries(cs, top)) by {
        assert(sigs == flatten_entries(cs, top) + Seq::<(Seq<char>, u64)>::empty());
        assert(flatten_entries(cs, top) + Seq::<(Seq<char>, u64)>::empty() =~= flatten_entries(
            cs,
            top,
        ));
    }
    assert(sigs.len() == cs.len());
    assert forall|i: int| 0 <= i < sigs.len() implies sigs[i].1 == codes[i] by {
        assert(sigs[i] == (qualify(top, cs[i]->Var_name@), cs[i]->Var_code));
    }
    assert forall|i: int|
        0 <= i < sigs.len() implies leaf_of(sigs[i].0) == leaf_of(t.names()[i]) by {
        let leaf = cs[i]->Var_name@;
        assert(leaf == leaf_of(t.names()[i]));
        lemma_leaf_no_dots(t.names()[i]);
        assert(sigs[i].0 == qualify(top, leaf));
        if top.len() == 0 {
            assert(qualify(top, leaf) == leaf);
            lemma_leaf_suffix(leaf, 0);
            assert(leaf.subrange(0, leaf.len() as int) =~= leaf);
        } else {
            let q = qualify(top, leaf);
            assert(q == top + seq!['.'] + leaf);
            let cut = top.len() as int + 1;
            assert(q[cut - 1] == '.');
            assert forall|k: int| cut <= k < q.len() implies q[k] != '.' by {
                assert(q[k] == leaf[k - cut]);
            }
            lemma_leaf_suffix(q, cut);
            assert(q.subrange(cut, q.len() as int) =~= leaf);
        }
    }
    assert forall|i: int, j: int| 0 <= i < j < sigs.len() implies sigs[i].1 != sigs[j].1 by {
        assert(sigs[i].1 == codes[i] && sigs[j].1 == codes[j]);
    }
    lemma_collect_render(
        sigs,
        codes,
        t.values@,
        Seq::<(u64, Seq<(usize, bool)>)>::empty(),
        0,
        0,
        rst,
    );
    assert(Seq::<(u64, Seq<(usize, bool)>)>::empty() + t.values@ =~= t.values@);
}

/// Every name in the list occurs once.
pub open spec fn distinct_names(s: Seq<Seq<char>>) -> bool {
    forall|i: int, j: int| 0 <= i < j < s.len() ==> s[i] != s[j]
}

/// Each change tagged with the name of the signal it touches, in place of
/// its local id.
pub open spec fn labeled(changes: Seq<(usize, bool)>, names: Seq<Seq<char>>) -> Seq<
    (Seq<char>, bool),
> {
    changes.map_values(|p: (usize, bool)| (names[p.0 as int], p.1))
}

/// Labeling distributes over concatenation.
proof fn lemma_labeled_concat(x: Seq<(usize, bool)>, y: Seq<(usize, bool)>, names: Seq<Seq<char>>)
    ensures
        labeled(x + y, names) == labeled(x, names) + labeled(y, names),
{
    assert(labeled(x + y, names) =~= labeled(x, names) + labeled(y, names)) by {
        assert(forall|k: int| 0 <= k < x.len() ==> (x + y)[k] == x[k]);
        assert(forall|k: int| x.len() <= k < x.len() + y.len() ==> (x + y)[k] == y[k - x.len()]);
    }
}

/// Offsetting ids into a combined name list and labeling there is labeling
/// against the donor's own names.
proof fn lemma_labeled_shift(
    ch: Seq<(usize, bool)>,
    off: int,
    base: Seq<Seq<char>>,
    sub: Seq<Seq<char>>,
)
    requires
        0 <= off,
        off + sub.len() <= usize::MAX,
        forall|k: int| 0 <= k < ch.len() ==> (#[trigger] ch[k]).0 < sub.len(),
        forall|id: int| 0 <= id < sub.len() ==> base[off + id] == sub[id],
    ensures
        labeled(shift_changes(ch, off), base) == labeled(ch, sub),
{
    assert(labeled(shift_changes(ch, off), base) =~= labeled(ch, sub)) by {
        assert forall|k: int|
            0 <= k < ch.len() implies labeled(shift_changes(ch, off), base)[k] == labeled(
            ch,
            sub,
        )[k] by {
            assert(ch[k].0 + off <= usize::MAX);
            assert((ch[k].0 + off) as usize == ch[k].0 + off);
            assert(shift_changes(ch, off)[k] == (((ch[k].0 + off) as usize), ch[k].1));
            assert(base[off + ch[k].0] == sub[ch[k].0 as int]);
        }
    }
}

/// Every id in a bucket of a bounded map is bounded.
proof fn lemma_at_time_ids(m: Rows, n: int, u: u64)
    requires
        ids_below(m, n),
    ensures
        forall|k: int| 0 <= k < at_time(m, u).len() ==> (#[trigger] at_time(m, u)[k]).0 < n,
{
    if has_time(m, u) {
        let i = crate::events::time_index(m, u);
        assert(0 <= i < m.len() && m[i].0 == u);
        assert(forall|k: int| 0 <= k < m[i].1.len() ==> m[i].1[k].0 < n);
    }
}

/// What the labeled time-zero frame counts: each name once, low.
proof fn lemma_frame_count(names: Seq<Seq<char>>, p: (Seq<char>, bool))
    requires
        names.len() <= usize::MAX,
    ensures
        labeled(init_frame(names.len() as int), names).to_multiset().count(p) == if p.1 == false {
            names.to_multiset().count(p.0)
        } else {
            0
        },
    decreases names.len(),
{
    broadcast use vstd::multiset::group_multiset_axioms;

    let lf = labeled(init_frame(names.len() as int), names);
    if names.len() == 0 {
        assert(lf =~= Seq::<(Seq<char>, bool)>::empty());
        assert(names =~= Seq::<Seq<char>>::empty());
        lf.to_multiset_ensures();
        names.to_multiset_ensures();
        assert(lf.to_multiset().len() == 0);
        assert(names.to_multiset().len() == 0);
        assert(lf.to_multiset().count(p) == 0);
        assert(names.to_multiset().count(p.0) == 0);
    } else {
        let dl = names.drop_last();
        let last = names.last();
        lemma_frame_count(dl, p);
        let lfd = labeled(init_frame(dl.len() as int), dl);
        assert(lf =~= lfd.push((last, false))) by {
            assert forall|k: int| 0 <= k < lf.len() implies lf[k] == lfd.push((last, false))[k] by {
                assert(init_frame(names.len() as int)[k] == (k as usize, false));
                if k < names.len() - 1 {
                    assert(init_frame(dl.len() as int)[k] == (k as usize, false));
                    assert(names[k] == dl[k]);
                }
            }
        }
        lfd.to_multiset_ensures();
        assert(lfd.push((last, false)).to_multiset() =~= lfd.to_multiset().insert((last, false)));
        assert(names =~= dl.push(last));
        dl.to_multiset_ensures();
        assert(dl.push(last).to_multiset() =~= dl.to_multiset().insert(last));
        if p.1 == false {
            if p == (last, false) {
                vstd::multiset::lemma_insert_increases_count_by_1(lfd.to_multiset(), (last, false));
                assert(p.0 == last);
                vstd::multiset::lemma_insert_increases_count_by_1(dl.to_multiset(), last);
            } else {
                vstd::multiset::lemma_insert_other_elements_unchanged(
                    lfd.to_multiset(),
                    (last, false),
                    p,
                );
                if p.0 == last {
                    assert(p == (last, false));
                }
                vstd::multiset::lemma_insert_other_elements_unchanged(dl.to_multiset(), last, p.0);
            }
        } else {
            assert(p != (last, false));
            vstd::multiset::lemma_insert_other_elements_unchanged(
                lfd.to_multiset(),
                (last, false),
                p,
            );
        }
    }
}

/// Folding three traces in either receiver-first order yields the same
/// merged data: the same timescale and reset-end, the same names as a
/// multiset, buckets at the same timestamps, and at every timestamp the
/// same multiset of (signal name, value) changes. Stated for traces whose
/// signal names are all distinct, so that no collision renaming applies;
/// the trace with the greatest reset-end is the receiver of both steps, as
/// the fold's orientation rule demands.
pub proof fn lemma_fold_order(a: VCD, b: VCD, c: VCD, ab: VCD, r1: VCD, ac: VCD, r2: VCD)
    requires
        a.wf(),
        b.wf(),
        c.wf(),
        a.rst_end >= b.rst_end,
        a.rst_end >= c.rst_end,
        merge_spec(a, b, ab),
        merge_spec(ab, c, r1),
        merge_spec(a, c, ac),
        merge_spec(ac, b, r2),
        a.signals@.len() + b.signals@.len() + c.signals@.len() <= usize::MAX,
        distinct_names(a.names() + b.names() + c.names()),
    ensures
        r1.timescale_value == r2.timescale_value,
        r1.timescale_unit == r2.timescale_unit,
        r1.rst_end == r2.rst_end,
        r1.signals@.len() == r2.signals@.len(),
        r1.names().to_multiset() == r2.names().to_multiset(),
        forall|t: u64| has_time(r1.values@, t) <==> has_time(r2.values@, t),
        forall|t: u64|
            labeled(at_time(r1.values@, t), r1.names()).to_multiset() == labeled(
                at_time(r2.values@, t),
                r2.names(),
            ).to_multiset(),
{
    broadcast use vstd::multiset::group_multiset_axioms;

    let an = a.names();
    let bn = b.names();
    let cn = c.names();
    let all = an + bn + cn;
    let la = an.len() as int;
    let lb = bn.len() as int;
    let lc = cn.len() as int;
    // with every name distinct, no renaming happens in any step
    assert forall|i: int| 0 <= i < lb implies !an.contains(bn[i]) by {
        if an.contains(bn[i]) {
            let k = choose|k: int| 0 <= k < an.len() && an[k] == bn[i];
            assert(all[k] == an[k]);
            assert(all[la + i] == bn[i]);
            assert(all[k] != all[la + i]);
        }
    }
    assert forall|i: int, j: int| 0 <= i < j < lb implies bn[i] != bn[j] by {
        assert(all[la + i] == bn[i]);
        assert(all[la + j] == bn[j]);
    }
    assert forall|i: int| 0 <= i < lc implies !an.contains(cn[i]) by {
        if an.contains(cn[i]) {
            let k = choose|k: int| 0 <= k < an.len() && an[k] == cn[i];
            assert(all[k] == an[k]);
            assert(all[la + lb + i] == cn[i]);
            assert(all[k] != all[la + lb + i]);
        }
    }
    assert forall|i: int, j: int| 0 <= i < j < lc implies cn[i] != cn[j] by {
        assert(all[la + lb + i] == cn[i]);
        assert(all[la + lb + j] == cn[j]);
    }
    lemma_identifier_offset(an, bn);
    assert(ab.names() == an + bn);
    assert forall|i: int| 0 <= i < lc implies !(an + bn).contains(cn[i]) by {
        if (an + bn).contains(cn[i]) {
            let k = choose|k: int| 0 <= k < (an + bn).len() && (an + bn)[k] == cn[i];
            assert(all[k] == (an + bn)[k]);
            assert(all[la + lb + i] == cn[i]);
            assert(all[k] != all[la + lb + i]);
        }
    }
    lemma_identifier_offset(an + bn, cn);
    assert(r1.names() == (an + bn) + cn);
    lemma_identifier_offset(an, cn);
    assert(ac.names() == an + cn);
    assert forall|i: int| 0 <= i < lb implies !(an + cn).contains(bn[i]) by {
        if (an + cn).contains(bn[i]) {
            let k = choose|k: int| 0 <= k < (an + cn).len() && (an + cn)[k] == bn[i];
            if k < la {
                assert(all[k] == an[k]);
            } else {
                assert(all[la + lb + (k - la)] == cn[k - la]);
                assert(all[la + i] == bn[i]);
                assert(all[la + lb + (k - la)] != all[la + i]);
            }
            assert(all[la + i] == bn[i]);
            if k < la {
                assert(all[k] != all[la + i]);
            }
        }
    }
    lemma_identifier_offset(an + cn, bn);
    assert(r2.names() == (an + cn) + bn);
    // the two name lists are the same multiset
    lemma_multiset_commutative(an + bn, cn);
    lemma_multiset_commutative(an, bn);
    lemma_multiset_commutative(an + cn, bn);
    lemma_multiset_commutative(an, cn);
    assert(r1.names().to_multiset() =~= r2.names().to_multiset());
    // both steps use the skews derived from the first receiver's reset-end
    let sb = (a.rst_end - b.rst_end) as u64;
    let sc = (a.rst_end - c.rst_end) as u64;
    assert(ab.rst_end == a.rst_end);
    assert(ac.rst_end == a.rst_end);
    // the same timestamps are occupied
    assert forall|t: u64| has_time(r1.values@, t) <==> has_time(r2.values@, t) by {
        if t > 0 {
            assert(has_time(r1.values@, t) <==> (has_time(ab.values@, t) || donor_has(
                c.values@,
                sc,
                t,
            )));
            assert(has_time(ab.values@, t) <==> (has_time(a.values@, t) || donor_has(
                b.values@,
                sb,
                t,
            )));
            assert(has_time(r2.values@, t) <==> (has_time(ac.values@, t) || donor_has(
                b.values@,
                sb,
                t,
            )));
            assert(has_time(ac.values@, t) <==> (has_time(a.values@, t) || donor_has(
                c.values@,
                sc,
                t,
            )));
        } else {
            assert(has_time(r1.values@, 0) && has_time(r2.values@, 0));
        }
    }
    // every bucket holds the same labeled changes
    assert forall|t: u64|
        labeled(at_time(r1.values@, t), r1.names()).to_multiset() == labeled(
            at_time(r2.values@, t),
            r2.names(),
        ).to_multiset() by {
        if t == 0 {
            assert(at_time(r1.values@, 0) == init_frame(r1.signals@.len() as int));
            assert(at_time(r2.values@, 0) == init_frame(r2.signals@.len() as int));
            assert(r1.signals@.len() == r1.names().len());
            assert(r2.signals@.len() == r2.names().len());
            assert(labeled(at_time(r1.values@, 0), r1.names()).to_multiset() =~= labeled(
                at_time(r2.values@, 0),
                r2.names(),
            ).to_multiset()) by {
                assert forall|p: (Seq<char>, bool)|
                    labeled(at_time(r1.values@, 0), r1.names()).to_multiset().count(p) == labeled(
                        at_time(r2.values@, 0),
                        r2.names(),
                    ).to_multiset().count(p) by {
                    lemma_frame_count(r1.names(), p);
                    lemma_frame_count(r2.names(), p);
                }
            }
        } else {
            let ca = at_time(a.values@, t);
            let cb = donor_at(b.values@, sb, t);
            let cc = donor_at(c.values@, sc, t);
            lemma_at_time_ids(a.values@, la, t);
            assert forall|k: int| 0 <= k < cb.len() implies (#[trigger] cb[k]).0 < lb by {
                lemma_at_time_ids(b.values@, lb, (t - sb) as u64);
            }
            assert forall|k: int| 0 <= k < cc.len() implies (#[trigger] cc[k]).0 < lc by {
                lemma_at_time_ids(c.values@, lc, (t - sc) as u64);
            }
            // the first order's bucket: the receiver's changes, then the
            // second and third trace's, shifted and offset
            assert(at_time(r1.values@, t) == at_time(ab.values@, t) + shift_changes(
                cc,
                la + lb,
            ));
            assert(at_time(ab.values@, t) == ca + shift_changes(cb, la));
            assert(at_time(r2.values@, t) == at_time(ac.values@, t) + shift_changes(
                cb,
                la + lc,
            ));
            assert(at_time(ac.values@, t) == ca + shift_changes(cc, la));
            let n1 = r1.names();
            let n2 = r2.names();
            let laba = labeled(ca, an);
            let labb = labeled(cb, bn);
            let labc = labeled(cc, cn);
            lemma_labeled_concat(ca + shift_changes(cb, la), shift_changes(cc, la + lb), n1);
            lemma_labeled_concat(ca, shift_changes(cb, la), n1);
            lemma_labeled_concat(ca + shift_changes(cc, la), shift_changes(cb, la + lc), n2);
            lemma_labeled_concat(ca, shift_changes(cc, la), n2);
            assert(labeled(ca, n1) == laba) by {
                assert(labeled(ca, n1) =~= laba) by {
                    assert forall|k: int|
                        0 <= k < ca.len() implies labeled(ca, n1)[k] == laba[k] by {
                        assert(ca[k].0 < la);
                        assert(n1[ca[k].0 as int] == an[ca[k].0 as int]);
                    }
                }
            }
            assert(labeled(ca, n2) == laba) by {
                assert(labeled(ca, n2) =~= laba) by {
                    assert forall|k: int|
                        0 <= k < ca.len() implies labeled(ca, n2)[k] == laba[k] by {
                        assert(ca[k].0 < la);
                        assert(n2[ca[k].0 as int] == an[ca[k].0 as int]);
                    }
                }
            }
            lemma_labeled_shift(cb, la, n1, bn);
            lemma_labeled_shift(cc, la + lb, n1, cn);
            lemma_labeled_shift(cc, la, n2, cn);
            lemma_labeled_shift(cb, la + lc, n2, bn);
            assert(labeled(at_time(r1.values@, t), n1) == (laba + labb) + labc);
            assert(labeled(at_time(r2.values@, t), n2) == (laba + labc) + labb);
            lemma_multiset_commutative(laba + labb, labc);
            lemma_multiset_commutative(laba, labb);
            lemma_multiset_commutative(laba + labc, labb);
            lemma_multiset_commutative(laba, labc);
            assert(labeled(at_time(r1.values@, t), n1).to_multiset() =~= labeled(
                at_time(r2.values@, t),
                n2,
            ).to_multiset());
        }
    }
}

} // verus!
