use vstd::prelude::*;

verus! {

/// One command of a trace's event stream, as the loader consumes it:
/// either "advance current time to T" or "the signal with source
/// identifier `code` changed to `value`".
#[derive(Clone, Copy, PartialEq, Eq, Structural, Debug)]
pub enum Event {
    Time(u64),
    Change { code: u64, value: bool },
}

/// An event map as specifications see it: buckets of
/// (local-signal-id, value) changes, keyed by timestamp.
pub type Rows = Seq<(u64, Seq<(usize, bool)>)>;

/// Timestamps strictly increase along the entry list, so keys are unique
/// and a walk of the entries visits timestamps in ascending order.
pub open spec fn sorted_keys(m: Rows) -> bool {
    forall|i: int, j: int| 0 <= i < j < m.len() ==> m[i].0 < m[j].0
}

/// Whether some bucket carries timestamp `t`.
pub open spec fn has_time(m: Rows, t: u64) -> bool {
    exists|i: int| 0 <= i < m.len() && m[i].0 == t
}

/// Index of the bucket with timestamp `t` (meaningful when `has_time` holds
/// and the keys are unique).
pub open spec fn time_index(m: Rows, t: u64) -> int {
    choose|i: int| 0 <= i < m.len() && m[i].0 == t
}

/// The changes recorded at timestamp `t`: the bucket's contents, or empty
/// when no bucket carries `t`.
pub open spec fn at_time(m: Rows, t: u64) -> Seq<(usize, bool)> {
    if has_time(m, t) {
        m[time_index(m, t)].1
    } else {
        Seq::empty()
    }
}

/// Number of leading entries whose timestamp is strictly below `t`; in a
/// sorted map this is where a bucket for `t` stands or would be inserted.
pub open spec fn insert_pos(m: Rows, t: u64) -> int
    decreases m.len(),
{
    if m.len() == 0 {
        0
    } else if m[0].0 < t {
        1 + insert_pos(m.drop_first(), t)
    } else {
        0
    }
}

/// The event map after recording one (id, value) change at time `t`:
/// appended to the bucket at `t` if one exists, else a fresh bucket placed
/// in key order.
pub open spec fn spec_push(m: Rows, t: u64, id: usize, v: bool) -> Rows {
    let p = insert_pos(m, t);
    if has_time(m, t) {
        m.update(p, (t, m[p].1.push((id, v))))
    } else {
        m.insert(p, (t, seq![(id, v)]))
    }
}

/// In a sorted map the bucket index for a present key is unique, so the
/// entry found at any index with key `t` is the bucket `at_time` speaks of.
pub proof fn lemma_key_unique(m: Rows, t: u64, k: int)
    requires
        sorted_keys(m),
        0 <= k < m.len(),
        m[k].0 == t,
    ensures
        has_time(m, t),
        time_index(m, t) == k,
        at_time(m, t) == m[k].1,
{
    assert(has_time(m, t));
    let i = time_index(m, t);
    assert(0 <= i < m.len() && m[i].0 == t);
    if i < k {
        assert(m[i].0 < m[k].0);
    }
    if k < i {
        assert(m[k].0 < m[i].0);
    }
}

/// Position and boundary facts about `insert_pos` in a sorted map.
pub proof fn lemma_insert_pos_bounds(m: Rows, t: u64)
    requires
        sorted_keys(m),
    ensures
        0 <= insert_pos(m, t) <= m.len(),
        forall|i: int| 0 <= i < insert_pos(m, t) ==> m[i].0 < t,
        insert_pos(m, t) < m.len() ==> m[insert_pos(m, t)].0 >= t,
        has_time(m, t) ==> insert_pos(m, t) < m.len() && m[insert_pos(m, t)].0 == t,
    decreases m.len(),
{
    if m.len() == 0 {
    } else if m[0].0 < t {
        let rest = m.drop_first();
        assert(sorted_keys(rest)) by {
            assert(forall|i: int, j: int|
                0 <= i < j < rest.len() ==> rest[i].0 == m[i + 1].0 && rest[j].0 == m[j + 1].0);
        }
        lemma_insert_pos_bounds(rest, t);
        let p = insert_pos(m, t);
        assert(forall|i: int| 1 <= i < p ==> m[i].0 == rest[i - 1].0);
        if has_time(m, t) {
            let k = time_index(m, t);
            assert(m[k].0 == t);
            assert(k >= 1);
            assert(rest[k - 1].0 == t);
            assert(has_time(rest, t));
            assert(rest[p - 1].0 == t);
        }
    } else {
        if has_time(m, t) {
            let k = time_index(m, t);
            assert(0 <= k < m.len() && m[k].0 == t);
            if k > 0 {
                assert(m[0].0 < m[k].0);
            }
        }
    }
}

/// What one recorded change does to the map: the bucket at `t` grows by
/// exactly that change, every other bucket is untouched, and the key set
/// gains at most `t`.
pub proof fn lemma_spec_push(m: Rows, t: u64, id: usize, v: bool)
    requires
        sorted_keys(m),
    ensures
        sorted_keys(spec_push(m, t, id, v)),
        forall|u: u64| has_time(spec_push(m, t, id, v), u) <==> (has_time(m, u) || u == t),
        at_time(spec_push(m, t, id, v), t) == at_time(m, t).push((id, v)),
        forall|u: u64| u != t ==> at_time(spec_push(m, t, id, v), u) == at_time(m, u),
        spec_push(m, t, id, v).len() == m.len() + (if has_time(m, t) { 0int } else { 1int }),
{
    lemma_insert_pos_bounds(m, t);
    let p = insert_pos(m, t);
    let r = spec_push(m, t, id, v);
    if has_time(m, t) {
        lemma_key_unique(m, t, p);
        assert(forall|i: int| 0 <= i < r.len() && i != p ==> r[i] == m[i]);
        assert(r[p] == (t, m[p].1.push((id, v))));
        assert(sorted_keys(r));
        assert forall|u: u64| has_time(r, u) <==> (has_time(m, u) || u == t) by {
            if has_time(r, u) {
                let i = time_index(r, u);
                assert(0 <= i < r.len() && r[i].0 == u);
                assert(m[i].0 == u);
                assert(has_time(m, u));
            }
            if has_time(m, u) {
                let i = time_index(m, u);
                assert(r[i].0 == u);
                assert(has_time(r, u));
            }
        }
        lemma_key_unique(r, t, p);
        assert(at_time(r, t) == at_time(m, t).push((id, v)));
        assert forall|u: u64| u != t implies at_time(r, u) == at_time(m, u) by {
            if has_time(m, u) {
                let i = time_index(m, u);
                assert(m[i].0 == u);
                assert(i != p);
                lemma_key_unique(r, u, i);
                lemma_key_unique(m, u, i);
            } else {
                assert(!has_time(r, u));
            }
        }
    } else {
        assert(r == m.insert(p, (t, seq![(id, v)])));
        assert(r.len() == m.len() + 1);
        assert(forall|i: int| 0 <= i < p ==> r[i] == m[i]);
        assert(forall|i: int| p < i < r.len() ==> r[i] == m[i - 1]);
        assert(r[p] == (t, seq![(id, v)]));
        assert(forall|i: int| 0 <= i < p ==> r[i].0 < t);
        assert forall|i: int| p < i < r.len() implies r[i].0 > t by {
            assert(m[i - 1].0 >= t && m[i - 1].0 != t);
        }
        assert forall|i: int, j: int| 0 <= i < j < r.len() implies r[i].0 < r[j].0 by {
            if i != p && j != p {
                assert(r[i].0 == m[if i < p { i } else { i - 1 }].0);
                assert(r[j].0 == m[if j < p { j } else { j - 1 }].0);
            }
        }
        lemma_key_unique(r, t, p);
        assert(at_time(m, t) == Seq::<(usize, bool)>::empty());
        assert(at_time(r, t) =~= at_time(m, t).push((id, v)));
        assert forall|u: u64| has_time(r, u) <==> (has_time(m, u) || u == t) by {
            if has_time(r, u) && u != t {
                let i = time_index(r, u);
                assert(0 <= i < r.len() && r[i].0 == u);
                assert(i != p);
                assert(m[if i < p { i } else { i - 1 }].0 == u);
                assert(has_time(m, u));
            }
            if has_time(m, u) {
                let i = time_index(m, u);
                assert(m[i].0 == u);
                if i < p {
                    assert(r[i].0 == u);
                } else {
                    assert(r[i + 1].0 == u);
                }
                assert(has_time(r, u));
            }
        }
        assert forall|u: u64| u != t implies at_time(r, u) == at_time(m, u) by {
            if has_time(m, u) {
                let i = time_index(m, u);
                assert(m[i].0 == u);
                lemma_key_unique(m, u, i);
                if i < p {
                    assert(r[i] == m[i]);
                    lemma_key_unique(r, u, i);
                } else {
                    assert(r[i + 1] == m[i]);
                    lemma_key_unique(r, u, i + 1);
                }
            } else {
                assert(!has_time(r, u));
            }
        }
    }
}

/// Two sorted maps that agree on which timestamps they carry and on the
/// bucket at every timestamp are the same map.
pub proof fn lemma_sorted_maps_equal(a: Rows, b: Rows)
    requires
        sorted_keys(a),
        sorted_keys(b),
        forall|u: u64| has_time(a, u) <==> has_time(b, u),
        forall|u: u64| at_time(a, u) == at_time(b, u),
    ensures
        a == b,
    decreases a.len(),
{
    if a.len() == 0 {
        if b.len() > 0 {
            assert(b[0].0 == b[0].0);
            assert(has_time(b, b[0].0));
            assert(has_time(a, b[0].0));
        }
        assert(a =~= b);
    } else {
        let t0 = a[0].0;
        assert(has_time(a, t0));
        assert(has_time(b, t0));
        assert(b.len() > 0);
        assert(b[0].0 == t0) by {
            let j = time_index(b, t0);
            assert(0 <= j < b.len() && b[j].0 == t0);
            if j > 0 {
                assert(b[0].0 < t0);
                assert(has_time(b, b[0].0));
                assert(has_time(a, b[0].0));
                let i = time_index(a, b[0].0);
                assert(0 <= i < a.len() && a[i].0 == b[0].0);
                if i > 0 {
                    assert(a[0].0 < a[i].0);
                }
            }
        }
        lemma_key_unique(a, t0, 0);
        lemma_key_unique(b, t0, 0);
        assert(a[0] == b[0]);
        let ar = a.drop_first();
        let br = b.drop_first();
        assert(sorted_keys(ar)) by {
            assert(forall|i: int, j: int|
                0 <= i < j < ar.len() ==> ar[i].0 == a[i + 1].0 && ar[j].0 == a[j + 1].0);
        }
        assert(sorted_keys(br)) by {
            assert(forall|i: int, j: int|
                0 <= i < j < br.len() ==> br[i].0 == b[i + 1].0 && br[j].0 == b[j + 1].0);
        }
        assert forall|u: u64| has_time(ar, u) <==> has_time(a, u) && u != t0 by {
            if has_time(ar, u) {
                let i = time_index(ar, u);
                assert(0 <= i < ar.len() && ar[i].0 == u);
                assert(a[i + 1].0 == u);
                assert(a[0].0 < a[i + 1].0);
                assert(has_time(a, u));
            }
            if has_time(a, u) && u != t0 {
                let i = time_index(a, u);
                assert(0 <= i < a.len() && a[i].0 == u);
                assert(i != 0);
                assert(ar[i - 1].0 == u);
                assert(has_time(ar, u));
            }
        }
        assert forall|u: u64| has_time(br, u) <==> has_time(b, u) && u != t0 by {
            if has_time(br, u) {
                let i = time_index(br, u);
                assert(0 <= i < br.len() && br[i].0 == u);
                assert(b[i + 1].0 == u);
                assert(b[0].0 < b[i + 1].0);
                assert(has_time(b, u));
            }
            if has_time(b, u) && u != t0 {
                let i = time_index(b, u);
                assert(0 <= i < b.len() && b[i].0 == u);
                assert(i != 0);
                assert(br[i - 1].0 == u);
                assert(has_time(br, u));
            }
        }
        assert forall|u: u64| at_time(ar, u) == at_time(br, u) by {
            if has_time(ar, u) {
                let i = time_index(ar, u);
                assert(0 <= i < ar.len() && ar[i].0 == u);
                lemma_key_unique(ar, u, i);
                lemma_key_unique(a, u, i + 1);
                assert(has_time(br, u));
                let j = time_index(br, u);
                assert(0 <= j < br.len() && br[j].0 == u);
                lemma_key_unique(br, u, j);
                lemma_key_unique(b, u, j + 1);
            } else {
                assert(!has_time(br, u));
                assert(at_time(ar, u) == Seq::<(usize, bool)>::empty());
                assert(at_time(br, u) == Seq::<(usize, bool)>::empty());
            }
        }
        lemma_sorted_maps_equal(ar, br);
        assert(a.len() == b.len());
        assert forall|i: int| 0 <= i < a.len() implies a[i] == b[i] by {
            if i > 0 {
                assert(a[i] == ar[i - 1] && b[i] == br[i - 1]);
            }
        }
        assert(a =~= b);
    }
}

/// Walking a sorted map one entry further: the prefix gains exactly the
/// bucket at that entry's timestamp, which the shorter prefix lacked.
pub proof fn lemma_rows_take_step(m: Rows, j: int)
    requires
        sorted_keys(m),
        0 <= j < m.len(),
    ensures
        sorted_keys(m.take(j)),
        sorted_keys(m.take(j + 1)),
        !has_time(m.take(j), m[j].0),
        at_time(m.take(j + 1), m[j].0) == m[j].1,
        forall|u: u64| has_time(m.take(j + 1), u) <==> (has_time(m.take(j), u) || u == m[j].0),
        forall|u: u64| u != m[j].0 ==> at_time(m.take(j + 1), u) == at_time(m.take(j), u),
{
    let p = m.take(j);
    let q = m.take(j + 1);
    assert(forall|i: int| 0 <= i < p.len() ==> p[i] == m[i]);
    assert(forall|i: int| 0 <= i < q.len() ==> q[i] == m[i]);
    assert(sorted_keys(p));
    assert(sorted_keys(q));
    if has_time(p, m[j].0) {
        let i = time_index(p, m[j].0);
        assert(0 <= i < p.len() && p[i].0 == m[j].0);
        assert(m[i].0 < m[j].0);
    }
    lemma_key_unique(q, m[j].0, j);
    assert forall|u: u64| has_time(q, u) <==> (has_time(p, u) || u == m[j].0) by {
        if has_time(q, u) {
            let i = time_index(q, u);
            assert(0 <= i < q.len() && q[i].0 == u);
            if i < j {
                assert(p[i].0 == u);
                assert(has_time(p, u));
            } else {
                assert(u == m[j].0);
            }
        }
        if has_time(p, u) {
            let i = time_index(p, u);
            assert(0 <= i < p.len() && p[i].0 == u);
            assert(q[i].0 == u);
            assert(has_time(q, u));
        }
    }
    assert forall|u: u64| u != m[j].0 implies at_time(q, u) == at_time(p, u) by {
        if has_time(p, u) {
            let i = time_index(p, u);
            assert(0 <= i < p.len() && p[i].0 == u);
            lemma_key_unique(p, u, i);
            lemma_key_unique(q, u, i);
        } else {
            assert(!has_time(q, u));
        }
    }
}

/// A trace's event log: buckets of (local-signal-id, value) changes keyed
/// by timestamp, held in ascending timestamp order so that merge semantics
/// and the output format's ordering requirement are met by a plain walk.
#[derive(Debug)]
pub struct EventMap {
    entries: Vec<(u64, Vec<(usize, bool)>)>,
}

impl View for EventMap {
    type V = Rows;

    closed spec fn view(&self) -> Rows {
        Seq::new(self.entries@.len(), |i: int| (self.entries@[i].0, self.entries@[i].1@))
    }
}

impl EventMap {
    /// An event map with no buckets at all.
    pub fn new() -> (r: EventMap)
        ensures
            r@ == Seq::<(u64, Seq<(usize, bool)>)>::empty(),
            sorted_keys(r@),
    {
        let r = EventMap { entries: Vec::new() };
        proof {
            assert(r@ =~= Seq::<(u64, Seq<(usize, bool)>)>::empty());
        }
        r
    }

    /// Where a bucket for `t` stands or would be inserted.
    fn find_pos(&self, t: u64) -> (r: usize)
        requires
            sorted_keys(self@),
        ensures
            r == insert_pos(self@, t),
    {
        proof {
            lemma_insert_pos_bounds(self@, t);
        }
        let n = self.entries.len();
        let mut r: usize = 0;
        while r < n && self.entries[r].0 < t
            invariant
                0 <= r <= n,
                n == self@.len(),
                sorted_keys(self@),
                forall|i: int| 0 <= i < r ==> self@[i].0 < t,
            decreases n - r,
        {
            assert(self@[r as int].0 < t);
            r = r + 1;
        }
        proof {
            let p = insert_pos(self@, t);
            if r < p {
                assert(self@[r as int].0 < t);
            }
            if p < r {
                assert(self@[p].0 < t);
            }
        }
        r
    }

    /// Record one (id, value) change at time `t`, appending to the bucket
    /// at `t` or opening a fresh bucket in key order.
    pub fn push_change(&mut self, t: u64, id: usize, v: bool)
        requires
            sorted_keys(old(self)@),
        ensures
            final(self)@ == spec_push(old(self)@, t, id, v),
            sorted_keys(final(self)@),
    {
        proof {
            lemma_insert_pos_bounds(self@, t);
            lemma_spec_push(self@, t, id, v);
        }
        let p = self.find_pos(t);
        if p < self.entries.len() && self.entries[p].0 == t {
            proof {
                lemma_key_unique(self@, t, p as int);
            }
            let mut e = self.entries.remove(p);
            e.1.push((id, v));
            self.entries.insert(p, e);
            proof {
                assert(final(self)@ =~= spec_push(old(self)@, t, id, v));
            }
        } else {
            proof {
                if has_time(old(self)@, t) {
                    assert(old(self)@[insert_pos(old(self)@, t)].0 == t);
                }
            }
            let mut c: Vec<(usize, bool)> = Vec::new();
            c.push((id, v));
            self.entries.insert(p, (t, c));
            proof {
                assert(c@ =~= seq![(id, v)]);
                assert(final(self)@ =~= spec_push(old(self)@, t, id, v));
            }
        }
    }

    /// Open an (initially empty) bucket at time `t` if none exists yet,
    /// changing no recorded changes.
    pub fn ensure_time(&mut self, t: u64)
        requires
            sorted_keys(old(self)@),
        ensures
            sorted_keys(final(self)@),
            forall|u: u64| at_time(final(self)@, u) == at_time(old(self)@, u),
            forall|u: u64| has_time(final(self)@, u) <==> (has_time(old(self)@, u) || u == t),
            forall|i: int|
                0 <= i < final(self)@.len() ==> final(self)@[i].1 == Seq::<(usize, bool)>::empty()
                    || exists|i0: int|
                    0 <= i0 < old(self)@.len() && final(self)@[i].1 == old(self)@[i0].1,
    {
        proof {
            lemma_insert_pos_bounds(self@, t);
        }
        let p = self.find_pos(t);
        if p < self.entries.len() && self.entries[p].0 == t {
            proof {
                lemma_key_unique(self@, t, p as int);
                assert forall|i: int| 0 <= i < self@.len() implies self@[i].1 == Seq::<(
                    usize,
                    bool,
                )>::empty() || exists|i0: int|
                    0 <= i0 < old(self)@.len() && self@[i].1 == old(self)@[i0].1 by {
                    assert(0 <= i < old(self)@.len() && self@[i].1 == old(self)@[i].1);
                }
            }
            return ;
        }
        proof {
            if has_time(old(self)@, t) {
                assert(old(self)@[insert_pos(old(self)@, t)].0 == t);
            }
        }
        let c: Vec<(usize, bool)> = Vec::new();
        self.entries.insert(p, (t, c));
        proof {
            let m = old(self)@;
            let r = final(self)@;
            let pi = p as int;
            assert(r[pi] == (t, Seq::<(usize, bool)>::empty()));
            assert(forall|i: int| 0 <= i < pi ==> r[i] == m[i]);
            assert(forall|i: int| pi < i < r.len() ==> r[i] == m[i - 1]);
            assert(forall|i: int| 0 <= i < pi ==> r[i].0 < t);
            assert forall|i: int| pi < i < r.len() implies r[i].0 > t by {
                assert(m[i - 1].0 >= t && m[i - 1].0 != t);
            }
            assert forall|i: int, j: int| 0 <= i < j < r.len() implies r[i].0 < r[j].0 by {
                if i != pi && j != pi {
                    assert(r[i].0 == m[if i < pi { i } else { i - 1 }].0);
                    assert(r[j].0 == m[if j < pi { j } else { j - 1 }].0);
                }
            }
            lemma_key_unique(r, t, pi);
            assert(at_time(m, t) == Seq::<(usize, bool)>::empty());
            assert forall|u: u64| has_time(r, u) <==> (has_time(m, u) || u == t) by {
                if has_time(r, u) && u != t {
                    let i = time_index(r, u);
                    assert(0 <= i < r.len() && r[i].0 == u);
                    assert(i != pi);
                    assert(m[if i < pi { i } else { i - 1 }].0 == u);
                    assert(has_time(m, u));
                }
                if has_time(m, u) {
                    let i = time_index(m, u);
                    assert(m[i].0 == u);
                    if i < pi {
                        assert(r[i].0 == u);
                    } else {
                        assert(r[i + 1].0 == u);
                    }
                    assert(has_time(r, u));
                }
            }
            assert forall|u: u64| at_time(r, u) == at_time(m, u) by {
                if has_time(m, u) {
                    let i = time_index(m, u);
                    assert(m[i].0 == u);
                    lemma_key_unique(m, u, i);
                    if i < pi {
                        assert(r[i] == m[i]);
                        lemma_key_unique(r, u, i);
                    } else {
                        assert(r[i + 1] == m[i]);
                        lemma_key_unique(r, u, i + 1);
                    }
                } else if u != t {
                    assert(!has_time(r, u));
                }
            }
            assert forall|i: int| 0 <= i < r.len() implies r[i].1 == Seq::<(
                usize,
                bool,
            )>::empty() || exists|i0: int| 0 <= i0 < m.len() && r[i].1 == m[i0].1 by {
                if i < pi {
                    assert(0 <= i < m.len() && r[i].1 == m[i].1);
                } else if i > pi {
                    assert(0 <= i - 1 < m.len() && r[i].1 == m[i - 1].1);
                }
            }
        }
    }

    /// Make `changes` the whole bucket at timestamp 0, replacing whatever
    /// bucket stood there before.
    pub fn set_initial(&mut self, changes: Vec<(usize, bool)>)
        requires
            sorted_keys(old(self)@),
        ensures
            sorted_keys(final(self)@),
            final(self)@.len() >= 1,
            final(self)@[0] == (0u64, changes@),
            at_time(final(self)@, 0) == changes@,
            forall|u: u64| u != 0 ==> at_time(final(self)@, u) == at_time(old(self)@, u),
            forall|u: u64| has_time(final(self)@, u) <==> (has_time(old(self)@, u) || u == 0),
    {
        let ghost m0 = self@;
        if self.entries.len() > 0 && self.entries[0].0 == 0 {
            self.entries.remove(0);
        }
        let ghost mid = self@;
        proof {
            assert forall|i: int, j: int| 0 <= i < j < mid.len() implies mid[i].0 < mid[j].0 by {
                if m0.len() > 0 && m0[0].0 == 0 {
                    assert(mid[i] == m0[i + 1] && mid[j] == m0[j + 1]);
                }
            }
            assert forall|i: int| 0 <= i < mid.len() implies mid[i].0 > 0 by {
                if m0.len() > 0 && m0[0].0 == 0 {
                    assert(mid[i] == m0[i + 1] && m0[0].0 < m0[i + 1].0);
                } else {
                    assert(mid[i] == m0[i]);
                    if i > 0 {
                        assert(m0[0].0 < m0[i].0);
                    }
                }
            }
        }
        self.entries.insert(0, (0, changes));
        proof {
            let r = final(self)@;
            assert(r[0] == (0u64, changes@));
            assert(forall|i: int| 1 <= i < r.len() ==> r[i] == mid[i - 1]);
            assert(sorted_keys(r));
            lemma_key_unique(r, 0, 0);
            assert forall|u: u64| u != 0 implies at_time(r, u) == at_time(m0, u) by {
                if has_time(m0, u) {
                    let i = time_index(m0, u);
                    assert(0 <= i < m0.len() && m0[i].0 == u);
                    lemma_key_unique(m0, u, i);
                    if m0.len() > 0 && m0[0].0 == 0 {
                        assert(i != 0);
                        assert(r[i] == mid[i - 1] && mid[i - 1] == m0[i]);
                        lemma_key_unique(r, u, i);
                    } else {
                        assert(r[i + 1] == mid[i] && mid[i] == m0[i]);
                        lemma_key_unique(r, u, i + 1);
                    }
                } else {
                    assert(!has_time(r, u)) by {
                        if has_time(r, u) {
                            let i = time_index(r, u);
                            assert(0 <= i < r.len() && r[i].0 == u);
                            assert(i != 0);
                            assert(mid[i - 1].0 == u);
                            if m0.len() > 0 && m0[0].0 == 0 {
                                assert(m0[i].0 == u);
                            } else {
                                assert(m0[i - 1].0 == u);
                            }
                            assert(has_time(m0, u));
                        }
                    }
                }
            }
            assert forall|u: u64| has_time(r, u) <==> (has_time(m0, u) || u == 0) by {
                if has_time(r, u) && u != 0 {
                    let i = time_index(r, u);
                    assert(0 <= i < r.len() && r[i].0 == u && i != 0);
                    if m0.len() > 0 && m0[0].0 == 0 {
                        assert(m0[i].0 == u);
                    } else {
                        assert(m0[i - 1].0 == u);
                    }
                    assert(has_time(m0, u));
                }
                if has_time(m0, u) && u != 0 {
                    let i = time_index(m0, u);
                    assert(0 <= i < m0.len() && m0[i].0 == u);
                    if m0.len() > 0 && m0[0].0 == 0 {
                        assert(i != 0);
                        assert(r[i].0 == u);
                    } else {
                        assert(r[i + 1].0 == u);
                    }
                    assert(has_time(r, u));
                }
            }
        }
    }

    /// Number of distinct timestamps in the map.
    pub fn num_times(&self) -> (r: usize)
        ensures
            r == self@.len(),
    {
        self.entries.len()
    }

    /// The timestamp of the bucket at position `i` of the ascending walk.
    pub fn time_at(&self, i: usize) -> (r: u64)
        requires
            i < self@.len(),
        ensures
            r == self@[i as int].0,
    {
        self.entries[i].0
    }

    /// The changes of the bucket at position `i` of the ascending walk.
    pub fn changes_at(&self, i: usize) -> (r: &Vec<(usize, bool)>)
        requires
            i < self@.len(),
        ensures
            r@ == self@[i as int].1,
    {
        &self.entries[i].1
    }
}

} // verus!
