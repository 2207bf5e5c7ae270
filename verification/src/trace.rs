use vstd::prelude::*;
use vstd::string::StringExecFns;
use crate::events::{Event, EventMap, Rows, at_time, has_time, sorted_keys, spec_push};
use crate::events::{lemma_insert_pos_bounds, lemma_key_unique, lemma_spec_push};
use crate::events::lemma_rows_take_step;
use crate::schema::{ScopeEntry, Signal, sig_views, str_views, split_dots, resolve_var};
use crate::schema::{signals, split_path, find_var_code, flatten_entries};
use crate::schema::{leaf_of, leaf_name};

verus! {

/// Unit of a trace's timescale declaration.
#[derive(Clone, Copy, PartialEq, Eq, Structural, Debug)]
pub enum TimescaleUnit {
    S,
    MS,
    US,
    NS,
    PS,
    FS,
}

/// Why a trace could not be loaded from its parsed header and events.
#[derive(Clone, Copy, PartialEq, Eq, Structural, Debug)]
pub enum LoadError {
    /// The header declared no timescale.
    MissingTimescale,
    /// The designated reset signal is not in the header's declarations.
    ResetNotFound,
}

/// Why two loaded traces may not be combined.
#[derive(Clone, Copy, PartialEq, Eq, Structural, Debug)]
pub enum CombineError {
    /// The traces declare different timescale magnitudes.
    TimescaleValue,
    /// The traces declare different timescale units.
    TimescaleUnit,
}

/// Whether some collected signal carries source identifier `code`.
pub open spec fn has_code(sigs: Seq<(Seq<char>, u64)>, code: u64) -> bool {
    exists|i: int| 0 <= i < sigs.len() && sigs[i].1 == code
}

/// The local signal id assigned to source identifier `code`: the position
/// of its last occurrence in the signal list (a later declaration with the
/// same identifier shadows an earlier one), or -1 when absent.
pub open spec fn code_index(sigs: Seq<(Seq<char>, u64)>, code: u64) -> int
    decreases sigs.len(),
{
    if sigs.len() == 0 {
        -1
    } else if sigs.last().1 == code {
        sigs.len() - 1
    } else {
        code_index(sigs.drop_last(), code)
    }
}

/// What position `code_index` names and what lies beyond it.
pub proof fn lemma_code_index(sigs: Seq<(Seq<char>, u64)>, code: u64)
    ensures
        -1 <= code_index(sigs, code) < sigs.len(),
        code_index(sigs, code) >= 0 <==> has_code(sigs, code),
        code_index(sigs, code) >= 0 ==> sigs[code_index(sigs, code)].1 == code,
        forall|j: int| code_index(sigs, code) < j < sigs.len() ==> sigs[j].1 != code,
    decreases sigs.len(),
{
    if sigs.len() > 0 && sigs.last().1 != code {
        lemma_code_index(sigs.drop_last(), code);
        let d = sigs.drop_last();
        assert(forall|i: int| 0 <= i < d.len() ==> d[i] == sigs[i]);
        if has_code(sigs, code) {
            let i = choose|i: int| 0 <= i < sigs.len() && sigs[i].1 == code;
            assert(i < sigs.len() - 1);
            assert(d[i].1 == code);
            assert(has_code(d, code));
        }
        if has_code(d, code) {
            let i = choose|i: int| 0 <= i < d.len() && d[i].1 == code;
            assert(sigs[i].1 == code);
        }
    }
}

/// Every id of every bucket lies below `n`.
pub open spec fn ids_below(m: Rows, n: int) -> bool {
    forall|i: int, j: int|
        0 <= i < m.len() && 0 <= j < m[i].1.len() ==> m[i].1[j].0 < n
}

/// Recording one change with an id below `n` keeps every id below `n`.
pub proof fn lemma_spec_push_ids(m: Rows, t: u64, id: usize, v: bool, n: int)
    requires
        sorted_keys(m),
        ids_below(m, n),
        id < n,
    ensures
        ids_below(spec_push(m, t, id, v), n),
{
    lemma_insert_pos_bounds(m, t);
    let r = spec_push(m, t, id, v);
    let p = crate::events::insert_pos(m, t);
    assert forall|i: int, j: int|
        0 <= i < r.len() && 0 <= j < r[i].1.len() implies r[i].1[j].0 < n by {
        if has_time(m, t) {
            if i != p {
                assert(r[i] == m[i]);
            } else {
                assert(r[i].1 == m[p].1.push((id, v)));
                if j < m[p].1.len() {
                    assert(r[i].1[j] == m[p].1[j]);
                }
            }
        } else {
            if i < p {
                assert(r[i] == m[i]);
            } else if i > p {
                assert(r[i] == m[i - 1]);
            } else {
                assert(r[i].1 == seq![(id, v)]);
            }
        }
    }
}

/// One stream command applied to the loader's state (event map, current
/// time, reset-end found so far): a time command advances the current
/// time; a change on a declared signal is recorded at the current time,
/// and when it shows the reset signal inactive (logic-1 under the
/// active-low convention) it becomes the new reset-end; a change on an
/// undeclared signal is dropped silently.
pub open spec fn collect_step(
    sigs: Seq<(Seq<char>, u64)>,
    m: Rows,
    now: u64,
    acc: u64,
    rst: u64,
    e: Event,
) -> (Rows, u64, u64) {
    match e {
        Event::Time(t) => (m, t, acc),
        Event::Change { code, value } => {
            if has_code(sigs, code) {
                (
                    spec_push(m, now, code_index(sigs, code) as usize, value),
                    now,
                    if code == rst && value {
                        now
                    } else {
                        acc
                    },
                )
            } else {
                (m, now, acc)
            }
        },
    }
}

/// The loader's state after consuming a whole stream, command by command:
/// the event map, the current time, and the reset-end found so far.
pub open spec fn collect_from(
    sigs: Seq<(Seq<char>, u64)>,
    events: Seq<Event>,
    rst: u64,
    m: Rows,
    now: u64,
    acc: u64,
) -> (Rows, u64, u64)
    decreases events.len(),
{
    if events.len() == 0 {
        (m, now, acc)
    } else {
        let st = collect_step(sigs, m, now, acc, rst, events[0]);
        collect_from(sigs, events.drop_first(), rst, st.0, st.1, st.2)
    }
}

/// The event map and reset-end timestamp a stream yields: current time and
/// reset-end both begin at 0, so a trace whose reset signal is never seen
/// inactive keeps reset-end 0, and a later inactive edge overwrites an
/// earlier one.
pub open spec fn spec_collect(
    sigs: Seq<(Seq<char>, u64)>,
    events: Seq<Event>,
    rst: u64,
) -> (Rows, u64) {
    let st = collect_from(sigs, events, rst, Seq::empty(), 0, 0);
    (st.0, st.2)
}

/// A non-zero reset-end is witnessed in the collected data: the bucket at
/// that timestamp holds the reset signal's inactive (logic-1) change.
proof fn lemma_collect_reset_witness(
    sigs: Seq<(Seq<char>, u64)>,
    events: Seq<Event>,
    rst: u64,
    m: Rows,
    now: u64,
    acc: u64,
)
    requires
        sorted_keys(m),
        acc != 0 ==> has_time(m, acc) && at_time(m, acc).contains(
            (code_index(sigs, rst) as usize, true),
        ),
    ensures
        ({
            let st = collect_from(sigs, events, rst, m, now, acc);
            st.2 != 0 ==> has_time(st.0, st.2) && at_time(st.0, st.2).contains(
                (code_index(sigs, rst) as usize, true),
            )
        }),
    decreases events.len(),
{
    if events.len() > 0 {
        let st0 = collect_step(sigs, m, now, acc, rst, events[0]);
        match events[0] {
            Event::Time(t) => {},
            Event::Change { code, value } => {
                if has_code(sigs, code) {
                    let id = code_index(sigs, code) as usize;
                    lemma_code_index(sigs, code);
                    lemma_spec_push(m, now, id, value);
                    let m1 = spec_push(m, now, id, value);
                    if code == rst && value {
                        assert(at_time(m1, now) == at_time(m, now).push((id, true)));
                        assert(at_time(m1, now).last() == (id, true));
                        assert(at_time(m1, now).contains((id, true)));
                    } else if acc != 0 {
                        let w = (code_index(sigs, rst) as usize, true);
                        if now == acc {
                            let i = choose|i: int|
                                0 <= i < at_time(m, acc).len() && at_time(m, acc)[i] == w;
                            assert(at_time(m1, acc)[i] == w);
                            assert(at_time(m1, acc).contains(w));
                        } else {
                            assert(at_time(m1, acc) == at_time(m, acc));
                        }
                    }
                }
            },
        }
        lemma_collect_reset_witness(sigs, events.drop_first(), rst, st0.0, st0.1, st0.2);
    }
}

/// The reset-end a stream yields is never invented: when it is non-zero,
/// the event map holds, at exactly that timestamp, the reset signal's own
/// change to its inactive state.
pub proof fn lemma_reset_end_witnessed(sigs: Seq<(Seq<char>, u64)>, events: Seq<Event>, rst: u64)
    ensures
        spec_collect(sigs, events, rst).1 != 0 ==> has_time(
            spec_collect(sigs, events, rst).0,
            spec_collect(sigs, events, rst).1,
        ) && at_time(spec_collect(sigs, events, rst).0, spec_collect(sigs, events, rst).1).contains(
            (code_index(sigs, rst) as usize, true),
        ),
{
    lemma_collect_reset_witness(sigs, events, rst, Seq::empty(), 0, 0);
}

/// The local id of source identifier `code` in the collected signal list,
/// as `code_index` assigns it.
fn lookup_code(sigs: &Vec<Signal>, code: u64) -> (r: Option<usize>)
    ensures
        match r {
            Some(i) => i < sigs@.len() && code_index(sig_views(sigs@), code) == i as int,
            None => !has_code(sig_views(sigs@), code),
        },
{
    let ghost sv = sig_views(sigs@);
    let n = sigs.len();
    let mut j: usize = n;
    while j > 0
        invariant
            j <= n,
            n == sigs@.len(),
            sv == sig_views(sigs@),
            forall|k: int| j <= k < n ==> sv[k].1 != code,
        decreases j,
    {
        proof {
            assert(sv[j - 1] == (sigs@[j - 1].name@, sigs@[j - 1].code));
        }
        if sigs[j - 1].code == code {
            proof {
                lemma_code_index(sv, code);
                assert(sv[j - 1].1 == code);
                assert(has_code(sv, code));
                let ci = code_index(sv, code);
                assert(sv[ci].1 == code);
                if ci >= j as int {
                    assert(sv[ci].1 != code);
                }
                if ci < j - 1 {
                    assert(sv[j - 1].1 != code);
                }
            }
            return Some(j - 1);
        }
        proof {
            assert(sv[j - 1].1 != code);
        }
        j = j - 1;
    }
    proof {
        if has_code(sv, code) {
            let i = choose|i: int| 0 <= i < sv.len() && sv[i].1 == code;
            assert(sv[i].1 != code);
        }
    }
    None
}

/// Walk a time-ordered command stream once, recording every change of a
/// declared signal at the current timestamp and the last time the reset
/// signal was seen inactive, as `spec_collect` describes.
pub fn collect_values(sigs: &Vec<Signal>, events: &Vec<Event>, rst_code: u64) -> (r: (
    EventMap,
    u64,
))
    ensures
        r.0@ == spec_collect(sig_views(sigs@), events@, rst_code).0,
        r.1 == spec_collect(sig_views(sigs@), events@, rst_code).1,
        sorted_keys(r.0@),
        ids_below(r.0@, sigs@.len() as int),
{
    let ghost sv = sig_views(sigs@);
    let mut m = EventMap::new();
    let mut now: u64 = 0;
    let mut acc: u64 = 0;
    let n = events.len();
    let mut i: usize = 0;
    proof {
        assert(events@.skip(0) =~= events@);
        assert(ids_below(m@, sv.len() as int));
    }
    while i < n
        invariant
            i <= n,
            n == events@.len(),
            sv == sig_views(sigs@),
            sorted_keys(m@),
            ids_below(m@, sv.len() as int),
            collect_from(sv, events@, rst_code, Seq::empty(), 0, 0) == collect_from(
                sv,
                events@.skip(i as int),
                rst_code,
                m@,
                now,
                acc,
            ),
        decreases n - i,
    {
        let ghost rest = events@.skip(i as int);
        proof {
            assert(rest[0] == events@[i as int]);
            assert(rest.drop_first() =~= events@.skip(i as int + 1));
        }
        let ev = events[i];
        match ev {
            Event::Time(t) => {
                now = t;
            },
            Event::Change { code, value } => {
                match lookup_code(sigs, code) {
                    Some(id) => {
                        proof {
                            lemma_code_index(sv, code);
                            lemma_spec_push(m@, now, id, value);
                            lemma_spec_push_ids(m@, now, id, value, sv.len() as int);
                        }
                        m.push_change(now, id, value);
                        if code == rst_code && value {
                            acc = now;
                        }
                    },
                    None => {},
                }
            },
        }
        i = i + 1;
    }
    proof {
        assert(events@.skip(n as int) =~= Seq::<Event>::empty());
    }
    (m, acc)
}

/// The names a list of pairs carries, in order.
pub open spec fn names_of(pairs: Seq<(Seq<char>, u64)>) -> Seq<Seq<char>> {
    pairs.map_values(|p: (Seq<char>, u64)| p.0)
}

/// A donor signal name as it enters a signal list: suffixed with "_2" when
/// the list already has that exact name, else unchanged.
pub open spec fn renamed(base: Seq<Seq<char>>, name: Seq<char>) -> Seq<char> {
    if base.contains(name) {
        name + seq!['_', '2']
    } else {
        name
    }
}

/// The signal list after a merge: the receiver's names followed by the
/// donor's in order, each donor name resolved against the list as grown so
/// far.
pub open spec fn merged_names(base: Seq<Seq<char>>, donor: Seq<Seq<char>>) -> Seq<Seq<char>>
    decreases donor.len(),
{
    if donor.len() == 0 {
        base
    } else {
        merged_names(base.push(renamed(base, donor[0])), donor.drop_first())
    }
}

/// Merging names appends exactly one name per donor signal and leaves the
/// receiver's names in place.
pub proof fn lemma_merged_names_frame(base: Seq<Seq<char>>, donor: Seq<Seq<char>>)
    ensures
        merged_names(base, donor).len() == base.len() + donor.len(),
        forall|i: int| 0 <= i < base.len() ==> merged_names(base, donor)[i] == base[i],
    decreases donor.len(),
{
    if donor.len() > 0 {
        let base1 = base.push(renamed(base, donor[0]));
        lemma_merged_names_frame(base1, donor.drop_first());
        assert forall|i: int| 0 <= i < base.len() implies merged_names(base, donor)[i]
            == base[i] by {
            assert(merged_names(base, donor)[i] == merged_names(base1, donor.drop_first())[i]);
            assert(merged_names(base1, donor.drop_first())[i] == base1[i]);
            assert(base1[i] == base[i]);
        }
    }
}

/// With no donor name already in the list, and no donor name repeated,
/// merging appends the donor's names unchanged: donor signals keep their
/// order and take the ids just past the receiver's.
pub proof fn lemma_identifier_offset(base: Seq<Seq<char>>, donor: Seq<Seq<char>>)
    requires
        forall|i: int| 0 <= i < donor.len() ==> !base.contains(donor[i]),
        forall|i: int, j: int| 0 <= i < j < donor.len() ==> donor[i] != donor[j],
    ensures
        merged_names(base, donor) == base + donor,
    decreases donor.len(),
{
    if donor.len() == 0 {
        assert(base + donor =~= base);
    } else {
        let base1 = base.push(donor[0]);
        assert(!base.contains(donor[0]));
        assert(renamed(base, donor[0]) == donor[0]);
        let rest = donor.drop_first();
        assert forall|i: int| 0 <= i < rest.len() implies !base1.contains(rest[i]) by {
            assert(rest[i] == donor[i + 1]);
            if base1.contains(rest[i]) {
                let k = choose|k: int| 0 <= k < base1.len() && base1[k] == rest[i];
                if k < base.len() {
                    assert(base.contains(rest[i]));
                } else {
                    assert(base1[k] == donor[0]);
                }
            }
        }
        assert(forall|i: int, j: int| 0 <= i < j < rest.len() ==> rest[i] != rest[j]);
        lemma_identifier_offset(base1, rest);
        assert(base1 + rest =~= base + donor);
    }
}

/// The donor ids as they enter the merged trace: offset past the
/// receiver's signals.
pub open spec fn shift_changes(c: Seq<(usize, bool)>, off: int) -> Seq<(usize, bool)> {
    c.map_values(|p: (usize, bool)| ((p.0 + off) as usize, p.1))
}

/// The synthesized frame at time zero: every signal of the merged schema
/// explicitly low.
pub open spec fn init_frame(n: int) -> Seq<(usize, bool)> {
    Seq::new(n as nat, |i: int| (i as usize, false))
}

/// The donor bucket that lands at time `t` once every donor timestamp is
/// shifted forward by `skew`.
pub open spec fn donor_at(dm: Rows, skew: u64, t: u64) -> Seq<(usize, bool)> {
    if t >= skew {
        at_time(dm, (t - skew) as u64)
    } else {
        Seq::empty()
    }
}

/// Whether some donor bucket lands at time `t` after the skew shift.
pub open spec fn donor_has(dm: Rows, skew: u64, t: u64) -> bool {
    t >= skew && has_time(dm, (t - skew) as u64)
}

/// What a merge leaves in the receiver: the donor's signals appended with
/// collisions renamed; every bucket after time zero the receiver's changes
/// followed by the donor's shifted, id-offset changes; and at time zero
/// exactly the all-signals-low frame.
pub open spec fn merge_spec(recv: VCD, don: VCD, out: VCD) -> bool {
    let skew = (recv.rst_end - don.rst_end) as u64;
    let off = recv.signals@.len() as int;
    &&& out.timescale_value == recv.timescale_value
    &&& out.timescale_unit == recv.timescale_unit
    &&& out.rst_end == recv.rst_end
    &&& out.rst_id == recv.rst_id
    &&& out.names() == merged_names(recv.names(), don.names())
    &&& out.signals@.len() == recv.signals@.len() + don.signals@.len()
    &&& sorted_keys(out.values@)
    &&& at_time(out.values@, 0) == init_frame(out.signals@.len() as int)
    &&& has_time(out.values@, 0)
    &&& forall|t: u64|
        t > 0 ==> at_time(out.values@, t) == at_time(recv.values@, t) + shift_changes(
            donor_at(don.values@, skew, t),
            off,
        )
    &&& forall|t: u64|
        t > 0 ==> (has_time(out.values@, t) <==> (has_time(recv.values@, t) || donor_has(
            don.values@,
            skew,
            t,
        )))
}

/// One loaded waveform capture: its declared timescale, its signals in
/// local-id order, its event log, the reset-end timestamp found during
/// loading, and the source identifier of the designated reset signal.
#[derive(Debug)]
pub struct VCD {
    pub timescale_value: u32,
    pub timescale_unit: TimescaleUnit,
    pub signals: Vec<String>,
    pub values: EventMap,
    pub rst_end: u64,
    pub rst_id: u64,
}

impl VCD {
    /// The qualified names of the trace's signals; a name's position is
    /// its local signal id.
    pub open spec fn names(self) -> Seq<Seq<char>> {
        str_views(self.signals@)
    }

    /// Structural soundness: the event log walks in ascending timestamp
    /// order and every recorded id names a signal of this trace.
    pub open spec fn wf(self) -> bool {
        &&& sorted_keys(self.values@)
        &&& ids_below(self.values@, self.signals@.len() as int)
    }

    /// Load one trace from its parsed header (timescale and declaration
    /// tree) and command stream. Fails when the header declared no
    /// timescale, or when the dotted reset path names no variable; else
    /// collects the schema and, in one pass, the event map and reset-end.
    pub fn new(
        timescale: Option<(u32, TimescaleUnit)>,
        items: &Vec<ScopeEntry>,
        reset_signal: &str,
        events: &Vec<Event>,
    ) -> (r: Result<VCD, LoadError>)
        ensures
            match r {
                Ok(t) => {
                    &&& timescale is Some
                    &&& resolve_var(items@, split_dots(reset_signal@)) is Some
                    &&& t.timescale_value == (timescale->0).0
                    &&& t.timescale_unit == (timescale->0).1
                    &&& t.rst_id == resolve_var(items@, split_dots(reset_signal@))->0
                    &&& t.names() == names_of(flatten_entries(items@, Seq::<char>::empty()))
                    &&& t.values@ == spec_collect(
                        flatten_entries(items@, Seq::<char>::empty()),
                        events@,
                        t.rst_id,
                    ).0
                    &&& t.rst_end == spec_collect(
                        flatten_entries(items@, Seq::<char>::empty()),
                        events@,
                        t.rst_id,
                    ).1
                    &&& t.wf()
                },
                Err(e) => {
                    ||| (e == LoadError::MissingTimescale && timescale is None)
                    ||| (e == LoadError::ResetNotFound && timescale is Some && resolve_var(
                        items@,
                        split_dots(reset_signal@),
                    ) is None)
                },
            },
            r is Ok <==> (timescale is Some && resolve_var(
                items@,
                split_dots(reset_signal@),
            ) is Some),
    {
        let (tv, tu) = match timescale {
            Some(p) => p,
            None => {
                return Err(LoadError::MissingTimescale);
            },
        };
        let split = split_path(reset_signal);
        let rst_id = match find_var_code(items, &split) {
            Some(c) => c,
            None => {
                return Err(LoadError::ResetNotFound);
            },
        };
        let sigs = signals(items);
        let (values, rst_end) = collect_values(&sigs, events, rst_id);
        let mut names: Vec<String> = Vec::new();
        let n = sigs.len();
        let mut i: usize = 0;
        while i < n
            invariant
                i <= n,
                n == sigs@.len(),
                names@.len() == i,
                forall|k: int| 0 <= k < i ==> names@[k]@ == sigs@[k].name@,
            decreases n - i,
        {
            let nm = sigs[i].name.clone();
            names.push(nm);
            i = i + 1;
        }
        proof {
            assert(str_views(names@) =~= names_of(sig_views(sigs@)));
        }
        Ok(
            VCD {
                timescale_value: tv,
                timescale_unit: tu,
                signals: names,
                values,
                rst_end,
                rst_id,
            },
        )
    }

    /// The names the output format declares, one per signal in local-id
    /// order: only the leaf segment of each qualified name, the scope
    /// hierarchy being flattened into a single declared module.
    pub fn leaf_names(&self) -> (r: Vec<String>)
        ensures
            r@.len() == self.signals@.len(),
            forall|i: int| 0 <= i < r@.len() ==> r@[i]@ == leaf_of(self.signals@[i]@),
    {
        let n = self.signals.len();
        let mut out: Vec<String> = Vec::new();
        let mut i: usize = 0;
        while i < n
            invariant
                i <= n,
                n == self.signals@.len(),
                out@.len() == i,
                forall|k: int| 0 <= k < i ==> out@[k]@ == leaf_of(self.signals@[k]@),
            decreases n - i,
        {
            let nm = leaf_name(self.signals[i].as_str());
            out.push(nm);
            i = i + 1;
        }
        out
    }

    /// Fold a donor trace into this one: the donor's signals are appended
    /// with collisions renamed, every donor bucket is shifted forward by
    /// the skew between the two reset-ends and its ids offset past this
    /// trace's signals, and time zero becomes the all-signals-low frame.
    /// The caller orients the call so that the receiver is the trace with
    /// the greater (or equal) reset-end.
    pub fn merge(&mut self, donor: VCD)
        requires
            old(self).wf(),
            donor.wf(),
            old(self).rst_end >= donor.rst_end,
            forall|i: int|
                0 <= i < donor.values@.len() ==> donor.values@[i].0 + (old(self).rst_end
                    - donor.rst_end) <= u64::MAX,
            old(self).signals@.len() + donor.signals@.len() <= usize::MAX,
        ensures
            final(self).wf(),
            merge_spec(*old(self), donor, *final(self)),
    {
        let timeskew = self.rst_end - donor.rst_end;
        let off = self.signals.len();
        let dn = donor.signals.len();
        let ghost base = str_views(self.signals@);
        let ghost dnames = str_views(donor.signals@);
        let ghost v0 = self.values@;
        let ghost tsv = self.timescale_value;
        let ghost tsu = self.timescale_unit;
        let ghost re0 = self.rst_end;
        let ghost ri0 = self.rst_id;

        // absorb the donor's signal names, renaming collisions against the
        // list as grown so far
        let mut i: usize = 0;
        proof {
            assert(dnames.skip(0) =~= dnames);
        }
        while i < dn
            invariant
                i <= dn,
                dn == donor.signals@.len(),
                dnames == str_views(donor.signals@),
                self.signals@.len() == off + i,
                off + dn <= usize::MAX,
                merged_names(base, dnames) == merged_names(
                    str_views(self.signals@),
                    dnames.skip(i as int),
                ),
                self.values@ == v0,
                self.rst_end == re0,
                self.rst_id == ri0,
                self.timescale_value == tsv,
                self.timescale_unit == tsu,
            decreases dn - i,
        {
            let ghost cur = str_views(self.signals@);
            proof {
                assert(dnames.skip(i as int)[0] == dnames[i as int]);
                assert(dnames.skip(i as int).drop_first() =~= dnames.skip(i as int + 1));
                assert(dnames[i as int] == donor.signals@[i as int]@);
            }
            let name = &donor.signals[i];
            let hit = contains_name(&self.signals, name);
            if hit {
                let mut n2 = name.clone();
                n2.append("_2");
                proof {
                    reveal_strlit("_2");
                    assert(n2@ =~= name@ + seq!['_', '2']);
                }
                self.signals.push(n2);
            } else {
                self.signals.push(name.clone());
            }
            proof {
                assert(str_views(self.signals@) =~= cur.push(renamed(cur, dnames[i as int])));
            }
            i = i + 1;
        }
        proof {
            assert(dnames.skip(dn as int) =~= Seq::<Seq<char>>::empty());
            assert(merged_names(base, dnames) == str_views(self.signals@));
            lemma_merged_names_frame(base, dnames);
        }

        // fold the donor's buckets in, each timestamp shifted forward by
        // the skew and each id offset past the receiver's signals
        let ghost dv = donor.values@;
        let nd = donor.values.num_times();
        let mut j: usize = 0;
        proof {
            assert(dv.take(0) =~= Seq::<(u64, Seq<(usize, bool)>)>::empty());
            assert forall|u: u64|
                at_time(self.values@, u) == at_time(v0, u) + shift_changes(
                    donor_at(dv.take(0), timeskew, u),
                    off as int,
                ) && !donor_has(dv.take(0), timeskew, u) by {
                if u >= timeskew {
                    assert(!has_time(dv.take(0), (u - timeskew) as u64));
                }
                assert(donor_at(dv.take(0), timeskew, u) == Seq::<(usize, bool)>::empty());
                assert(shift_changes(Seq::empty(), off as int) =~= Seq::<(usize, bool)>::empty());
                assert(at_time(v0, u) + Seq::<(usize, bool)>::empty() =~= at_time(v0, u));
            }
        }
        while j < nd
            invariant
                j <= nd,
                nd == dv.len(),
                dv == donor.values@,
                forall|ii: int| 0 <= ii < dv.len() ==> dv[ii].0 + timeskew <= u64::MAX,
                sorted_keys(dv),
                ids_below(dv, dn as int),
                dn == donor.signals@.len(),
                off + dn <= usize::MAX,
                self.signals@.len() == off + dn,
                sorted_keys(self.values@),
                ids_below(self.values@, off + dn),
                forall|u: u64|
                    at_time(self.values@, u) == at_time(v0, u) + shift_changes(
                        donor_at(dv.take(j as int), timeskew, u),
                        off as int,
                    ),
                forall|u: u64|
                    has_time(self.values@, u) <==> (has_time(v0, u) || donor_has(
                        dv.take(j as int),
                        timeskew,
                        u,
                    )),
                str_views(self.signals@) == merged_names(base, dnames),
                self.rst_end == re0,
                self.rst_id == ri0,
                self.timescale_value == tsv,
                self.timescale_unit == tsu,
            decreases nd - j,
        {
            proof {
                assert(dv[j as int].0 + timeskew <= u64::MAX);
            }
            let tdon = donor.values.time_at(j);
            let synced = tdon + timeskew;
            let ghost mpre = self.values@;
            self.values.ensure_time(synced);
            proof {
                assert forall|a: int, b: int|
                    0 <= a < self.values@.len() && 0 <= b < self.values@[a].1.len() implies self.values@[a].1[b].0
                    < off + dn by {
                    let i0 = choose|i0: int|
                        0 <= i0 < mpre.len() && self.values@[a].1 == mpre[i0].1;
                    assert(mpre[i0].1[b].0 < off + dn);
                }
            }
            let changes = donor.values.changes_at(j);
            let nc = changes.len();
            let ghost mstart = self.values@;
            let mut k: usize = 0;
            proof {
                assert forall|u: u64|
                    has_time(mstart, u) <==> (has_time(v0, u) || donor_has(
                        dv.take(j as int),
                        timeskew,
                        u,
                    ) || u == synced) by {
                    assert(has_time(mstart, u) <==> (has_time(mpre, u) || u == synced));
                    assert(has_time(mpre, u) <==> (has_time(v0, u) || donor_has(
                        dv.take(j as int),
                        timeskew,
                        u,
                    )));
                }
            }
            proof {
                assert(changes@.take(0) =~= Seq::<(usize, bool)>::empty());
                assert(shift_changes(changes@.take(0), off as int) =~= Seq::<(
                    usize,
                    bool,
                )>::empty());
                assert(at_time(mstart, synced) + Seq::<(usize, bool)>::empty() =~= at_time(
                    mstart,
                    synced,
                ));
            }
            while k < nc
                invariant
                    k <= nc,
                    nc == changes@.len(),
                    changes@ == dv[j as int].1,
                    0 <= j < dv.len(),
                    sorted_keys(dv),
                    ids_below(dv, dn as int),
                    off + dn <= usize::MAX,
                    synced == dv[j as int].0 + timeskew,
                    sorted_keys(self.values@),
                    ids_below(self.values@, off + dn),
                    at_time(self.values@, synced) == at_time(mstart, synced) + shift_changes(
                        changes@.take(k as int),
                        off as int,
                    ),
                    forall|u: u64| u != synced ==> at_time(self.values@, u) == at_time(mstart, u),
                    forall|u: u64| has_time(self.values@, u) <==> has_time(mstart, u),
                    has_time(mstart, synced),
                    forall|u: u64|
                        at_time(mstart, u) == at_time(v0, u) + shift_changes(
                            donor_at(dv.take(j as int), timeskew, u),
                            off as int,
                        ),
                    forall|u: u64|
                        has_time(mstart, u) <==> (has_time(v0, u) || donor_has(
                            dv.take(j as int),
                            timeskew,
                            u,
                        ) || u == synced),
                    str_views(self.signals@) == merged_names(base, dnames),
                    self.signals@.len() == off + dn,
                    self.rst_end == re0,
                    self.rst_id == ri0,
                    self.timescale_value == tsv,
                    self.timescale_unit == tsu,
                decreases nc - k,
            {
                let c = changes[k];
                proof {
                    assert(changes@[k as int] == c);
                    assert(dv[j as int].1[k as int].0 < dn);
                }
                let id = c.0 + off;
                proof {
                    lemma_spec_push(self.values@, synced, id, c.1);
                    lemma_spec_push_ids(self.values@, synced, id, c.1, off + dn);
                }
                self.values.push_change(synced, id, c.1);
                k = k + 1;
                proof {
                    assert(changes@.take(k as int) =~= changes@.take(k as int - 1).push(c));
                    assert(shift_changes(changes@.take(k as int), off as int) =~= shift_changes(
                        changes@.take(k as int - 1),
                        off as int,
                    ).push(((c.0 + off) as usize, c.1)));
                    assert(at_time(self.values@, synced) =~= at_time(mstart, synced)
                        + shift_changes(changes@.take(k as int), off as int));
                }
            }
            proof {
                assert(changes@.take(nc as int) =~= changes@);
                lemma_rows_take_step(dv, j as int);
                let tj1 = dv.take(j as int + 1);
                let tj = dv.take(j as int);
                assert forall|u: u64|
                    at_time(self.values@, u) == at_time(v0, u) + shift_changes(
                        donor_at(tj1, timeskew, u),
                        off as int,
                    ) by {
                    if u == synced {
                        assert(u >= timeskew);
                        assert((u - timeskew) as u64 == dv[j as int].0);
                        assert(donor_at(tj1, timeskew, u) == dv[j as int].1);
                        assert(!has_time(tj, dv[j as int].0));
                        assert(donor_at(tj, timeskew, u) == Seq::<(usize, bool)>::empty());
                        assert(shift_changes(Seq::empty(), off as int) =~= Seq::<(
                            usize,
                            bool,
                        )>::empty());
                        assert(at_time(v0, u) + Seq::<(usize, bool)>::empty() =~= at_time(v0, u));
                        assert(at_time(mstart, u) =~= at_time(v0, u));
                        assert(at_time(self.values@, u) == at_time(mstart, u) + shift_changes(
                            changes@,
                            off as int,
                        ));
                    } else {
                        assert(at_time(self.values@, u) == at_time(mstart, u));
                        if u >= timeskew {
                            assert((u - timeskew) as u64 != dv[j as int].0);
                            assert(at_time(tj1, (u - timeskew) as u64) == at_time(
                                tj,
                                (u - timeskew) as u64,
                            ));
                        }
                        assert(donor_at(tj1, timeskew, u) == donor_at(tj, timeskew, u));
                    }
                }
                assert forall|u: u64|
                    has_time(self.values@, u) <==> (has_time(v0, u) || donor_has(
                        tj1,
                        timeskew,
                        u,
                    )) by {
                    if u == synced {
                        assert(u >= timeskew && (u - timeskew) as u64 == dv[j as int].0);
                        assert(has_time(tj1, dv[j as int].0));
                        assert(donor_has(tj1, timeskew, u));
                        assert(has_time(self.values@, u) <==> has_time(mstart, u));
                        assert(has_time(mstart, synced));
                    } else {
                        assert(has_time(self.values@, u) <==> has_time(mstart, u));
                        assert(has_time(mstart, u) <==> (has_time(v0, u) || donor_has(
                            tj,
                            timeskew,
                            u,
                        ) || u == synced));
                        if u >= timeskew {
                            assert((u - timeskew) as u64 != dv[j as int].0);
                            assert(has_time(tj1, (u - timeskew) as u64) <==> has_time(
                                tj,
                                (u - timeskew) as u64,
                            ));
                        }
                        assert(donor_has(tj1, timeskew, u) <==> donor_has(tj, timeskew, u));
                    }
                }
            }
            let ghost jn: int = j as int + 1;
            j = j + 1;
            proof {
                assert(j as int == jn);
                assert(dv.take(j as int) == dv.take(jn));
                assert forall|u: u64|
                    has_time(self.values@, u) <==> (has_time(v0, u) || donor_has(
                        dv.take(j as int),
                        timeskew,
                        u,
                    )) by {
                    assert(has_time(self.values@, u) <==> (has_time(v0, u) || donor_has(
                        dv.take(jn),
                        timeskew,
                        u,
                    )));
                    assert(donor_has(dv.take(j as int), timeskew, u) == donor_has(
                        dv.take(jn),
                        timeskew,
                        u,
                    ));
                }
            }
        }
        proof {
            assert(dv.take(nd as int) =~= dv);
        }

        // the synthesized time-zero frame: every merged signal explicitly
        // low, replacing whatever time zero held
        let count = self.signals.len();
        let mut init: Vec<(usize, bool)> = Vec::new();
        let mut id2: usize = 0;
        while id2 < count
            invariant
                id2 <= count,
                init@.len() == id2,
                forall|k2: int| 0 <= k2 < id2 ==> init@[k2] == (k2 as usize, false),
            decreases count - id2,
        {
            init.push((id2, false));
            id2 = id2 + 1;
        }
        proof {
            assert(init@ =~= init_frame(count as int));
        }
        let ghost prev = self.values@;
        let ghost frame = init@;
        self.values.set_initial(init);
        proof {
            let fv = self.values@;
            lemma_key_unique(fv, 0, 0);
            assert forall|a: int, b: int|
                0 <= a < fv.len() && 0 <= b < fv[a].1.len() implies fv[a].1[b].0 < off + dn by {
                lemma_key_unique(fv, fv[a].0, a);
                if fv[a].0 == 0 {
                    assert(a == 0) by {
                        if a != 0 {
                            assert(fv[0].0 < fv[a].0);
                        }
                    }
                    assert(fv[a].1 == frame);
                } else {
                    assert(at_time(fv, fv[a].0) == at_time(prev, fv[a].0));
                    assert(has_time(fv, fv[a].0));
                    assert(has_time(prev, fv[a].0));
                    let idx = choose|idx: int|
                        0 <= idx < prev.len() && prev[idx].0 == fv[a].0;
                    lemma_key_unique(prev, fv[a].0, idx);
                    assert(fv[a].1 == prev[idx].1);
                }
            }
            assert forall|t: u64|
                t > 0 implies at_time(fv, t) == at_time(old(self).values@, t) + shift_changes(
                donor_at(donor.values@, timeskew, t),
                off as int,
            ) by {
                assert(at_time(fv, t) == at_time(prev, t));
                assert(at_time(prev, t) == at_time(v0, t) + shift_changes(
                    donor_at(dv.take(nd as int), timeskew, t),
                    off as int,
                ));
                assert(donor_at(dv.take(nd as int), timeskew, t) == donor_at(dv, timeskew, t));
            }
            assert forall|t: u64|
                t > 0 implies (has_time(fv, t) <==> (has_time(old(self).values@, t) || donor_has(
                donor.values@,
                timeskew,
                t,
            ))) by {
                assert(has_time(fv, t) <==> has_time(prev, t));
                assert(dv.take(j as int) == dv.take(nd as int));
                assert(has_time(prev, t) <==> (has_time(v0, t) || donor_has(
                    dv.take(j as int),
                    timeskew,
                    t,
                )));
                assert(donor_has(dv.take(nd as int), timeskew, t) == donor_has(dv, timeskew, t));
            }
            assert(timeskew == (old(self).rst_end - donor.rst_end) as u64);
            assert(at_time(fv, 0) == frame);
            assert(frame =~= init_frame((off + dn) as int));
            assert(self.signals@.len() == off + dn);
            assert(str_views(self.signals@) == merged_names(
                str_views(old(self).signals@),
                str_views(donor.signals@),
            ));
        }
    }
}

/// The merge contract is a full functional specification: two results
/// that both satisfy it for the same receiver and donor carry the same
/// signal list and the same event map, entry for entry.
pub proof fn lemma_merge_deterministic(recv: VCD, don: VCD, out1: VCD, out2: VCD)
    requires
        recv.rst_end >= don.rst_end,
        merge_spec(recv, don, out1),
        merge_spec(recv, don, out2),
    ensures
        out1.names() == out2.names(),
        out1.values@ == out2.values@,
{
    let skew = (recv.rst_end - don.rst_end) as u64;
    assert forall|t: u64| has_time(out1.values@, t) <==> has_time(out2.values@, t) by {
        if t > 0 {
            assert(has_time(out1.values@, t) <==> (has_time(recv.values@, t) || donor_has(
                don.values@,
                skew,
                t,
            )));
            assert(has_time(out2.values@, t) <==> (has_time(recv.values@, t) || donor_has(
                don.values@,
                skew,
                t,
            )));
        }
    }
    assert forall|t: u64| at_time(out1.values@, t) == at_time(out2.values@, t) by {
        if t == 0 {
            assert(out1.signals@.len() == out2.signals@.len());
        }
    }
    crate::events::lemma_sorted_maps_equal(out1.values@, out2.values@);
}

/// Validate that two loaded traces declare the same timescale, orient them
/// so that the trace with the strictly greater reset-end absorbs the
/// other, and merge. The magnitude is checked before the unit.
pub fn combine(a: VCD, b: VCD) -> (r: Result<VCD, CombineError>)
    requires
        a.wf(),
        b.wf(),
        a.signals@.len() + b.signals@.len() <= usize::MAX,
        a.rst_end > b.rst_end ==> forall|i: int|
            0 <= i < b.values@.len() ==> b.values@[i].0 + (a.rst_end - b.rst_end) <= u64::MAX,
        a.rst_end <= b.rst_end ==> forall|i: int|
            0 <= i < a.values@.len() ==> a.values@[i].0 + (b.rst_end - a.rst_end) <= u64::MAX,
    ensures
        match r {
            Ok(t) => {
                &&& a.timescale_value == b.timescale_value
                &&& a.timescale_unit == b.timescale_unit
                &&& t.wf()
                &&& if a.rst_end > b.rst_end {
                    merge_spec(a, b, t)
                } else {
                    merge_spec(b, a, t)
                }
            },
            Err(e) => {
                ||| (e == CombineError::TimescaleValue && a.timescale_value != b.timescale_value)
                ||| (e == CombineError::TimescaleUnit && a.timescale_value == b.timescale_value
                    && a.timescale_unit != b.timescale_unit)
            },
        },
        r is Ok <==> (a.timescale_value == b.timescale_value && a.timescale_unit
            == b.timescale_unit),
{
    if a.timescale_value != b.timescale_value {
        return Err(CombineError::TimescaleValue);
    }
    if a.timescale_unit != b.timescale_unit {
        return Err(CombineError::TimescaleUnit);
    }
    if a.rst_end > b.rst_end {
        let mut recv = a;
        recv.merge(b);
        Ok(recv)
    } else {
        let mut recv = b;
        recv.merge(a);
        Ok(recv)
    }
}

/// Whether the list holds exactly this name.
fn contains_name(v: &Vec<String>, name: &String) -> (r: bool)
    ensures
        r == str_views(v@).contains(name@),
{
    let n = v.len();
    let mut j: usize = 0;
    let mut hit = false;
    while j < n
        invariant
            j <= n,
            n == v@.len(),
            hit <==> exists|k: int| 0 <= k < j && str_views(v@)[k] == name@,
        decreases n - j,
    {
        proof {
            assert(str_views(v@)[j as int] == v@[j as int]@);
        }
        if v[j].eq(name) {
            hit = true;
            proof {
                assert(str_views(v@)[j as int] == name@);
            }
        }
        j = j + 1;
    }
    proof {
        if str_views(v@).contains(name@) {
            let k = choose|k: int| 0 <= k < str_views(v@).len() && str_views(v@)[k] == name@;
            assert(0 <= k < n && str_views(v@)[k] == name@);
        }
    }
    hit
}

} // verus!
