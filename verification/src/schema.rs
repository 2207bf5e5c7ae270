use vstd::prelude::*;
use vstd::string::StrSliceExecFns;
use vstd::string::StringExecFns;

verus! {

/// One node of a trace header's declaration tree: a leaf variable with a
/// human-readable name and the source format's identifier for it, or a
/// named scope holding further nodes in declaration order.
pub enum ScopeEntry {
    Var { name: String, code: u64 },
    Scope { name: String, children: Vec<ScopeEntry> },
}

/// One collected signal: its qualified (dot-joined) name and the source
/// identifier the event stream tags its changes with.
pub struct Signal {
    pub name: String,
    pub code: u64,
}

/// The (name, source-identifier) pairs a signal list stands for.
pub open spec fn sig_views(s: Seq<Signal>) -> Seq<(Seq<char>, u64)> {
    s.map_values(|x: Signal| (x.name@, x.code))
}

/// The character sequences a string list stands for.
pub open spec fn str_views(s: Seq<String>) -> Seq<Seq<char>> {
    s.map_values(|x: String| x@)
}

/// A name under a scope path: the path itself when the name is the root's,
/// else the path, a dot, and the name.
pub open spec fn qualify(prefix: Seq<char>, name: Seq<char>) -> Seq<char> {
    if prefix.len() == 0 {
        name
    } else {
        prefix + seq!['.'] + name
    }
}

/// The ordered (qualified-name, source-identifier) pairs of a declaration
/// forest: a depth-first walk that visits children in declaration order,
/// the root scope contributing no path segment.
pub open spec fn flatten_entries(items: Seq<ScopeEntry>, prefix: Seq<char>) -> Seq<(Seq<char>, u64)>
    decreases items,
{
    if items.len() == 0 {
        Seq::empty()
    } else {
        let head = match items[0] {
            ScopeEntry::Var { name, code } => seq![(qualify(prefix, name@), code)],
            ScopeEntry::Scope { name, children } => flatten_entries(
                children@,
                qualify(prefix, name@),
            ),
        };
        head + flatten_entries(items.drop_first(), prefix)
    }
}

/// What one node contributes to the depth-first walk under `prefix`.
pub open spec fn flatten_entry(e: ScopeEntry, prefix: Seq<char>) -> Seq<(Seq<char>, u64)> {
    match e {
        ScopeEntry::Var { name, code } => seq![(qualify(prefix, name@), code)],
        ScopeEntry::Scope { name, children } => flatten_entries(children@, qualify(prefix, name@)),
    }
}

/// The depth-first walk of a concatenation is the two walks in order.
pub proof fn lemma_flatten_concat(s: Seq<ScopeEntry>, t: Seq<ScopeEntry>, prefix: Seq<char>)
    ensures
        flatten_entries(s + t, prefix) == flatten_entries(s, prefix) + flatten_entries(t, prefix),
    decreases s.len(),
{
    if s.len() == 0 {
        assert(s + t =~= t);
        assert(flatten_entries(s, prefix) + flatten_entries(t, prefix) =~= flatten_entries(
            t,
            prefix,
        ));
    } else {
        assert((s + t)[0] == s[0]);
        assert((s + t).drop_first() =~= s.drop_first() + t);
        lemma_flatten_concat(s.drop_first(), t, prefix);
        assert(flatten_entries(s + t, prefix) == flatten_entry(s[0], prefix) + (flatten_entries(
            s.drop_first(),
            prefix,
        ) + flatten_entries(t, prefix)));
        assert(flatten_entry(s[0], prefix) + (flatten_entries(s.drop_first(), prefix)
            + flatten_entries(t, prefix)) =~= (flatten_entry(s[0], prefix) + flatten_entries(
            s.drop_first(),
            prefix,
        )) + flatten_entries(t, prefix));
    }
}

/// Extending the walked prefix of a list by one node appends that node's
/// own contribution.
pub proof fn lemma_flatten_take_step(items: Seq<ScopeEntry>, prefix: Seq<char>, i: int)
    requires
        0 <= i < items.len(),
    ensures
        flatten_entries(items.take(i + 1), prefix) == flatten_entries(items.take(i), prefix)
            + flatten_entry(items[i], prefix),
{
    assert(items.take(i + 1) =~= items.take(i) + seq![items[i]]);
    lemma_flatten_concat(items.take(i), seq![items[i]], prefix);
    let single = seq![items[i]];
    assert(single.drop_first() =~= Seq::<ScopeEntry>::empty());
    assert(single[0] == items[i]);
    assert(flatten_entries(single.drop_first(), prefix) == Seq::<(Seq<char>, u64)>::empty());
    assert(flatten_entries(single, prefix) == flatten_entry(items[i], prefix)
        + Seq::<(Seq<char>, u64)>::empty());
    assert(flatten_entry(items[i], prefix) + Seq::<(Seq<char>, u64)>::empty() =~= flatten_entry(
        items[i],
        prefix,
    ));
}

/// The qualified name under `prefix` of a signal or scope named `name`.
pub fn join_name(prefix: &String, name: &String) -> (r: String)
    ensures
        r@ == qualify(prefix@, name@),
{
    if prefix.as_str().is_empty() {
        name.clone()
    } else {
        let mut r = prefix.clone();
        r.append(".");
        r.append(name.as_str());
        proof {
            reveal_strlit(".");
            assert(r@ =~= qualify(prefix@, name@));
        }
        r
    }
}

/// Walk one declaration list depth first, appending each variable's
/// (qualified name, source identifier) to `out`.
fn collect_into(items: &Vec<ScopeEntry>, prefix: &String, out: &mut Vec<Signal>)
    ensures
        sig_views(final(out)@) == sig_views(old(out)@) + flatten_entries(items@, prefix@),
    decreases items@,
{
    let ghost base = out@;
    let n = items.len();
    let mut i: usize = 0;
    proof {
        assert(items@.take(0) =~= Seq::<ScopeEntry>::empty());
        assert(sig_views(out@) =~= sig_views(base) + flatten_entries(items@.take(0), prefix@));
    }
    while i < n
        invariant
            i <= n,
            n == items@.len(),
            sig_views(out@) == sig_views(base) + flatten_entries(items@.take(i as int), prefix@),
        decreases n - i,
    {
        let ghost before = out@;
        match &items[i] {
            ScopeEntry::Var { name, code } => {
                let qualified = join_name(prefix, name);
                let s = Signal { name: qualified, code: *code };
                out.push(s);
                proof {
                    assert(sig_views(out@) =~= sig_views(before) + flatten_entry(
                        items@[i as int],
                        prefix@,
                    ));
                }
            },
            ScopeEntry::Scope { name, children } => {
                let deeper = join_name(prefix, name);
                proof {
                    assert(decreases_to!(items@ => items@[i as int]));
                    assert(items@[i as int] == ScopeEntry::Scope {
                        name: *name,
                        children: *children,
                    });
                    assert(decreases_to!(items@[i as int] => items@[i as int]->Scope_children));
                    assert(decreases_to!(items@[i as int]->Scope_children => children@));
                }
                collect_into(children, &deeper, out);
                proof {
                    assert(sig_views(out@) == sig_views(before) + flatten_entry(
                        items@[i as int],
                        prefix@,
                    ));
                }
            },
        }
        proof {
            lemma_flatten_take_step(items@, prefix@, i as int);
            assert(sig_views(out@) =~= sig_views(base) + flatten_entries(
                items@.take(i as int + 1),
                prefix@,
            ));
        }
        i = i + 1;
    }
    proof {
        assert(items@.take(n as int) =~= items@);
    }
}

/// The ordered signal list of a declaration forest: every variable's
/// qualified name with its source identifier, in depth-first declaration
/// order.
pub fn signals(items: &Vec<ScopeEntry>) -> (r: Vec<Signal>)
    ensures
        sig_views(r@) == flatten_entries(items@, Seq::<char>::empty()),
{
    let mut out: Vec<Signal> = Vec::new();
    let root = String::new();
    collect_into(items, &root, &mut out);
    proof {
        assert(sig_views(Seq::<Signal>::empty()) =~= Seq::<(Seq<char>, u64)>::empty());
        assert(sig_views(out@) =~= flatten_entries(items@, Seq::<char>::empty()));
    }
    out
}

/// Whether a node is a scope named `name`.
pub open spec fn is_scope_named(e: ScopeEntry, name: Seq<char>) -> bool {
    match e {
        ScopeEntry::Scope { name: n, children } => n@ == name,
        _ => false,
    }
}

/// Whether a node is a variable named `name`.
pub open spec fn is_var_named(e: ScopeEntry, name: Seq<char>) -> bool {
    match e {
        ScopeEntry::Var { name: n, code } => n@ == name,
        _ => false,
    }
}

/// The children of the first scope named `name` in a declaration list.
pub open spec fn first_scope(items: Seq<ScopeEntry>, name: Seq<char>) -> Option<Seq<ScopeEntry>>
    decreases items.len(),
{
    if items.len() == 0 {
        None
    } else if is_scope_named(items[0], name) {
        Some(items[0]->Scope_children@)
    } else {
        first_scope(items.drop_first(), name)
    }
}

/// The identifier of the first variable named `name` in a declaration list.
pub open spec fn first_var(items: Seq<ScopeEntry>, name: Seq<char>) -> Option<u64>
    decreases items.len(),
{
    if items.len() == 0 {
        None
    } else if is_var_named(items[0], name) {
        Some(items[0]->Var_code)
    } else {
        first_var(items.drop_first(), name)
    }
}

/// The declaration list reached by following scope names along `path`,
/// taking at each step the first scope that matches.
pub open spec fn scope_at(items: Seq<ScopeEntry>, path: Seq<Seq<char>>) -> Option<
    Seq<ScopeEntry>,
>
    decreases path.len(),
{
    if path.len() == 0 {
        Some(items)
    } else {
        match first_scope(items, path[0]) {
            Some(children) => scope_at(children, path.drop_first()),
            None => None,
        }
    }
}

/// The identifier of the variable a dotted path names: the leading segments
/// walk scopes, the last names a variable inside the scope reached.
pub open spec fn resolve_var(items: Seq<ScopeEntry>, path: Seq<Seq<char>>) -> Option<u64> {
    if path.len() == 0 {
        None
    } else {
        match scope_at(items, path.drop_last()) {
            Some(parent) => first_var(parent, path.last()),
            None => None,
        }
    }
}

/// A match at index `j`, with no earlier match, is what `first_scope` finds.
proof fn lemma_first_scope_at(items: Seq<ScopeEntry>, name: Seq<char>, j: int)
    requires
        0 <= j < items.len(),
        is_scope_named(items[j], name),
        forall|k: int| 0 <= k < j ==> !is_scope_named(items[k], name),
    ensures
        first_scope(items, name) == Some(items[j]->Scope_children@),
    decreases j,
{
    if j > 0 {
        assert(forall|k: int| 0 <= k < j - 1 ==> items.drop_first()[k] == items[k + 1]);
        assert(items.drop_first()[j - 1] == items[j]);
        lemma_first_scope_at(items.drop_first(), name, j - 1);
    }
}

/// With no match anywhere, `first_scope` finds nothing.
proof fn lemma_first_scope_none(items: Seq<ScopeEntry>, name: Seq<char>)
    requires
        forall|k: int| 0 <= k < items.len() ==> !is_scope_named(items[k], name),
    ensures
        first_scope(items, name) is None,
    decreases items.len(),
{
    if items.len() > 0 {
        assert(forall|k: int|
            0 <= k < items.len() - 1 ==> items.drop_first()[k] == items[k + 1]);
        lemma_first_scope_none(items.drop_first(), name);
    }
}

/// A match at index `j`, with no earlier match, is what `first_var` finds.
proof fn lemma_first_var_at(items: Seq<ScopeEntry>, name: Seq<char>, j: int)
    requires
        0 <= j < items.len(),
        is_var_named(items[j], name),
        forall|k: int| 0 <= k < j ==> !is_var_named(items[k], name),
    ensures
        first_var(items, name) == Some(items[j]->Var_code),
    decreases j,
{
    if j > 0 {
        assert(forall|k: int| 0 <= k < j - 1 ==> items.drop_first()[k] == items[k + 1]);
        assert(items.drop_first()[j - 1] == items[j]);
        lemma_first_var_at(items.drop_first(), name, j - 1);
    }
}

/// With no match anywhere, `first_var` finds nothing.
proof fn lemma_first_var_none(items: Seq<ScopeEntry>, name: Seq<char>)
    requires
        forall|k: int| 0 <= k < items.len() ==> !is_var_named(items[k], name),
    ensures
        first_var(items, name) is None,
    decreases items.len(),
{
    if items.len() > 0 {
        assert(forall|k: int|
            0 <= k < items.len() - 1 ==> items.drop_first()[k] == items[k + 1]);
        lemma_first_var_none(items.drop_first(), name);
    }
}

/// The first scope named `seg` in a declaration list, as `first_scope`
/// describes it.
fn find_scope<'a>(items: &'a Vec<ScopeEntry>, seg: &String) -> (r: Option<&'a Vec<ScopeEntry>>)
    ensures
        match r {
            Some(children) => first_scope(items@, seg@) == Some(children@),
            None => first_scope(items@, seg@) is None,
        },
{
    let n = items.len();
    let mut j: usize = 0;
    while j < n
        invariant
            j <= n,
            n == items@.len(),
            forall|k: int| 0 <= k < j ==> !is_scope_named(items@[k], seg@),
        decreases n - j,
    {
        match &items[j] {
            ScopeEntry::Scope { name, children } => {
                if name.eq(seg) {
                    proof {
                        lemma_first_scope_at(items@, seg@, j as int);
                    }
                    return Some(children);
                }
            },
            _ => {},
        }
        j = j + 1;
    }
    proof {
        lemma_first_scope_none(items@, seg@);
    }
    None
}

/// The identifier of the first variable named `seg`, as `first_var`
/// describes it.
fn find_leaf_var(items: &Vec<ScopeEntry>, seg: &String) -> (r: Option<u64>)
    ensures
        r == first_var(items@, seg@),
{
    let n = items.len();
    let mut j: usize = 0;
    while j < n
        invariant
            j <= n,
            n == items@.len(),
            forall|k: int| 0 <= k < j ==> !is_var_named(items@[k], seg@),
        decreases n - j,
    {
        match &items[j] {
            ScopeEntry::Var { name, code } => {
                if name.eq(seg) {
                    proof {
                        lemma_first_var_at(items@, seg@, j as int);
                    }
                    return Some(*code);
                }
            },
            _ => {},
        }
        j = j + 1;
    }
    proof {
        lemma_first_var_none(items@, seg@);
    }
    None
}

/// The source identifier of the variable a dotted path names, resolved as
/// `resolve_var` describes: scope segments first, variable name last.
pub fn find_var_code(items: &Vec<ScopeEntry>, path: &Vec<String>) -> (r: Option<u64>)
    ensures
        r == resolve_var(items@, str_views(path@)),
{
    let ghost pv = str_views(path@);
    if path.len() == 0 {
        return None;
    }
    let mut cur: &Vec<ScopeEntry> = items;
    let mut k: usize = 0;
    let last = path.len() - 1;
    proof {
        assert(pv.take(0) =~= Seq::<Seq<char>>::empty());
    }
    while k < last
        invariant
            k <= last,
            last == pv.len() - 1,
            pv.len() == path@.len(),
            pv == str_views(path@),
            scope_at(items@, pv.take(k as int)) == Some(cur@),
        decreases last - k,
    {
        let found = find_scope(cur, &path[k]);
        proof {
            assert(pv[k as int] == path@[k as int]@);
        }
        match found {
            Some(children) => {
                proof {
                    let p1 = pv.take(k as int + 1);
                    assert(p1[0] == pv[0]);
                    lemma_scope_at_step(items@, pv, k as int, cur@, children@);
                }
                cur = children;
            },
            None => {
                proof {
                    lemma_scope_at_dead(items@, pv, k as int, cur@);
                }
                return None;
            },
        }
        k = k + 1;
    }
    proof {
        assert(pv.take(last as int) =~= pv.drop_last());
        assert(pv.last() == path@[last as int]@);
    }
    find_leaf_var(cur, &path[last])
}

/// Following one more matching segment extends the scope walk.
proof fn lemma_scope_at_step(
    items: Seq<ScopeEntry>,
    path: Seq<Seq<char>>,
    k: int,
    cur: Seq<ScopeEntry>,
    children: Seq<ScopeEntry>,
)
    requires
        0 <= k < path.len(),
        scope_at(items, path.take(k)) == Some(cur),
        first_scope(cur, path[k]) == Some(children),
    ensures
        scope_at(items, path.take(k + 1)) == Some(children),
    decreases k,
{
    if k == 0 {
        assert(path.take(0).len() == 0);
        assert(cur == items);
        let p1 = path.take(1);
        assert(p1[0] == path[0]);
        assert(first_scope(items, p1[0]) == Some(children));
        assert(p1.drop_first() =~= Seq::<Seq<char>>::empty());
        assert(scope_at(children, p1.drop_first()) == Some(children));
        assert(scope_at(items, p1) == Some(children));
    } else {
        let p = path.take(k);
        let p1 = path.take(k + 1);
        assert(p1[0] == path[0] && p[0] == path[0]);
        assert(scope_at(items, p) == Some(cur));
        match first_scope(items, path[0]) {
            Some(next) => {
                assert(p.drop_first() =~= path.drop_first().take(k - 1));
                assert(p1.drop_first() =~= path.drop_first().take(k));
                assert(path.drop_first()[k - 1] == path[k]);
                assert(scope_at(next, path.drop_first().take(k - 1)) == Some(cur));
                lemma_scope_at_step(next, path.drop_first(), k - 1, cur, children);
                assert(scope_at(next, p1.drop_first()) == Some(children));
                assert(scope_at(items, p1) == Some(children));
            },
            None => {
                assert(scope_at(items, p) is None);
            },
        }
    }
}

/// A segment with no matching scope ends the walk with nothing found.
proof fn lemma_scope_at_dead(
    items: Seq<ScopeEntry>,
    path: Seq<Seq<char>>,
    k: int,
    cur: Seq<ScopeEntry>,
)
    requires
        0 <= k < path.len(),
        scope_at(items, path.take(k)) == Some(cur),
        first_scope(cur, path[k]) is None,
        k < path.len() - 1,
    ensures
        resolve_var(items, path) is None,
{
    assert(path.drop_last().take(k) =~= path.take(k));
    assert(path.drop_last()[k] == path[k]);
    lemma_scope_at_prefix_none(items, path.drop_last(), k, cur);
}

/// If the walk dies at segment `k` of a path, it dies for the whole path.
proof fn lemma_scope_at_prefix_none(
    items: Seq<ScopeEntry>,
    path: Seq<Seq<char>>,
    k: int,
    cur: Seq<ScopeEntry>,
)
    requires
        0 <= k < path.len(),
        scope_at(items, path.take(k)) == Some(cur),
        first_scope(cur, path[k]) is None,
    ensures
        scope_at(items, path) is None,
    decreases k,
{
    if k == 0 {
        assert(cur == items);
        assert(path[0] == path.take(k + 1)[0]);
    } else {
        let p = path.take(k);
        assert(p[0] == path[0]);
        match first_scope(items, path[0]) {
            Some(next) => {
                assert(p.drop_first() =~= path.drop_first().take(k - 1));
                assert(path.drop_first()[k - 1] == path[k]);
                lemma_scope_at_prefix_none(next, path.drop_first(), k - 1, cur);
            },
            None => {
                assert(scope_at(items, p) is None);
            },
        }
    }
}

/// The segments of `s` split on '.', with `cur` the partial segment read
/// so far: splitting never yields an empty list, and empty segments stand
/// for leading, trailing or doubled dots.
pub open spec fn split_acc(s: Seq<char>, cur: Seq<char>) -> Seq<Seq<char>>
    decreases s.len(),
{
    if s.len() == 0 {
        seq![cur]
    } else if s[0] == '.' {
        seq![cur] + split_acc(s.drop_first(), Seq::empty())
    } else {
        split_acc(s.drop_first(), cur.push(s[0]))
    }
}

/// The segments of a dotted name.
pub open spec fn split_dots(s: Seq<char>) -> Seq<Seq<char>> {
    split_acc(s, Seq::empty())
}

/// The dotted name split into its segments.
pub fn split_path(s: &str) -> (r: Vec<String>)
    ensures
        str_views(r@) == split_dots(s@),
{
    let n = s.unicode_len();
    let mut out: Vec<String> = Vec::new();
    let mut seg_start: usize = 0;
    let mut i: usize = 0;
    proof {
        assert(s@.skip(0) =~= s@);
        assert(s@.subrange(0, 0) =~= Seq::<char>::empty());
        assert(str_views(out@) =~= Seq::<Seq<char>>::empty());
        assert(Seq::<Seq<char>>::empty() + split_acc(s@, Seq::empty()) =~= split_dots(s@));
    }
    while i < n
        invariant
            seg_start <= i <= n,
            n == s@.len(),
            split_dots(s@) == str_views(out@) + split_acc(
                s@.skip(i as int),
                s@.subrange(seg_start as int, i as int),
            ),
        decreases n - i,
    {
        let ghost rest = s@.skip(i as int);
        let ghost cur = s@.subrange(seg_start as int, i as int);
        proof {
            assert(rest[0] == s@[i as int]);
            assert(rest.drop_first() =~= s@.skip(i as int + 1));
        }
        let c = s.get_char(i);
        if c == '.' {
            let seg = s.substring_char(seg_start, i).to_owned();
            out.push(seg);
            proof {
                assert(split_acc(rest, cur) == seq![cur] + split_acc(
                    s@.skip(i as int + 1),
                    Seq::empty(),
                ));
                assert(str_views(out@) =~= str_views(out@.drop_last()) + seq![cur]);
                assert(str_views(out@) + split_acc(s@.skip(i as int + 1), Seq::empty())
                    =~= (str_views(out@.drop_last()) + seq![cur]) + split_acc(
                    s@.skip(i as int + 1),
                    Seq::empty(),
                ));
                assert((str_views(out@.drop_last()) + seq![cur]) + split_acc(
                    s@.skip(i as int + 1),
                    Seq::empty(),
                ) =~= str_views(out@.drop_last()) + (seq![cur] + split_acc(
                    s@.skip(i as int + 1),
                    Seq::empty(),
                )));
                assert(s@.subrange(i as int + 1, i as int + 1) =~= Seq::<char>::empty());
            }
            seg_start = i + 1;
        } else {
            proof {
                assert(split_acc(rest, cur) == split_acc(s@.skip(i as int + 1), cur.push(s@[i as int])));
                assert(cur.push(s@[i as int]) =~= s@.subrange(seg_start as int, i as int + 1));
            }
        }
        i = i + 1;
    }
    let seg = s.substring_char(seg_start, n).to_owned();
    out.push(seg);
    proof {
        assert(s@.skip(n as int) =~= Seq::<char>::empty());
        let cur = s@.subrange(seg_start as int, n as int);
        assert(split_acc(s@.skip(n as int), cur) == seq![cur]);
        assert(str_views(out@) =~= str_views(out@.drop_last()) + seq![cur]);
        assert(str_views(out@.drop_last()) + seq![cur] =~= split_dots(s@));
    }
    out
}

/// The leaf segment of a qualified name: what follows the last dot, or the
/// whole name when it has none.
pub open spec fn leaf_of(s: Seq<char>) -> Seq<char>
    decreases s.len(),
{
    if s.len() == 0 {
        s
    } else if s.last() == '.' {
        Seq::empty()
    } else {
        leaf_of(s.drop_last()).push(s.last())
    }
}

/// The suffix after position `cut` is the leaf when `cut` sits just past
/// the last dot (or at the start of a dotless name).
pub proof fn lemma_leaf_suffix(s: Seq<char>, cut: int)
    requires
        0 <= cut <= s.len(),
        cut > 0 ==> s[cut - 1] == '.',
        forall|k: int| cut <= k < s.len() ==> s[k] != '.',
    ensures
        leaf_of(s) == s.subrange(cut, s.len() as int),
    decreases s.len(),
{
    if s.len() == 0 {
        assert(leaf_of(s) =~= s.subrange(0, 0));
    } else if cut == s.len() {
        assert(s.last() == '.');
        assert(leaf_of(s) =~= s.subrange(cut, s.len() as int));
    } else {
        assert(s.last() != '.');
        let d = s.drop_last();
        assert(forall|k: int| cut <= k < d.len() ==> d[k] == s[k]);
        if cut > 0 {
            assert(d[cut - 1] == s[cut - 1]);
        }
        lemma_leaf_suffix(d, cut);
        assert(leaf_of(s) == d.subrange(cut, d.len() as int).push(s.last()));
        assert(d.subrange(cut, d.len() as int).push(s.last()) =~= s.subrange(
            cut,
            s.len() as int,
        ));
    }
}

/// The leaf segment of a qualified name, as `leaf_of` describes it.
pub fn leaf_name(s: &str) -> (r: String)
    ensures
        r@ == leaf_of(s@),
{
    let n = s.unicode_len();
    let mut cut: usize = 0;
    let mut i: usize = 0;
    while i < n
        invariant
            cut <= i <= n,
            n == s@.len(),
            cut > 0 ==> s@[cut - 1] == '.',
            forall|k: int| cut <= k < i ==> s@[k] != '.',
        decreases n - i,
    {
        if s.get_char(i) == '.' {
            cut = i + 1;
        }
        i = i + 1;
    }
    proof {
        lemma_leaf_suffix(s@, cut as int);
    }
    s.substring_char(cut, n).to_owned()
}

} // verus!
