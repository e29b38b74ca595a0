//! The structural differ over snapshot trees.
//!
//! Two trees are compared key by key. A key held by the first tree only is
//! removed, one held by the second only is added. Where both hold a key and
//! both values are arrays or objects, the differ descends into them and
//! reports nothing for the container itself; where either value is a leaf,
//! the pair is unchanged if the values are equal and modified otherwise.
//! Array items are keyed by position, so a reordering shows as modifications.

use vstd::prelude::*;
use crate::json::{
    find_member, lemma_items_view, lemma_object_view, member, items_view, members_view, Json,
    JsonV,
};

verus! {

/// One step of a path into a tree.
#[derive(Debug, PartialEq, Eq)]
pub enum PathSeg {
    Key(String),
    Index(usize),
}

pub enum PathSegV {
    Key(Seq<char>),
    Index(int),
}

impl View for PathSeg {
    type V = PathSegV;

    open spec fn view(&self) -> PathSegV {
        match self {
            PathSeg::Key(k) => PathSegV::Key(k@),
            PathSeg::Index(i) => PathSegV::Index(*i as int),
        }
    }
}

pub open spec fn path_view(p: Seq<PathSeg>) -> Seq<PathSegV> {
    Seq::new(p.len(), |i: int| p[i]@)
}

/// One reported difference, at a path from the root.
#[derive(Debug, PartialEq, Eq)]
pub enum Change {
    Added(Vec<PathSeg>, Json),
    Removed(Vec<PathSeg>, Json),
    Unchanged(Vec<PathSeg>, Json),
    Modified(Vec<PathSeg>, Json, Json),
}

pub enum ChangeV {
    Added(Seq<PathSegV>, JsonV),
    Removed(Seq<PathSegV>, JsonV),
    Unchanged(Seq<PathSegV>, JsonV),
    Modified(Seq<PathSegV>, JsonV, JsonV),
}

impl View for Change {
    type V = ChangeV;

    open spec fn view(&self) -> ChangeV {
        match self {
            Change::Added(p, v) => ChangeV::Added(path_view(p@), v@),
            Change::Removed(p, v) => ChangeV::Removed(path_view(p@), v@),
            Change::Unchanged(p, v) => ChangeV::Unchanged(path_view(p@), v@),
            Change::Modified(p, a, b) => ChangeV::Modified(path_view(p@), a@, b@),
        }
    }
}

pub open spec fn changes_view(cs: Seq<Change>) -> Seq<ChangeV> {
    Seq::new(cs.len(), |i: int| cs[i]@)
}

/// The records for the items of `xs` compared with the items of `ys` at the
/// same positions; an item with no counterpart is removed.
pub open spec fn diff_items(path: Seq<PathSegV>, xs: Seq<JsonV>, ys: Seq<JsonV>) -> Seq<ChangeV>
    decreases xs,
{
    if xs.len() == 0 {
        Seq::empty()
    } else {
        let i = xs.len() - 1;
        diff_items(path, xs.drop_last(), ys) + if i < ys.len() {
            diff_at(path.push(PathSegV::Index(i)), xs[i], ys[i])
        } else {
            seq![ChangeV::Removed(path.push(PathSegV::Index(i)), xs[i])]
        }
    }
}

/// The records for the items of `ys` past the first `from`: all added.
pub open spec fn added_items(path: Seq<PathSegV>, from: int, ys: Seq<JsonV>) -> Seq<ChangeV> {
    if from < ys.len() {
        Seq::new(
            (ys.len() - from) as nat,
            |j: int| ChangeV::Added(path.push(PathSegV::Index(from + j)), ys[from + j]),
        )
    } else {
        Seq::empty()
    }
}

/// The records for the members of `xs`, in order, each compared with the
/// member of `ys` of the same name; a member with no counterpart is removed.
pub open spec fn diff_members(
    path: Seq<PathSegV>,
    xs: Seq<(Seq<char>, JsonV)>,
    ys: Seq<(Seq<char>, JsonV)>,
) -> Seq<ChangeV>
    decreases xs,
{
    if xs.len() == 0 {
        Seq::empty()
    } else {
        let x = xs.last();
        diff_members(path, xs.drop_last(), ys) + match member(ys, x.0) {
            Some(y) => diff_at(path.push(PathSegV::Key(x.0)), x.1, y),
            None => seq![ChangeV::Removed(path.push(PathSegV::Key(x.0)), x.1)],
        }
    }
}

/// The records for the members of `ys` whose names `xs` lacks: all added.
pub open spec fn added_members(
    path: Seq<PathSegV>,
    xs: Seq<(Seq<char>, JsonV)>,
    ys: Seq<(Seq<char>, JsonV)>,
) -> Seq<ChangeV>
    decreases ys.len(),
{
    if ys.len() == 0 {
        Seq::empty()
    } else {
        let y = ys.last();
        added_members(path, xs, ys.drop_last()) + if member(xs, y.0) is None {
            seq![ChangeV::Added(path.push(PathSegV::Key(y.0)), y.1)]
        } else {
            Seq::empty()
        }
    }
}

/// Two numbers, given by the bits of finite doubles, are equal by value:
/// their bits agree, or both are zero of either sign.
pub open spec fn same_number(a: u64, b: u64) -> bool {
    a == b || (a % 0x8000_0000_0000_0000 == 0 && b % 0x8000_0000_0000_0000 == 0)
}

/// Two values compared as leaves are equal: numbers by value, anything else
/// by structure.
pub open spec fn leaf_same(a: JsonV, b: JsonV) -> bool {
    match (a, b) {
        (JsonV::Number(x), JsonV::Number(y)) => same_number(x, y),
        _ => a == b,
    }
}

/// The records that compare `a` with `b` at `path`.
pub open spec fn diff_at(path: Seq<PathSegV>, a: JsonV, b: JsonV) -> Seq<ChangeV>
    decreases a,
{
    match (a, b) {
        (JsonV::Array(xs), JsonV::Array(ys)) => diff_items(path, xs, ys) + added_items(
            path,
            xs.len() as int,
            ys,
        ),
        (JsonV::Object(xs), JsonV::Object(ys)) => diff_members(path, xs, ys) + added_members(
            path,
            xs,
            ys,
        ),
        (JsonV::Array(xs), JsonV::Object(ys)) => diff_items(path, xs, Seq::empty())
            + added_members(path, Seq::empty(), ys),
        (JsonV::Object(xs), JsonV::Array(ys)) => diff_members(path, xs, Seq::empty())
            + added_items(path, 0, ys),
        _ => if leaf_same(a, b) {
            seq![ChangeV::Unchanged(path, a)]
        } else {
            seq![ChangeV::Modified(path, a, b)]
        },
    }
}

fn child_path(path: &Vec<PathSeg>, seg: PathSeg) -> (r: Vec<PathSeg>)
    ensures
        path_view(r@) == path_view(path@).push(seg@),
{
    let mut r: Vec<PathSeg> = Vec::new();
    let mut i: usize = 0;
    while i < path.len()
        invariant
            i <= path.len(),
            r@.len() == i,
            forall|j: int| 0 <= j < i ==> (#[trigger] r@[j])@ == path@[j]@,
        decreases path.len() - i,
    {
        let s = match &path[i] {
            PathSeg::Key(k) => PathSeg::Key(k.clone()),
            PathSeg::Index(n) => PathSeg::Index(*n),
        };
        r.push(s);
        i = i + 1;
    }
    let ghost before = r@;
    r.push(seg);
    assert(path_view(r@) =~= path_view(path@).push(seg@)) by {
        assert forall|j: int| 0 <= j < path@.len() implies r@[j]@ == path@[j]@ by {
            assert(r@[j] == before[j]);
        }
    }
    r
}

fn push_change(out: &mut Vec<Change>, c: Change)
    ensures
        changes_view(final(out)@) == changes_view(old(out)@).push(c@),
{
    let ghost before = out@;
    out.push(c);
    assert(changes_view(out@) =~= changes_view(before).push(c@)) by {
        assert forall|j: int| 0 <= j < before.len() implies out@[j] == before[j] by {}
    }
}

/// Leaves, and a leaf against any value, compared as `leaf_same` does.
fn leaf_equal(a: &Json, b: &Json) -> (r: bool)
    requires
        a@.is_leaf() || b@.is_leaf(),
    ensures
        r == leaf_same(a@, b@),
{
    match (a, b) {
        (Json::Null, Json::Null) => true,
        (Json::Bool(x), Json::Bool(y)) => *x == *y,
        (Json::Number(x), Json::Number(y)) => *x == *y || (*x % 0x8000_0000_0000_0000 == 0 && *y
            % 0x8000_0000_0000_0000 == 0),
        (Json::Str(x), Json::Str(y)) => *x == *y,
        _ => false,
    }
}

fn diff_items_into(path: &Vec<PathSeg>, xs: &Vec<Json>, ys: &Vec<Json>, out: &mut Vec<Change>)
    ensures
        changes_view(final(out)@) == changes_view(old(out)@) + diff_items(
            path_view(path@),
            items_view(xs@),
            items_view(ys@),
        ),
    decreases xs,
{
    let ghost pv = path_view(path@);
    let ghost xv = items_view(xs@);
    let ghost yv = items_view(ys@);
    let ghost start = changes_view(out@);
    let mut i: usize = 0;
    assert(xv.take(0) =~= Seq::<JsonV>::empty());
    while i < xs.len()
        invariant
            i <= xs.len(),
            pv == path_view(path@),
            xv == items_view(xs@),
            yv == items_view(ys@),
            changes_view(out@) == start + diff_items(pv, xv.take(i as int), yv),
        decreases xs.len() - i,
    {
        assert(xv.take(i + 1).drop_last() =~= xv.take(i as int));
        assert(xv.take(i + 1).last() == xs@[i as int]@);
        let child = child_path(path, PathSeg::Index(i));
        if i < ys.len() {
            proof {
                assert(decreases_to!(*xs => xs@[i as int]));
            }
            diff_into(&child, &xs[i], &ys[i], out);
        } else {
            push_change(out, Change::Removed(child, xs[i].duplicate()));
        }
        assert(changes_view(out@) =~= start + diff_items(pv, xv.take(i + 1), yv));
        i = i + 1;
    }
    assert(xv.take(i as int) =~= xv);
}

fn added_items_into(path: &Vec<PathSeg>, from: usize, ys: &Vec<Json>, out: &mut Vec<Change>)
    ensures
        changes_view(final(out)@) == changes_view(old(out)@) + added_items(
            path_view(path@),
            from as int,
            items_view(ys@),
        ),
{
    let ghost pv = path_view(path@);
    let ghost yv = items_view(ys@);
    let ghost start = changes_view(out@);
    if from >= ys.len() {
        assert(changes_view(out@) =~= start + added_items(pv, from as int, yv));
        return;
    }
    let mut j: usize = from;
    assert(added_items(pv, from as int, yv.take(j as int)) =~= Seq::empty());
    assert(changes_view(out@) =~= start + added_items(pv, from as int, yv.take(j as int)));
    while j < ys.len()
        invariant
            from <= j <= ys.len(),
            pv == path_view(path@),
            yv == items_view(ys@),
            changes_view(out@) == start + added_items(pv, from as int, yv.take(j as int)),
        decreases ys.len() - j,
    {
        let child = child_path(path, PathSeg::Index(j));
        push_change(out, Change::Added(child, ys[j].duplicate()));
        assert(changes_view(out@) =~= start + added_items(pv, from as int, yv.take(j + 1)));
        j = j + 1;
    }
    assert(yv.take(j as int) =~= yv);
}

fn diff_members_into(
    path: &Vec<PathSeg>,
    xs: &Vec<(String, Json)>,
    ys: &Vec<(String, Json)>,
    out: &mut Vec<Change>,
)
    ensures
        changes_view(final(out)@) == changes_view(old(out)@) + diff_members(
            path_view(path@),
            members_view(xs@),
            members_view(ys@),
        ),
    decreases xs,
{
    let ghost pv = path_view(path@);
    let ghost xv = members_view(xs@);
    let ghost yv = members_view(ys@);
    let ghost start = changes_view(out@);
    let mut i: usize = 0;
    assert(xv.take(0) =~= Seq::<(Seq<char>, JsonV)>::empty());
    while i < xs.len()
        invariant
            i <= xs.len(),
            pv == path_view(path@),
            xv == members_view(xs@),
            yv == members_view(ys@),
            changes_view(out@) == start + diff_members(pv, xv.take(i as int), yv),
        decreases xs.len() - i,
    {
        assert(xv.take(i + 1).drop_last() =~= xv.take(i as int));
        assert(xv.take(i + 1).last() == (xs@[i as int].0@, xs@[i as int].1@));
        let child = child_path(path, PathSeg::Key(xs[i].0.clone()));
        match find_member(ys, xs[i].0.as_str()) {
            Some(y) => {
                proof {
                    assert(decreases_to!(*xs => xs@[i as int]));
                    assert(decreases_to!(xs@[i as int] => xs@[i as int].1));
                }
                diff_into(&child, &xs[i].1, y, out);
            },
            None => {
                push_change(out, Change::Removed(child, xs[i].1.duplicate()));
            },
        }
        assert(changes_view(out@) =~= start + diff_members(pv, xv.take(i + 1), yv));
        i = i + 1;
    }
    assert(xv.take(i as int) =~= xv);
}

fn added_members_into(
    path: &Vec<PathSeg>,
    xs: &Vec<(String, Json)>,
    ys: &Vec<(String, Json)>,
    out: &mut Vec<Change>,
)
    ensures
        changes_view(final(out)@) == changes_view(old(out)@) + added_members(
            path_view(path@),
            members_view(xs@),
            members_view(ys@),
        ),
{
    let ghost pv = path_view(path@);
    let ghost xv = members_view(xs@);
    let ghost yv = members_view(ys@);
    let ghost start = changes_view(out@);
    let mut j: usize = 0;
    assert(yv.take(0) =~= Seq::<(Seq<char>, JsonV)>::empty());
    while j < ys.len()
        invariant
            j <= ys.len(),
            pv == path_view(path@),
            xv == members_view(xs@),
            yv == members_view(ys@),
            changes_view(out@) == start + added_members(pv, xv, yv.take(j as int)),
        decreases ys.len() - j,
    {
        assert(yv.take(j + 1).drop_last() =~= yv.take(j as int));
        assert(yv.take(j + 1).last() == (ys@[j as int].0@, ys@[j as int].1@));
        if find_member(xs, ys[j].0.as_str()).is_none() {
            let child = child_path(path, PathSeg::Key(ys[j].0.clone()));
            push_change(out, Change::Added(child, ys[j].1.duplicate()));
        }
        assert(changes_view(out@) =~= start + added_members(pv, xv, yv.take(j + 1)));
        j = j + 1;
    }
    assert(yv.take(j as int) =~= yv);
}

fn diff_into(path: &Vec<PathSeg>, a: &Json, b: &Json, out: &mut Vec<Change>)
    ensures
        changes_view(final(out)@) == changes_view(old(out)@) + diff_at(path_view(path@), a@, b@),
    decreases a,
{
    match (a, b) {
        (Json::Array(xs), Json::Array(ys)) => {
            proof {
                lemma_items_view(*xs);
                lemma_items_view(*ys);
                assert(decreases_to!(*a => a->Array_0));
            }
            diff_items_into(path, xs, ys, out);
            added_items_into(path, xs.len(), ys, out);
        },
        (Json::Object(xs), Json::Object(ys)) => {
            proof {
                lemma_object_view(*xs);
                lemma_object_view(*ys);
                assert(decreases_to!(*a => a->Object_0));
            }
            diff_members_into(path, xs, ys, out);
            added_members_into(path, xs, ys, out);
        },
        (Json::Array(xs), Json::Object(ys)) => {
            let none: Vec<Json> = Vec::new();
            let no_members: Vec<(String, Json)> = Vec::new();
            proof {
                lemma_items_view(*xs);
                lemma_object_view(*ys);
                assert(items_view(none@) =~= Seq::empty());
                assert(members_view(no_members@) =~= Seq::empty());
                assert(decreases_to!(*a => a->Array_0));
            }
            diff_items_into(path, xs, &none, out);
            added_members_into(path, &no_members, ys, out);
        },
        (Json::Object(xs), Json::Array(ys)) => {
            let no_members: Vec<(String, Json)> = Vec::new();
            proof {
                lemma_object_view(*xs);
                lemma_items_view(*ys);
                assert(members_view(no_members@) =~= Seq::empty());
                assert(decreases_to!(*a => a->Object_0));
            }
            diff_members_into(path, xs, &no_members, out);
            added_items_into(path, 0, ys, out);
        },
        _ => {
            let p = child_path_copy(path);
            if leaf_equal(a, b) {
                push_change(out, Change::Unchanged(p, a.duplicate()));
            } else {
                push_change(out, Change::Modified(p, a.duplicate(), b.duplicate()));
            }
        },
    }
}

fn child_path_copy(path: &Vec<PathSeg>) -> (r: Vec<PathSeg>)
    ensures
        path_view(r@) == path_view(path@),
{
    let mut r: Vec<PathSeg> = Vec::new();
    let mut i: usize = 0;
    while i < path.len()
        invariant
            i <= path.len(),
            r@.len() == i,
            forall|j: int| 0 <= j < i ==> (#[trigger] r@[j])@ == path@[j]@,
        decreases path.len() - i,
    {
        let s = match &path[i] {
            PathSeg::Key(k) => PathSeg::Key(k.clone()),
            PathSeg::Index(n) => PathSeg::Index(*n),
        };
        r.push(s);
        i = i + 1;
    }
    assert(path_view(r@) =~= path_view(path@));
    r
}

/// The records that compare the snapshot `before` with the snapshot `after`,
/// in the order of a walk of the trees.
pub fn diff(before: &Json, after: &Json) -> (r: Vec<Change>)
    ensures
        changes_view(r@) == diff_at(Seq::empty(), before@, after@),
{
    let mut out: Vec<Change> = Vec::new();
    let root: Vec<PathSeg> = Vec::new();
    assert(path_view(root@) =~= Seq::empty());
    assert(changes_view(out@) =~= Seq::empty());
    diff_into(&root, before, after, &mut out);
    assert(changes_view(out@) =~= diff_at(Seq::empty(), before@, after@));
    out
}

/// No object in the tree has two members of one name.
pub open spec fn keys_unique(v: JsonV) -> bool
    decreases v,
{
    match v {
        JsonV::Array(xs) => forall|i: int| 0 <= i < xs.len() ==> keys_unique(#[trigger] xs[i]),
        JsonV::Object(ms) => {
            &&& forall|i: int, j: int| 0 <= i < j < ms.len() ==> ms[i].0 != ms[j].0
            &&& forall|i: int| 0 <= i < ms.len() ==> keys_unique(#[trigger] ms[i].1)
        },
        _ => true,
    }
}

/// Every record is `Unchanged`.
pub open spec fn all_unchanged(cs: Seq<ChangeV>) -> bool {
    forall|i: int| 0 <= i < cs.len() ==> #[trigger] cs[i] is Unchanged
}

proof fn lemma_all_unchanged_concat(a: Seq<ChangeV>, b: Seq<ChangeV>)
    requires
        all_unchanged(a),
        all_unchanged(b),
    ensures
        all_unchanged(a + b),
{
    assert forall|i: int| 0 <= i < (a + b).len() implies #[trigger] (a + b)[i] is Unchanged by {
        if i < a.len() {
            assert((a + b)[i] == a[i]);
        } else {
            assert((a + b)[i] == b[i - a.len()]);
        }
    }
}

/// Where member names are distinct, a name finds its own member.
pub proof fn lemma_member_unique(ms: Seq<(Seq<char>, JsonV)>, i: int)
    requires
        0 <= i < ms.len(),
        forall|a: int, b: int| 0 <= a < b < ms.len() ==> ms[a].0 != ms[b].0,
    ensures
        member(ms, ms[i].0) == Some(ms[i].1),
    decreases i,
{
    if i > 0 {
        let rest = ms.drop_first();
        assert(ms[0].0 != ms[i].0);
        assert(rest[i - 1] == ms[i]);
        lemma_member_unique(rest, i - 1);
    }
}

proof fn lemma_items_identity(path: Seq<PathSegV>, xs: Seq<JsonV>, ys: Seq<JsonV>)
    requires
        xs.len() <= ys.len(),
        forall|i: int| 0 <= i < xs.len() ==> xs[i] == ys[i] && keys_unique(#[trigger] xs[i]),
    ensures
        all_unchanged(diff_items(path, xs, ys)),
    decreases xs,
{
    if xs.len() > 0 {
        let i = xs.len() - 1;
        lemma_items_identity(path, xs.drop_last(), ys);
        lemma_diff_identity_at(path.push(PathSegV::Index(i)), xs[i]);
        lemma_all_unchanged_concat(
            diff_items(path, xs.drop_last(), ys),
            diff_at(path.push(PathSegV::Index(i)), xs[i], ys[i]),
        );
    }
}

proof fn lemma_members_identity(
    path: Seq<PathSegV>,
    xs: Seq<(Seq<char>, JsonV)>,
    ys: Seq<(Seq<char>, JsonV)>,
)
    requires
        xs.len() <= ys.len(),
        forall|i: int| 0 <= i < xs.len() ==> xs[i] == ys[i],
        forall|a: int, b: int| 0 <= a < b < ys.len() ==> ys[a].0 != ys[b].0,
        forall|i: int| 0 <= i < ys.len() ==> keys_unique(#[trigger] ys[i].1),
    ensures
        all_unchanged(diff_members(path, xs, ys)),
    decreases xs,
{
    if xs.len() > 0 {
        let i = xs.len() - 1;
        let x = xs.last();
        lemma_members_identity(path, xs.drop_last(), ys);
        lemma_member_unique(ys, i);
        assert(keys_unique(ys[i].1));
        assert(decreases_to!(xs => xs[i]));
        lemma_diff_identity_at(path.push(PathSegV::Key(x.0)), x.1);
        lemma_all_unchanged_concat(
            diff_members(path, xs.drop_last(), ys),
            diff_at(path.push(PathSegV::Key(x.0)), x.1, x.1),
        );
    }
}

proof fn lemma_none_added(path: Seq<PathSegV>, xs: Seq<(Seq<char>, JsonV)>, ys: Seq<(Seq<char>, JsonV)>)
    requires
        ys.len() <= xs.len(),
        forall|i: int| 0 <= i < ys.len() ==> xs[i].0 == ys[i].0,
        forall|a: int, b: int| 0 <= a < b < xs.len() ==> xs[a].0 != xs[b].0,
    ensures
        added_members(path, xs, ys) == Seq::<ChangeV>::empty(),
    decreases ys.len(),
{
    if ys.len() > 0 {
        lemma_none_added(path, xs, ys.drop_last());
        lemma_member_unique(xs, ys.len() - 1);
        assert(added_members(path, xs, ys) =~= Seq::<ChangeV>::empty());
    }
}

/// Comparing a tree with itself reports every leaf unchanged and nothing
/// added, removed or modified, where no object repeats a member name.
pub proof fn lemma_diff_identity_at(path: Seq<PathSegV>, a: JsonV)
    requires
        keys_unique(a),
    ensures
        all_unchanged(diff_at(path, a, a)),
    decreases a,
{
    match a {
        JsonV::Array(xs) => {
            lemma_items_identity(path, xs, xs);
            assert(added_items(path, xs.len() as int, xs) =~= Seq::<ChangeV>::empty());
            lemma_all_unchanged_concat(diff_items(path, xs, xs), added_items(path, xs.len() as int, xs));
        },
        JsonV::Object(ms) => {
            lemma_members_identity(path, ms, ms);
            lemma_none_added(path, ms, ms);
            lemma_all_unchanged_concat(diff_members(path, ms, ms), added_members(path, ms, ms));
        },
        _ => {},
    }
}

/// The value at the end of a path of member names, if the path leads
/// anywhere.
pub open spec fn value_at(a: JsonV, p: Seq<PathSegV>) -> Option<JsonV>
    decreases p.len(),
{
    if p.len() == 0 {
        Some(a)
    } else {
        match (a, p[0]) {
            (JsonV::Object(ms), PathSegV::Key(k)) => match member(ms, k) {
                Some(v) => value_at(v, p.drop_first()),
                None => None,
            },
            _ => None,
        }
    }
}

/// `ms` with the value of each member named `k` set to `w`.
pub open spec fn with_member(ms: Seq<(Seq<char>, JsonV)>, k: Seq<char>, w: JsonV) -> Seq<
    (Seq<char>, JsonV),
> {
    Seq::new(ms.len(), |i: int| if ms[i].0 == k { (k, w) } else { ms[i] })
}

/// `a` with the value at the end of the path `p` set to `v`.
pub open spec fn replace_at(a: JsonV, p: Seq<PathSegV>, v: JsonV) -> JsonV
    decreases p.len(),
{
    if p.len() == 0 {
        v
    } else {
        match (a, p[0]) {
            (JsonV::Object(ms), PathSegV::Key(k)) => match member(ms, k) {
                Some(c) => JsonV::Object(with_member(ms, k, replace_at(c, p.drop_first(), v))),
                None => a,
            },
            _ => a,
        }
    }
}

/// Exactly one record is not `Unchanged`, and it is the modification of the
/// value at `path` from `old` to `new`.
pub open spec fn only_modified(cs: Seq<ChangeV>, path: Seq<PathSegV>, old: JsonV, new: JsonV) -> bool {
    exists|k: int|
        0 <= k < cs.len() && cs[k] == ChangeV::Modified(path, old, new) && forall|j: int|
            0 <= j < cs.len() && j != k ==> #[trigger] cs[j] is Unchanged
}

proof fn lemma_only_modified_concat(
    a: Seq<ChangeV>,
    b: Seq<ChangeV>,
    path: Seq<PathSegV>,
    old: JsonV,
    new: JsonV,
)
    requires
        (all_unchanged(a) && only_modified(b, path, old, new)) || (only_modified(a, path, old, new)
            && all_unchanged(b)),
    ensures
        only_modified(a + b, path, old, new),
{
    let c = a + b;
    if all_unchanged(a) && only_modified(b, path, old, new) {
        let k = choose|k: int|
            0 <= k < b.len() && b[k] == ChangeV::Modified(path, old, new) && forall|j: int|
                0 <= j < b.len() && j != k ==> #[trigger] b[j] is Unchanged;
        assert(c[a.len() + k] == b[k]);
        assert forall|j: int| 0 <= j < c.len() && j != a.len() + k implies #[trigger] c[j] is Unchanged by {
            if j < a.len() {
                assert(c[j] == a[j]);
            } else {
                assert(c[j] == b[j - a.len()]);
            }
        }
    } else {
        let k = choose|k: int|
            0 <= k < a.len() && a[k] == ChangeV::Modified(path, old, new) && forall|j: int|
                0 <= j < a.len() && j != k ==> #[trigger] a[j] is Unchanged;
        assert(c[k] == a[k]);
        assert forall|j: int| 0 <= j < c.len() && j != k implies #[trigger] c[j] is Unchanged by {
            if j < a.len() {
                assert(c[j] == a[j]);
            } else {
                assert(c[j] == b[j - a.len()]);
            }
        }
    }
}

proof fn lemma_member_index(ms: Seq<(Seq<char>, JsonV)>, k: Seq<char>) -> (i: int)
    requires
        member(ms, k) is Some,
    ensures
        0 <= i < ms.len(),
        ms[i].0 == k,
        member(ms, k) == Some(ms[i].1),
    decreases ms.len(),
{
    if ms[0].0 == k {
        0
    } else {
        let j = lemma_member_index(ms.drop_first(), k);
        j + 1
    }
}

proof fn lemma_members_one_change(
    q: Seq<PathSegV>,
    xs: Seq<(Seq<char>, JsonV)>,
    ys: Seq<(Seq<char>, JsonV)>,
    n: int,
    i: int,
    path: Seq<PathSegV>,
    old: JsonV,
    new: JsonV,
)
    requires
        0 <= n <= xs.len(),
        0 <= i < xs.len(),
        forall|a: int, b: int| 0 <= a < b < xs.len() ==> xs[a].0 != xs[b].0,
        forall|j: int| 0 <= j < xs.len() ==> keys_unique(#[trigger] xs[j].1),
        ys == with_member(xs, xs[i].0, ys[i].1),
        only_modified(diff_at(q.push(PathSegV::Key(xs[i].0)), xs[i].1, ys[i].1), path, old, new),
    ensures
        n <= i ==> all_unchanged(diff_members(q, xs.take(n), ys)),
        n > i ==> only_modified(diff_members(q, xs.take(n), ys), path, old, new),
    decreases n,
{
    if n > 0 {
        let t = xs.take(n);
        let j = n - 1;
        assert(t.drop_last() =~= xs.take(n - 1));
        assert(t.last() == xs[j]);
        lemma_members_one_change(q, xs, ys, n - 1, i, path, old, new);
        assert forall|a: int, b: int| 0 <= a < b < ys.len() implies ys[a].0 != ys[b].0 by {
            assert(ys[a].0 == xs[a].0 && ys[b].0 == xs[b].0);
        }
        lemma_member_unique(ys, j);
        assert(ys[j].0 == xs[j].0);
        let prev = diff_members(q, xs.take(n - 1), ys);
        let here = diff_at(q.push(PathSegV::Key(xs[j].0)), xs[j].1, ys[j].1);
        assert(diff_members(q, t, ys) == prev + here);
        if j != i {
            if xs[j].0 == xs[i].0 {
                if j < i {
                    assert(xs[j].0 != xs[i].0);
                } else {
                    assert(xs[i].0 != xs[j].0);
                }
            }
            assert(ys[j] == xs[j]);
            lemma_diff_identity_at(q.push(PathSegV::Key(xs[j].0)), xs[j].1);
            if n - 1 <= i {
                lemma_all_unchanged_concat(prev, here);
            } else {
                lemma_only_modified_concat(prev, here, path, old, new);
            }
        } else {
            lemma_only_modified_concat(prev, here, path, old, new);
        }
    } else {
        assert(xs.take(0) =~= Seq::<(Seq<char>, JsonV)>::empty());
    }
}

/// Changing one leaf of a tree in which no object repeats a member name to
/// a value that differs from it as a leaf, and nothing else, is reported as exactly one modification, at the path of
/// that leaf from its old value to its new one; every other record is
/// `Unchanged`.
pub proof fn lemma_single_leaf_change(q: Seq<PathSegV>, a: JsonV, p: Seq<PathSegV>, new: JsonV)
    requires
        keys_unique(a),
        value_at(a, p) is Some,
        value_at(a, p)->0.is_leaf(),
        new.is_leaf(),
        !leaf_same(value_at(a, p)->0, new),
    ensures
        only_modified(diff_at(q, a, replace_at(a, p, new)), q + p, value_at(a, p)->0, new),
    decreases p.len(),
{
    if p.len() == 0 {
        assert(q + p =~= q);
        let cs = diff_at(q, a, new);
        assert(cs[0] == ChangeV::Modified(q, a, new));
    } else {
        let ms = a->Object_0;
        let k = p[0]->Key_0;
        let i = lemma_member_index(ms, k);
        let c = ms[i].1;
        let rest = p.drop_first();
        assert(keys_unique(c));
        let w = replace_at(c, rest, new);
        lemma_single_leaf_change(q.push(PathSegV::Key(k)), c, rest, new);
        assert(q.push(PathSegV::Key(k)) + rest =~= q + p);
        let ys = with_member(ms, k, w);
        assert(ys[i].1 == w);
        assert(ys == with_member(ms, ms[i].0, ys[i].1));
        lemma_members_one_change(q, ms, ys, ms.len() as int, i, q + p, value_at(a, p)->0, new);
        assert(ms.take(ms.len() as int) =~= ms);
        lemma_none_added(q, ms, ys);
        assert(diff_at(q, a, replace_at(a, p, new)) == diff_members(q, ms, ys) + added_members(q, ms, ys));
        lemma_only_modified_concat(diff_members(q, ms, ys), Seq::empty(), q + p, value_at(a, p)->0, new);
        assert(diff_members(q, ms, ys) + Seq::<ChangeV>::empty() =~= diff_members(q, ms, ys));
    }
}

} // verus!
