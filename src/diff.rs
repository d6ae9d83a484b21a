//! Structural comparison of two documents into an ordered list of changes.
use vstd::prelude::*;
use crate::doc::{Doc, Json, scalars_equal, well_formed, keys_distinct, entries_well_formed, items_well_formed};

verus! {

broadcast use vstd::std_specs::vec::axiom_vec_index_decreases;

/// How a value changed.
#[derive(Debug, Clone, Copy, PartialEq, Eq, Structural)]
pub enum ChangeKind {
    Added,
    Removed,
    Modified,
}

/// One side of a change: a value, or one of the two sentinels that stand
/// where a side has no value.
#[derive(Debug)]
pub enum Side {
    /// Shown as `null`: the side of a mapping key, or of a new sequence item,
    /// that has no value.
    Null,
    /// Shown as `removed`: the new side of a sequence item that went away.
    Removed,
    /// The value on that side, as it stands in the document.
    Value(Json),
}

pub enum SideModel {
    Null,
    Removed,
    Value(Doc),
}

impl Side {
    pub open spec fn model(&self) -> SideModel {
        match self {
            Side::Null => SideModel::Null,
            Side::Removed => SideModel::Removed,
            Side::Value(j) => SideModel::Value(j.model()),
        }
    }
}

/// One detected difference, at a path such as `.a.b[2]`.
#[derive(Debug)]
pub struct Change {
    pub path: String,
    pub old: Side,
    pub new: Side,
    pub kind: ChangeKind,
}

pub struct ChangeModel {
    pub path: Seq<char>,
    pub old: SideModel,
    pub new: SideModel,
    pub kind: ChangeKind,
}

impl Change {
    pub open spec fn model(&self) -> ChangeModel {
        ChangeModel { path: self.path@, old: self.old.model(), new: self.new.model(), kind: self.kind }
    }
}

pub open spec fn models(s: Seq<Change>) -> Seq<ChangeModel> {
    s.map_values(|c: Change| c.model())
}

pub open spec fn record(path: Seq<char>, old: SideModel, new: SideModel, kind: ChangeKind) -> ChangeModel {
    ChangeModel { path, old, new, kind }
}

pub open spec fn digit_char(d: nat) -> char {
    if d == 0 { '0' } else if d == 1 { '1' } else if d == 2 { '2' } else if d == 3 { '3' }
    else if d == 4 { '4' } else if d == 5 { '5' } else if d == 6 { '6' } else if d == 7 { '7' }
    else if d == 8 { '8' } else { '9' }
}

/// The decimal digits of `n`, without leading zeros.
pub open spec fn decimal(n: nat) -> Seq<char>
    decreases n,
{
    if n < 10 {
        seq![digit_char(n)]
    } else {
        decimal(n / 10).push(digit_char(n % 10))
    }
}

/// The path of a mapping key: the separator is written even after an empty path.
pub open spec fn key_path(path: Seq<char>, key: Seq<char>) -> Seq<char> {
    path + seq!['.'] + key
}

/// The path of a sequence item.
pub open spec fn index_path(path: Seq<char>, i: nat) -> Seq<char> {
    path + seq!['['] + decimal(i) + seq![']']
}

pub open spec fn has_key(entries: Seq<(Seq<char>, Doc)>, key: Seq<char>) -> bool {
    exists|i: int| 0 <= i < entries.len() && #[trigger] entries[i].0 == key
}

/// The position of the first entry under `key`.
pub open spec fn first_index(entries: Seq<(Seq<char>, Doc)>, key: Seq<char>) -> int {
    choose|i: int|
        0 <= i < entries.len() && entries[i].0 == key && forall|j: int|
            0 <= j < i ==> #[trigger] entries[j].0 != key
}

/// The value under `key`.
pub open spec fn lookup(entries: Seq<(Seq<char>, Doc)>, key: Seq<char>) -> Doc {
    entries[first_index(entries, key)].1
}

/// `Removed` records for the old entries from `i` on whose key the new side lacks.
pub open spec fn removed_from(
    path: Seq<char>,
    oe: Seq<(Seq<char>, Doc)>,
    ne: Seq<(Seq<char>, Doc)>,
    i: nat,
) -> Seq<ChangeModel>
    decreases oe.len() - i,
{
    if i >= oe.len() {
        Seq::empty()
    } else if has_key(ne, oe[i as int].0) {
        removed_from(path, oe, ne, i + 1)
    } else {
        seq![
            record(
                key_path(path, oe[i as int].0),
                SideModel::Value(oe[i as int].1),
                SideModel::Null,
                ChangeKind::Removed,
            ),
        ] + removed_from(path, oe, ne, i + 1)
    }
}

/// `Added` records for the new entries from `i` on whose key the old side lacks.
pub open spec fn added_from(
    path: Seq<char>,
    oe: Seq<(Seq<char>, Doc)>,
    ne: Seq<(Seq<char>, Doc)>,
    i: nat,
) -> Seq<ChangeModel>
    decreases ne.len() - i,
{
    if i >= ne.len() {
        Seq::empty()
    } else if has_key(oe, ne[i as int].0) {
        added_from(path, oe, ne, i + 1)
    } else {
        seq![
            record(
                key_path(path, ne[i as int].0),
                SideModel::Null,
                SideModel::Value(ne[i as int].1),
                ChangeKind::Added,
            ),
        ] + added_from(path, oe, ne, i + 1)
    }
}

/// The changes under the keys that both sides hold, for the old entries from
/// `i` on, in old-side order.
pub open spec fn common_from(
    path: Seq<char>,
    oe: Seq<(Seq<char>, Doc)>,
    ne: Seq<(Seq<char>, Doc)>,
    i: nat,
) -> Seq<ChangeModel>
    decreases oe, oe.len() - i,
{
    if i >= oe.len() {
        Seq::empty()
    } else if has_key(ne, oe[i as int].0) {
        diff(key_path(path, oe[i as int].0), oe[i as int].1, lookup(ne, oe[i as int].0))
            + common_from(path, oe, ne, i + 1)
    } else {
        common_from(path, oe, ne, i + 1)
    }
}

pub open spec fn max_len(a: nat, b: nat) -> nat {
    if a >= b { a } else { b }
}

/// The changes of the sequence items from index `i` on.
pub open spec fn items_from(path: Seq<char>, oa: Seq<Doc>, na: Seq<Doc>, i: nat) -> Seq<ChangeModel>
    decreases oa, oa.len() + na.len() - i,
{
    if i >= oa.len() && i >= na.len() {
        Seq::empty()
    } else if i < oa.len() && i < na.len() {
        diff(index_path(path, i), oa[i as int], na[i as int]) + items_from(path, oa, na, i + 1)
    } else if i < oa.len() {
        seq![
            record(
                index_path(path, i),
                SideModel::Value(oa[i as int]),
                SideModel::Removed,
                ChangeKind::Removed,
            ),
        ] + items_from(path, oa, na, i + 1)
    } else {
        seq![
            record(
                index_path(path, i),
                SideModel::Null,
                SideModel::Value(na[i as int]),
                ChangeKind::Added,
            ),
        ] + items_from(path, oa, na, i + 1)
    }
}

/// A `Modified` record when the values differ.
pub open spec fn scalar_diff(path: Seq<char>, old: Doc, new: Doc) -> Seq<ChangeModel> {
    if scalars_equal(old, new) {
        Seq::empty()
    } else {
        seq![record(path, SideModel::Value(old), SideModel::Value(new), ChangeKind::Modified)]
    }
}

/// The changes from `old` to `new`, under `path`: for two mappings the
/// removed keys, then the added keys, then the changes under the shared keys;
/// for two sequences the changes item by item; otherwise one `Modified`
/// record when the values differ.
#[verifier::opaque]
pub open spec fn diff(path: Seq<char>, old: Doc, new: Doc) -> Seq<ChangeModel>
    decreases old, 0nat,
{
    match old {
        Doc::Object(oe) => match new {
            Doc::Object(ne) => removed_from(path, oe, ne, 0) + added_from(path, oe, ne, 0)
                + common_from(path, oe, ne, 0),
            _ => scalar_diff(path, old, new),
        },
        Doc::Array(oa) => match new {
            Doc::Array(na) => items_from(path, oa, na, 0),
            _ => scalar_diff(path, old, new),
        },
        _ => scalar_diff(path, old, new),
    }
}

/// What the entries of a mapping stand for.
pub open spec fn entries_model(v: Seq<(String, Json)>) -> Seq<(Seq<char>, Doc)> {
    Seq::new(v.len(), |i: int| (v[i].0@, v[i].1.model()))
}

proof fn lemma_object_model(v: Vec<(String, Json)>)
    ensures
        Json::Object(v).model() == Doc::Object(entries_model(v@)),
{
    match Json::Object(v).model() {
        Doc::Object(m) => assert(m =~= entries_model(v@)),
        _ => {},
    }
}

proof fn lemma_array_model(v: Vec<Json>)
    ensures
        Json::Array(v).model() == Doc::Array(v@.map_values(|j: Json| j.model())),
{
    match Json::Array(v).model() {
        Doc::Array(m) => assert(m =~= v@.map_values(|j: Json| j.model())),
        _ => {},
    }
}

proof fn lemma_first_index(m: Seq<(Seq<char>, Doc)>, key: Seq<char>, j: int)
    requires
        0 <= j < m.len(),
        m[j].0 == key,
        forall|k: int| 0 <= k < j ==> #[trigger] m[k].0 != key,
    ensures
        has_key(m, key),
        first_index(m, key) == j,
        lookup(m, key) == m[j].1,
{
    let f = first_index(m, key);
    assert(0 <= f < m.len() && m[f].0 == key && forall|k: int| 0 <= k < f ==> #[trigger] m[k].0 != key);
    if f < j {
        assert(m[f].0 != key);
    }
    if j < f {
        assert(m[j].0 != key);
    }
}

/// The position of the first entry under `key`, if any.
fn find_key(entries: &Vec<(String, Json)>, key: &String) -> (r: Option<usize>)
    ensures
        match r {
            None => !has_key(entries_model(entries@), key@),
            Some(j) => j < entries@.len() && entries@[j as int].0@ == key@
                && lookup(entries_model(entries@), key@) == entries@[j as int].1.model(),
        },
{
    let ghost m = entries_model(entries@);
    let mut i: usize = 0;
    while i < entries.len()
        invariant
            i <= entries@.len(),
            m == entries_model(entries@),
            forall|k: int| 0 <= k < i ==> #[trigger] m[k].0 != key@,
        decreases entries@.len() - i,
    {
        if entries[i].0 == *key {
            proof {
                lemma_first_index(m, key@, i as int);
            }
            return Some(i);
        }
        i = i + 1;
    }
    None
}

fn digit_str(d: usize) -> (r: &'static str)
    requires
        d < 10,
    ensures
        r@ == seq![digit_char(d as nat)],
{
    proof {
        reveal_strlit("0");
        reveal_strlit("1");
        reveal_strlit("2");
        reveal_strlit("3");
        reveal_strlit("4");
        reveal_strlit("5");
        reveal_strlit("6");
        reveal_strlit("7");
        reveal_strlit("8");
        reveal_strlit("9");
    }
    if d == 0 {
        "0"
    } else if d == 1 {
        "1"
    } else if d == 2 {
        "2"
    } else if d == 3 {
        "3"
    } else if d == 4 {
        "4"
    } else if d == 5 {
        "5"
    } else if d == 6 {
        "6"
    } else if d == 7 {
        "7"
    } else if d == 8 {
        "8"
    } else {
        "9"
    }
}

fn append_decimal(s: &mut String, n: usize)
    ensures
        final(s)@ == old(s)@ + decimal(n as nat),
    decreases n,
{
    if n >= 10 {
        append_decimal(s, n / 10);
        s.append(digit_str(n % 10));
        assert(final(s)@ =~= old(s)@ + decimal(n as nat));
    } else {
        s.append(digit_str(n));
    }
}

fn join_key(path: &String, key: &String) -> (r: String)
    ensures
        r@ == key_path(path@, key@),
{
    proof {
        reveal_strlit(".");
    }
    let mut r = path.clone();
    r.append(".");
    r.append(key.as_str());
    r
}

fn join_index(path: &String, i: usize) -> (r: String)
    ensures
        r@ == index_path(path@, i as nat),
{
    proof {
        reveal_strlit("[");
        reveal_strlit("]");
    }
    let mut r = path.clone();
    r.append("[");
    append_decimal(&mut r, i);
    r.append("]");
    assert(r@ =~= index_path(path@, i as nat));
    r
}

fn push_change(out: &mut Vec<Change>, c: Change)
    ensures
        models(final(out)@) == models(old(out)@).push(c.model()),
{
    out.push(c);
    assert(models(final(out)@) =~= models(old(out)@).push(c.model()));
}

fn modified(path: &String, before: &Json, after: &Json, out: &mut Vec<Change>)
    ensures
        models(final(out)@) == models(old(out)@) + scalar_diff(path@, before.model(), after.model()),
{
    if !before.scalar_equals(after) {
        let c = Change {
            path: path.clone(),
            old: Side::Value(before.duplicate()),
            new: Side::Value(after.duplicate()),
            kind: ChangeKind::Modified,
        };
        push_change(out, c);
    }
    assert(models(final(out)@) =~= models(old(out)@) + scalar_diff(path@, before.model(), after.model()));
}

/// The changes under the `i`-th old key, when the new side holds it too.
#[verifier::spinoff_prover]
#[verifier::rlimit(100)]
fn common_step(
    path: &String,
    oe: &Vec<(String, Json)>,
    ne: &Vec<(String, Json)>,
    i: usize,
    out: &mut Vec<Change>,
)
    requires
        i < oe@.len(),
    ensures
        models(final(out)@) + common_from(path@, entries_model(oe@), entries_model(ne@), (i + 1) as nat)
            == models(old(out)@) + common_from(path@, entries_model(oe@), entries_model(ne@), i as nat),
    decreases Json::Object(*oe), 1nat,
{
    let ghost om = entries_model(oe@);
    let ghost nm = entries_model(ne@);
    let ghost before = models(out@);
    assert(om[i as int] == (oe@[i as int].0@, oe@[i as int].1.model()));
    match find_key(ne, &oe[i].0) {
        Some(j) => {
            assert(nm[j as int].0 == om[i as int].0);
            let p = join_key(path, &oe[i].0);
            proof {
                let o = Json::Object(*oe);
                assert(decreases_to!(o => o->Object_0));
                assert(decreases_to!(*oe => oe@));
                assert(decreases_to!(oe@ => oe@[i as int]));
                assert(decreases_to!(oe@[i as int] => oe@[i as int].1));
            }
            compare_into(&p, &oe[i].1, &ne[j].1, out);
            assert(models(out@) + common_from(path@, om, nm, (i + 1) as nat) =~= before
                + common_from(path@, om, nm, i as nat));
        },
        None => {},
    }
}

fn compare_objects(
    path: &String,
    oe: &Vec<(String, Json)>,
    ne: &Vec<(String, Json)>,
    out: &mut Vec<Change>,
)
    ensures
        models(final(out)@) == models(old(out)@) + diff(
            path@,
            Json::Object(*oe).model(),
            Json::Object(*ne).model(),
        ),
    decreases Json::Object(*oe), 2nat,
{
    let ghost om = entries_model(oe@);
    let ghost nm = entries_model(ne@);
    let ghost base = models(out@);
    proof {
        reveal(diff);
        lemma_object_model(*oe);
        lemma_object_model(*ne);
    }
    let mut i: usize = 0;
    while i < oe.len()
        invariant
            i <= oe@.len(),
            om == entries_model(oe@),
            nm == entries_model(ne@),
            models(out@) + removed_from(path@, om, nm, i as nat) == base + removed_from(
                path@,
                om,
                nm,
                0,
            ),
        decreases oe@.len() - i,
    {
        let ghost before = models(out@);
        assert(om[i as int] == (oe@[i as int].0@, oe@[i as int].1.model()));
        match find_key(ne, &oe[i].0) {
            Some(j) => {
                assert(nm[j as int].0 == om[i as int].0);
            },
            None => {
                let c = Change {
                    path: join_key(path, &oe[i].0),
                    old: Side::Value(oe[i].1.duplicate()),
                    new: Side::Null,
                    kind: ChangeKind::Removed,
                };
                push_change(out, c);
            },
        }
        assert(models(out@) + removed_from(path@, om, nm, (i + 1) as nat) =~= before
            + removed_from(path@, om, nm, i as nat));
        i = i + 1;
    }
    let ghost base2 = models(out@);
    let mut i: usize = 0;
    while i < ne.len()
        invariant
            i <= ne@.len(),
            om == entries_model(oe@),
            nm == entries_model(ne@),
            models(out@) + added_from(path@, om, nm, i as nat) == base2 + added_from(
                path@,
                om,
                nm,
                0,
            ),
        decreases ne@.len() - i,
    {
        let ghost before = models(out@);
        assert(nm[i as int] == (ne@[i as int].0@, ne@[i as int].1.model()));
        match find_key(oe, &ne[i].0) {
            Some(j) => {
                assert(om[j as int].0 == nm[i as int].0);
            },
            None => {
                let c = Change {
                    path: join_key(path, &ne[i].0),
                    old: Side::Null,
                    new: Side::Value(ne[i].1.duplicate()),
                    kind: ChangeKind::Added,
                };
                push_change(out, c);
            },
        }
        assert(models(out@) + added_from(path@, om, nm, (i + 1) as nat) =~= before + added_from(
            path@,
            om,
            nm,
            i as nat,
        ));
        i = i + 1;
    }
    let ghost base3 = models(out@);
    let mut i: usize = 0;
    while i < oe.len()
        invariant
            i <= oe@.len(),
            om == entries_model(oe@),
            nm == entries_model(ne@),
            models(out@) + common_from(path@, om, nm, i as nat) == base3 + common_from(
                path@,
                om,
                nm,
                0,
            ),
        decreases oe@.len() - i,
    {
        common_step(path, oe, ne, i, out);
        i = i + 1;
    }
    assert(models(out@) =~= base + (removed_from(path@, om, nm, 0) + added_from(path@, om, nm, 0)
        + common_from(path@, om, nm, 0)));
}

proof fn lemma_items_step(path: Seq<char>, oa: Seq<Doc>, na: Seq<Doc>, i: nat)
    requires
        i < oa.len(),
        i < na.len(),
    ensures
        items_from(path, oa, na, i) == diff(index_path(path, i), oa[i as int], na[i as int])
            + items_from(path, oa, na, i + 1),
{
    reveal(diff);
    reveal_with_fuel(items_from, 2);
}

fn compare_arrays(path: &String, oa: &Vec<Json>, na: &Vec<Json>, out: &mut Vec<Change>)
    ensures
        models(final(out)@) == models(old(out)@) + diff(
            path@,
            Json::Array(*oa).model(),
            Json::Array(*na).model(),
        ),
    decreases Json::Array(*oa), 2nat,
{
    let ghost am = oa@.map_values(|j: Json| j.model());
    let ghost bm = na@.map_values(|j: Json| j.model());
    let ghost base = models(out@);
    proof {
        reveal(diff);
        lemma_array_model(*oa);
        lemma_array_model(*na);
    }
    let n: usize = if oa.len() >= na.len() { oa.len() } else { na.len() };
    let mut i: usize = 0;
    while i < n
        invariant
            i <= n,
            n == max_len(oa@.len(), na@.len()),
            am == oa@.map_values(|j: Json| j.model()),
            bm == na@.map_values(|j: Json| j.model()),
            models(out@) + items_from(path@, am, bm, i as nat) == base + items_from(
                path@,
                am,
                bm,
                0,
            ),
        decreases n - i,
    {
        let ghost before = models(out@);
        let p = join_index(path, i);
        proof {
            assert(am.len() == oa@.len() && bm.len() == na@.len());
            if i < oa@.len() {
                assert(am[i as int] == oa@[i as int].model());
            }
            if i < na@.len() {
                assert(bm[i as int] == na@[i as int].model());
            }
        }
        if i < oa.len() && i < na.len() {
            proof {
                let o = Json::Array(*oa);
                assert(decreases_to!(o => o->Array_0));
                assert(decreases_to!(*oa => oa@));
                assert(decreases_to!(oa@ => oa@[i as int]));
            }
            compare_into(&p, &oa[i], &na[i], out);
            proof {
                lemma_items_step(path@, am, bm, i as nat);
            }
        } else if i < oa.len() {
            let c = Change {
                path: p,
                old: Side::Value(oa[i].duplicate()),
                new: Side::Removed,
                kind: ChangeKind::Removed,
            };
            push_change(out, c);
        } else {
            let c = Change {
                path: p,
                old: Side::Null,
                new: Side::Value(na[i].duplicate()),
                kind: ChangeKind::Added,
            };
            push_change(out, c);
        }
        assert(models(out@) + items_from(path@, am, bm, (i + 1) as nat) =~= before + items_from(
            path@,
            am,
            bm,
            i as nat,
        ));
        i = i + 1;
    }
    assert(models(out@) =~= base + items_from(path@, am, bm, 0));
}

fn compare_into(path: &String, before: &Json, after: &Json, out: &mut Vec<Change>)
    ensures
        models(final(out)@) == models(old(out)@) + diff(path@, before.model(), after.model()),
    decreases *before, 3nat,
{
    proof {
        reveal(diff);
    }
    match before {
        Json::Object(oe) => match after {
            Json::Object(ne) => compare_objects(path, oe, ne, out),
            _ => modified(path, before, after, out),
        },
        Json::Array(oa) => match after {
            Json::Array(na) => compare_arrays(path, oa, na, out),
            _ => modified(path, before, after, out),
        },
        _ => modified(path, before, after, out),
    }
}

/// Compares two documents. Paths of the records start with `path`; a
/// top-level key `a` compared under the empty path is recorded as `.a`.
pub fn compare(path: &str, before: &Json, after: &Json) -> (r: Vec<Change>)
    ensures
        models(r@) == diff(path@, before.model(), after.model()),
{
    let p = path.to_owned();
    let mut out: Vec<Change> = Vec::new();
    compare_into(&p, before, after, &mut out);
    assert(models(out@) =~= diff(path@, before.model(), after.model()));
    out
}

proof fn lemma_removed_self(path: Seq<char>, e: Seq<(Seq<char>, Doc)>, i: nat)
    ensures
        removed_from(path, e, e, i) == Seq::<ChangeModel>::empty(),
        added_from(path, e, e, i) == Seq::<ChangeModel>::empty(),
    decreases e.len() - i,
{
    reveal(diff);
    if i < e.len() {
        assert(e[i as int].0 == e[i as int].0);
        assert(has_key(e, e[i as int].0));
        lemma_removed_self(path, e, i + 1);
    }
}

proof fn lemma_common_self(path: Seq<char>, e: Seq<(Seq<char>, Doc)>, i: nat)
    requires
        keys_distinct(e),
        entries_well_formed(e, i),
    ensures
        common_from(path, e, e, i) == Seq::<ChangeModel>::empty(),
    decreases e, e.len() - i,
{
    reveal(diff);
    if i < e.len() {
        let k = e[i as int].0;
        assert forall|j: int| 0 <= j < i implies #[trigger] e[j].0 != k by {
            assert(e[j].0 != e[i as int].0);
        }
        lemma_first_index(e, k, i as int);
        lemma_diff_self(key_path(path, k), e[i as int].1);
        lemma_common_self(path, e, i + 1);
        assert(common_from(path, e, e, i) =~= Seq::<ChangeModel>::empty());
    }
}

proof fn lemma_items_self(path: Seq<char>, a: Seq<Doc>, i: nat)
    requires
        items_well_formed(a, i),
    ensures
        items_from(path, a, a, i) == Seq::<ChangeModel>::empty(),
    decreases a, a.len() + a.len() - i,
{
    reveal(diff);
    if i < a.len() {
        lemma_diff_self(index_path(path, i), a[i as int]);
        lemma_items_self(path, a, i + 1);
        assert(items_from(path, a, a, i) =~= Seq::<ChangeModel>::empty());
    }
}

/// Comparing a document with itself yields no change.
pub proof fn lemma_diff_self(path: Seq<char>, x: Doc)
    requires
        well_formed(x),
    ensures
        diff(path, x, x) == Seq::<ChangeModel>::empty(),
    decreases x, 0nat,
{
    reveal(diff);
    match x {
        Doc::Object(e) => {
            lemma_removed_self(path, e, 0);
            lemma_common_self(path, e, 0);
            assert(diff(path, x, x) =~= Seq::<ChangeModel>::empty());
        },
        Doc::Array(a) => {
            lemma_items_self(path, a, 0);
        },
        _ => {},
    }
}

/// The `Added` record of the entry `e[i]`.
pub open spec fn added_record(path: Seq<char>, e: Seq<(Seq<char>, Doc)>, i: int) -> ChangeModel {
    record(key_path(path, e[i].0), SideModel::Null, SideModel::Value(e[i].1), ChangeKind::Added)
}

proof fn lemma_added_to_empty(path: Seq<char>, e: Seq<(Seq<char>, Doc)>, i: nat)
    requires
        i <= e.len(),
    ensures
        added_from(path, Seq::empty(), e, i) == Seq::new(
            (e.len() - i) as nat,
            |k: int| added_record(path, e, i + k),
        ),
    decreases e.len() - i,
{
    reveal(diff);
    if i < e.len() {
        lemma_added_to_empty(path, e, i + 1);
        assert(!has_key(Seq::<(Seq<char>, Doc)>::empty(), e[i as int].0));
        assert(added_from(path, Seq::empty(), e, i) =~= Seq::new(
            (e.len() - i) as nat,
            |k: int| added_record(path, e, i + k),
        ));
    } else {
        assert(Seq::new((e.len() - i) as nat, |k: int| added_record(path, e, i + k)) =~= Seq::<
            ChangeModel,
        >::empty());
    }
}

/// Comparing an empty mapping with a mapping yields one `Added` record per
/// key of the new mapping, in its order.
pub proof fn lemma_diff_from_empty_mapping(path: Seq<char>, e: Seq<(Seq<char>, Doc)>)
    ensures
        diff(path, Doc::Object(Seq::empty()), Doc::Object(e)) == Seq::new(
            e.len(),
            |k: int| added_record(path, e, k),
        ),
{
    reveal(diff);
    lemma_added_to_empty(path, e, 0);
    let none = Seq::<(Seq<char>, Doc)>::empty();
    assert(removed_from(path, none, e, 0) == Seq::<ChangeModel>::empty());
    assert(common_from(path, none, e, 0) == Seq::<ChangeModel>::empty());
    assert(Seq::new((e.len() - 0) as nat, |k: int| added_record(path, e, 0 + k)) =~= Seq::new(
        e.len(),
        |k: int| added_record(path, e, k),
    ));
    assert(diff(path, Doc::Object(none), Doc::Object(e)) =~= Seq::new(
        e.len(),
        |k: int| added_record(path, e, k),
    ));
}

} // verus!
