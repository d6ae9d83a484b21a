use savewatch::diff::{compare, Change, ChangeKind, Side};
use savewatch::doc::{Json, Number};

fn num(n: u64) -> Json {
    Json::Number(Number::PosInt(n))
}

fn obj(entries: Vec<(&str, Json)>) -> Json {
    Json::Object(entries.into_iter().map(|(k, v)| (k.to_string(), v)).collect())
}

fn is_int(s: &Side, n: u64) -> bool {
    matches!(s, Side::Value(Json::Number(Number::PosInt(m))) if *m == n)
}

fn one(changes: &[Change]) -> &Change {
    assert_eq!(changes.len(), 1);
    &changes[0]
}

#[test]
fn identical_documents_have_no_changes() {
    let x = obj(vec![
        ("a", num(1)),
        ("b", Json::Array(vec![Json::Bool(true), Json::Null, Json::Str("s".to_string())])),
        ("c", obj(vec![("d", Json::Number(Number::Float(0x4000_0000_0000_0000)))])),
    ]);
    assert!(compare("", &x, &x).is_empty());
    assert!(compare("", &Json::Null, &Json::Null).is_empty());
}

#[test]
fn modified_scalar() {
    let c = compare("", &obj(vec![("a", num(1))]), &obj(vec![("a", num(2))]));
    let c = one(&c);
    assert_eq!(c.kind, ChangeKind::Modified);
    assert_eq!(c.path, ".a");
    assert!(is_int(&c.old, 1));
    assert!(is_int(&c.new, 2));
}

#[test]
fn added_mapping_key() {
    let c = compare("", &obj(vec![("a", num(1))]), &obj(vec![("a", num(1)), ("b", num(2))]));
    let c = one(&c);
    assert_eq!(c.kind, ChangeKind::Added);
    assert_eq!(c.path, ".b");
    assert!(matches!(c.old, Side::Null));
    assert!(is_int(&c.new, 2));
}

#[test]
fn removed_mapping_key() {
    let c = compare("", &obj(vec![("a", num(1)), ("b", num(2))]), &obj(vec![("a", num(1))]));
    let c = one(&c);
    assert_eq!(c.kind, ChangeKind::Removed);
    assert_eq!(c.path, ".b");
    assert!(is_int(&c.old, 2));
    assert!(matches!(c.new, Side::Null));
}

#[test]
fn added_array_item() {
    let c = compare(
        "",
        &Json::Array(vec![num(1), num(2)]),
        &Json::Array(vec![num(1), num(2), num(3)]),
    );
    let c = one(&c);
    assert_eq!(c.kind, ChangeKind::Added);
    assert_eq!(c.path, "[2]");
    assert!(matches!(c.old, Side::Null));
    assert!(is_int(&c.new, 3));
}

#[test]
fn removed_array_item_uses_removed_sentinel() {
    let c = compare(
        "",
        &Json::Array(vec![num(1), num(2), num(3)]),
        &Json::Array(vec![num(1), num(2)]),
    );
    let c = one(&c);
    assert_eq!(c.kind, ChangeKind::Removed);
    assert_eq!(c.path, "[2]");
    assert!(is_int(&c.old, 3));
    assert!(matches!(c.new, Side::Removed));
}

#[test]
fn order_removed_then_added_then_shared() {
    let old = obj(vec![("a", num(1)), ("b", num(1)), ("c", num(1))]);
    let new = obj(vec![("a", num(2)), ("c", num(1)), ("d", num(1))]);
    let c = compare("", &old, &new);
    let paths: Vec<&str> = c.iter().map(|c| c.path.as_str()).collect();
    assert_eq!(paths, vec![".b", ".d", ".a"]);
    assert_eq!(c[0].kind, ChangeKind::Removed);
    assert_eq!(c[1].kind, ChangeKind::Added);
    assert_eq!(c[2].kind, ChangeKind::Modified);
}

#[test]
fn nested_paths() {
    let old = obj(vec![("a", obj(vec![("b", Json::Array((0..12).map(|_| num(1)).collect()))]))]);
    let mut items: Vec<Json> = (0..12).map(|_| num(1)).collect();
    items[11] = num(5);
    let new = obj(vec![("a", obj(vec![("b", Json::Array(items))]))]);
    let c = compare("", &old, &new);
    assert_eq!(one(&c).path, ".a.b[11]");
    let c = compare("root", &old, &new);
    assert_eq!(one(&c).path, "root.a.b[11]");
}

#[test]
fn mismatched_kinds_are_modified() {
    let c = compare("", &obj(vec![("a", num(1))]), &obj(vec![("a", Json::Str("1".to_string()))]));
    assert_eq!(one(&c).kind, ChangeKind::Modified);
    let c = compare("", &Json::Array(vec![]), &obj(vec![]));
    assert_eq!(one(&c).path, "");
    let c = compare(
        "",
        &Json::Number(Number::PosInt(1)),
        &Json::Number(Number::Float(0x3FF0_0000_0000_0000)),
    );
    assert_eq!(one(&c).kind, ChangeKind::Modified);
}

#[test]
fn float_zeros_are_equal() {
    let pos = Json::Number(Number::Float(0));
    let neg = Json::Number(Number::Float(0x8000_0000_0000_0000));
    assert!(compare("", &pos, &neg).is_empty());
}

#[test]
fn empty_mapping_to_document_adds_each_key() {
    let new = obj(vec![("a", num(1)), ("b", num(2))]);
    let c = compare("", &obj(vec![]), &new);
    assert_eq!(c.len(), 2);
    assert!(c.iter().all(|c| c.kind == ChangeKind::Added));
    assert_eq!(c[0].path, ".a");
    assert_eq!(c[1].path, ".b");
}
