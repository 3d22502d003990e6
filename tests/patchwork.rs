use protean::{Patch, Patchwork, Path, StrainError, Validator, ValueKind};
use protean::patchwork::{decode_int_in, decode_text_in};

fn whole(v: &str) -> (Path, String) {
    (Path::Whole, v.to_string())
}

fn key_of(p: &Path) -> Option<String> {
    match p {
        Path::Whole => None,
        Path::Field(k) => Some(k.clone()),
    }
}

fn keys(p: &Patch) -> Vec<Option<String>> {
    p.entries().iter().map(|e| key_of(&e.0)).collect()
}

fn values(p: &Patch) -> Vec<String> {
    p.entries().iter().map(|e| e.1.clone()).collect()
}

#[test]
fn equal_ints_give_empty_patch() {
    let x: i32 = 5;
    let p = x.diff(&5).unwrap();
    assert!(p.is_empty());
    assert_eq!(p.len(), 0);
}

#[test]
fn equal_values_of_every_leaf_give_empty_patch() {
    assert!(0u8.diff(&0u8).unwrap().is_empty());
    assert!((-3i64).diff(&-3).unwrap().is_empty());
    assert!(u64::MAX.diff(&u64::MAX).unwrap().is_empty());
    assert!(i128::MIN.diff(&i128::MIN).unwrap().is_empty());
    assert!("abc".to_string().diff(&"abc".to_string()).unwrap().is_empty());
}

#[test]
fn different_ints_give_one_whole_entry() {
    let x: i32 = 5;
    let p = x.diff(&7).unwrap();
    assert_eq!(p.len(), 1);
    assert_eq!(keys(&p), vec![None]);
    assert_eq!(values(&p), vec!["7".to_string()]);
    let mut y = x;
    y.apply(&p).unwrap();
    assert_eq!(y, 7);
}

#[test]
fn negative_and_extreme_ints_round_trip() {
    let p = 0i64.diff(&-12).unwrap();
    assert_eq!(values(&p), vec!["-12".to_string()]);
    let mut v = 0i64;
    v.apply(&p).unwrap();
    assert_eq!(v, -12);

    let mut m = 0i128;
    let p = m.diff(&i128::MIN).unwrap();
    assert_eq!(values(&p), vec![i128::MIN.to_string()]);
    m.apply(&p).unwrap();
    assert_eq!(m, i128::MIN);

    let mut u = 1u64;
    u.apply(&u.diff(&u64::MAX).unwrap()).unwrap();
    assert_eq!(u, u64::MAX);

    let mut b = 3u8;
    b.apply(&b.diff(&200).unwrap()).unwrap();
    assert_eq!(b, 200);
}

#[test]
fn strings_encode_as_json_and_round_trip() {
    let x = "x".to_string();
    let p = x.diff(&"y".to_string()).unwrap();
    assert_eq!(keys(&p), vec![None]);
    assert_eq!(values(&p), vec!["\"y\"".to_string()]);
    let mut s = x.clone();
    s.apply(&p).unwrap();
    assert_eq!(s, "y");

    let tricky = "a \"quoted\"\\ line\n".to_string();
    let p = x.diff(&tricky).unwrap();
    assert_eq!(values(&p), vec!["\"a \\\"quoted\\\"\\\\ line\\n\"".to_string()]);
    let mut s = x.clone();
    s.apply(&p).unwrap();
    assert_eq!(s, tricky);
}

#[test]
fn whole_value_apply_is_idempotent() {
    let p = 1i32.diff(&9).unwrap();
    let mut v = 1i32;
    v.apply(&p).unwrap();
    assert_eq!(v, 9);
    v.apply(&p).unwrap();
    assert_eq!(v, 9);

    let p = "a".to_string().diff(&"b".to_string()).unwrap();
    let mut s = "a".to_string();
    s.apply(&p).unwrap();
    s.apply(&p).unwrap();
    assert_eq!(s, "b");
}

#[test]
fn empty_patch_applies_as_no_op() {
    let mut v = 4u16;
    let p = v.new_patch();
    assert!(p.is_empty());
    v.apply(&p).unwrap();
    assert_eq!(v, 4);
}

#[test]
fn field_path_on_leaf_is_unknown() {
    let mut p = 0i32.new_patch();
    p.add(Path::field("a"), "1".to_string()).unwrap();
    let mut v = 3i32;
    assert_eq!(v.apply(&p), Err(StrainError::UnknownPathError));
    assert_eq!(v, 3);
}

#[test]
fn undecodable_values_are_refused() {
    let bad = Patch::from_entries("u8", Validator::AcceptAll, vec![whole("300")]).unwrap();
    let mut v = 1u8;
    assert_eq!(v.apply(&bad), Err(StrainError::DecodeError));
    assert_eq!(v, 1);

    let bad = Patch::from_entries("i32", Validator::AcceptAll, vec![whole("1"), whole("abc")]);
    assert!(bad.is_ok());
    let bad = bad.unwrap();
    assert_eq!(bad.len(), 1);
    assert_eq!(values(&bad), vec!["abc".to_string()]);
    let mut w = 2i32;
    assert_eq!(w.apply(&bad), Err(StrainError::DecodeError));
    assert_eq!(w, 2);

    let padded = Patch::from_entries("i32", Validator::AcceptAll, vec![whole(" 7")]).unwrap();
    assert_eq!(w.apply(&padded), Err(StrainError::DecodeError));

    let unquoted = Patch::from_entries("String", Validator::AcceptAll, vec![whole("y")]).unwrap();
    let mut s = "x".to_string();
    assert_eq!(s.apply(&unquoted), Err(StrainError::DecodeError));
    assert_eq!(s, "x");
}

#[test]
fn add_overwrites_an_existing_path() {
    let mut p = Patch::new("T", Validator::AcceptAll);
    p.add(Path::field("a"), "1".to_string()).unwrap();
    p.add(Path::field("b"), "2".to_string()).unwrap();
    let copy = p.add(Path::field("a"), "3".to_string()).unwrap();
    assert_eq!(keys(&p), vec![Some("a".to_string()), Some("b".to_string())]);
    assert_eq!(values(&p), vec!["3".to_string(), "2".to_string()]);
    assert_eq!(values(&copy), values(&p));
    assert_eq!(p.value_at(&Path::field("a")), Some("3".to_string()));
    assert_eq!(p.patch_type(), "T");
}

#[test]
fn rejected_add_leaves_patch_unchanged() {
    let v = Validator::rejecting(vec![Path::field("secret")]);
    let mut p = Patch::new("T", v);
    p.add(Path::field("a"), "1".to_string()).unwrap();
    let r = p.add(Path::field("secret"), "2".to_string());
    assert!(matches!(r, Err(StrainError::ValidationError)));
    assert_eq!(p.value_at(&Path::field("secret")), None);
    assert_eq!(keys(&p), vec![Some("a".to_string())]);
}

#[test]
fn only_validator_admits_listed_paths() {
    let v = Validator::only(vec![Path::Whole, Path::field("a")]);
    let mut p = Patch::new("T", v);
    assert!(p.add(Path::Whole, "1".to_string()).is_ok());
    assert!(p.add(Path::field("a"), "1".to_string()).is_ok());
    assert!(matches!(p.add(Path::field("b"), "1".to_string()), Err(StrainError::ValidationError)));
    assert_eq!(p.len(), 2);
}

#[test]
fn merge_prefixes_keys_and_replaces_whole() {
    let child = Patch::from_entries(
        "C",
        Validator::AcceptAll,
        vec![whole("1"), (Path::field("x"), "2".to_string())],
    )
    .unwrap();
    let mut p = Patch::new("P", Validator::AcceptAll);
    let copy = p.merge("f", child).unwrap();
    assert_eq!(keys(&p), vec![Some("f".to_string()), Some("f.x".to_string())]);
    assert_eq!(values(&p), vec!["1".to_string(), "2".to_string()]);
    assert_eq!(keys(&copy), keys(&p));
}

#[test]
fn merge_refused_keeps_earlier_entries() {
    let child = Patch::from_entries(
        "C",
        Validator::AcceptAll,
        vec![(Path::field("ok"), "1".to_string()), (Path::field("bad"), "2".to_string())],
    )
    .unwrap();
    let mut p = Patch::new("P", Validator::rejecting(vec![Path::field("f.bad")]));
    let r = p.merge("f", child);
    assert!(matches!(r, Err(StrainError::ValidationError)));
    assert_eq!(keys(&p), vec![Some("f.ok".to_string())]);
    assert_eq!(values(&p), vec!["1".to_string()]);
}

#[test]
fn nested_merge_equals_merge_at_joined_path() {
    let d = 1i32.diff(&2).unwrap();
    let mut inner = Patch::new("F", Validator::AcceptAll);
    inner.merge("f", d.duplicate()).unwrap();
    let mut outer = Patch::new("G", Validator::AcceptAll);
    outer.merge("g", inner).unwrap();
    let mut direct = Patch::new("G", Validator::AcceptAll);
    direct.merge("g.f", d).unwrap();
    assert_eq!(keys(&outer), vec![Some("g.f".to_string())]);
    assert_eq!(keys(&outer), keys(&direct));
    assert_eq!(values(&outer), values(&direct));
}

#[test]
fn for_field_takes_a_field_back_out() {
    let p = Patch::from_entries(
        "R",
        Validator::AcceptAll,
        vec![
            (Path::field("a"), "1".to_string()),
            (Path::field("ab.c"), "2".to_string()),
            (Path::field("a.c"), "3".to_string()),
            whole("4"),
        ],
    )
    .unwrap();
    let a = p.for_field("a");
    assert_eq!(keys(&a), vec![None, Some("c".to_string())]);
    assert_eq!(values(&a), vec!["1".to_string(), "3".to_string()]);
    assert!(p.for_field("b").is_empty());
}

#[derive(Debug, Clone, PartialEq)]
struct Rec {
    a: i32,
    b: String,
}

fn rec_validator() -> Validator {
    Validator::Typed(vec![
        (Path::field("a"), ValueKind::Int { lo: i32::MIN as i128, hi: i32::MAX as i128 }),
        (Path::field("b"), ValueKind::Text),
    ])
}

fn diff_rec(x: &Rec, y: &Rec) -> Patch {
    let mut p = Patch::new("Rec", rec_validator());
    let da = x.a.diff(&y.a).unwrap();
    if !da.is_empty() {
        p.merge("a", da).unwrap();
    }
    let db = x.b.diff(&y.b).unwrap();
    if !db.is_empty() {
        p.merge("b", db).unwrap();
    }
    p
}

fn apply_rec(x: &mut Rec, p: &Patch) -> Result<(), StrainError> {
    let mut a = x.a;
    let mut b = x.b.clone();
    a.apply(&p.for_field("a"))?;
    b.apply(&p.for_field("b"))?;
    if p.for_field("a").len() + p.for_field("b").len() != p.len() {
        return Err(StrainError::UnknownPathError);
    }
    x.a = a;
    x.b = b;
    Ok(())
}

#[test]
fn composite_diff_names_only_changed_field() {
    let x = Rec { a: 1, b: "x".to_string() };
    let y = Rec { a: 1, b: "y".to_string() };
    let p = diff_rec(&x, &y);
    assert_eq!(p.len(), 1);
    assert_eq!(keys(&p), vec![Some("b".to_string())]);
    assert_eq!(values(&p), vec!["\"y\"".to_string()]);
    let mut z = x.clone();
    apply_rec(&mut z, &p).unwrap();
    assert_eq!(z, y);
}

#[test]
fn composite_round_trip_on_every_field() {
    let x = Rec { a: -4, b: "left".to_string() };
    let y = Rec { a: 40, b: "right".to_string() };
    let p = diff_rec(&x, &y);
    assert_eq!(keys(&p), vec![Some("a".to_string()), Some("b".to_string())]);
    let mut z = x.clone();
    apply_rec(&mut z, &p).unwrap();
    assert_eq!(z, y);
    assert!(diff_rec(&x, &x).is_empty());
}

#[test]
fn decoders_read_only_exact_encodings() {
    assert_eq!(decode_int_in(&"12".to_string(), 0, 100), Some(12));
    assert_eq!(decode_int_in(&"-7".to_string(), -10, 10), Some(-7));
    assert_eq!(decode_int_in(&"101".to_string(), 0, 100), None);
    assert_eq!(decode_int_in(&"012".to_string(), 0, 100), None);
    assert_eq!(decode_int_in(&"x".to_string(), 0, 100), None);
    assert_eq!(decode_text_in(&"\"a\\nb\"".to_string()), Some("a\nb".to_string()));
    assert_eq!(decode_text_in(&"\"\\u0061\"".to_string()), None);
    assert_eq!(decode_text_in(&"7".to_string()), None);
}

#[test]
fn paths_move_under_and_back_out_of_fields() {
    let p = Path::field("x.y").under("f");
    assert_eq!(key_of(&p), Some("f.x.y".to_string()));
    assert_eq!(key_of(&Path::Whole.under("f")), Some("f".to_string()));
    assert_eq!(p.below("f").map(|q| key_of(&q)), Some(Some("x.y".to_string())));
    assert_eq!(Path::field("f").below("f").map(|q| key_of(&q)), Some(None));
    assert!(Path::field("fx").below("f").is_none());
    assert!(Path::Whole.below("f").is_none());
    assert!(Path::field("a").same(&Path::field("a")));
    assert!(!Path::field("a").same(&Path::Whole));
}

#[test]
fn booleans_diff_and_apply() {
    assert!(true.diff(&true).unwrap().is_empty());
    let p = true.diff(&false).unwrap();
    assert_eq!(keys(&p), vec![None]);
    assert_eq!(values(&p), vec!["false".to_string()]);
    let mut b = true;
    b.apply(&p).unwrap();
    assert!(!b);
    let bad = Patch::from_entries("bool", Validator::AcceptAll, vec![whole("1")]).unwrap();
    assert_eq!(b.apply(&bad), Err(StrainError::DecodeError));
    assert!(!b);
}

#[test]
fn pointer_sized_ints_round_trip() {
    let mut u = 3usize;
    let p = u.diff(&usize::MAX).unwrap();
    assert_eq!(values(&p), vec![usize::MAX.to_string()]);
    u.apply(&p).unwrap();
    assert_eq!(u, usize::MAX);
    let mut i = 3isize;
    i.apply(&i.diff(&isize::MIN).unwrap()).unwrap();
    assert_eq!(i, isize::MIN);
    let neg = Patch::from_entries("usize", Validator::AcceptAll, vec![whole("-1")]).unwrap();
    assert_eq!(u.apply(&neg), Err(StrainError::DecodeError));
}

#[test]
fn new_patch_is_named_and_admits_everything() {
    let mut p = 0i32.new_patch();
    assert_eq!(p.patch_type(), "i32");
    assert!(p.is_empty());
    p.add(Path::field("a"), "1".to_string()).unwrap();
    let r = p.add(Path::field("a"), "2".to_string()).unwrap();
    assert_eq!(values(&p), vec!["2".to_string()]);
    assert_eq!(values(&r), vec!["2".to_string()]);
    assert_eq!("s".to_string().new_patch().patch_type(), "String");
    assert_eq!(false.new_patch().patch_type(), "bool");
    assert_eq!(1u8.diff(&2).unwrap().patch_type(), "u8");

    let mut s = 0i32.new_patch();
    let r = s.merge("f", 5i32.diff(&7).unwrap()).unwrap();
    assert_eq!(keys(&r), vec![Some("f".to_string())]);
    assert_eq!(values(&r), vec!["7".to_string()]);

    let mut other = 0i32.new_patch();
    other.add(Path::field("b"), "\"y\"".to_string()).unwrap();
    let mut t = 0i32.new_patch();
    let r = t.merge("g", other).unwrap();
    assert_eq!(keys(&r), vec![Some("g.b".to_string())]);
}

#[test]
fn chars_diff_and_apply() {
    assert!('a'.diff(&'a').unwrap().is_empty());
    let p = 'a'.diff(&'"').unwrap();
    assert_eq!(values(&p), vec!["\"\\\"\"".to_string()]);
    let mut c = 'a';
    c.apply(&p).unwrap();
    assert_eq!(c, '"');
    let two = Patch::from_entries("char", Validator::AcceptAll, vec![whole("\"ab\"")]).unwrap();
    assert_eq!(c.apply(&two), Err(StrainError::DecodeError));
    assert_eq!(c, '"');
}

#[test]
fn largest_unsigned_ints_round_trip() {
    let mut u = 0u128;
    let p = u.diff(&u128::MAX).unwrap();
    assert_eq!(values(&p), vec!["340282366920938463463374607431768211455".to_string()]);
    u.apply(&p).unwrap();
    assert_eq!(u, u128::MAX);
    let neg = Patch::from_entries("u128", Validator::AcceptAll, vec![whole("-1")]).unwrap();
    assert_eq!(u.apply(&neg), Err(StrainError::DecodeError));
}

#[test]
fn control_characters_use_unicode_escapes() {
    let p = String::new().diff(&"\u{1}\t".to_string()).unwrap();
    assert_eq!(values(&p), vec!["\"\\u0001\\t\"".to_string()]);
    let mut s = String::new();
    s.apply(&p).unwrap();
    assert_eq!(s, "\u{1}\t");
}

#[test]
fn typed_validator_checks_paths_and_values() {
    let mut p = Patch::new("Rec", rec_validator());
    assert!(p.add(Path::field("a"), "12".to_string()).is_ok());
    assert!(matches!(p.add(Path::field("a"), "\"12\"".to_string()), Err(StrainError::ValidationError)));
    assert!(matches!(p.add(Path::field("a"), "3000000000".to_string()), Err(StrainError::ValidationError)));
    assert!(p.add(Path::field("b"), "\"12\"".to_string()).is_ok());
    assert!(matches!(p.add(Path::field("b"), "12".to_string()), Err(StrainError::ValidationError)));
    assert!(matches!(p.add(Path::field("c"), "1".to_string()), Err(StrainError::ValidationError)));
    assert_eq!(values(&p), vec!["12".to_string(), "\"12\"".to_string()]);
    let flags = Validator::Typed(vec![
        (Path::Whole, ValueKind::Bool),
        (Path::field("c"), ValueKind::Char),
        (Path::field("x"), ValueKind::Any),
    ]);
    let mut q = Patch::new("Flags", flags);
    assert!(q.add(Path::Whole, "true".to_string()).is_ok());
    assert!(q.add(Path::Whole, "1".to_string()).is_err());
    assert!(q.add(Path::field("c"), "\"z\"".to_string()).is_ok());
    assert!(q.add(Path::field("c"), "\"zz\"".to_string()).is_err());
    assert!(q.add(Path::field("x"), "anything".to_string()).is_ok());
}

#[test]
fn pairs_diff_by_field_and_round_trip() {
    let x = (1i32, "x".to_string());
    let y = (1i32, "y".to_string());
    let p = x.diff(&y).unwrap();
    assert_eq!(p.patch_type(), "pair");
    assert_eq!(keys(&p), vec![Some("1".to_string())]);
    assert_eq!(values(&p), vec!["\"y\"".to_string()]);
    let mut z = x.clone();
    z.apply(&p).unwrap();
    assert_eq!(z, y);
    assert!(x.diff(&x).unwrap().is_empty());

    let a = ((1u8, true), 'a');
    let b = ((2u8, true), 'b');
    let p = a.diff(&b).unwrap();
    assert_eq!(keys(&p), vec![Some("0.0".to_string()), Some("1".to_string())]);
    let mut c = a;
    c.apply(&p).unwrap();
    assert_eq!(c, b);
}

#[test]
fn pair_apply_is_all_or_nothing() {
    let mut v = (5i64, "keep".to_string());
    let bad = Patch::from_entries(
        "pair",
        Validator::AcceptAll,
        vec![(Path::field("0"), "6".to_string()), (Path::field("1"), "no quotes".to_string())],
    )
    .unwrap();
    assert_eq!(v.apply(&bad), Err(StrainError::DecodeError));
    assert_eq!(v, (5, "keep".to_string()));

    let unknown = Patch::from_entries(
        "pair",
        Validator::AcceptAll,
        vec![(Path::field("0"), "6".to_string()), (Path::field("2"), "1".to_string())],
    )
    .unwrap();
    assert_eq!(v.apply(&unknown), Err(StrainError::UnknownPathError));
    let whole_pair = Patch::from_entries("pair", Validator::AcceptAll, vec![whole("1")]).unwrap();
    assert_eq!(v.apply(&whole_pair), Err(StrainError::DecodeError));
    assert_eq!(v, (5, "keep".to_string()));
}

#[test]
fn whole_value_entry_replaces_a_pair() {
    let mut v = (5i32, "x".to_string());
    let p = Patch::from_entries("pair", Validator::AcceptAll, vec![whole("[1,\"y\"]")]).unwrap();
    v.apply(&p).unwrap();
    assert_eq!(v, (1, "y".to_string()));
    v.apply(&p).unwrap();
    assert_eq!(v, (1, "y".to_string()));

    let spaced = Patch::from_entries("pair", Validator::AcceptAll, vec![whole("[2, \"z\"]")]).unwrap();
    assert_eq!(v.apply(&spaced), Err(StrainError::DecodeError));
    assert_eq!(v, (1, "y".to_string()));

    let mut n = ((0i32, 0i32), String::new());
    let p = Patch::from_entries(
        "pair",
        Validator::AcceptAll,
        vec![whole("[[1,2],\"a,b\"]")],
    )
    .unwrap();
    n.apply(&p).unwrap();
    assert_eq!(n, ((1, 2), "a,b".to_string()));

    let mixed = Patch::from_entries(
        "pair",
        Validator::AcceptAll,
        vec![(Path::field("1"), "\"z\"".to_string()), whole("[7,\"w\"]")],
    )
    .unwrap();
    let mut m = (0i32, String::new());
    m.apply(&mixed).unwrap();
    assert_eq!(m, (7, "z".to_string()));
}

#[test]
fn repeated_adds_and_merges_change_nothing_more() {
    let mut p = Patch::new("T", Validator::AcceptAll);
    p.add(Path::field("a"), "1".to_string()).unwrap();
    p.add(Path::field("b"), "2".to_string()).unwrap();
    let once = values(&p);
    p.add(Path::field("b"), "2".to_string()).unwrap();
    assert_eq!(values(&p), once);

    let mut q = Patch::new("T", Validator::AcceptAll);
    q.add(Path::field("b"), "2".to_string()).unwrap();
    q.add(Path::field("a"), "1".to_string()).unwrap();
    let mut pe: Vec<(Option<String>, String)> = p.entries().iter().map(|e| (key_of(&e.0), e.1.clone())).collect();
    let mut qe: Vec<(Option<String>, String)> = q.entries().iter().map(|e| (key_of(&e.0), e.1.clone())).collect();
    pe.sort();
    qe.sort();
    assert_eq!(pe, qe);

    let child = 1i32.diff(&2).unwrap();
    let mut m = Patch::new("M", Validator::AcceptAll);
    m.merge("f", child.duplicate()).unwrap();
    let first = (keys(&m), values(&m));
    m.merge("f", child).unwrap();
    assert_eq!((keys(&m), values(&m)), first);
    assert_eq!(m.value_at(&Path::field("f")), Some("2".to_string()));
}
