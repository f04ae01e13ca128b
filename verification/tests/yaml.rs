use lipi::tomlparse::ConfValue;
use lipi::yaml::{yaml_in_range, yaml_read};

fn get<'a>(d: &'a ConfValue, k: &str) -> &'a ConfValue {
    match d {
        ConfValue::Dict(items) => &items.iter().find(|(n, _)| n == k).expect("key").1,
        _ => panic!("not a mapping"),
    }
}

fn as_str(v: &ConfValue) -> &str {
    match v {
        ConfValue::Str(s) => s,
        _ => panic!("not a string"),
    }
}

/// A bare word: kept as text unless it reads as a float.
fn word(v: &ConfValue) -> &str {
    match v {
        ConfValue::FloatOrStr(_, s) => s,
        _ => panic!("not a bare word"),
    }
}

fn items(v: &ConfValue) -> &Vec<ConfValue> {
    match v {
        ConfValue::List(x) => x,
        _ => panic!("not a sequence"),
    }
}

#[test]
fn yaml_nested_mapping() {
    let t = "name: lipi\nversion: 3\nmeta:\n  author: asha\n  tags:\n    - a\n    - b\n";
    let d = yaml_read(t).unwrap();
    assert_eq!(word(get(&d, "name")), "lipi");
    assert!(matches!(get(&d, "version"), ConfValue::Int(3)));
    let meta = get(&d, "meta");
    assert_eq!(word(get(meta, "author")), "asha");
    let tags = items(get(meta, "tags"));
    assert_eq!(tags.len(), 2);
    assert_eq!(word(&tags[0]), "a");
    assert_eq!(word(&tags[1]), "b");
}

#[test]
fn yaml_sequence_of_mappings() {
    let d = yaml_read("- name: a\n  n: 1\n- name: b\n").unwrap();
    let xs = items(&d);
    assert_eq!(xs.len(), 2);
    // The item's later lines sit deeper than its first key, so they belong
    // to that key, which already has a value: only `name` remains.
    assert_eq!(word(get(&xs[0], "name")), "a");
    assert!(matches!(&xs[0], ConfValue::Dict(kv) if kv.len() == 1));
    assert_eq!(word(get(&xs[1], "name")), "b");
}

#[test]
fn yaml_scalars() {
    let t = "a: ~\nb: null\nc: true\nd: \"x\\\"y\\nz\"\ne: 'q'\nf: 2.5\ng:\nh: -7\n";
    let d = yaml_read(t).unwrap();
    assert!(matches!(get(&d, "a"), ConfValue::Nil));
    assert!(matches!(get(&d, "b"), ConfValue::Nil));
    assert!(matches!(get(&d, "c"), ConfValue::Bool(true)));
    assert_eq!(as_str(get(&d, "d")), "x\"y\nz");
    assert_eq!(as_str(get(&d, "e")), "q");
    assert!(matches!(get(&d, "f"), ConfValue::FloatOrStr(c, s) if c == "2.5" && s == "2.5"));
    assert!(matches!(get(&d, "g"), ConfValue::Nil));
    assert!(matches!(get(&d, "h"), ConfValue::Int(-7)));
}

#[test]
fn yaml_comments_and_markers() {
    let d = yaml_read("---\n  # indented note\na: 1 # note\n\nb: x\n").unwrap();
    assert!(matches!(get(&d, "a"), ConfValue::Int(1)));
    assert_eq!(word(get(&d, "b")), "x");
    match &d {
        ConfValue::Dict(kv) => assert_eq!(kv.len(), 2),
        _ => panic!("mapping"),
    }
}

#[test]
fn yaml_last_key_wins() {
    let d = yaml_read("a: 1\na: 2\n").unwrap();
    match &d {
        ConfValue::Dict(kv) => {
            assert_eq!(kv.len(), 1);
            assert!(matches!(kv[0].1, ConfValue::Int(2)));
        },
        _ => panic!("mapping"),
    }
}

#[test]
fn yaml_empty_document() {
    let d = yaml_read("\n   # nothing\n---\n").unwrap();
    assert!(matches!(d, ConfValue::Dict(ref kv) if kv.is_empty()));
}

#[test]
fn yaml_comment_needs_space_before_hash() {
    let e = yaml_read("# top\na: 1\n").unwrap_err();
    assert_eq!(e, "यामल: ':' नहीं मिला — '# top'");
}

#[test]
fn yaml_missing_colon() {
    let e = yaml_read("just text\n").unwrap_err();
    assert_eq!(e, "यामल: ':' नहीं मिला — 'just text'");
}

#[test]
fn yaml_item_starting_with_wide_char() {
    assert!(!yaml_in_range("- x\nअ\n"));
    assert!(yaml_in_range("- x\n- अ\n"));
    let d = yaml_read("- x\n- अ\n").unwrap();
    assert_eq!(word(&items(&d)[1]), "अ");
}

#[test]
fn yaml_empty_item_takes_block_below() {
    let d = yaml_read("-\n  k: v\n- 5\n").unwrap();
    let xs = items(&d);
    assert_eq!(word(get(&xs[0], "k")), "v");
    assert!(matches!(xs[1], ConfValue::Int(5)));
}

#[test]
fn yaml_item_key_with_block() {
    let d = yaml_read("- a:\n    b: 1\n").unwrap();
    let xs = items(&d);
    assert!(matches!(get(get(&xs[0], "a"), "b"), ConfValue::Int(1)));
}
