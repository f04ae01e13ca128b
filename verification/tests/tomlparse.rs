use lipi::tomlparse::{ini_read, toml_read, ConfValue};

fn get<'a>(d: &'a ConfValue, k: &str) -> &'a ConfValue {
    match d {
        ConfValue::Dict(items) => &items.iter().find(|(n, _)| n == k).expect("key").1,
        _ => panic!("not a table"),
    }
}

fn as_str(v: &ConfValue) -> &str {
    match v {
        ConfValue::Str(s) => s,
        _ => panic!("not a string"),
    }
}

#[test]
fn toml_values_and_tables() {
    let t = "# config\nname = \"lipi\" # trailing\nversion = 2\n[deps]\nfast = true\nlist = [1, \"a,b\", [2, 3]]\n[a.b]\nc = 'raw\\n'\n";
    let d = toml_read(t).unwrap();
    assert_eq!(as_str(get(&d, "name")), "lipi");
    assert!(matches!(get(&d, "version"), ConfValue::Int(2)));
    let deps = get(&d, "deps");
    assert!(matches!(get(deps, "fast"), ConfValue::Bool(true)));
    match get(deps, "list") {
        ConfValue::List(items) => {
            assert_eq!(items.len(), 3);
            assert!(matches!(items[0], ConfValue::Int(1)));
            assert_eq!(as_str(&items[1]), "a,b");
            assert!(matches!(&items[2], ConfValue::List(x) if x.len() == 2));
        },
        _ => panic!("list"),
    }
    assert_eq!(as_str(get(get(get(&d, "a"), "b"), "c")), "raw\\n");
}

#[test]
fn toml_numbers() {
    let d = toml_read("big = 1_000_000\nneg = -5\nf = 3.5\nwhen = 2024-01-02\n").unwrap();
    assert!(matches!(get(&d, "big"), ConfValue::Int(1000000)));
    assert!(matches!(get(&d, "neg"), ConfValue::Int(-5)));
    assert!(matches!(get(&d, "f"), ConfValue::FloatOrStr(c, _) if c == "3.5"));
    assert!(matches!(get(&d, "when"), ConfValue::FloatOrStr(_, s) if s == "2024-01-02"));
}

#[test]
fn toml_escapes() {
    let d = toml_read("s = \"a\\tb\\\"c\"\n").unwrap();
    assert_eq!(as_str(get(&d, "s")), "a\tb\"c");
}

#[test]
fn toml_dotted_keys() {
    let d = toml_read("a.b = 1\na.c = 2\n").unwrap();
    let a = get(&d, "a");
    assert!(matches!(get(a, "b"), ConfValue::Int(1)));
    assert!(matches!(get(a, "c"), ConfValue::Int(2)));
}

#[test]
fn toml_errors_name_the_line() {
    assert_eq!(toml_read("a = 1\nb\n").unwrap_err(), "टोमल: पंक्ति 2 — '=' नहीं मिला");
    assert_eq!(toml_read("a =   \n").unwrap_err(), "टोमल: पंक्ति 1 — मान खाली है");
    assert_eq!(toml_read("[[x]]\n").unwrap_err(), "टोमल: पंक्ति 1 — [[array-of-tables]] समर्थित नहीं");
    assert_eq!(toml_read("\n\nx = [\"a, 1]\n").unwrap_err(), "टोमल: पंक्ति 3 — सरणी में अधूरा वाक्य");
}

#[test]
fn ini_sections() {
    let d = ini_read("top = 1\n; comment\n[db]\nhost = \"local\"\nport: 5432\nnoise\n");
    assert_eq!(as_str(get(&d, "top")), "1");
    let db = get(&d, "db");
    assert_eq!(as_str(get(db, "host")), "local");
    assert_eq!(as_str(get(db, "port")), "5432");
}
