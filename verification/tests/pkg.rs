use lipi::pkg::{manifest_in_range, Manifest};

fn deps(m: &Manifest) -> Vec<(String, String)> {
    (0..m.deps.len()).map(|i| {
        let (k, v) = m.deps.entry(i);
        (k.clone(), v.clone())
    }).collect()
}

#[test]
fn manifest_default_text() {
    let m = Manifest::default();
    assert_eq!(m.to_toml(), "[package]\nname = \"मेरा_पैकेज\"\nversion = \"0.1.0\"\n\n[dependencies]\n");
}

#[test]
fn manifest_deps_written_in_name_order() {
    let mut m = Manifest::default();
    m.deps.insert("zeta".to_string(), "../z".to_string());
    m.deps.insert("alpha".to_string(), "lib/a.swami".to_string());
    m.deps.insert("zeta".to_string(), "../z2".to_string());
    let t = m.to_toml();
    assert!(t.ends_with("[dependencies]\nalpha = \"lib/a.swami\"\nzeta = \"../z2\"\n"));
}

#[test]
fn manifest_parse_subset() {
    let t = "# my package\n[package]\nname = \"गणित\"\nversion = 2.1\nauthor = \"x\"\n\n[other]\nname = \"ignored\"\n[dependencies]\n  b = \"./b\"  \na=\"./a\"\nnoequals\n";
    assert!(manifest_in_range(t));
    let m = Manifest::parse(t);
    assert_eq!(m.name, "गणित");
    assert_eq!(m.version, "2.1");
    assert_eq!(deps(&m), vec![("a".to_string(), "./a".to_string()), ("b".to_string(), "./b".to_string())]);
}

#[test]
fn manifest_parse_empty_keeps_defaults() {
    let m = Manifest::parse("");
    assert_eq!(m.name, "मेरा_पैकेज");
    assert_eq!(m.version, "0.1.0");
    assert!(deps(&m).is_empty());
}

#[test]
fn manifest_round_trip() {
    let mut m = Manifest::default();
    m.name = "पुस्तकालय".to_string();
    m.version = "1.2.3".to_string();
    m.deps.insert("गणित".to_string(), "../ganit".to_string());
    m.deps.insert("io".to_string(), "C:\\libs\\io.swami".to_string());
    let back = Manifest::parse(&m.to_toml());
    assert_eq!(back.name, m.name);
    assert_eq!(back.version, m.version);
    assert_eq!(deps(&back), deps(&m));
}

#[test]
fn manifest_lone_bracket_line() {
    assert!(!manifest_in_range("[package]\n [ \n"));
    assert!(manifest_in_range("[]\n"));
}
