use lipi::tomlparse::ConfValue;
use lipi::xmlparse::xml_read;

fn get<'a>(d: &'a ConfValue, k: &str) -> &'a ConfValue {
    match d {
        ConfValue::Dict(items) => &items.iter().find(|(n, _)| n == k).expect("key").1,
        _ => panic!("not a table"),
    }
}

fn s(v: &ConfValue) -> &str {
    match v {
        ConfValue::Str(x) => x,
        _ => panic!("not a string"),
    }
}

fn kids(v: &ConfValue) -> &Vec<ConfValue> {
    match get(v, "बच्चे") {
        ConfValue::List(x) => x,
        _ => panic!("no children"),
    }
}

#[test]
fn elements_attributes_text() {
    let doc = "<?xml version=\"1.0\"?>\n<!-- c -->\n<root a=\"1\" b='x &amp; y'>\n  hello\n  <item id=\"7\"/>\n  <p>one &lt;two&gt;</p>\n  world\n</root>";
    let r = xml_read(doc).unwrap();
    assert_eq!(s(get(&r, "नाम")), "root");
    let attrs = get(&r, "गुण");
    assert_eq!(s(get(attrs, "a")), "1");
    assert_eq!(s(get(attrs, "b")), "x & y");
    assert_eq!(s(get(&r, "पाठ")), "hello world");
    let k = kids(&r);
    assert_eq!(k.len(), 2);
    assert_eq!(s(get(&k[0], "नाम")), "item");
    assert_eq!(s(get(get(&k[0], "गुण"), "id")), "7");
    assert_eq!(s(get(&k[1], "पाठ")), "one <two>");
}

#[test]
fn doctype_and_comments_skipped() {
    let r = xml_read("<!DOCTYPE html><html><!-- x --><body>नमस्ते</body></html>").unwrap();
    assert_eq!(s(get(&r, "नाम")), "html");
    assert_eq!(s(get(&kids(&r)[0], "पाठ")), "नमस्ते");
}

#[test]
fn xml_errors() {
    assert_eq!(xml_read("hello").unwrap_err(), "एक्सएमएल: '<' अपेक्षित");
    assert_eq!(xml_read("< >").unwrap_err(), "एक्सएमएल: टैग नाम खाली");
    assert_eq!(xml_read("<a><b></b>").unwrap_err(), "एक्सएमएल: <a> बंद नहीं हुआ");
}

#[test]
fn amp_decoded_last() {
    let r = xml_read("<a>&amp;lt;</a>").unwrap();
    assert_eq!(s(get(&r, "पाठ")), "&lt;");
}
