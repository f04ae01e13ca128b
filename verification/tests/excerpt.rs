use lipi::excerpt::error_excerpt;

fn pair(a: &str, b: &str) -> Option<(String, String)> {
    Some((a.to_string(), b.to_string()))
}

#[test]
fn excerpt_names_the_line() {
    let src = "a\nbb  x\nc";
    assert_eq!(error_excerpt(src, "व्याकरण त्रुटि: अपेक्षित (line 2)"), pair("     2 │ bb  x", "       │ ^^^^^"));
    assert_eq!(error_excerpt(src, "त्रुटि (पंक्ति 3)"), pair("     3 │ c", "       │ ^"));
    assert_eq!(error_excerpt(src, "(line 0)"), pair("     0 │ a", "       │ ^"));
    assert_eq!(error_excerpt(src, "(line  +2 ) more"), pair("     2 │ bb  x", "       │ ^^^^^"));
}

#[test]
fn excerpt_nothing_to_show() {
    let src = "a\n\nc";
    assert_eq!(error_excerpt(src, "no line here"), None);
    assert_eq!(error_excerpt(src, "(line 9)"), None);
    assert_eq!(error_excerpt(src, "(line x)"), None);
    assert_eq!(error_excerpt(src, "(line 2"), None);
    assert_eq!(error_excerpt(src, "(line 2)"), pair("     2 │ ", "       │ ^"));
}
