use lipi::sqltok::{tokenize_sql, SqlEnd, SqlToken};

fn show(toks: &[SqlToken]) -> Vec<String> {
    toks.iter()
        .map(|t| match t {
            SqlToken::Word(x) => format!("W:{x}"),
            SqlToken::Str(x) => format!("S:{x}"),
            SqlToken::Num(x) => format!("N:{x}"),
            SqlToken::Sym(x) => format!("Y:{x}"),
        })
        .collect()
}

#[test]
fn sql_tokens_of_a_query() {
    let (t, end) = tokenize_sql("SELECT * FROM t WHERE a >= -5 AND b <> 'it''s';");
    assert_eq!(end, SqlEnd::Done);
    assert_eq!(
        show(&t),
        vec!["W:SELECT", "Y:*", "W:FROM", "W:t", "W:WHERE", "W:a", "Y:>=", "N:-5", "W:AND", "W:b", "Y:!=", "S:it's"]
    );
}

#[test]
fn sql_minus_starts_a_number_only_after_a_symbol() {
    let (t, _) = tokenize_sql("x -5 (-1.5) 12abc");
    assert_eq!(show(&t), vec!["W:x", "W:-5", "Y:(", "N:-1.5", "Y:)", "N:12", "W:abc"]);
    let (t, _) = tokenize_sql("-3");
    assert_eq!(show(&t), vec!["N:-3"]);
}

#[test]
fn sql_reading_stops() {
    let (t, end) = tokenize_sql("a = 'abc");
    assert_eq!(end, SqlEnd::Unterminated);
    assert_eq!(show(&t), vec!["W:a", "Y:="]);
    let (t, end) = tokenize_sql("a ! b");
    assert_eq!(end, SqlEnd::Stuck);
    assert_eq!(show(&t), vec!["W:a"]);
    let (t, end) = tokenize_sql("a != b <= c < d > e");
    assert_eq!(end, SqlEnd::Done);
    assert_eq!(show(&t), vec!["W:a", "Y:!=", "W:b", "Y:<=", "W:c", "Y:<", "W:d", "Y:>", "W:e"]);
}
