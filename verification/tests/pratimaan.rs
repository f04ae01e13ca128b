use lipi::pratimaan::{badlo_sab, dhundho, dhundho_sab, dhundho_sthan, mel_hai, samuh, vibhajit_sab};
use lipi::regex_engine::Regex;

#[test]
fn regex_compiles_and_counts_groups() {
    let re = Regex::new("a(b)(c|d)").unwrap();
    assert_eq!(re.n_groups(), 2);
    assert!(Regex::new("(").is_err());
}

#[test]
fn find_first() {
    assert_eq!(dhundho("ab+", "xxabbby").unwrap(), Some("abbb".to_string()));
    assert_eq!(dhundho("z", "abc").unwrap(), None);
    assert_eq!(dhundho("नम", "सनमस्ते").unwrap(), Some("नम".to_string()));
}

#[test]
fn find_position() {
    assert_eq!(dhundho_sthan("b", "aab").unwrap(), 2);
    assert_eq!(dhundho_sthan("q", "aab").unwrap(), -1);
}

#[test]
fn find_all() {
    assert_eq!(dhundho_sab("[0-9]+", "a1b22c333").unwrap(), vec!["1", "22", "333"]);
    assert_eq!(dhundho_sab("x*", "ab").unwrap(), vec!["", "", ""]);
}

#[test]
fn whole_match() {
    assert!(mel_hai("a+", "aaa").unwrap());
    assert!(!mel_hai("a+", "aab").unwrap());
    assert!(!mel_hai("b", "ab").unwrap());
}

#[test]
fn groups_of_first_match() {
    assert_eq!(samuh("([a-z]+)@([a-z]+)", "x ram@ghar y").unwrap(), vec!["ram@ghar", "ram", "ghar"]);
    assert_eq!(samuh("(a)|(b)", "b").unwrap(), vec!["b", "", "b"]);
    assert!(samuh("z", "abc").unwrap().is_empty());
}

#[test]
fn replace_all() {
    assert_eq!(badlo_sab("([a-z]+)@([a-z]+)", "$2 at $1", "ram@ghar").unwrap(), "ghar at ram");
    assert_eq!(badlo_sab("a", "$$", "banana").unwrap(), "b$n$n$");
    assert_eq!(badlo_sab("x*", "-", "abc").unwrap(), "-a-b-c-");
    assert_eq!(badlo_sab("a", "$9", "a").unwrap(), "$9");
}

#[test]
fn split_all() {
    assert_eq!(vibhajit_sab(",", "a,b,,c").unwrap(), vec!["a", "b", "", "c"]);
    assert_eq!(vibhajit_sab("x*", "ab").unwrap(), vec!["ab"]);
}

#[test]
fn bad_pattern_is_an_error() {
    assert!(dhundho("(", "x").is_err());
    assert!(badlo_sab("[", "", "x").is_err());
}

#[test]
fn word_class_takes_unicode_letters() {
    assert_eq!(dhundho("\\w+", "café!").unwrap(), Some("café".to_string()));
    assert_eq!(dhundho("\\w+", "--नमस्ते_1 x").unwrap(), Some("नमस्ते_1".to_string()));
}

#[test]
fn whole_match_tries_every_alternative() {
    assert!(mel_hai("a|ab", "ab").unwrap());
    assert!(mel_hai("\\d+", "123").unwrap());
    assert!(!mel_hai("\\d+", "123a").unwrap());
}

#[test]
fn empty_loop_pass_ends_the_loop() {
    let re = Regex::new("(a*)*").unwrap();
    let mut steps = 0;
    let r = re.find_from(&['b'], 0, &mut steps).unwrap();
    let (a, b, _) = r.unwrap();
    assert_eq!((a, b), (0, 0));
    assert_eq!(dhundho("(a|)*", "aab").unwrap(), Some("aa".to_string()));
    assert_eq!(dhundho("(x?)*y", "xxy").unwrap(), Some("xxy".to_string()));
}
