use lipi::types::TypeHint;

#[test]
fn aliases_map_to_same_type() {
    assert_eq!(TypeHint::from_name("संख्या"), TypeHint::Number);
    assert_eq!(TypeHint::from_name("अंक"), TypeHint::Number);
    assert_eq!(TypeHint::from_name("वाक्य"), TypeHint::Str);
    assert_eq!(TypeHint::from_name("पाठ"), TypeHint::Str);
    assert_eq!(TypeHint::from_name("तर्क"), TypeHint::Bool);
    assert_eq!(TypeHint::from_name("बूल"), TypeHint::Bool);
    assert_eq!(TypeHint::from_name("कुछ_भी"), TypeHint::Any);
}

#[test]
fn unknown_name_is_nominal() {
    assert_eq!(TypeHint::from_name("व्यक्ति"), TypeHint::Named("व्यक्ति".to_string()));
}

#[test]
fn concrete_mismatch_rejected() {
    assert!(!TypeHint::Number.accepts(&TypeHint::Str));
    assert!(!TypeHint::Str.accepts(&TypeHint::Number));
    assert!(!TypeHint::Bool.accepts(&TypeHint::List));
}

#[test]
fn concrete_match_accepted() {
    assert!(TypeHint::Number.accepts(&TypeHint::Number));
    assert!(TypeHint::List.accepts(&TypeHint::List));
}

#[test]
fn any_is_compatible_both_ways() {
    assert!(TypeHint::Any.accepts(&TypeHint::Number));
    assert!(TypeHint::Number.accepts(&TypeHint::Any));
}

#[test]
fn named_is_permissive() {
    assert!(TypeHint::Named("क".into()).accepts(&TypeHint::Number));
    assert!(TypeHint::Number.accepts(&TypeHint::Named("क".into())));
}

#[test]
fn canonical_names_round_trip() {
    for t in [TypeHint::Number, TypeHint::Str, TypeHint::Bool, TypeHint::List, TypeHint::Dict,
              TypeHint::Nil, TypeHint::Any] {
        assert_eq!(TypeHint::from_name(&t.name()), t);
    }
    assert_eq!(TypeHint::Named("व्यक्ति".to_string()).name(), "व्यक्ति");
}

#[test]
fn accepts_is_symmetric_on_examples() {
    let all = [TypeHint::Number, TypeHint::Str, TypeHint::Bool, TypeHint::List, TypeHint::Dict,
               TypeHint::Nil, TypeHint::Any, TypeHint::Named("क".to_string())];
    for a in all.iter() {
        assert!(a.accepts(a));
        for b in all.iter() {
            assert_eq!(a.accepts(b), b.accepts(a));
        }
    }
}
