use lipi::sangrah::{
    agra, agra_hatao, agra_jodo, ginti_kosh, kramit_khojo, kramit_rakho_sthan, pashcha, pashcha_hatao,
    shrinkhala, yugm_panktiyan,
};

#[test]
fn deque_front_and_back() {
    assert_eq!(agra_jodo(vec![2, 3], 1).unwrap(), vec![1, 2, 3]);
    assert_eq!(agra(vec![7, 8]).unwrap(), 7);
    assert_eq!(pashcha(vec![7, 8]).unwrap(), 8);
    assert_eq!(agra_hatao(vec![7, 8, 9]).unwrap(), vec![8, 9]);
    assert_eq!(pashcha_hatao(vec![7, 8, 9]).unwrap(), vec![7, 8]);
}

#[test]
fn deque_empty_list_errors() {
    assert_eq!(agra(Vec::<i32>::new()).unwrap_err(), "अग्र(): सूची खाली है");
    assert_eq!(pashcha(Vec::<i32>::new()).unwrap_err(), "पश्च(): सूची खाली है");
    assert_eq!(agra_hatao(Vec::<i32>::new()).unwrap_err(), "अग्र_हटाओ(): सूची खाली है");
    assert_eq!(pashcha_hatao(Vec::<i32>::new()).unwrap_err(), "पश्च_हटाओ(): सूची खाली है");
}

#[test]
fn chain_joins_in_order() {
    assert_eq!(shrinkhala(vec![vec![1, 2], vec![], vec![3]]), vec![1, 2, 3]);
    assert_eq!(shrinkhala(Vec::<Vec<i32>>::new()), Vec::<i32>::new());
}

#[test]
fn counter_counts_each_key_once_in_first_order() {
    let keys: Vec<String> = ["क", "ख", "क", "ग", "क"].iter().map(|s| s.to_string()).collect();
    let t = ginti_kosh(&keys);
    assert_eq!(t, vec![("क".to_string(), 3), ("ख".to_string(), 1), ("ग".to_string(), 1)]);
    assert!(ginti_kosh(&vec![]).is_empty());
}

#[test]
fn ordered_dict_lookup() {
    let keys = vec![Some("अ".to_string()), None, Some("ब".to_string()), Some("अ".to_string())];
    assert_eq!(kramit_khojo(&keys, "अ"), Some(0));
    assert_eq!(kramit_khojo(&keys, "ब"), Some(2));
    assert_eq!(kramit_khojo(&keys, "स"), None);
    assert_eq!(kramit_rakho_sthan(&keys, "ब").unwrap(), Some(2));
    assert_eq!(kramit_rakho_sthan(&keys, "स").unwrap(), None);
}

#[test]
fn zip_rows_is_the_shortest_length() {
    assert_eq!(yugm_panktiyan(&vec![3, 1, 2]), 1);
    assert_eq!(yugm_panktiyan(&vec![]), 0);
    assert_eq!(yugm_panktiyan(&vec![4]), 4);
}
