use lipi::combin::{combinations, product};

#[test]
fn combinations_of_four_choose_two() {
    let c = combinations(4, 2);
    let want: Vec<Vec<usize>> = vec![
        vec![0, 1], vec![0, 2], vec![0, 3], vec![1, 2], vec![1, 3], vec![2, 3],
    ];
    assert_eq!(c, want);
}

#[test]
fn combinations_edges() {
    assert_eq!(combinations(3, 0), vec![Vec::<usize>::new()]);
    assert!(combinations(2, 3).is_empty());
    assert_eq!(combinations(3, 3), vec![vec![0, 1, 2]]);
    assert_eq!(combinations(0, 0), vec![Vec::<usize>::new()]);
}

#[test]
fn combinations_count_and_order() {
    let c = combinations(7, 3);
    assert_eq!(c.len(), 35);
    for w in c.windows(2) {
        assert!(w[0] < w[1]);
    }
    for t in &c {
        assert!(t[0] < t[1] && t[1] < t[2] && t[2] < 7);
    }
}

#[test]
fn product_rows_in_order() {
    let rows = product(&vec![2, 3]);
    let want: Vec<Vec<usize>> = vec![
        vec![0, 0], vec![0, 1], vec![0, 2], vec![1, 0], vec![1, 1], vec![1, 2],
    ];
    assert_eq!(rows, want);
}

#[test]
fn product_edges() {
    assert_eq!(product(&vec![]), vec![Vec::<usize>::new()]);
    assert!(product(&vec![3, 0, 2]).is_empty());
    assert_eq!(product(&vec![1, 1, 1]), vec![vec![0, 0, 0]]);
    assert_eq!(product(&vec![2, 2, 2]).len(), 8);
}
