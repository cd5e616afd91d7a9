use npuzzle_lib::types::Atom;

#[test]
fn xy() {
    assert_eq!(npuzzle_lib::util::xy(5, 3), (2, 1));
}

#[test]
fn find_empty_pos() {
    let v: Vec<Atom> = vec![1, 2, 0, 3];
    assert_eq!(npuzzle_lib::util::find_empty_pos(&v), 2);
}

#[test]
fn grids_equal_compares_contents() {
    let a: Vec<Atom> = vec![1, 2, 0, 3];
    let b: Vec<Atom> = vec![1, 2, 0, 3];
    let c: Vec<Atom> = vec![1, 2, 3, 0];
    assert!(npuzzle_lib::util::grids_equal(&a, &b));
    assert!(!npuzzle_lib::util::grids_equal(&a, &c));
    assert!(!npuzzle_lib::util::grids_equal(&a, &vec![1, 2, 0]));
}
