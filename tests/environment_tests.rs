use tinyc::environment::SymbolTable;

#[test]
fn offsets_are_dense_and_stable() {
    let mut t = SymbolTable::new();
    assert_eq!(t.look_up("a"), -1);
    assert_eq!(t.insert("a"), 0);
    assert_eq!(t.insert("b"), 1);
    assert_eq!(t.insert("a"), -1);
    assert_eq!(t.look_up("a"), 0);
    assert_eq!(t.look_up("b"), 1);
    assert_eq!(t.insert("c"), 2);
    assert_eq!(t.look_up("b"), 1);
    assert_eq!(t.len(), 3);
}

#[test]
fn offsets_follow_first_insertion_order() {
    let mut t = SymbolTable::new();
    let names = ["q", "p", "q", "r", "p"];
    let mut results = Vec::new();
    for n in names.iter() {
        results.push(t.insert(n));
    }
    assert_eq!(results, vec![0, 1, -1, 2, -1]);
    assert_eq!(t.look_up("q"), 0);
    assert_eq!(t.look_up("p"), 1);
    assert_eq!(t.look_up("r"), 2);
}
