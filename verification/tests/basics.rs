use bf_jit::MEMORY_SIZE;

#[test]
fn it_works() {
    let result = 2 + 2;
    assert_eq!(result, 4);
}

#[test]
fn tape_has_thirty_thousand_cells() {
    assert_eq!(MEMORY_SIZE, 30000);
}
