#[test]
fn counter_it_works() {}

#[test]
fn lib_it_works() {}
