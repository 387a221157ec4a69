use recon::amount_map::AmountMap;

fn s(x: &str) -> String {
    x.to_string()
}

#[test]
fn insert_then_get_gives_the_value() {
    let mut m: AmountMap<i32> = AmountMap::new();
    assert_eq!(m.len(), 0);
    m.insert(s("12.50"), 3);
    m.insert(s("7"), 1);
    assert_eq!(m.get(&s("12.50")), Some(&3));
    assert_eq!(m.get(&s("7")), Some(&1));
    assert_eq!(m.get(&s("8")), None);
    assert_eq!(m.len(), 2);
}

#[test]
fn insert_on_a_present_key_replaces_in_place() {
    let mut m: AmountMap<i32> = AmountMap::new();
    m.insert(s("a"), 1);
    m.insert(s("b"), 2);
    m.insert(s("a"), 9);
    assert_eq!(m.len(), 2);
    assert_eq!(m.key_at(0), &s("a"));
    assert_eq!(m.value_at(0), &9);
    assert_eq!(m.key_at(1), &s("b"));
}

#[test]
fn remove_keeps_the_order_of_the_rest() {
    let mut m: AmountMap<i32> = AmountMap::new();
    m.insert(s("a"), 1);
    m.insert(s("b"), 2);
    m.insert(s("c"), 3);
    assert_eq!(m.remove(&s("b")), Some(2));
    assert_eq!(m.remove(&s("b")), None);
    assert_eq!(m.get(&s("b")), None);
    assert_eq!(m.len(), 2);
    assert_eq!(m.key_at(0), &s("a"));
    assert_eq!(m.key_at(1), &s("c"));
}

#[test]
fn find_and_replace_value() {
    let mut m: AmountMap<Vec<u32>> = AmountMap::new();
    m.insert(s("x"), vec![1]);
    m.insert(s("y"), vec![2]);
    assert_eq!(m.find(&s("y")), Some(1));
    assert_eq!(m.find(&s("z")), None);
    let old = m.replace_value(1, vec![2, 3]);
    assert_eq!(old, vec![2]);
    assert_eq!(m.get(&s("y")), Some(&vec![2, 3]));
}
