use recon::amount_map::AmountMap;
use recon::matching::{
    build_investigation, check_and_prune_structs, check_and_return_hash, get_matching_values,
    remove_matching_values_from_counter,
};
use recon::records::{AnzFile, QbFile};

fn anz(amount: &str, date: &str, details: &str) -> AnzFile {
    AnzFile {
        details: details.to_string(),
        particulars: String::new(),
        code: String::new(),
        reference: String::new(),
        amount: amount.to_string(),
        date: date.to_string(),
    }
}

fn qb(amount: &str, date: &str, name: &str) -> QbFile {
    QbFile {
        name: name.to_string(),
        split: String::new(),
        date: date.to_string(),
        amount: amount.to_string(),
    }
}

fn s(x: &str) -> String {
    x.to_string()
}

#[test]
fn pruning_removes_partners_on_both_sides() {
    let mut a = vec![
        anz("100", "01/01", "Shop"),
        anz("25.5", "02/01", "Cafe"),
        anz("7", "03/01", "Bus"),
    ];
    let mut q = vec![
        qb("7.00", "09/01", "Bob"),
        qb("100.00", "01/01", "Shop"),
        qb("25.50", "02/01", "Cafe"),
        qb("25.50", "05/01", "Cafe"),
    ];
    check_and_prune_structs(&mut a, &mut q);
    assert_eq!(a, vec![anz("7", "03/01", "Bus")]);
    assert_eq!(q, vec![qb("7.00", "09/01", "Bob"), qb("25.50", "05/01", "Cafe")]);
}

#[test]
fn pruning_needs_the_statement_amount_in_trimmed_form() {
    let mut a = vec![anz("100.00", "01/01", "Shop")];
    let mut q = vec![qb("100.00", "01/01", "Shop")];
    check_and_prune_structs(&mut a, &mut q);
    assert_eq!(a.len(), 1);
    assert_eq!(q.len(), 1);
}

#[test]
fn pruning_removes_every_duplicate_partner() {
    let mut a = vec![anz("5", "01/01", "x")];
    let mut q = vec![qb("5.0", "01/01", "y"), qb("5", "01/01", "z")];
    check_and_prune_structs(&mut a, &mut q);
    assert!(a.is_empty());
    assert!(q.is_empty());
}

#[test]
fn pruning_with_an_empty_side_changes_nothing() {
    let mut a: Vec<AnzFile> = Vec::new();
    let mut q = vec![qb("0", "01/01", "y")];
    check_and_prune_structs(&mut a, &mut q);
    assert!(a.is_empty());
    assert_eq!(q.len(), 1);
}

#[test]
fn grouping_and_counting_by_amount() {
    let data = vec![
        anz("7", "01/01", "a"),
        anz("3", "02/01", "b"),
        anz("7", "03/01", "c"),
    ];
    let mut groups: AmountMap<Vec<AnzFile>> = AmountMap::new();
    let mut counts: AmountMap<i32> = AmountMap::new();
    check_and_return_hash(data, &mut groups, &mut counts);
    assert_eq!(groups.len(), 2);
    assert_eq!(groups.key_at(0), &s("7"));
    assert_eq!(
        groups.get(&s("7")),
        Some(&vec![anz("7", "01/01", "a"), anz("7", "03/01", "c")])
    );
    assert_eq!(groups.get(&s("3")), Some(&vec![anz("3", "02/01", "b")]));
    assert_eq!(counts.get(&s("7")), Some(&2));
    assert_eq!(counts.get(&s("3")), Some(&1));
    assert_eq!(counts.key_at(1), &s("3"));
}

#[test]
fn grouping_adds_to_groups_already_there() {
    let mut groups: AmountMap<Vec<AnzFile>> = AmountMap::new();
    let mut counts: AmountMap<i32> = AmountMap::new();
    check_and_return_hash(vec![anz("1", "d1", "a")], &mut groups, &mut counts);
    check_and_return_hash(vec![anz("1", "d2", "b"), anz("2", "d3", "c")], &mut groups, &mut counts);
    assert_eq!(counts.get(&s("1")), Some(&2));
    assert_eq!(groups.get(&s("1")).map(|v| v.len()), Some(2));
    assert_eq!(counts.len(), 2);
}

#[test]
fn equal_counts_are_recorded_for_removal() {
    let mut counts: AmountMap<i32> = AmountMap::new();
    counts.insert(s("4.5"), 2);
    let mut anz_remove: Vec<String> = Vec::new();
    let mut qb_remove: Vec<String> = Vec::new();
    get_matching_values(&counts, &mut anz_remove, &mut qb_remove, s("4.5"), s("4.50"), &2);
    assert_eq!(anz_remove, vec![s("4.5")]);
    assert_eq!(qb_remove, vec![s("4.50")]);
    get_matching_values(&counts, &mut anz_remove, &mut qb_remove, s("4.5"), s("4.50"), &3);
    get_matching_values(&counts, &mut anz_remove, &mut qb_remove, s("9"), s("9.0"), &2);
    assert_eq!(anz_remove.len(), 1);
    assert_eq!(qb_remove.len(), 1);
}

#[test]
fn removal_takes_keys_from_both_counters() {
    let mut one: AmountMap<i32> = AmountMap::new();
    let mut two: AmountMap<i32> = AmountMap::new();
    one.insert(s("a"), 1);
    one.insert(s("b"), 2);
    two.insert(s("b"), 3);
    two.insert(s("c"), 4);
    remove_matching_values_from_counter(vec![s("b"), s("c"), s("z")], &mut one, &mut two);
    assert_eq!(one.len(), 1);
    assert_eq!(one.get(&s("a")), Some(&1));
    assert_eq!(two.len(), 0);
}

#[test]
fn investigation_sorts_by_which_side_counts_more() {
    let mut counts: AmountMap<i32> = AmountMap::new();
    counts.insert(s("50"), 2);
    counts.insert(s("7"), 1);
    let mut exists = false;
    let mut qb_vec: Vec<String> = Vec::new();
    let mut anz_vec: Vec<String> = Vec::new();
    build_investigation(&counts, &s("50"), &s("50.0"), &1, &mut exists, &mut qb_vec, &mut anz_vec);
    assert!(exists);
    assert_eq!(qb_vec, vec![s("50.0")]);
    assert!(anz_vec.is_empty());
    let mut exists = false;
    build_investigation(&counts, &s("7"), &s("7.00"), &1, &mut exists, &mut qb_vec, &mut anz_vec);
    assert!(exists);
    assert_eq!(anz_vec, vec![s("7")]);
    let mut exists = false;
    build_investigation(&counts, &s("8"), &s("8"), &1, &mut exists, &mut qb_vec, &mut anz_vec);
    assert!(!exists);
    assert_eq!(qb_vec.len(), 1);
    assert_eq!(anz_vec.len(), 1);
}
