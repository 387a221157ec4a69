use recon::reconcile::reconcile;
use recon::records::{AnzFile, QbFile};
use recon::report::{anz_report, doesnt_exist_report, qb_report};

fn anz(amount: &str, date: &str, details: &str, particulars: &str) -> AnzFile {
    AnzFile {
        details: details.to_string(),
        particulars: particulars.to_string(),
        code: String::new(),
        reference: String::new(),
        amount: amount.to_string(),
        date: date.to_string(),
    }
}

fn qb(amount: &str, date: &str, name: &str) -> QbFile {
    QbFile {
        name: name.to_string(),
        split: String::new(),
        date: date.to_string(),
        amount: amount.to_string(),
    }
}

fn strings(v: &[&str]) -> Vec<String> {
    v.iter().map(|x| x.to_string()).collect()
}

fn statement() -> Vec<AnzFile> {
    vec![
        anz("100", "01/01", "Shop A", "p1"),
        anz("25.5", "02/01", "Cafe", "p2"),
        anz("25.5", "09/01", "Cafe", "p3"),
        anz("7", "03/01", "Bus", "p4"),
        anz("12.34", "04/01", "Gym", "p5"),
        anz("50", "12/01", "Rent", "p6"),
        anz("50", "13/01", "Rent", "p7"),
        anz("4.5", "15/01", "Gas", "p8"),
    ]
}

fn ledger() -> Vec<QbFile> {
    vec![
        qb("100.00", "01/01", "Shop A"),
        qb("25.50", "06/01", "Cafe"),
        qb("7", "08/01", "Bob"),
        qb("7", "10/01", "Eve"),
        qb("99.99", "11/01", ""),
        qb("50", "14/01", "Landlord"),
        qb("4.50", "16/01", "Gas Co"),
    ]
}

#[test]
fn reconcile_reports_each_kind_of_discrepancy() {
    let (anz_errors, qb_errors, missing) = reconcile(statement(), ledger());

    assert_eq!(anz_errors.len(), 1);
    let e = &anz_errors[0];
    assert_eq!(e.amount, "7");
    assert_eq!(e.frequency, 1);
    assert_eq!(e.qb_frequency, 2);
    assert_eq!(e.qb_dates, strings(&["08/01", "10/01"]));
    assert_eq!(e.qb_names, strings(&["Bob", "Eve"]));
    assert_eq!(e.dates, strings(&["03/01"]));
    assert_eq!(e.details, strings(&["Bus"]));
    assert_eq!(e.particulars, strings(&["p4"]));
    assert_eq!(e.error_message, "The value 7 exists more often in QUICKBOOKS than it does in ANZ");

    assert_eq!(qb_errors.len(), 1);
    let q = &qb_errors[0];
    assert_eq!(q.amount, "50");
    assert_eq!(q.dates, strings(&["14/01"]));
    assert_eq!(q.names, strings(&["Landlord"]));
    assert_eq!(q.frequency, 2);
    assert_eq!(q.anz_frequency, "2");
    assert_eq!(q.anz_dates, strings(&["12/01", "13/01"]));
    assert_eq!(q.anz_names, strings(&["Rent", "Rent"]));
    assert_eq!(q.error_message, "The value 50 exists more often in QUICKBOOKS than it does in ANZ");

    assert_eq!(missing.len(), 2);
    assert_eq!(missing[0].amount, "99.99");
    assert_eq!(missing[0].dates, strings(&["11/01"]));
    assert_eq!(missing[0].names, strings(&["--SPLIT--"]));
    assert_eq!(
        missing[0].error_message,
        "The value 99.99 exists in QUICKBOOKS but can't be found in ANZ"
    );
    assert_eq!(missing[1].amount, "12.34");
    assert_eq!(missing[1].dates, strings(&["04/01"]));
    assert_eq!(missing[1].names, strings(&["Gym"]));
    assert_eq!(
        missing[1].error_message,
        "The value 12.34 exists in ANZ but can't be found in QUICKBOOKS"
    );
}

#[test]
fn reconcile_of_matching_sides_reports_nothing() {
    let a = vec![anz("10", "01/01", "x", "p"), anz("2.5", "02/01", "y", "q")];
    let q = vec![qb("10.00", "01/01", "x"), qb("2.50", "02/01", "y")];
    let (anz_errors, qb_errors, missing) = reconcile(a, q);
    assert!(anz_errors.is_empty());
    assert!(qb_errors.is_empty());
    assert!(missing.is_empty());
}

#[test]
fn equal_counts_on_different_dates_cancel() {
    let a = vec![anz("4.5", "01/01", "x", "p")];
    let q = vec![qb("4.50", "03/01", "y")];
    let (anz_errors, qb_errors, missing) = reconcile(a, q);
    assert!(anz_errors.is_empty());
    assert!(qb_errors.is_empty());
    assert!(missing.is_empty());
}

#[test]
fn reconcile_of_empty_inputs_reports_nothing() {
    let (anz_errors, qb_errors, missing) = reconcile(Vec::new(), Vec::new());
    assert!(anz_errors.is_empty());
    assert!(qb_errors.is_empty());
    assert!(missing.is_empty());
}

#[test]
fn one_sided_inputs_are_reported_as_missing() {
    let (_, _, missing) = reconcile(Vec::new(), vec![qb("3.00", "01/01", "z"), qb("3.00", "02/01", "")]);
    assert_eq!(missing.len(), 1);
    assert_eq!(missing[0].amount, "3.00");
    assert_eq!(missing[0].dates, strings(&["01/01", "02/01"]));
    assert_eq!(missing[0].names, strings(&["z", "--SPLIT--"]));
    let (_, _, missing) = reconcile(vec![anz("0", "01/01", "x", "p")], Vec::new());
    assert_eq!(missing.len(), 1);
    assert_eq!(missing[0].amount, "0");
    assert_eq!(missing[0].error_message, "The value 0 exists in ANZ but can't be found in QUICKBOOKS");
}

#[test]
fn reports_render_the_messages() {
    let (anz_errors, qb_errors, missing) = reconcile(statement(), ledger());
    assert_eq!(
        anz_report(&anz_errors),
        "The value 7 exists more often in QUICKBOOKS than it does in ANZ \nthis value appears 1 times in ANZ vs 2 times in QUICKBOOKS\n\nANZ details are as follows: \n\nDates: \n03/01\n\nDetails: \nBus\n\nQUICKBOOKS details are as follows:\n\nDates: \n08/01\n10/01\n\nNames: \nBob\nEve\n\n\n\n"
    );
    assert_eq!(
        qb_report(&qb_errors),
        "The value 50 exists more often in QUICKBOOKS than it does in ANZ \nthis value appears 2 times in QUICKBOOKS vs 2 times in ANZ\n\nQUICKBOOK details are as follows: \n\nDates: \n14/01\n\nDetails: \nLandlord\n\nANZ details are as follows:\n\nDates: \n12/01\n13/01\n\nNames: \nRent\nRent\n\n\n\n"
    );
    assert_eq!(
        doesnt_exist_report(&missing),
        "The value 99.99 exists in QUICKBOOKS but can't be found in ANZ\n\nThese occur on dates:\n11/01\n\nBy:\n--SPLIT--\n\n\n\nThe value 12.34 exists in ANZ but can't be found in QUICKBOOKS\n\nThese occur on dates:\n04/01\n\nBy:\nGym\n\n\n\n"
    );
}

#[test]
fn empty_reports_say_so() {
    assert_eq!(anz_report(&Vec::new()), "NO ADDITIONAL VALUES FOUND IN ANZ\n");
    assert_eq!(qb_report(&Vec::new()), "NO ADDITIONAL VALUES FOUND IN QUICKBOOKS\n");
    assert_eq!(doesnt_exist_report(&Vec::new()), "");
}

#[test]
fn report_numbers_are_decimal() {
    let a: Vec<AnzFile> = (0..12).map(|i| anz("8", &format!("{:02}/02", i), "n", "p")).collect();
    let q = vec![qb("8", "01/03", "m")];
    let (anz_errors, qb_errors, _) = reconcile(a, q);
    assert!(anz_errors.is_empty());
    assert_eq!(qb_errors.len(), 1);
    assert_eq!(qb_errors[0].frequency, 12);
    assert_eq!(qb_errors[0].anz_frequency, "12");
    assert!(qb_report(&qb_errors).contains("this value appears 12 times in QUICKBOOKS vs 12 times in ANZ\n"));
}

#[test]
fn checked_reconcile_agrees_where_defined() {
    let checked = recon::reconcile::reconcile_checked(statement(), ledger()).expect("defined");
    let plain = reconcile(statement(), ledger());
    assert_eq!(checked.0.len(), plain.0.len());
    assert_eq!(checked.1.len(), plain.1.len());
    assert_eq!(checked.2.len(), plain.2.len());
    assert_eq!(checked.2[1].amount, plain.2[1].amount);
}

#[test]
fn checked_reconcile_refuses_an_untrimmable_ledger_amount() {
    let r = recon::reconcile::reconcile_checked(Vec::new(), vec![qb("0", "01/01", "x")]);
    assert!(r.is_none());
}

#[test]
fn checked_reconcile_refuses_an_untrimmable_statement_amount_left() {
    let r = recon::reconcile::reconcile_checked(vec![anz("00", "01/01", "x", "p")], vec![qb("5", "01/01", "x")]);
    assert!(r.is_none());
    let r = recon::reconcile::reconcile_checked(vec![anz("00", "01/01", "x", "p")], Vec::new());
    assert!(r.is_some());
}
