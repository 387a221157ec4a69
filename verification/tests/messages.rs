use recon::messages::{
    anz_dates, anz_details, anz_particulars, qb_dates, qb_names, qb_split_names,
};
use recon::records::{AnzFile, QbFile};
use recon::text::make_value_message;

fn qb(name: &str, date: &str) -> QbFile {
    QbFile { name: name.to_string(), split: String::new(), date: date.to_string(), amount: "1".to_string() }
}

#[test]
fn blank_ledger_names_mark_splits() {
    let v = vec![qb("Bob", "01/01"), qb("", "02/01")];
    assert_eq!(qb_split_names(&v), vec!["Bob".to_string(), "--SPLIT--".to_string()]);
    assert_eq!(qb_names(&v), vec!["Bob".to_string(), "".to_string()]);
    assert_eq!(qb_dates(&v), vec!["01/01".to_string(), "02/01".to_string()]);
}

#[test]
fn statement_columns() {
    let a = AnzFile {
        details: "d".to_string(),
        particulars: "p".to_string(),
        code: "c".to_string(),
        reference: "r".to_string(),
        amount: "1".to_string(),
        date: "t".to_string(),
    };
    let v = vec![a.clone(), a];
    assert_eq!(anz_dates(&v), vec!["t".to_string(), "t".to_string()]);
    assert_eq!(anz_details(&v), vec!["d".to_string(), "d".to_string()]);
    assert_eq!(anz_particulars(&v), vec!["p".to_string(), "p".to_string()]);
}

#[test]
fn value_messages() {
    assert_eq!(
        make_value_message(&"3.5".to_string(), " exists in ANZ but can't be found in QUICKBOOKS"),
        "The value 3.5 exists in ANZ but can't be found in QUICKBOOKS"
    );
}
