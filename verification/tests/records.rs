use recon::records::{AnzFile, AsRef, QbFile};

#[test]
fn records_give_their_amount_and_date() {
    let a = AnzFile {
        details: "Shop".to_string(),
        particulars: "p".to_string(),
        code: "c".to_string(),
        reference: "r".to_string(),
        amount: "12.5".to_string(),
        date: "01/02/2020".to_string(),
    };
    assert_eq!(a.as_ref(), "12.5");
    assert_eq!(a.as_ref_date(), "01/02/2020");
    let q = QbFile {
        name: "Bob".to_string(),
        split: "Bank".to_string(),
        date: "03/04/2020".to_string(),
        amount: "7.00".to_string(),
    };
    assert_eq!(q.as_ref(), "7.00");
    assert_eq!(q.as_ref_date(), "03/04/2020");
}
