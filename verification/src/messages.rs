//! The columns and wording of the three kinds of discrepancy messages.

use vstd::prelude::*;
use crate::amount_map::lookup;
use crate::amounts::trimmed;
use crate::records::{
    string_views, AnzErrorMessage, AnzErrorView, AnzFile, DoesntExistMessage, DoesntExistView,
    QbErrorMessage, QbErrorView, QbFile,
};
use crate::text::{decimal, make_value_message, usize_to_string, value_message};

verus! {

/// The wording after the amount where the ledger alone has it.
pub open spec fn only_in_qb_tail() -> Seq<char> {
    " exists in QUICKBOOKS but can't be found in ANZ"@
}

/// The wording after the amount where the statement alone has it.
pub open spec fn only_in_anz_tail() -> Seq<char> {
    " exists in ANZ but can't be found in QUICKBOOKS"@
}

/// The wording after the amount where the counts differ.
pub open spec fn more_in_qb_tail() -> Seq<char> {
    " exists more often in QUICKBOOKS than it does in ANZ"@
}

/// A ledger name as reported: a blank name marks a split transaction.
pub open spec fn ledger_name(n: Seq<char>) -> Seq<char> {
    if n.len() == 0 {
        "--SPLIT--"@
    } else {
        n
    }
}

/// The dates of ledger records.
pub open spec fn qb_dates_of(v: Seq<QbFile>) -> Seq<Seq<char>> {
    v.map_values(|x: QbFile| x.date@)
}

/// The names of ledger records.
pub open spec fn qb_names_of(v: Seq<QbFile>) -> Seq<Seq<char>> {
    v.map_values(|x: QbFile| x.name@)
}

/// The names of ledger records, a blank one marked as a split.
pub open spec fn qb_split_names_of(v: Seq<QbFile>) -> Seq<Seq<char>> {
    v.map_values(|x: QbFile| ledger_name(x.name@))
}

/// The dates of statement records.
pub open spec fn anz_dates_of(v: Seq<AnzFile>) -> Seq<Seq<char>> {
    v.map_values(|x: AnzFile| x.date@)
}

/// The details of statement records.
pub open spec fn anz_details_of(v: Seq<AnzFile>) -> Seq<Seq<char>> {
    v.map_values(|x: AnzFile| x.details@)
}

/// The particulars of statement records.
pub open spec fn anz_particulars_of(v: Seq<AnzFile>) -> Seq<Seq<char>> {
    v.map_values(|x: AnzFile| x.particulars@)
}

/// The records of a group, or none.
pub open spec fn group_or_empty<T>(g: Option<Seq<T>>) -> Seq<T> {
    match g {
        Some(v) => v,
        None => Seq::empty(),
    }
}

/// The message for an amount `k` that only the ledger has, with its records.
pub open spec fn only_in_qb_view(k: Seq<char>, v: Seq<QbFile>) -> DoesntExistView {
    DoesntExistView {
        amount: k,
        dates: qb_dates_of(v),
        names: qb_split_names_of(v),
        error_message: value_message(k, only_in_qb_tail()),
    }
}

/// The message for an amount `k` that only the statement has, with its
/// records.
pub open spec fn only_in_anz_view(k: Seq<char>, v: Seq<AnzFile>) -> DoesntExistView {
    DoesntExistView {
        amount: k,
        dates: anz_dates_of(v),
        names: anz_details_of(v),
        error_message: value_message(k, only_in_anz_tail()),
    }
}

/// The message for an amount `k` of the statement side with its ledger
/// records `qv`, beside the statement records `av` of its trimmed form.
pub open spec fn anz_error_view(k: Seq<char>, qv: Seq<QbFile>, av: Seq<AnzFile>) -> AnzErrorView {
    AnzErrorView {
        amount: k,
        frequency: av.len(),
        qb_frequency: qv.len(),
        qb_dates: qb_dates_of(qv),
        qb_names: qb_split_names_of(qv),
        dates: anz_dates_of(av),
        details: anz_details_of(av),
        particulars: anz_particulars_of(av),
        error_message: value_message(k, more_in_qb_tail()),
    }
}

/// The message for a ledger amount `k` with its statement records `av`
/// and its ledger records `qv`.
pub open spec fn qb_error_view(k: Seq<char>, av: Seq<AnzFile>, qv: Seq<QbFile>) -> QbErrorView {
    QbErrorView {
        amount: k,
        dates: qb_dates_of(qv),
        names: qb_names_of(qv),
        frequency: av.len(),
        anz_frequency: decimal(av.len()),
        anz_dates: anz_dates_of(av),
        anz_names: anz_details_of(av),
        error_message: value_message(k, more_in_qb_tail()),
    }
}

/// The dates of ledger records.
pub fn qb_dates(v: &Vec<QbFile>) -> (r: Vec<String>)
    ensures
        r@.len() == v@.len(),
        forall|i: int| 0 <= i < v@.len() ==> #[trigger] r@[i]@ == v@[i].date@,
        string_views(r@) == qb_dates_of(v@),
{
    let mut r: Vec<String> = Vec::new();
    let mut i: usize = 0;
    while i < v.len()
        invariant
            i <= v@.len(),
            string_views(r@) == qb_dates_of(v@.take(i as int)),
        decreases v@.len() - i,
    {
        r.push(v[i].date.clone());
        assert(qb_dates_of(v@.take(i + 1)) =~= qb_dates_of(v@.take(i as int)).push(v@[i as int].date@));
        assert(string_views(r@) =~= string_views(r@.drop_last()).push(r@.last()@));
        i = i + 1;
    }
    assert(v@.take(v@.len() as int) =~= v@);
    assert(string_views(r@).len() == r@.len());
    assert forall|i: int| 0 <= i < v@.len() implies #[trigger] r@[i]@ == qb_dates_of(v@)[i] by {
        assert(string_views(r@)[i] == r@[i]@);
    }
    r
}

/// The names of ledger records.
pub fn qb_names(v: &Vec<QbFile>) -> (r: Vec<String>)
    ensures
        r@.len() == v@.len(),
        forall|i: int| 0 <= i < v@.len() ==> #[trigger] r@[i]@ == v@[i].name@,
        string_views(r@) == qb_names_of(v@),
{
    let mut r: Vec<String> = Vec::new();
    let mut i: usize = 0;
    while i < v.len()
        invariant
            i <= v@.len(),
            string_views(r@) == qb_names_of(v@.take(i as int)),
        decreases v@.len() - i,
    {
        r.push(v[i].name.clone());
        assert(qb_names_of(v@.take(i + 1)) =~= qb_names_of(v@.take(i as int)).push(v@[i as int].name@));
        assert(string_views(r@) =~= string_views(r@.drop_last()).push(r@.last()@));
        i = i + 1;
    }
    assert(v@.take(v@.len() as int) =~= v@);
    assert(string_views(r@).len() == r@.len());
    assert forall|i: int| 0 <= i < v@.len() implies #[trigger] r@[i]@ == qb_names_of(v@)[i] by {
        assert(string_views(r@)[i] == r@[i]@);
    }
    r
}

/// The names of ledger records, a blank one replaced by `--SPLIT--`.
pub fn qb_split_names(v: &Vec<QbFile>) -> (r: Vec<String>)
    ensures
        r@.len() == v@.len(),
        forall|i: int| 0 <= i < v@.len() ==> #[trigger] r@[i]@ == (if v@[i].name@.len() == 0 { "--SPLIT--"@ } else { v@[i].name@ }),
        string_views(r@) == qb_split_names_of(v@),
{
    let mut r: Vec<String> = Vec::new();
    let mut i: usize = 0;
    while i < v.len()
        invariant
            i <= v@.len(),
            string_views(r@) == qb_split_names_of(v@.take(i as int)),
        decreases v@.len() - i,
    {
        let name = if v[i].name.as_str().is_empty() {
            let mut s = String::new();
            s.append("--SPLIT--");
            s
        } else {
            v[i].name.clone()
        };
        r.push(name);
        assert(qb_split_names_of(v@.take(i + 1)) =~= qb_split_names_of(v@.take(i as int)).push(
            ledger_name(v@[i as int].name@),
        ));
        assert(string_views(r@) =~= string_views(r@.drop_last()).push(r@.last()@));
        i = i + 1;
    }
    assert(v@.take(v@.len() as int) =~= v@);
    assert(string_views(r@).len() == r@.len());
    assert forall|i: int| 0 <= i < v@.len() implies #[trigger] r@[i]@ == qb_split_names_of(v@)[i] by {
        assert(string_views(r@)[i] == r@[i]@);
    }
    r
}

/// The dates of statement records.
pub fn anz_dates(v: &Vec<AnzFile>) -> (r: Vec<String>)
    ensures
        r@.len() == v@.len(),
        forall|i: int| 0 <= i < v@.len() ==> #[trigger] r@[i]@ == v@[i].date@,
        string_views(r@) == anz_dates_of(v@),
{
    let mut r: Vec<String> = Vec::new();
    let mut i: usize = 0;
    while i < v.len()
        invariant
            i <= v@.len(),
            string_views(r@) == anz_dates_of(v@.take(i as int)),
        decreases v@.len() - i,
    {
        r.push(v[i].date.clone());
        assert(anz_dates_of(v@.take(i + 1)) =~= anz_dates_of(v@.take(i as int)).push(v@[i as int].date@));
        assert(string_views(r@) =~= string_views(r@.drop_last()).push(r@.last()@));
        i = i + 1;
    }
    assert(v@.take(v@.len() as int) =~= v@);
    assert(string_views(r@).len() == r@.len());
    assert forall|i: int| 0 <= i < v@.len() implies #[trigger] r@[i]@ == anz_dates_of(v@)[i] by {
        assert(string_views(r@)[i] == r@[i]@);
    }
    r
}

/// The details of statement records.
pub fn anz_details(v: &Vec<AnzFile>) -> (r: Vec<String>)
    ensures
        r@.len() == v@.len(),
        forall|i: int| 0 <= i < v@.len() ==> #[trigger] r@[i]@ == v@[i].details@,
        string_views(r@) == anz_details_of(v@),
{
    let mut r: Vec<String> = Vec::new();
    let mut i: usize = 0;
    while i < v.len()
        invariant
            i <= v@.len(),
            string_views(r@) == anz_details_of(v@.take(i as int)),
        decreases v@.len() - i,
    {
        r.push(v[i].details.clone());
        assert(anz_details_of(v@.take(i + 1)) =~= anz_details_of(v@.take(i as int)).push(v@[i as int].details@));
        assert(string_views(r@) =~= string_views(r@.drop_last()).push(r@.last()@));
        i = i + 1;
    }
    assert(v@.take(v@.len() as int) =~= v@);
    assert(string_views(r@).len() == r@.len());
    assert forall|i: int| 0 <= i < v@.len() implies #[trigger] r@[i]@ == anz_details_of(v@)[i] by {
        assert(string_views(r@)[i] == r@[i]@);
    }
    r
}

/// The particulars of statement records.
pub fn anz_particulars(v: &Vec<AnzFile>) -> (r: Vec<String>)
    ensures
        r@.len() == v@.len(),
        forall|i: int| 0 <= i < v@.len() ==> #[trigger] r@[i]@ == v@[i].particulars@,
        string_views(r@) == anz_particulars_of(v@),
{
    let mut r: Vec<String> = Vec::new();
    let mut i: usize = 0;
    while i < v.len()
        invariant
            i <= v@.len(),
            string_views(r@) == anz_particulars_of(v@.take(i as int)),
        decreases v@.len() - i,
    {
        r.push(v[i].particulars.clone());
        assert(anz_particulars_of(v@.take(i + 1)) =~= anz_particulars_of(v@.take(i as int)).push(
            v@[i as int].particulars@,
        ));
        assert(string_views(r@) =~= string_views(r@.drop_last()).push(r@.last()@));
        i = i + 1;
    }
    assert(v@.take(v@.len() as int) =~= v@);
    assert(string_views(r@).len() == r@.len());
    assert forall|i: int| 0 <= i < v@.len() implies #[trigger] r@[i]@ == anz_particulars_of(v@)[i] by {
        assert(string_views(r@)[i] == r@[i]@);
    }
    r
}

} // verus!

verus! {

/// The message for an amount that only the ledger has.
pub fn only_in_qb_message(k: &String, v: &Vec<QbFile>) -> (m: DoesntExistMessage)
    ensures
        m@ == only_in_qb_view(k@, v@),
{
    DoesntExistMessage {
        amount: k.clone(),
        dates: qb_dates(v),
        names: qb_split_names(v),
        error_message: make_value_message(k, " exists in QUICKBOOKS but can't be found in ANZ"),
    }
}

/// The message for an amount that only the statement has.
pub fn only_in_anz_message(k: &String, v: &Vec<AnzFile>) -> (m: DoesntExistMessage)
    ensures
        m@ == only_in_anz_view(k@, v@),
{
    DoesntExistMessage {
        amount: k.clone(),
        dates: anz_dates(v),
        names: anz_details(v),
        error_message: make_value_message(k, " exists in ANZ but can't be found in QUICKBOOKS"),
    }
}

/// The message for a statement-side amount with its ledger records and the
/// statement records of its trimmed form.
pub fn anz_error_message(k: &String, qv: &Vec<QbFile>, av: &Vec<AnzFile>) -> (m: AnzErrorMessage)
    ensures
        m@ == anz_error_view(k@, qv@, av@),
{
    AnzErrorMessage {
        amount: k.clone(),
        frequency: av.len(),
        qb_frequency: qv.len(),
        qb_dates: qb_dates(qv),
        qb_names: qb_split_names(qv),
        dates: anz_dates(av),
        details: anz_details(av),
        particulars: anz_particulars(av),
        error_message: make_value_message(
            k,
            " exists more often in QUICKBOOKS than it does in ANZ",
        ),
    }
}

/// The message for a ledger amount with its statement and ledger records.
pub fn qb_error_message(k: &String, av: &Vec<AnzFile>, qv: &Vec<QbFile>) -> (m: QbErrorMessage)
    ensures
        m@ == qb_error_view(k@, av@, qv@),
{
    QbErrorMessage {
        amount: k.clone(),
        dates: qb_dates(qv),
        names: qb_names(qv),
        frequency: av.len(),
        anz_frequency: usize_to_string(av.len()),
        anz_dates: anz_dates(av),
        anz_names: anz_details(av),
        error_message: make_value_message(
            k,
            " exists more often in QUICKBOOKS than it does in ANZ",
        ),
    }
}

} // verus!

verus! {

/// Each column lists one entry per record, in order, taken from that
/// record: its own date, name or details; a blank ledger name is shown as
/// `--SPLIT--`.
pub proof fn law_columns_list_each_record_in_order(a: Seq<AnzFile>, q: Seq<QbFile>)
    ensures
        anz_dates_of(a).len() == a.len(),
        anz_details_of(a).len() == a.len(),
        anz_particulars_of(a).len() == a.len(),
        qb_dates_of(q).len() == q.len(),
        qb_names_of(q).len() == q.len(),
        qb_split_names_of(q).len() == q.len(),
        forall|i: int|
            0 <= i < a.len() ==> {
                &&& #[trigger] anz_dates_of(a)[i] == a[i].date@
                &&& anz_details_of(a)[i] == a[i].details@
                &&& anz_particulars_of(a)[i] == a[i].particulars@
            },
        forall|i: int|
            0 <= i < q.len() ==> {
                &&& #[trigger] qb_dates_of(q)[i] == q[i].date@
                &&& qb_names_of(q)[i] == q[i].name@
                &&& qb_split_names_of(q)[i] == if q[i].name@.len() == 0 {
                    "--SPLIT--"@
                } else {
                    q[i].name@
                }
            },
{
}

} // verus!
