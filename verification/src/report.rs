//! The text of the three reports, one per kind of discrepancy.

use vstd::prelude::*;
use crate::records::{
    anz_error_views, doesnt_exist_views, qb_error_views, string_views, AnzErrorMessage, AnzErrorView,
    DoesntExistMessage, DoesntExistView, QbErrorMessage, QbErrorView,
};
use crate::text::{decimal, usize_to_string};

verus! {

/// Each string of `v` on a line of its own.
pub open spec fn lines(v: Seq<Seq<char>>) -> Seq<char>
    decreases v.len(),
{
    if v.len() == 0 {
        Seq::empty()
    } else {
        lines(v.drop_last()) + v.last() + "\n"@
    }
}

/// The report text of one message about an amount that the ledger has
/// more often.
pub open spec fn anz_entry_text(m: AnzErrorView) -> Seq<char> {
    m.error_message + " \nthis value appears "@ + decimal(m.frequency) + " times in ANZ vs "@
        + decimal(m.qb_frequency) + " times in QUICKBOOKS\n"@ + "\nANZ details are as follows: \n"@
        + "\nDates: \n"@ + lines(m.dates) + "\nDetails: \n"@ + lines(m.details)
        + "\nQUICKBOOKS details are as follows:\n"@ + "\nDates: \n"@ + lines(m.qb_dates)
        + "\nNames: \n"@ + lines(m.qb_names) + "\n\n\n"@
}

/// The report text of one message about statement lines to check.
pub open spec fn qb_entry_text(m: QbErrorView) -> Seq<char> {
    m.error_message + " \nthis value appears "@ + decimal(m.frequency) + " times in QUICKBOOKS vs "@
        + m.anz_frequency + " times in ANZ\n"@ + "\nQUICKBOOK details are as follows: \n"@
        + "\nDates: \n"@ + lines(m.dates) + "\nDetails: \n"@ + lines(m.names)
        + "\nANZ details are as follows:\n"@ + "\nDates: \n"@ + lines(m.anz_dates) + "\nNames: \n"@
        + lines(m.anz_names) + "\n\n\n"@
}

/// The report text of one message about an amount that one side lacks.
pub open spec fn doesnt_exist_entry_text(m: DoesntExistView) -> Seq<char> {
    m.error_message + "\n"@ + "\nThese occur on dates:\n"@ + lines(m.dates) + "\nBy:\n"@ + lines(m.names)
        + "\n\n\n"@
}

/// The entries of `ms` one after another.
pub open spec fn anz_entries_text(ms: Seq<AnzErrorView>) -> Seq<char>
    decreases ms.len(),
{
    if ms.len() == 0 {
        Seq::empty()
    } else {
        anz_entries_text(ms.drop_last()) + anz_entry_text(ms.last())
    }
}

/// The entries of `ms` one after another.
pub open spec fn qb_entries_text(ms: Seq<QbErrorView>) -> Seq<char>
    decreases ms.len(),
{
    if ms.len() == 0 {
        Seq::empty()
    } else {
        qb_entries_text(ms.drop_last()) + qb_entry_text(ms.last())
    }
}

/// The entries of `ms` one after another.
pub open spec fn doesnt_exist_entries_text(ms: Seq<DoesntExistView>) -> Seq<char>
    decreases ms.len(),
{
    if ms.len() == 0 {
        Seq::empty()
    } else {
        doesnt_exist_entries_text(ms.drop_last()) + doesnt_exist_entry_text(ms.last())
    }
}

/// The report on the amounts that the ledger has more often.
pub open spec fn anz_report_text(ms: Seq<AnzErrorView>) -> Seq<char> {
    if ms.len() == 0 {
        "NO ADDITIONAL VALUES FOUND IN ANZ\n"@
    } else {
        anz_entries_text(ms)
    }
}

/// The report on the statement lines to check.
pub open spec fn qb_report_text(ms: Seq<QbErrorView>) -> Seq<char> {
    if ms.len() == 0 {
        "NO ADDITIONAL VALUES FOUND IN QUICKBOOKS\n"@
    } else {
        qb_entries_text(ms)
    }
}

/// Appends each string of `v` on a line of its own.
fn append_lines(out: &mut String, v: &Vec<String>)
    ensures
        final(out)@ == old(out)@ + lines(string_views(v@)),
{
    let ghost start = out@;
    let ghost sv = string_views(v@);
    let mut i: usize = 0;
    assert(sv.take(0) =~= Seq::<Seq<char>>::empty());
    assert(start + Seq::<char>::empty() =~= start);
    while i < v.len()
        invariant
            i <= v@.len(),
            sv == string_views(v@),
            out@ == start + lines(sv.take(i as int)),
        decreases v@.len() - i,
    {
        out.append(v[i].as_str());
        out.append("\n");
        assert(sv.take(i + 1).drop_last() =~= sv.take(i as int));
        assert(start + lines(sv.take(i as int)) + v@[i as int]@ + "\n"@ =~= start + (lines(
            sv.take(i as int),
        ) + v@[i as int]@ + "\n"@));
        i = i + 1;
    }
    assert(sv.take(v@.len() as int) =~= sv);
}

/// The report on the amounts that the ledger has more often, one entry per
/// message, or a line that says there are none.
pub fn anz_report(anz_error: &Vec<AnzErrorMessage>) -> (text: String)
    ensures
        text@ == anz_report_text(anz_error_views(anz_error@)),
{
    let mut f = String::new();
    if anz_error.len() == 0 {
        f.append("NO ADDITIONAL VALUES FOUND IN ANZ\n");
        return f;
    }
    let ghost ms = anz_error_views(anz_error@);
    let mut k: usize = 0;
    assert(ms.take(0) =~= Seq::<AnzErrorView>::empty());
    while k < anz_error.len()
        invariant
            k <= anz_error@.len(),
            ms == anz_error_views(anz_error@),
            f@ == anz_entries_text(ms.take(k as int)),
        decreases anz_error@.len() - k,
    {
        let entry = anz_entry(&anz_error[k]);
        f.append(entry.as_str());
        assert(ms.take(k + 1).drop_last() =~= ms.take(k as int));
        k = k + 1;
    }
    assert(ms.take(anz_error@.len() as int) =~= ms);
    f
}

/// The report text of one message about an amount that the ledger has
/// more often.
fn anz_entry(i: &AnzErrorMessage) -> (f: String)
    ensures
        f@ == anz_entry_text(i@),
{
    let mut f = i.error_message.clone();
    f.append(" \nthis value appears ");
    f.append(usize_to_string(i.frequency).as_str());
    f.append(" times in ANZ vs ");
    f.append(usize_to_string(i.qb_frequency).as_str());
    f.append(" times in QUICKBOOKS\n");
    f.append("\nANZ details are as follows: \n");
    f.append("\nDates: \n");
    append_lines(&mut f, &i.dates);
    f.append("\nDetails: \n");
    append_lines(&mut f, &i.details);
    f.append("\nQUICKBOOKS details are as follows:\n");
    f.append("\nDates: \n");
    append_lines(&mut f, &i.qb_dates);
    f.append("\nNames: \n");
    append_lines(&mut f, &i.qb_names);
    f.append("\n\n\n");
    f
}

/// The report on the statement lines to check, one entry per message, or a
/// line that says there are none.
pub fn qb_report(qb_error: &Vec<QbErrorMessage>) -> (text: String)
    ensures
        text@ == qb_report_text(qb_error_views(qb_error@)),
{
    let mut f = String::new();
    if qb_error.len() == 0 {
        f.append("NO ADDITIONAL VALUES FOUND IN QUICKBOOKS\n");
        return f;
    }
    let ghost ms = qb_error_views(qb_error@);
    let mut k: usize = 0;
    assert(ms.take(0) =~= Seq::<QbErrorView>::empty());
    while k < qb_error.len()
        invariant
            k <= qb_error@.len(),
            ms == qb_error_views(qb_error@),
            f@ == qb_entries_text(ms.take(k as int)),
        decreases qb_error@.len() - k,
    {
        let entry = qb_entry(&qb_error[k]);
        f.append(entry.as_str());
        assert(ms.take(k + 1).drop_last() =~= ms.take(k as int));
        k = k + 1;
    }
    assert(ms.take(qb_error@.len() as int) =~= ms);
    f
}

/// The report text of one message about statement lines to check.
fn qb_entry(i: &QbErrorMessage) -> (f: String)
    ensures
        f@ == qb_entry_text(i@),
{
    let mut f = i.error_message.clone();
    f.append(" \nthis value appears ");
    f.append(usize_to_string(i.frequency).as_str());
    f.append(" times in QUICKBOOKS vs ");
    f.append(i.anz_frequency.as_str());
    f.append(" times in ANZ\n");
    f.append("\nQUICKBOOK details are as follows: \n");
    f.append("\nDates: \n");
    append_lines(&mut f, &i.dates);
    f.append("\nDetails: \n");
    append_lines(&mut f, &i.names);
    f.append("\nANZ details are as follows:\n");
    f.append("\nDates: \n");
    append_lines(&mut f, &i.anz_dates);
    f.append("\nNames: \n");
    append_lines(&mut f, &i.anz_names);
    f.append("\n\n\n");
    f
}

/// The report on the amounts that one side lacks, one entry per message.
pub fn doesnt_exist_report(error: &Vec<DoesntExistMessage>) -> (text: String)
    ensures
        text@ == doesnt_exist_entries_text(doesnt_exist_views(error@)),
{
    let mut f = String::new();
    let ghost ms = doesnt_exist_views(error@);
    let mut k: usize = 0;
    assert(ms.take(0) =~= Seq::<DoesntExistView>::empty());
    while k < error.len()
        invariant
            k <= error@.len(),
            ms == doesnt_exist_views(error@),
            f@ == doesnt_exist_entries_text(ms.take(k as int)),
        decreases error@.len() - k,
    {
        let entry = doesnt_exist_entry(&error[k]);
        f.append(entry.as_str());
        assert(ms.take(k + 1).drop_last() =~= ms.take(k as int));
        k = k + 1;
    }
    assert(ms.take(error@.len() as int) =~= ms);
    f
}

/// The report text of one message about an amount that one side lacks.
fn doesnt_exist_entry(i: &DoesntExistMessage) -> (f: String)
    ensures
        f@ == doesnt_exist_entry_text(i@),
{
    let mut f = i.error_message.clone();
    f.append("\n");
    f.append("\nThese occur on dates:\n");
    append_lines(&mut f, &i.dates);
    f.append("\nBy:\n");
    append_lines(&mut f, &i.names);
    f.append("\n\n\n");
    f
}

} // verus!

verus! {

/// A report with one more message is the report before it followed by the
/// entry of that message; a report of one message is that message's entry.
/// So a non-empty report is every message's entry, in order.
pub proof fn law_reports_list_every_message_in_order(
    am: Seq<AnzErrorView>,
    a: AnzErrorView,
    qm: Seq<QbErrorView>,
    q: QbErrorView,
    dm: Seq<DoesntExistView>,
    d: DoesntExistView,
)
    ensures
        anz_report_text(am.push(a)) == if am.len() == 0 {
            anz_entry_text(a)
        } else {
            anz_report_text(am) + anz_entry_text(a)
        },
        qb_report_text(qm.push(q)) == if qm.len() == 0 {
            qb_entry_text(q)
        } else {
            qb_report_text(qm) + qb_entry_text(q)
        },
        doesnt_exist_entries_text(dm.push(d)) == doesnt_exist_entries_text(dm) + doesnt_exist_entry_text(d),
        anz_report_text(am.push(a)).len() == (if am.len() == 0 { 0 } else { anz_report_text(am).len() })
            + anz_entry_text(a).len(),
        qb_report_text(qm.push(q)).len() == (if qm.len() == 0 { 0 } else { qb_report_text(qm).len() })
            + qb_entry_text(q).len(),
{
    assert(am.push(a).drop_last() =~= am);
    assert(qm.push(q).drop_last() =~= qm);
    assert(dm.push(d).drop_last() =~= dm);
    if am.len() == 0 {
        assert(anz_entries_text(am) =~= Seq::<char>::empty());
        assert(Seq::<char>::empty() + anz_entry_text(a) =~= anz_entry_text(a));
    }
    if qm.len() == 0 {
        assert(qb_entries_text(qm) =~= Seq::<char>::empty());
        assert(Seq::<char>::empty() + qb_entry_text(q) =~= qb_entry_text(q));
    }
}

} // verus!
