//! The two kinds of input records and the three kinds of reported
//! discrepancies.

use vstd::prelude::*;

verus! {

/// A line of the bank statement export.
#[derive(Debug, PartialEq, Eq, Hash, Clone)]
pub struct AnzFile {
    pub details: String,
    pub particulars: String,
    pub code: String,
    pub reference: String,
    pub amount: String,
    pub date: String,
}

/// A line of the accounting-ledger export.
#[derive(Debug, PartialEq, Eq, Hash, Clone)]
pub struct QbFile {
    pub name: String,
    pub split: String,
    pub date: String,
    pub amount: String,
}

/// An amount that occurs more often in the ledger than in the statement,
/// with the lines of both sides that carry it.
#[derive(Debug, Clone)]
pub struct AnzErrorMessage {
    pub amount: String,
    pub frequency: usize,
    pub qb_frequency: usize,
    pub qb_dates: Vec<String>,
    pub qb_names: Vec<String>,
    pub dates: Vec<String>,
    pub details: Vec<String>,
    pub particulars: Vec<String>,
    pub error_message: String,
}

/// An amount whose statement lines are to be checked against the ledger.
#[derive(Debug, Clone)]
pub struct QbErrorMessage {
    pub amount: String,
    pub dates: Vec<String>,
    pub names: Vec<String>,
    pub frequency: usize,
    pub anz_frequency: String,
    pub anz_dates: Vec<String>,
    pub anz_names: Vec<String>,
    pub error_message: String,
}

/// An amount that occurs on one side only.
#[derive(Debug, Clone)]
pub struct DoesntExistMessage {
    pub amount: String,
    pub dates: Vec<String>,
    pub names: Vec<String>,
    pub error_message: String,
}

/// The characters of each string of `v`.
pub open spec fn string_views(v: Seq<String>) -> Seq<Seq<char>> {
    v.map_values(|s: String| s@)
}

/// The contents of an `AnzErrorMessage`.
pub ghost struct AnzErrorView {
    pub amount: Seq<char>,
    pub frequency: nat,
    pub qb_frequency: nat,
    pub qb_dates: Seq<Seq<char>>,
    pub qb_names: Seq<Seq<char>>,
    pub dates: Seq<Seq<char>>,
    pub details: Seq<Seq<char>>,
    pub particulars: Seq<Seq<char>>,
    pub error_message: Seq<char>,
}

/// The contents of a `QbErrorMessage`.
pub ghost struct QbErrorView {
    pub amount: Seq<char>,
    pub dates: Seq<Seq<char>>,
    pub names: Seq<Seq<char>>,
    pub frequency: nat,
    pub anz_frequency: Seq<char>,
    pub anz_dates: Seq<Seq<char>>,
    pub anz_names: Seq<Seq<char>>,
    pub error_message: Seq<char>,
}

/// The contents of a `DoesntExistMessage`.
pub ghost struct DoesntExistView {
    pub amount: Seq<char>,
    pub dates: Seq<Seq<char>>,
    pub names: Seq<Seq<char>>,
    pub error_message: Seq<char>,
}

impl View for AnzErrorMessage {
    type V = AnzErrorView;

    open spec fn view(&self) -> AnzErrorView {
        AnzErrorView {
            amount: self.amount@,
            frequency: self.frequency as nat,
            qb_frequency: self.qb_frequency as nat,
            qb_dates: string_views(self.qb_dates@),
            qb_names: string_views(self.qb_names@),
            dates: string_views(self.dates@),
            details: string_views(self.details@),
            particulars: string_views(self.particulars@),
            error_message: self.error_message@,
        }
    }
}

impl View for QbErrorMessage {
    type V = QbErrorView;

    open spec fn view(&self) -> QbErrorView {
        QbErrorView {
            amount: self.amount@,
            dates: string_views(self.dates@),
            names: string_views(self.names@),
            frequency: self.frequency as nat,
            anz_frequency: self.anz_frequency@,
            anz_dates: string_views(self.anz_dates@),
            anz_names: string_views(self.anz_names@),
            error_message: self.error_message@,
        }
    }
}

impl View for DoesntExistMessage {
    type V = DoesntExistView;

    open spec fn view(&self) -> DoesntExistView {
        DoesntExistView {
            amount: self.amount@,
            dates: string_views(self.dates@),
            names: string_views(self.names@),
            error_message: self.error_message@,
        }
    }
}

/// The contents of each message of `v`.
pub open spec fn anz_error_views(v: Seq<AnzErrorMessage>) -> Seq<AnzErrorView> {
    v.map_values(|m: AnzErrorMessage| m@)
}

/// The contents of each message of `v`.
pub open spec fn qb_error_views(v: Seq<QbErrorMessage>) -> Seq<QbErrorView> {
    v.map_values(|m: QbErrorMessage| m@)
}

/// The contents of each message of `v`.
pub open spec fn doesnt_exist_views(v: Seq<DoesntExistMessage>) -> Seq<DoesntExistView> {
    v.map_values(|m: DoesntExistMessage| m@)
}

/// A record that carries an amount and a date.
pub trait AsRef<S> {
    /// The record's amount.
    spec fn amount_of(&self) -> S;

    /// The record's date.
    spec fn date_of(&self) -> S;

    fn as_ref(&self) -> (r: &S)
        ensures
            *r == self.amount_of(),
    ;

    fn as_ref_date(&self) -> (r: &S)
        ensures
            *r == self.date_of(),
    ;
}

impl AsRef<String> for AnzFile {
    open spec fn amount_of(&self) -> String {
        self.amount
    }

    open spec fn date_of(&self) -> String {
        self.date
    }

    fn as_ref(&self) -> (r: &String) {
        &self.amount
    }

    fn as_ref_date(&self) -> (r: &String) {
        &self.date
    }
}

impl AsRef<String> for QbFile {
    open spec fn amount_of(&self) -> String {
        self.amount
    }

    open spec fn date_of(&self) -> String {
        self.date
    }

    fn as_ref(&self) -> (r: &String) {
        &self.amount
    }

    fn as_ref_date(&self) -> (r: &String) {
        &self.date
    }
}

} // verus!
