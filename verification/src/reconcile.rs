//! The whole reconciliation: matching, grouping, cancelling equal counts,
//! and the three lists of discrepancies.

use vstd::prelude::*;
use crate::amount_map::{has_key, key_index, keys_distinct, keys_of, lookup, AmountMap};
use crate::amounts::{remove_trailing_zeros, trim_defined, trim_is_defined, trimmed};
use crate::matching::{
    build_investigation, counted, counts_fit, get_matching_values, group_view, grouped, lemma_key_index_unique,
    pruned_anz, pruned_qb, remove_keys,
};
use crate::matching::{
    check_and_prune_structs, check_and_return_hash, law_counts_and_groups_share_keys,
    law_counts_are_group_sizes,
    lemma_counted_keys, lemma_grouped_keys,
    lemma_remove_keys_subset, remove_matching_values_from_counter, lemma_counted_distinct,
    law_remove_keys_leaves_the_rest,
};
use crate::messages::{
    anz_error_message, anz_error_view, group_or_empty, only_in_anz_message, only_in_anz_view,
    only_in_qb_message, only_in_qb_view, qb_error_message, qb_error_view,
};
use crate::records::{
    anz_error_views, doesnt_exist_views, qb_error_views, string_views, AsRef, AnzErrorMessage,
    AnzErrorView, AnzFile, DoesntExistMessage, DoesntExistView, QbErrorMessage, QbErrorView,
    QbFile,
};

verus! {

// ---------------------------------------------------------------------
// The stages, over the records' contents
// ---------------------------------------------------------------------

/// The statement records left after matching.
pub open spec fn anz_left(anz: Seq<AnzFile>, qb: Seq<QbFile>) -> Seq<AnzFile> {
    pruned_anz(anz, qb)
}

/// The ledger records left after matching.
pub open spec fn qb_left(anz: Seq<AnzFile>, qb: Seq<QbFile>) -> Seq<QbFile> {
    pruned_qb(anz, qb)
}

/// The statement records left, grouped by amount.
pub open spec fn anz_groups(anz: Seq<AnzFile>, qb: Seq<QbFile>) -> Seq<(Seq<char>, Seq<AnzFile>)> {
    grouped(Seq::empty(), anz_left(anz, qb))
}

/// The ledger records left, grouped by amount.
pub open spec fn qb_groups(anz: Seq<AnzFile>, qb: Seq<QbFile>) -> Seq<(Seq<char>, Seq<QbFile>)> {
    grouped(Seq::empty(), qb_left(anz, qb))
}

/// How often each amount occurs among the statement records left.
pub open spec fn anz_counts(anz: Seq<AnzFile>, qb: Seq<QbFile>) -> Seq<(Seq<char>, i32)> {
    counted(Seq::empty(), anz_left(anz, qb))
}

/// How often each amount occurs among the ledger records left.
pub open spec fn qb_counts(anz: Seq<AnzFile>, qb: Seq<QbFile>) -> Seq<(Seq<char>, i32)> {
    counted(Seq::empty(), qb_left(anz, qb))
}

/// For each ledger amount in turn whose trimmed form the statement counts
/// exactly as often: the trimmed form (first list) and the ledger amount
/// (second list).
pub open spec fn equal_counts(ac: Seq<(Seq<char>, i32)>, qc: Seq<(Seq<char>, i32)>) -> (Seq<Seq<char>>, Seq<Seq<char>>)
    decreases qc.len(),
{
    if qc.len() == 0 {
        (Seq::empty(), Seq::empty())
    } else {
        let (ar, qr) = equal_counts(ac, qc.drop_last());
        let k = qc.last().0;
        let w = trimmed(k, 0);
        if lookup(ac, w) == Some(qc.last().1) {
            (ar.push(w), qr.push(k))
        } else {
            (ar, qr)
        }
    }
}

/// A counter without the amounts of both lists of `equal_counts`.
pub open spec fn without_equal_counts(
    c: Seq<(Seq<char>, i32)>,
    ac: Seq<(Seq<char>, i32)>,
    qc: Seq<(Seq<char>, i32)>,
) -> Seq<(Seq<char>, i32)> {
    remove_keys(remove_keys(c, equal_counts(ac, qc).0), equal_counts(ac, qc).1)
}

/// The statement counts that are left to explain.
pub open spec fn anz_counts_left(anz: Seq<AnzFile>, qb: Seq<QbFile>) -> Seq<(Seq<char>, i32)> {
    without_equal_counts(anz_counts(anz, qb), anz_counts(anz, qb), qb_counts(anz, qb))
}

/// The ledger counts that are left to explain.
pub open spec fn qb_counts_left(anz: Seq<AnzFile>, qb: Seq<QbFile>) -> Seq<(Seq<char>, i32)> {
    without_equal_counts(qb_counts(anz, qb), anz_counts(anz, qb), qb_counts(anz, qb))
}

/// One ledger amount `key`, counted `value` times, looked up in the
/// statement counts `ac` by `lookup_key`: the amounts to look at on the
/// ledger side, on the statement side, and whether it was found.
pub open spec fn investigate_one(
    ac: Seq<(Seq<char>, i32)>,
    lookup_key: Seq<char>,
    key: Seq<char>,
    value: i32,
) -> (Seq<Seq<char>>, Seq<Seq<char>>, bool) {
    match lookup(ac, lookup_key) {
        Some(v) => if v > value {
            (seq![key], Seq::empty(), true)
        } else {
            (Seq::empty(), seq![lookup_key], true)
        },
        None => (Seq::empty(), Seq::empty(), false),
    }
}

/// For the ledger counts `qc` in turn: the ledger amounts that occur more
/// often in the statement (first), the statement amounts that occur at
/// most as often (second), and the ledger amounts that the statement lacks
/// even with trailing zeros trimmed (third).
pub open spec fn investigate(ac: Seq<(Seq<char>, i32)>, qc: Seq<(Seq<char>, i32)>) -> (
    Seq<Seq<char>>,
    Seq<Seq<char>>,
    Seq<Seq<char>>,
)
    decreases qc.len(),
{
    if qc.len() == 0 {
        (Seq::empty(), Seq::empty(), Seq::empty())
    } else {
        let (iq, ia, dn) = investigate(ac, qc.drop_last());
        let (key, value) = qc.last();
        let first = investigate_one(ac, key, key, value);
        if first.2 {
            (iq + first.0, ia + first.1, dn)
        } else {
            let second = investigate_one(ac, trimmed(key, 0), key, value);
            if second.2 {
                (iq + second.0, ia + second.1, dn)
            } else {
                (iq, ia, dn.push(key))
            }
        }
    }
}

/// Some ledger amount of `qc` equals `k` once both are trimmed.
pub open spec fn has_trimmed_partner(k: Seq<char>, qc: Seq<(Seq<char>, i32)>) -> bool {
    exists|j: int| 0 <= j < qc.len() && trimmed(k, 0) == trimmed(#[trigger] qc[j].0, 0)
}

/// The statement amounts of `ac` that no ledger amount of `qc` equals once
/// both are trimmed, in order.
pub open spec fn missing_in_qb(ac: Seq<(Seq<char>, i32)>, qc: Seq<(Seq<char>, i32)>) -> Seq<Seq<char>> {
    keys_of(ac).filter(|k: Seq<char>| !has_trimmed_partner(k, qc))
}

/// The inputs on which the reconciliation is defined: every ledger amount
/// can be trimmed; the statement amounts left unexplained can be trimmed
/// where ledger amounts are left too; and no count passes `i32::MAX`.
pub open spec fn reconcile_defined(anz: Seq<AnzFile>, qb: Seq<QbFile>) -> bool {
    &&& forall|j: int| 0 <= j < qb.len() ==> trim_defined(#[trigger] qb[j].amount@, 0)
    &&& qb_counts_left(anz, qb).len() > 0 ==> forall|i: int|
        0 <= i < anz_counts_left(anz, qb).len() ==> trim_defined(
            #[trigger] anz_counts_left(anz, qb)[i].0,
            0,
        )
    &&& counts_fit(Seq::empty(), anz_left(anz, qb))
    &&& counts_fit(Seq::empty(), qb_left(anz, qb))
}

} // verus!

verus! {

/// For the amounts `keys` in turn that the ledger groups `qg` hold: the
/// message that only the ledger has them.
pub open spec fn only_in_qb_messages(keys: Seq<Seq<char>>, qg: Seq<(Seq<char>, Seq<QbFile>)>) -> Seq<DoesntExistView>
    decreases keys.len(),
{
    if keys.len() == 0 {
        Seq::empty()
    } else {
        let rest = only_in_qb_messages(keys.drop_last(), qg);
        match lookup(qg, keys.last()) {
            Some(v) => rest.push(only_in_qb_view(keys.last(), v)),
            None => rest,
        }
    }
}

/// For the amounts `keys` in turn that the statement groups `ag` hold: the
/// message that only the statement has them.
pub open spec fn only_in_anz_messages(keys: Seq<Seq<char>>, ag: Seq<(Seq<char>, Seq<AnzFile>)>) -> Seq<DoesntExistView>
    decreases keys.len(),
{
    if keys.len() == 0 {
        Seq::empty()
    } else {
        let rest = only_in_anz_messages(keys.drop_last(), ag);
        match lookup(ag, keys.last()) {
            Some(v) => rest.push(only_in_anz_view(keys.last(), v)),
            None => rest,
        }
    }
}

/// For the amounts `keys` in turn that the ledger groups `qg` hold: the
/// message with those ledger records and the statement records of the
/// trimmed amount.
pub open spec fn anz_error_messages(
    keys: Seq<Seq<char>>,
    qg: Seq<(Seq<char>, Seq<QbFile>)>,
    ag: Seq<(Seq<char>, Seq<AnzFile>)>,
) -> Seq<AnzErrorView>
    decreases keys.len(),
{
    if keys.len() == 0 {
        Seq::empty()
    } else {
        let rest = anz_error_messages(keys.drop_last(), qg, ag);
        let k = keys.last();
        match lookup(qg, k) {
            Some(qv) => rest.push(anz_error_view(k, qv, group_or_empty(lookup(ag, trimmed(k, 0))))),
            None => rest,
        }
    }
}

/// For the amounts `keys` in turn that the statement groups `ag` hold: the
/// message with those statement records and the ledger records of the
/// same amount.
pub open spec fn qb_error_messages(
    keys: Seq<Seq<char>>,
    ag: Seq<(Seq<char>, Seq<AnzFile>)>,
    qg: Seq<(Seq<char>, Seq<QbFile>)>,
) -> Seq<QbErrorView>
    decreases keys.len(),
{
    if keys.len() == 0 {
        Seq::empty()
    } else {
        let rest = qb_error_messages(keys.drop_last(), ag, qg);
        let k = keys.last();
        match lookup(ag, k) {
            Some(av) => rest.push(qb_error_view(k, av, group_or_empty(lookup(qg, k)))),
            None => rest,
        }
    }
}

/// What the reconciliation of `anz` against `qb` reports: the amounts
/// that occur more often in the ledger, the amounts whose statement lines
/// are to be checked, and the amounts that only one side has.
pub open spec fn reconciled(anz: Seq<AnzFile>, qb: Seq<QbFile>) -> (
    Seq<AnzErrorView>,
    Seq<QbErrorView>,
    Seq<DoesntExistView>,
) {
    let ag = anz_groups(anz, qb);
    let qg = qb_groups(anz, qb);
    let ac = anz_counts_left(anz, qb);
    let qc = qb_counts_left(anz, qb);
    let (iq, ia, dn) = investigate(ac, qc);
    (
        anz_error_messages(ia, qg, ag),
        qb_error_messages(iq, ag, qg),
        only_in_qb_messages(dn, qg) + only_in_anz_messages(missing_in_qb(ac, qc), ag),
    )
}

/// With distinct keys, looking an amount up among the groups gives the
/// records of the group that the map holds.
pub proof fn lemma_group_view_lookup<T>(m: AmountMap<Vec<T>>, k: Seq<char>)
    requires
        m.wf(),
    ensures
        match lookup(m.entries(), k) {
            Some(v) => lookup(group_view(m), k) == Some(v@),
            None => lookup(group_view(m), k) is None,
        },
{
    let e = m.entries();
    let g = group_view(m);
    assert(keys_distinct(g));
    if has_key(e, k) {
        let i = key_index(e, k);
        lemma_key_index_unique(g, i, k);
    } else {
        if has_key(g, k) {
            let i = key_index(g, k);
            assert(e[i].0 == k);
        }
    }
}

/// The amounts whose counts agree once the ledger amount is trimmed: the
/// trimmed amounts and the ledger amounts.
fn collect_equal_counts(ac: &AmountMap<i32>, qc: &AmountMap<i32>) -> (r: (Vec<String>, Vec<String>))
    requires
        ac.wf(),
        qc.wf(),
        forall|i: int| 0 <= i < qc.entries().len() ==> trim_defined(#[trigger] qc.entries()[i].0, 0),
    ensures
        (string_views(r.0@), string_views(r.1@)) == equal_counts(ac.entries(), qc.entries()),
{
    let mut anz_values_to_remove: Vec<String> = Vec::new();
    let mut qb_values_to_remove: Vec<String> = Vec::new();
    let n = qc.len();
    let mut idx: usize = 0;
    assert(qc.entries().take(0) =~= Seq::<(Seq<char>, i32)>::empty());
    assert(string_views(anz_values_to_remove@) =~= Seq::<Seq<char>>::empty());
    assert(string_views(qb_values_to_remove@) =~= Seq::<Seq<char>>::empty());
    while idx < n
        invariant
            ac.wf(),
            qc.wf(),
            n == qc.entries().len(),
            idx <= n,
            forall|i: int| 0 <= i < qc.entries().len() ==> trim_defined(#[trigger] qc.entries()[i].0, 0),
            (string_views(anz_values_to_remove@), string_views(qb_values_to_remove@))
                == equal_counts(ac.entries(), qc.entries().take(idx as int)),
        decreases n - idx,
    {
        let ghost pa = anz_values_to_remove@;
        let ghost pq = qb_values_to_remove@;
        let k1 = qc.key_at(idx);
        let v1 = qc.value_at(idx);
        assert(trim_defined(qc.entries()[idx as int].0, 0));
        let without_trailing_zero = remove_trailing_zeros(k1.clone(), 0);
        get_matching_values(
            ac,
            &mut anz_values_to_remove,
            &mut qb_values_to_remove,
            without_trailing_zero,
            k1.clone(),
            v1,
        );
        assert(qc.entries().take(idx + 1).drop_last() =~= qc.entries().take(idx as int));
        assert(string_views(anz_values_to_remove@) =~= string_views(pa) + string_views(
            anz_values_to_remove@.skip(pa.len() as int),
        ));
        assert(string_views(qb_values_to_remove@) =~= string_views(pq) + string_views(
            qb_values_to_remove@.skip(pq.len() as int),
        ));
        idx = idx + 1;
    }
    assert(qc.entries().take(n as int) =~= qc.entries());
    (anz_values_to_remove, qb_values_to_remove)
}

} // verus!

verus! {

/// Looks each ledger amount that is left up in the statement counts, first
/// as it is and then trimmed: the ledger amounts that the statement has
/// more often, the statement amounts that it has at most as often, and
/// the ledger amounts that it lacks.
fn collect_investigations(ac: &AmountMap<i32>, qc: &AmountMap<i32>) -> (r: (
    Vec<String>,
    Vec<String>,
    Vec<String>,
))
    requires
        ac.wf(),
        qc.wf(),
        forall|i: int| 0 <= i < qc.entries().len() ==> trim_defined(#[trigger] qc.entries()[i].0, 0),
    ensures
        (string_views(r.0@), string_views(r.1@), string_views(r.2@)) == investigate(
            ac.entries(),
            qc.entries(),
        ),
{
    let mut investigate_qb: Vec<String> = Vec::new();
    let mut investigate_anz: Vec<String> = Vec::new();
    let mut doesnt_exist_in_anz: Vec<String> = Vec::new();
    let n = qc.len();
    let mut idx: usize = 0;
    assert(qc.entries().take(0) =~= Seq::<(Seq<char>, i32)>::empty());
    assert(string_views(investigate_qb@) =~= Seq::<Seq<char>>::empty());
    while idx < n
        invariant
            ac.wf(),
            qc.wf(),
            n == qc.entries().len(),
            idx <= n,
            forall|i: int| 0 <= i < qc.entries().len() ==> trim_defined(#[trigger] qc.entries()[i].0, 0),
            (string_views(investigate_qb@), string_views(investigate_anz@), string_views(
                doesnt_exist_in_anz@,
            )) == investigate(ac.entries(), qc.entries().take(idx as int)),
        decreases n - idx,
    {
        let ghost pq = investigate_qb@;
        let ghost pa = investigate_anz@;
        let ghost pd = doesnt_exist_in_anz@;
        let key = qc.key_at(idx);
        let value = qc.value_at(idx);
        let mut exists = false;
        build_investigation(ac, key, key, value, &mut exists, &mut investigate_qb, &mut investigate_anz);
        if !exists {
            assert(trim_defined(qc.entries()[idx as int].0, 0));
            let trailing_zero = remove_trailing_zeros(key.clone(), 0);
            build_investigation(
                ac,
                &trailing_zero,
                key,
                value,
                &mut exists,
                &mut investigate_qb,
                &mut investigate_anz,
            );
        }
        if !exists {
            doesnt_exist_in_anz.push(key.clone());
        }
        assert(qc.entries().take(idx + 1).drop_last() =~= qc.entries().take(idx as int));
        assert(string_views(investigate_qb@) =~= string_views(pq) + string_views(
            investigate_qb@.skip(pq.len() as int),
        ));
        assert(string_views(investigate_anz@) =~= string_views(pa) + string_views(
            investigate_anz@.skip(pa.len() as int),
        ));
        assert(string_views(doesnt_exist_in_anz@) =~= string_views(pd) + string_views(
            doesnt_exist_in_anz@.skip(pd.len() as int),
        ));
        idx = idx + 1;
    }
    assert(qc.entries().take(n as int) =~= qc.entries());
    (investigate_qb, investigate_anz, doesnt_exist_in_anz)
}

/// The statement amounts left that no ledger amount left equals once both
/// are trimmed.
fn collect_missing_in_qb(ac: &AmountMap<i32>, qc: &AmountMap<i32>) -> (r: Vec<String>)
    requires
        ac.wf(),
        qc.wf(),
        forall|i: int| 0 <= i < qc.entries().len() ==> trim_defined(#[trigger] qc.entries()[i].0, 0),
        qc.entries().len() > 0 ==> forall|i: int|
            0 <= i < ac.entries().len() ==> trim_defined(#[trigger] ac.entries()[i].0, 0),
    ensures
        string_views(r@) == missing_in_qb(ac.entries(), qc.entries()),
{
    let ghost keys = keys_of(ac.entries());
    let ghost p = |k: Seq<char>| !has_trimmed_partner(k, qc.entries());
    let mut doesnt_exist_in_qb: Vec<String> = Vec::new();
    let n = ac.len();
    let nq = qc.len();
    let mut idx: usize = 0;
    assert(keys.take(0) =~= Seq::<Seq<char>>::empty());
    assert(keys.take(0).filter(p) =~= Seq::<Seq<char>>::empty()) by {
        reveal(Seq::filter);
    }
    assert(string_views(doesnt_exist_in_qb@) =~= Seq::<Seq<char>>::empty());
    while idx < n
        invariant
            ac.wf(),
            qc.wf(),
            n == ac.entries().len(),
            nq == qc.entries().len(),
            keys == keys_of(ac.entries()),
            p == (|k: Seq<char>| !has_trimmed_partner(k, qc.entries())),
            idx <= n,
            forall|i: int| 0 <= i < qc.entries().len() ==> trim_defined(#[trigger] qc.entries()[i].0, 0),
            qc.entries().len() > 0 ==> forall|i: int|
                0 <= i < ac.entries().len() ==> trim_defined(#[trigger] ac.entries()[i].0, 0),
            string_views(doesnt_exist_in_qb@) == keys.take(idx as int).filter(p),
        decreases n - idx,
    {
        let k1 = ac.key_at(idx);
        let mut exists = false;
        let mut j: usize = 0;
        while j < nq
            invariant
                ac.wf(),
                qc.wf(),
                n == ac.entries().len(),
                nq == qc.entries().len(),
                idx < n,
                k1@ == ac.entries()[idx as int].0,
                j <= nq,
                forall|i: int| 0 <= i < qc.entries().len() ==> trim_defined(#[trigger] qc.entries()[i].0, 0),
                qc.entries().len() > 0 ==> forall|i: int|
                    0 <= i < ac.entries().len() ==> trim_defined(#[trigger] ac.entries()[i].0, 0),
                exists == exists|i: int|
                    0 <= i < j && trimmed(k1@, 0) == trimmed(#[trigger] qc.entries()[i].0, 0),
            decreases nq - j,
        {
            let k2 = qc.key_at(j);
            assert(trim_defined(ac.entries()[idx as int].0, 0));
            assert(trim_defined(qc.entries()[j as int].0, 0));
            let t1 = remove_trailing_zeros(k1.clone(), 0);
            let t2 = remove_trailing_zeros(k2.clone(), 0);
            if t1.eq(&t2) {
                exists = true;
            }
            proof {
                if exists|i: int| 0 <= i < j + 1 && trimmed(k1@, 0) == trimmed(#[trigger] qc.entries()[i].0, 0) {
                    let i = choose|i: int| 0 <= i < j + 1 && trimmed(k1@, 0) == trimmed(#[trigger] qc.entries()[i].0, 0);
                    if i == j {
                        assert(t1@ == t2@);
                    }
                }
            }
            j = j + 1;
        }
        assert(exists == has_trimmed_partner(k1@, qc.entries()));
        let ghost prev = doesnt_exist_in_qb@;
        if !exists {
            doesnt_exist_in_qb.push(k1.clone());
        }
        proof {
            assert(keys.take(idx + 1).drop_last() =~= keys.take(idx as int));
            assert(keys.take(idx + 1).last() == k1@);
            reveal(Seq::filter);
            assert(string_views(doesnt_exist_in_qb@) =~= string_views(prev) + string_views(
                doesnt_exist_in_qb@.skip(prev.len() as int),
            ));
        }
        idx = idx + 1;
    }
    assert(keys.take(n as int) =~= keys);
    doesnt_exist_in_qb
}

} // verus!

verus! {

/// Appends, for each amount of `keys` that the ledger groups hold, the
/// message that only the ledger has it.
fn push_only_in_qb(keys: &Vec<String>, qg: &AmountMap<Vec<QbFile>>, out: &mut Vec<DoesntExistMessage>)
    requires
        qg.wf(),
    ensures
        doesnt_exist_views(final(out)@) == doesnt_exist_views(old(out)@) + only_in_qb_messages(
            string_views(keys@),
            group_view(*qg),
        ),
{
    let ghost ks = string_views(keys@);
    let ghost start = doesnt_exist_views(out@);
    let mut i: usize = 0;
    assert(ks.take(0) =~= Seq::<Seq<char>>::empty());
    assert(start + Seq::<DoesntExistView>::empty() =~= start);
    while i < keys.len()
        invariant
            qg.wf(),
            ks == string_views(keys@),
            i <= keys@.len(),
            doesnt_exist_views(out@) == start + only_in_qb_messages(ks.take(i as int), group_view(*qg)),
        decreases keys@.len() - i,
    {
        let ghost prev = out@;
        proof {
            lemma_group_view_lookup(*qg, keys@[i as int]@);
        }
        match qg.get(&keys[i]) {
            Some(v) => {
                out.push(only_in_qb_message(&keys[i], v));
            },
            None => {},
        }
        assert(ks.take(i + 1).drop_last() =~= ks.take(i as int));
        assert(doesnt_exist_views(out@) =~= doesnt_exist_views(prev) + doesnt_exist_views(
            out@.skip(prev.len() as int),
        ));
        i = i + 1;
    }
    assert(ks.take(keys@.len() as int) =~= ks);
}

/// Appends, for each amount of `keys` that the statement groups hold, the
/// message that only the statement has it.
fn push_only_in_anz(keys: &Vec<String>, ag: &AmountMap<Vec<AnzFile>>, out: &mut Vec<DoesntExistMessage>)
    requires
        ag.wf(),
    ensures
        doesnt_exist_views(final(out)@) == doesnt_exist_views(old(out)@) + only_in_anz_messages(
            string_views(keys@),
            group_view(*ag),
        ),
{
    let ghost ks = string_views(keys@);
    let ghost start = doesnt_exist_views(out@);
    let mut i: usize = 0;
    assert(ks.take(0) =~= Seq::<Seq<char>>::empty());
    assert(start + Seq::<DoesntExistView>::empty() =~= start);
    while i < keys.len()
        invariant
            ag.wf(),
            ks == string_views(keys@),
            i <= keys@.len(),
            doesnt_exist_views(out@) == start + only_in_anz_messages(ks.take(i as int), group_view(*ag)),
        decreases keys@.len() - i,
    {
        let ghost prev = out@;
        proof {
            lemma_group_view_lookup(*ag, keys@[i as int]@);
        }
        match ag.get(&keys[i]) {
            Some(v) => {
                out.push(only_in_anz_message(&keys[i], v));
            },
            None => {},
        }
        assert(ks.take(i + 1).drop_last() =~= ks.take(i as int));
        assert(doesnt_exist_views(out@) =~= doesnt_exist_views(prev) + doesnt_exist_views(
            out@.skip(prev.len() as int),
        ));
        i = i + 1;
    }
    assert(ks.take(keys@.len() as int) =~= ks);
}

/// For each amount of `keys` that the ledger groups hold, the message with
/// its ledger records and the statement records of its trimmed form.
fn collect_anz_errors(keys: &Vec<String>, qg: &AmountMap<Vec<QbFile>>, ag: &AmountMap<Vec<AnzFile>>) -> (r: Vec<AnzErrorMessage>)
    requires
        qg.wf(),
        ag.wf(),
        forall|k: Seq<char>| has_key(qg.entries(), k) ==> trim_defined(k, 0),
    ensures
        anz_error_views(r@) == anz_error_messages(string_views(keys@), group_view(*qg), group_view(*ag)),
{
    let ghost ks = string_views(keys@);
    let mut anz_error: Vec<AnzErrorMessage> = Vec::new();
    let mut i: usize = 0;
    assert(ks.take(0) =~= Seq::<Seq<char>>::empty());
    assert(anz_error_views(anz_error@) =~= Seq::<AnzErrorView>::empty());
    while i < keys.len()
        invariant
            qg.wf(),
            ag.wf(),
            forall|k: Seq<char>| has_key(qg.entries(), k) ==> trim_defined(k, 0),
            ks == string_views(keys@),
            i <= keys@.len(),
            anz_error_views(anz_error@) == anz_error_messages(ks.take(i as int), group_view(*qg), group_view(*ag)),
        decreases keys@.len() - i,
    {
        let ghost prev = anz_error@;
        let key = &keys[i];
        proof {
            lemma_group_view_lookup(*qg, key@);
        }
        match qg.get(key) {
            Some(qv) => {
                let str1 = remove_trailing_zeros(key.clone(), 0);
                proof {
                    lemma_group_view_lookup(*ag, str1@);
                }
                let none: Vec<AnzFile> = Vec::new();
                let av = match ag.get(&str1) {
                    Some(av) => av,
                    None => &none,
                };
                assert(av@ == group_or_empty(lookup(group_view(*ag), trimmed(key@, 0))));
                anz_error.push(anz_error_message(key, qv, av));
            },
            None => {},
        }
        assert(ks.take(i + 1).drop_last() =~= ks.take(i as int));
        assert(anz_error_views(anz_error@) =~= anz_error_views(prev) + anz_error_views(
            anz_error@.skip(prev.len() as int),
        ));
        i = i + 1;
    }
    assert(ks.take(keys@.len() as int) =~= ks);
    anz_error
}

/// For each amount of `keys` that the statement groups hold, the message
/// with its statement records and the ledger records of the same amount.
fn collect_qb_errors(keys: &Vec<String>, ag: &AmountMap<Vec<AnzFile>>, qg: &AmountMap<Vec<QbFile>>) -> (r: Vec<QbErrorMessage>)
    requires
        qg.wf(),
        ag.wf(),
    ensures
        qb_error_views(r@) == qb_error_messages(string_views(keys@), group_view(*ag), group_view(*qg)),
{
    let ghost ks = string_views(keys@);
    let mut qb_error: Vec<QbErrorMessage> = Vec::new();
    let mut i: usize = 0;
    assert(ks.take(0) =~= Seq::<Seq<char>>::empty());
    assert(qb_error_views(qb_error@) =~= Seq::<QbErrorView>::empty());
    while i < keys.len()
        invariant
            qg.wf(),
            ag.wf(),
            ks == string_views(keys@),
            i <= keys@.len(),
            qb_error_views(qb_error@) == qb_error_messages(ks.take(i as int), group_view(*ag), group_view(*qg)),
        decreases keys@.len() - i,
    {
        let ghost prev = qb_error@;
        let key = &keys[i];
        proof {
            lemma_group_view_lookup(*ag, key@);
            lemma_group_view_lookup(*qg, key@);
        }
        match ag.get(key) {
            Some(av) => {
                let none: Vec<QbFile> = Vec::new();
                let qv = match qg.get(key) {
                    Some(qv) => qv,
                    None => &none,
                };
                assert(qv@ == group_or_empty(lookup(group_view(*qg), key@)));
                qb_error.push(qb_error_message(key, av, qv));
            },
            None => {},
        }
        assert(ks.take(i + 1).drop_last() =~= ks.take(i as int));
        assert(qb_error_views(qb_error@) =~= qb_error_views(prev) + qb_error_views(
            qb_error@.skip(prev.len() as int),
        ));
        i = i + 1;
    }
    assert(ks.take(keys@.len() as int) =~= ks);
    qb_error
}

} // verus!

verus! {

/// Every amount that the ledger side counts or groups after matching is
/// the amount of a ledger record, so it can be trimmed.
pub proof fn lemma_ledger_amount_defined(anz: Seq<AnzFile>, qb: Seq<QbFile>, k: Seq<char>)
    requires
        forall|j: int| 0 <= j < qb.len() ==> trim_defined(#[trigger] qb[j].amount@, 0),
        has_key(qb_counts(anz, qb), k) || has_key(qb_groups(anz, qb), k),
    ensures
        trim_defined(k, 0),
{
    let q = qb_left(anz, qb);
    if has_key(qb_counts(anz, qb), k) {
        lemma_counted_keys(Seq::<(Seq<char>, i32)>::empty(), q, k);
    } else {
        lemma_grouped_keys(Seq::<(Seq<char>, Seq<QbFile>)>::empty(), q, k);
    }
    let i = choose|i: int| 0 <= i < q.len() && #[trigger] q[i].amount_of()@ == k;
    assert(q.contains(q[i]));
    qb.lemma_filter_contains_rev(|x: QbFile| !crate::matching::qb_matched(x, anz), q[i]);
    let j = choose|j: int| 0 <= j < qb.len() && qb[j] == q[i];
    assert(trim_defined(qb[j].amount@, 0));
}

/// Matching, grouping and counting both sides, then cancelling the amounts
/// whose counts agree: the statement groups and counts left, and the
/// ledger groups and counts left.
fn tally(anz: Vec<AnzFile>, qb: Vec<QbFile>) -> (r: (
    AmountMap<Vec<AnzFile>>,
    AmountMap<i32>,
    AmountMap<Vec<QbFile>>,
    AmountMap<i32>,
))
    requires
        forall|j: int| 0 <= j < qb@.len() ==> trim_defined(#[trigger] qb@[j].amount@, 0),
        counts_fit(Seq::empty(), anz_left(anz@, qb@)),
        counts_fit(Seq::empty(), qb_left(anz@, qb@)),
    ensures
        r.0.wf(),
        r.1.wf(),
        r.2.wf(),
        r.3.wf(),
        group_view(r.0) == anz_groups(anz@, qb@),
        r.1.entries() == anz_counts_left(anz@, qb@),
        group_view(r.2) == qb_groups(anz@, qb@),
        r.3.entries() == qb_counts_left(anz@, qb@),
{
    let ghost a0 = anz@;
    let ghost q0 = qb@;
    let mut anz_struct_data = anz;
    let mut qb_struct_data = qb;
    check_and_prune_structs(&mut anz_struct_data, &mut qb_struct_data);
    let mut anz_hash: AmountMap<Vec<AnzFile>> = AmountMap::new();
    let mut anz_hash_count: AmountMap<i32> = AmountMap::new();
    let mut qb_hash: AmountMap<Vec<QbFile>> = AmountMap::new();
    let mut qb_hash_count: AmountMap<i32> = AmountMap::new();
    assert(group_view(anz_hash) =~= Seq::<(Seq<char>, Seq<AnzFile>)>::empty());
    assert(group_view(qb_hash) =~= Seq::<(Seq<char>, Seq<QbFile>)>::empty());
    check_and_return_hash(anz_struct_data, &mut anz_hash, &mut anz_hash_count);
    check_and_return_hash(qb_struct_data, &mut qb_hash, &mut qb_hash_count);
    assert(qb_hash_count.entries() == qb_counts(a0, q0));
    proof {
        assert forall|i: int| 0 <= i < qb_hash_count.entries().len() implies trim_defined(
            #[trigger] qb_hash_count.entries()[i].0,
            0,
        ) by {
            assert(qb_hash_count.entries()[i].0 == qb_hash_count.entries()[i].0);
            lemma_ledger_amount_defined(a0, q0, qb_hash_count.entries()[i].0);
        }
    }
    let (anz_values_to_remove, qb_values_to_remove) = collect_equal_counts(&anz_hash_count, &qb_hash_count);
    remove_matching_values_from_counter(anz_values_to_remove, &mut anz_hash_count, &mut qb_hash_count);
    remove_matching_values_from_counter(qb_values_to_remove, &mut anz_hash_count, &mut qb_hash_count);
    (anz_hash, anz_hash_count, qb_hash, qb_hash_count)
}

/// Every ledger amount left after cancelling is the amount of a ledger
/// record, so it can be trimmed.
proof fn lemma_ledger_left_defined(anz: Seq<AnzFile>, qb: Seq<QbFile>)
    requires
        forall|j: int| 0 <= j < qb.len() ==> trim_defined(#[trigger] qb[j].amount@, 0),
    ensures
        forall|i: int|
            0 <= i < qb_counts_left(anz, qb).len() ==> trim_defined(
                #[trigger] qb_counts_left(anz, qb)[i].0,
                0,
            ),
        forall|k: Seq<char>| has_key(qb_groups(anz, qb), k) ==> trim_defined(k, 0),
{
    let qc = qb_counts(anz, qb);
    let ar = equal_counts(anz_counts(anz, qb), qc).0;
    let qr = equal_counts(anz_counts(anz, qb), qc).1;
    let qc2 = qb_counts_left(anz, qb);
    assert forall|i: int| 0 <= i < qc2.len() implies trim_defined(#[trigger] qc2[i].0, 0) by {
        let k = qc2[i].0;
        assert(has_key(qc2, k));
        lemma_remove_keys_subset(remove_keys(qc, ar), qr, k);
        lemma_remove_keys_subset(qc, ar, k);
        lemma_ledger_amount_defined(anz, qb, k);
    }
    assert forall|k: Seq<char>| has_key(qb_groups(anz, qb), k) implies trim_defined(k, 0) by {
        lemma_ledger_amount_defined(anz, qb, k);
    }
}

/// The messages about the amounts left in the counts `ac` and `qc`, with
/// the records of the groups `ag` and `qg`.
fn report_tally(
    ag: &AmountMap<Vec<AnzFile>>,
    ac: &AmountMap<i32>,
    qg: &AmountMap<Vec<QbFile>>,
    qc: &AmountMap<i32>,
) -> (r: (Vec<AnzErrorMessage>, Vec<QbErrorMessage>, Vec<DoesntExistMessage>))
    requires
        ag.wf(),
        ac.wf(),
        qg.wf(),
        qc.wf(),
        forall|i: int| 0 <= i < qc.entries().len() ==> trim_defined(#[trigger] qc.entries()[i].0, 0),
        qc.entries().len() > 0 ==> forall|i: int|
            0 <= i < ac.entries().len() ==> trim_defined(#[trigger] ac.entries()[i].0, 0),
        forall|k: Seq<char>| has_key(group_view(*qg), k) ==> trim_defined(k, 0),
    ensures
        anz_error_views(r.0@) == anz_error_messages(
            investigate(ac.entries(), qc.entries()).1,
            group_view(*qg),
            group_view(*ag),
        ),
        qb_error_views(r.1@) == qb_error_messages(
            investigate(ac.entries(), qc.entries()).0,
            group_view(*ag),
            group_view(*qg),
        ),
        doesnt_exist_views(r.2@) == only_in_qb_messages(
            investigate(ac.entries(), qc.entries()).2,
            group_view(*qg),
        ) + only_in_anz_messages(missing_in_qb(ac.entries(), qc.entries()), group_view(*ag)),
{
    let (investigate_qb, investigate_anz, doesnt_exist_in_anz) = collect_investigations(ac, qc);
    let doesnt_exist_in_qb = collect_missing_in_qb(ac, qc);
    let mut doesnt_exist_error: Vec<DoesntExistMessage> = Vec::new();
    assert(doesnt_exist_views(doesnt_exist_error@) =~= Seq::<DoesntExistView>::empty());
    push_only_in_qb(&doesnt_exist_in_anz, qg, &mut doesnt_exist_error);
    push_only_in_anz(&doesnt_exist_in_qb, ag, &mut doesnt_exist_error);
    proof {
        assert forall|k: Seq<char>| has_key(qg.entries(), k) implies trim_defined(k, 0) by {
            let i = choose|i: int| 0 <= i < qg.entries().len() && #[trigger] qg.entries()[i].0 == k;
            assert(group_view(*qg)[i].0 == k);
        }
    }
    let anz_error = collect_anz_errors(&investigate_anz, qg, ag);
    let qb_error = collect_qb_errors(&investigate_qb, ag, qg);
    assert(doesnt_exist_views(doesnt_exist_error@) =~= Seq::<DoesntExistView>::empty() + only_in_qb_messages(
        string_views(doesnt_exist_in_anz@),
        group_view(*qg),
    ) + only_in_anz_messages(string_views(doesnt_exist_in_qb@), group_view(*ag)));
    (anz_error, qb_error, doesnt_exist_error)
}

/// Reconciles the statement records `anz` against the ledger records `qb`.
///
/// Records with a partner on the other side (same amount once the ledger
/// amount is trimmed, same date) are set aside; the rest are grouped and
/// counted by amount; amounts whose counts agree on both sides are set
/// aside too. What is left is reported: amounts the ledger has more often
/// (first list), amounts whose statement lines are to be checked (second
/// list), and amounts that one side lacks (third list, the ledger-only
/// amounts first).
pub fn reconcile(anz: Vec<AnzFile>, qb: Vec<QbFile>) -> (r: (
    Vec<AnzErrorMessage>,
    Vec<QbErrorMessage>,
    Vec<DoesntExistMessage>,
))
    requires
        reconcile_defined(anz@, qb@),
    ensures
        anz_error_views(r.0@) == reconciled(anz@, qb@).0,
        qb_error_views(r.1@) == reconciled(anz@, qb@).1,
        doesnt_exist_views(r.2@) == reconciled(anz@, qb@).2,
{
    let ghost a0 = anz@;
    let ghost q0 = qb@;
    let (anz_hash, anz_hash_count, qb_hash, qb_hash_count) = tally(anz, qb);
    proof {
        lemma_ledger_left_defined(a0, q0);
    }
    report_tally(&anz_hash, &anz_hash_count, &qb_hash, &qb_hash_count)
}

/// Counting the records of `s`, which are fewer than `i32::MAX`, never
/// passes `i32::MAX`.
pub proof fn lemma_counts_fit_when_few<T: AsRef<String>>(s: Seq<T>)
    requires
        s.len() < i32::MAX,
    ensures
        counts_fit(Seq::empty(), s),
    decreases s.len(),
{
    if s.len() > 0 {
        let d = s.drop_last();
        lemma_counts_fit_when_few(d);
        let kx = s.last().amount_of()@;
        law_counts_are_group_sizes(d, kx);
        d.lemma_filter_len(|x: T| x.amount_of()@ == kx);
    }
}

/// Reconciles `anz` against `qb` where the reconciliation is defined and
/// each side has fewer than `i32::MAX` records, and gives nothing where
/// an amount that would be trimmed cannot be.
pub fn reconcile_checked(anz: Vec<AnzFile>, qb: Vec<QbFile>) -> (r: Option<(
    Vec<AnzErrorMessage>,
    Vec<QbErrorMessage>,
    Vec<DoesntExistMessage>,
)>)
    ensures
        anz@.len() < i32::MAX && qb@.len() < i32::MAX ==> (r is Some <==> reconcile_defined(anz@, qb@)),
        r is Some ==> reconcile_defined(anz@, qb@),
        r matches Some(out) ==> {
            &&& anz_error_views(out.0@) == reconciled(anz@, qb@).0
            &&& qb_error_views(out.1@) == reconciled(anz@, qb@).1
            &&& doesnt_exist_views(out.2@) == reconciled(anz@, qb@).2
        },
{
    let ghost a0 = anz@;
    let ghost q0 = qb@;
    if anz.len() >= 2147483647 || qb.len() >= 2147483647 {
        return None;
    }
    let mut j: usize = 0;
    while j < qb.len()
        invariant
            j <= qb@.len(),
            forall|i: int| 0 <= i < j ==> trim_defined(#[trigger] qb@[i].amount@, 0),
        decreases qb@.len() - j,
    {
        if !trim_is_defined(&qb[j].amount, 0) {
            return None;
        }
        j = j + 1;
    }
    proof {
        anz_left(a0, q0).lemma_filter_len(|a: AnzFile| !crate::matching::anz_matched(a, q0));
        qb_left(a0, q0).lemma_filter_len(|q: QbFile| !crate::matching::qb_matched(q, a0));
        a0.lemma_filter_len(|a: AnzFile| !crate::matching::anz_matched(a, q0));
        q0.lemma_filter_len(|q: QbFile| !crate::matching::qb_matched(q, a0));
        lemma_counts_fit_when_few(anz_left(a0, q0));
        lemma_counts_fit_when_few(qb_left(a0, q0));
    }
    let (anz_hash, anz_hash_count, qb_hash, qb_hash_count) = tally(anz, qb);
    if qb_hash_count.len() > 0 {
        let mut i: usize = 0;
        while i < anz_hash_count.len()
            invariant
                a0 == anz@,
                q0 == qb@,
                anz_hash_count.entries() == anz_counts_left(a0, q0),
                qb_counts_left(a0, q0).len() > 0,
                i <= anz_hash_count.entries().len(),
                forall|k: int| 0 <= k < i ==> trim_defined(#[trigger] anz_hash_count.entries()[k].0, 0),
            decreases anz_hash_count.entries().len() - i,
        {
            if !trim_is_defined(anz_hash_count.key_at(i), 0) {
                assert(!trim_defined(anz_counts_left(a0, q0)[i as int].0, 0));
                return None;
            }
            i = i + 1;
        }
    }
    proof {
        lemma_ledger_left_defined(a0, q0);
    }
    Some(report_tally(&anz_hash, &anz_hash_count, &qb_hash, &qb_hash_count))
}

} // verus!

verus! {

/// Every ledger amount that is left is accounted for exactly once: it is
/// to be looked at on the ledger side or on the statement side, or it is
/// missing from the statement, where neither it nor its trimmed form is
/// counted.
pub proof fn law_investigation_accounts_for_each_amount(ac: Seq<(Seq<char>, i32)>, qc: Seq<(Seq<char>, i32)>)
    ensures
        investigate(ac, qc).0.len() + investigate(ac, qc).1.len() + investigate(ac, qc).2.len()
            == qc.len(),
        forall|i: int|
            0 <= i < investigate(ac, qc).2.len() ==> {
                &&& has_key(qc, #[trigger] investigate(ac, qc).2[i])
                &&& lookup(ac, investigate(ac, qc).2[i]) is None
                &&& lookup(ac, trimmed(investigate(ac, qc).2[i], 0)) is None
            },
    decreases qc.len(),
{
    if qc.len() > 0 {
        let d = qc.drop_last();
        law_investigation_accounts_for_each_amount(ac, d);
        let dn = investigate(ac, d).2;
        let dn2 = investigate(ac, qc).2;
        assert forall|i: int| 0 <= i < dn2.len() implies {
            &&& has_key(qc, #[trigger] dn2[i])
            &&& lookup(ac, dn2[i]) is None
            &&& lookup(ac, trimmed(dn2[i], 0)) is None
        } by {
            if i < dn.len() {
                assert(dn2[i] == dn[i]);
                let j = choose|j: int| 0 <= j < d.len() && #[trigger] d[j].0 == dn[i];
                assert(qc[j].0 == dn[i]);
            } else {
                assert(qc[qc.len() - 1].0 == dn2[i]);
            }
        }
    }
}

} // verus!

verus! {

/// Where the ledger groups hold every amount of `keys`, each gets a
/// message.
proof fn lemma_only_in_qb_len(keys: Seq<Seq<char>>, qg: Seq<(Seq<char>, Seq<QbFile>)>)
    requires
        forall|i: int| 0 <= i < keys.len() ==> has_key(qg, #[trigger] keys[i]),
    ensures
        only_in_qb_messages(keys, qg).len() == keys.len(),
    decreases keys.len(),
{
    if keys.len() > 0 {
        let d = keys.drop_last();
        assert forall|i: int| 0 <= i < d.len() implies has_key(qg, #[trigger] d[i]) by {
            assert(d[i] == keys[i]);
        }
        lemma_only_in_qb_len(d, qg);
        assert(has_key(qg, keys[keys.len() - 1]));
    }
}

/// Where the statement groups hold every amount of `keys`, each gets a
/// message.
proof fn lemma_only_in_anz_len(keys: Seq<Seq<char>>, ag: Seq<(Seq<char>, Seq<AnzFile>)>)
    requires
        forall|i: int| 0 <= i < keys.len() ==> has_key(ag, #[trigger] keys[i]),
    ensures
        only_in_anz_messages(keys, ag).len() == keys.len(),
    decreases keys.len(),
{
    if keys.len() > 0 {
        let d = keys.drop_last();
        assert forall|i: int| 0 <= i < d.len() implies has_key(ag, #[trigger] d[i]) by {
            assert(d[i] == keys[i]);
        }
        lemma_only_in_anz_len(d, ag);
        assert(has_key(ag, keys[keys.len() - 1]));
    }
}

/// A key of the counts is a key of the groups of the same records.
proof fn lemma_count_key_is_group_key<T: AsRef<String>>(s: Seq<T>, k: Seq<char>)
    requires
        has_key(counted(Seq::empty(), s), k),
    ensures
        has_key(grouped(Seq::empty(), s), k),
{
    let c = counted(Seq::<(Seq<char>, i32)>::empty(), s);
    let g = grouped(Seq::<(Seq<char>, Seq<T>)>::empty(), s);
    law_counts_and_groups_share_keys(s);
    let i = key_index(c, k);
    assert(keys_of(c).len() == c.len() && keys_of(g).len() == g.len());
    assert(keys_of(c)[i] == c[i].0);
    assert(keys_of(g)[i] == g[i].0);
    assert(g[i].0 == k);
}

/// Every amount that is left unexplained on either side is reported as
/// missing from the other side, once.
pub proof fn law_every_unexplained_amount_is_reported(anz: Seq<AnzFile>, qb: Seq<QbFile>)
    ensures
        reconciled(anz, qb).2.len() == investigate(anz_counts_left(anz, qb), qb_counts_left(anz, qb)).2.len()
            + missing_in_qb(anz_counts_left(anz, qb), qb_counts_left(anz, qb)).len(),
{
    let ac = anz_counts(anz, qb);
    let qc = qb_counts(anz, qb);
    let ac2 = anz_counts_left(anz, qb);
    let qc2 = qb_counts_left(anz, qb);
    let (ar, qr) = equal_counts(ac, qc);
    let dn = investigate(ac2, qc2).2;
    let dq = missing_in_qb(ac2, qc2);
    law_investigation_accounts_for_each_amount(ac2, qc2);
    assert forall|i: int| 0 <= i < dn.len() implies has_key(qb_groups(anz, qb), #[trigger] dn[i]) by {
        lemma_remove_keys_subset(remove_keys(qc, ar), qr, dn[i]);
        lemma_remove_keys_subset(qc, ar, dn[i]);
        lemma_count_key_is_group_key(qb_left(anz, qb), dn[i]);
    }
    lemma_only_in_qb_len(dn, qb_groups(anz, qb));
    let p = |k: Seq<char>| !has_trimmed_partner(k, qc2);
    assert forall|i: int| 0 <= i < dq.len() implies has_key(anz_groups(anz, qb), #[trigger] dq[i]) by {
        assert(dq.contains(dq[i]));
        keys_of(ac2).lemma_filter_contains_rev(p, dq[i]);
        let j = choose|j: int| 0 <= j < keys_of(ac2).len() && keys_of(ac2)[j] == dq[i];
        assert(ac2[j].0 == dq[i]);
        lemma_remove_keys_subset(remove_keys(ac, ar), qr, dq[i]);
        lemma_remove_keys_subset(ac, ar, dq[i]);
        lemma_count_key_is_group_key(anz_left(anz, qb), dq[i]);
    }
    lemma_only_in_anz_len(dq, anz_groups(anz, qb));
}

} // verus!

verus! {

/// The counts that a message states agree with the lines that it lists.
pub open spec fn anz_error_consistent(m: AnzErrorView) -> bool {
    &&& m.qb_frequency == m.qb_dates.len()
    &&& m.qb_frequency == m.qb_names.len()
    &&& m.frequency == m.dates.len()
    &&& m.frequency == m.details.len()
    &&& m.frequency == m.particulars.len()
}

/// The counts that a message states agree with the lines that it lists.
pub open spec fn qb_error_consistent(m: QbErrorView) -> bool {
    &&& m.frequency == m.anz_dates.len()
    &&& m.frequency == m.anz_names.len()
    &&& m.anz_frequency == crate::text::decimal(m.frequency)
    &&& m.dates.len() == m.names.len()
}

/// A message lists as many dates as names.
pub open spec fn doesnt_exist_consistent(m: DoesntExistView) -> bool {
    m.dates.len() == m.names.len()
}

proof fn lemma_anz_errors_consistent(
    keys: Seq<Seq<char>>,
    qg: Seq<(Seq<char>, Seq<QbFile>)>,
    ag: Seq<(Seq<char>, Seq<AnzFile>)>,
)
    ensures
        forall|i: int|
            0 <= i < anz_error_messages(keys, qg, ag).len() ==> anz_error_consistent(
                #[trigger] anz_error_messages(keys, qg, ag)[i],
            ),
    decreases keys.len(),
{
    if keys.len() > 0 {
        lemma_anz_errors_consistent(keys.drop_last(), qg, ag);
        let rest = anz_error_messages(keys.drop_last(), qg, ag);
        let all = anz_error_messages(keys, qg, ag);
        assert forall|i: int| 0 <= i < all.len() implies anz_error_consistent(#[trigger] all[i]) by {
            if i < rest.len() {
                assert(all[i] == rest[i]);
            }
        }
    }
}

proof fn lemma_qb_errors_consistent(
    keys: Seq<Seq<char>>,
    ag: Seq<(Seq<char>, Seq<AnzFile>)>,
    qg: Seq<(Seq<char>, Seq<QbFile>)>,
)
    ensures
        forall|i: int|
            0 <= i < qb_error_messages(keys, ag, qg).len() ==> qb_error_consistent(
                #[trigger] qb_error_messages(keys, ag, qg)[i],
            ),
    decreases keys.len(),
{
    if keys.len() > 0 {
        lemma_qb_errors_consistent(keys.drop_last(), ag, qg);
        let rest = qb_error_messages(keys.drop_last(), ag, qg);
        let all = qb_error_messages(keys, ag, qg);
        assert forall|i: int| 0 <= i < all.len() implies qb_error_consistent(#[trigger] all[i]) by {
            if i < rest.len() {
                assert(all[i] == rest[i]);
            }
        }
    }
}

proof fn lemma_only_in_qb_consistent(kq: Seq<Seq<char>>, qg: Seq<(Seq<char>, Seq<QbFile>)>)
    ensures
        forall|i: int|
            0 <= i < only_in_qb_messages(kq, qg).len() ==> doesnt_exist_consistent(
                #[trigger] only_in_qb_messages(kq, qg)[i],
            ),
    decreases kq.len(),
{
    if kq.len() > 0 {
        lemma_only_in_qb_consistent(kq.drop_last(), qg);
        let rest = only_in_qb_messages(kq.drop_last(), qg);
        let all = only_in_qb_messages(kq, qg);
        assert forall|i: int| 0 <= i < all.len() implies doesnt_exist_consistent(#[trigger] all[i]) by {
            if i < rest.len() {
                assert(all[i] == rest[i]);
            }
        }
    }
}

proof fn lemma_only_in_anz_consistent(ka: Seq<Seq<char>>, ag: Seq<(Seq<char>, Seq<AnzFile>)>)
    ensures
        forall|i: int|
            0 <= i < only_in_anz_messages(ka, ag).len() ==> doesnt_exist_consistent(
                #[trigger] only_in_anz_messages(ka, ag)[i],
            ),
    decreases ka.len(),
{
    if ka.len() > 0 {
        lemma_only_in_anz_consistent(ka.drop_last(), ag);
        let rest = only_in_anz_messages(ka.drop_last(), ag);
        let all = only_in_anz_messages(ka, ag);
        assert forall|i: int| 0 <= i < all.len() implies doesnt_exist_consistent(#[trigger] all[i]) by {
            if i < rest.len() {
                assert(all[i] == rest[i]);
            }
        }
    }
}

/// In every message that the reconciliation reports, the stated numbers
/// of occurrences equal the numbers of dates and names listed.
pub proof fn law_messages_agree_with_their_lines(anz: Seq<AnzFile>, qb: Seq<QbFile>)
    ensures
        forall|i: int|
            0 <= i < reconciled(anz, qb).0.len() ==> anz_error_consistent(
                #[trigger] reconciled(anz, qb).0[i],
            ),
        forall|i: int|
            0 <= i < reconciled(anz, qb).1.len() ==> qb_error_consistent(
                #[trigger] reconciled(anz, qb).1[i],
            ),
        forall|i: int|
            0 <= i < reconciled(anz, qb).2.len() ==> doesnt_exist_consistent(
                #[trigger] reconciled(anz, qb).2[i],
            ),
{
    let ag = anz_groups(anz, qb);
    let qg = qb_groups(anz, qb);
    let ac = anz_counts_left(anz, qb);
    let qc = qb_counts_left(anz, qb);
    let (iq, ia, dn) = investigate(ac, qc);
    let dq = missing_in_qb(ac, qc);
    lemma_anz_errors_consistent(ia, qg, ag);
    lemma_qb_errors_consistent(iq, ag, qg);
    lemma_only_in_qb_consistent(dn, qg);
    lemma_only_in_anz_consistent(dq, ag);
    let m1 = only_in_qb_messages(dn, qg);
    let m2 = only_in_anz_messages(dq, ag);
    assert forall|i: int| 0 <= i < (m1 + m2).len() implies doesnt_exist_consistent(#[trigger] (m1 + m2)[i]) by {
        if i < m1.len() {
            assert((m1 + m2)[i] == m1[i]);
        } else {
            assert((m1 + m2)[i] == m2[i - m1.len()]);
        }
    }
}

} // verus!

verus! {

/// Every ledger amount whose trimmed form the statement counts equally
/// often is listed by `equal_counts`, trimmed in the first list and as it
/// is in the second.
proof fn lemma_equal_counts_lists_each(ac: Seq<(Seq<char>, i32)>, qc: Seq<(Seq<char>, i32)>)
    ensures
        forall|j: int|
            0 <= j < qc.len() && lookup(ac, trimmed(#[trigger] qc[j].0, 0)) == Some(qc[j].1) ==> {
                &&& equal_counts(ac, qc).0.contains(trimmed(qc[j].0, 0))
                &&& equal_counts(ac, qc).1.contains(qc[j].0)
            },
    decreases qc.len(),
{
    if qc.len() > 0 {
        let d = qc.drop_last();
        lemma_equal_counts_lists_each(ac, d);
        let ar = equal_counts(ac, d).0;
        let qr = equal_counts(ac, d).1;
        let ar2 = equal_counts(ac, qc).0;
        let qr2 = equal_counts(ac, qc).1;
        let n = qc.len() - 1;
        assert forall|j: int|
            0 <= j < qc.len() && lookup(ac, trimmed(#[trigger] qc[j].0, 0)) == Some(qc[j].1) implies {
                &&& ar2.contains(trimmed(qc[j].0, 0))
                &&& qr2.contains(qc[j].0)
            } by {
            if j < n {
                assert(d[j] == qc[j]);
                assert(ar.contains(trimmed(d[j].0, 0)));
                assert(qr.contains(d[j].0));
                let a = choose|a: int| 0 <= a < ar.len() && ar[a] == trimmed(d[j].0, 0);
                let b = choose|b: int| 0 <= b < qr.len() && qr[b] == d[j].0;
                assert(ar2[a] == ar[a]);
                assert(qr2[b] == qr[b]);
            } else {
                assert(ar2[ar.len() as int] == trimmed(qc[j].0, 0));
                assert(qr2[qr.len() as int] == qc[j].0);
            }
        }
    }
}

/// An amount that is neither the trimmed form nor the amount of a ledger
/// amount whose trimmed form the statement counts equally often is listed
/// by neither list of `equal_counts`.
proof fn lemma_equal_counts_lists_only_those(ac: Seq<(Seq<char>, i32)>, qc: Seq<(Seq<char>, i32)>, k: Seq<char>)
    requires
        forall|j: int|
            0 <= j < qc.len() && lookup(ac, trimmed(#[trigger] qc[j].0, 0)) == Some(qc[j].1) ==> k
                != trimmed(qc[j].0, 0) && k != qc[j].0,
    ensures
        !equal_counts(ac, qc).0.contains(k),
        !equal_counts(ac, qc).1.contains(k),
    decreases qc.len(),
{
    if qc.len() > 0 {
        let d = qc.drop_last();
        assert forall|j: int|
            0 <= j < d.len() && lookup(ac, trimmed(#[trigger] d[j].0, 0)) == Some(d[j].1) implies k
                != trimmed(d[j].0, 0) && k != d[j].0 by {
            assert(d[j] == qc[j]);
        }
        lemma_equal_counts_lists_only_those(ac, d, k);
        let ar = equal_counts(ac, d).0;
        let qr = equal_counts(ac, d).1;
        let ar2 = equal_counts(ac, qc).0;
        let qr2 = equal_counts(ac, qc).1;
        let n = qc.len() - 1;
        assert(qc[n] == qc.last());
        if ar2.contains(k) {
            let a = choose|a: int| 0 <= a < ar2.len() && ar2[a] == k;
            if a < ar.len() {
                assert(ar[a] == k);
            }
        }
        if qr2.contains(k) {
            let b = choose|b: int| 0 <= b < qr2.len() && qr2[b] == k;
            if b < qr.len() {
                assert(qr[b] == k);
            }
        }
    }
}

/// Cancelling equal counts compares each ledger amount, trimmed, with the
/// statement counts: where the statement counts the trimmed amount exactly
/// as often as the ledger counts the amount, both the trimmed amount and
/// the ledger amount leave both sides; every other amount keeps its count
/// on both sides.
pub proof fn law_equal_counts_cancel_under_the_trimmed_amount(anz: Seq<AnzFile>, qb: Seq<QbFile>)
    ensures
        forall|j: int|
            0 <= j < qb_counts(anz, qb).len() && lookup(
                anz_counts(anz, qb),
                trimmed(#[trigger] qb_counts(anz, qb)[j].0, 0),
            ) == Some(qb_counts(anz, qb)[j].1) ==> {
                &&& !has_key(anz_counts_left(anz, qb), trimmed(qb_counts(anz, qb)[j].0, 0))
                &&& !has_key(anz_counts_left(anz, qb), qb_counts(anz, qb)[j].0)
                &&& !has_key(qb_counts_left(anz, qb), qb_counts(anz, qb)[j].0)
                &&& !has_key(qb_counts_left(anz, qb), trimmed(qb_counts(anz, qb)[j].0, 0))
            },
        forall|k: Seq<char>|
            (forall|j: int|
                0 <= j < qb_counts(anz, qb).len() && lookup(
                    anz_counts(anz, qb),
                    trimmed(#[trigger] qb_counts(anz, qb)[j].0, 0),
                ) == Some(qb_counts(anz, qb)[j].1) ==> k != trimmed(qb_counts(anz, qb)[j].0, 0)
                    && k != qb_counts(anz, qb)[j].0) ==> {
                &&& lookup(anz_counts_left(anz, qb), k) == lookup(anz_counts(anz, qb), k)
                &&& lookup(qb_counts_left(anz, qb), k) == lookup(qb_counts(anz, qb), k)
            },
{
    let ac = anz_counts(anz, qb);
    let qc = qb_counts(anz, qb);
    let (ar, qr) = equal_counts(ac, qc);
    lemma_counted_distinct(Seq::<(Seq<char>, i32)>::empty(), anz_left(anz, qb));
    lemma_counted_distinct(Seq::<(Seq<char>, i32)>::empty(), qb_left(anz, qb));
    lemma_equal_counts_lists_each(ac, qc);
    assert forall|k: Seq<char>| ar.contains(k) || qr.contains(k) implies {
        &&& lookup(anz_counts_left(anz, qb), k) is None
        &&& lookup(qb_counts_left(anz, qb), k) is None
    } by {
        law_remove_keys_leaves_the_rest(ac, ar, k);
        law_remove_keys_leaves_the_rest(remove_keys(ac, ar), qr, k);
        law_remove_keys_leaves_the_rest(qc, ar, k);
        law_remove_keys_leaves_the_rest(remove_keys(qc, ar), qr, k);
    }
    assert forall|j: int|
        0 <= j < qc.len() && lookup(ac, trimmed(#[trigger] qc[j].0, 0)) == Some(qc[j].1) implies {
            &&& !has_key(anz_counts_left(anz, qb), trimmed(qc[j].0, 0))
            &&& !has_key(anz_counts_left(anz, qb), qc[j].0)
            &&& !has_key(qb_counts_left(anz, qb), qc[j].0)
            &&& !has_key(qb_counts_left(anz, qb), trimmed(qc[j].0, 0))
        } by {
        assert(ar.contains(trimmed(qc[j].0, 0)));
        assert(qr.contains(qc[j].0));
        assert(lookup(anz_counts_left(anz, qb), trimmed(qc[j].0, 0)) is None);
        assert(lookup(anz_counts_left(anz, qb), qc[j].0) is None);
        assert(lookup(qb_counts_left(anz, qb), trimmed(qc[j].0, 0)) is None);
        assert(lookup(qb_counts_left(anz, qb), qc[j].0) is None);
    }
    assert forall|k: Seq<char>|
        (forall|j: int|
            0 <= j < qc.len() && lookup(ac, trimmed(#[trigger] qc[j].0, 0)) == Some(qc[j].1) ==> k
                != trimmed(qc[j].0, 0) && k != qc[j].0) implies {
            &&& lookup(anz_counts_left(anz, qb), k) == lookup(ac, k)
            &&& lookup(qb_counts_left(anz, qb), k) == lookup(qc, k)
        } by {
        lemma_equal_counts_lists_only_those(ac, qc, k);
        law_remove_keys_leaves_the_rest(ac, ar, k);
        law_remove_keys_leaves_the_rest(remove_keys(ac, ar), qr, k);
        law_remove_keys_leaves_the_rest(qc, ar, k);
        law_remove_keys_leaves_the_rest(remove_keys(qc, ar), qr, k);
    }
}

} // verus!

verus! {

/// Where a ledger amount goes when it is looked up in the statement
/// counts: as it is first, then trimmed. An amount the statement counts
/// more often is to be looked at on the ledger side (under the ledger
/// amount); one it counts at most as often, on the statement side (under
/// the amount that was found); one it lacks both ways is missing.
pub open spec fn sorted_as_expected(
    ac: Seq<(Seq<char>, i32)>,
    key: Seq<char>,
    value: i32,
    iq: Seq<Seq<char>>,
    ia: Seq<Seq<char>>,
    dn: Seq<Seq<char>>,
) -> bool {
    &&& (lookup(ac, key) is Some && lookup(ac, key).unwrap() > value) ==> iq.contains(key)
    &&& (lookup(ac, key) is Some && lookup(ac, key).unwrap() <= value) ==> ia.contains(key)
    &&& (lookup(ac, key) is None && lookup(ac, trimmed(key, 0)) is Some && lookup(
        ac,
        trimmed(key, 0),
    ).unwrap() > value) ==> iq.contains(key)
    &&& (lookup(ac, key) is None && lookup(ac, trimmed(key, 0)) is Some && lookup(
        ac,
        trimmed(key, 0),
    ).unwrap() <= value) ==> ia.contains(trimmed(key, 0))
    &&& (lookup(ac, key) is None && lookup(ac, trimmed(key, 0)) is None) ==> dn.contains(key)
}

proof fn lemma_contains_after_add<A>(a: Seq<A>, b: Seq<A>, x: A)
    requires
        a.contains(x),
    ensures
        (a + b).contains(x),
{
    let i = choose|i: int| 0 <= i < a.len() && a[i] == x;
    assert((a + b)[i] == x);
}

/// Each ledger amount left is sorted by how often the statement counts it:
/// more often, at most as often, or not at all, first as it is and then
/// trimmed.
pub proof fn law_investigation_sorts_by_statement_count(ac: Seq<(Seq<char>, i32)>, qc: Seq<(Seq<char>, i32)>)
    ensures
        forall|j: int|
            0 <= j < qc.len() ==> sorted_as_expected(
                ac,
                #[trigger] qc[j].0,
                qc[j].1,
                investigate(ac, qc).0,
                investigate(ac, qc).1,
                investigate(ac, qc).2,
            ),
    decreases qc.len(),
{
    if qc.len() > 0 {
        let d = qc.drop_last();
        law_investigation_sorts_by_statement_count(ac, d);
        let (iq, ia, dn) = investigate(ac, d);
        let (iq2, ia2, dn2) = investigate(ac, qc);
        let n = qc.len() - 1;
        let key = qc[n].0;
        let value = qc[n].1;
        assert(iq2 == iq || iq2 == iq + seq![key]);
        assert(ia2 == ia || ia2 == ia + seq![key] || ia2 == ia + seq![trimmed(key, 0)]);
        assert(dn2 == dn || dn2 == dn.push(key));
        assert forall|j: int| 0 <= j < qc.len() implies sorted_as_expected(
            ac,
            #[trigger] qc[j].0,
            qc[j].1,
            iq2,
            ia2,
            dn2,
        ) by {
            if j < n {
                assert(d[j] == qc[j]);
                assert(sorted_as_expected(ac, d[j].0, d[j].1, iq, ia, dn));
                let k = qc[j].0;
                if iq.contains(k) {
                    lemma_contains_after_add(iq, seq![key], k);
                }
                if ia.contains(k) {
                    lemma_contains_after_add(ia, seq![key], k);
                    lemma_contains_after_add(ia, seq![trimmed(key, 0)], k);
                }
                if ia.contains(trimmed(k, 0)) {
                    lemma_contains_after_add(ia, seq![key], trimmed(k, 0));
                    lemma_contains_after_add(ia, seq![trimmed(key, 0)], trimmed(k, 0));
                }
                if dn.contains(k) {
                    let i = choose|i: int| 0 <= i < dn.len() && dn[i] == k;
                    assert(dn.push(key)[i] == k);
                }
            } else {
                assert((iq + seq![key])[iq.len() as int] == key);
                assert((ia + seq![key])[ia.len() as int] == key);
                assert((ia + seq![trimmed(key, 0)])[ia.len() as int] == trimmed(key, 0));
                assert(dn.push(key)[dn.len() as int] == key);
            }
        }
    }
}

} // verus!
