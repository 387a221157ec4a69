//! Matching the two sides record by record, and grouping and counting the
//! records of one side by amount.

use vstd::prelude::*;
use crate::amount_map::{
    has_key, insert_entry, key_index, keys_distinct, keys_of, law_lookup_after_insert,
    law_lookup_after_remove, lookup,
    remove_entry, AmountMap,
};
use crate::amounts::{remove_trailing_zeros, trim_defined, trimmed};
use crate::records::{string_views, AsRef};

verus! {

/// A statement record and a ledger record match when the ledger amount,
/// trimmed, equals the statement amount and the dates are equal.
pub open spec fn pair_matches<T: AsRef<String>, U: AsRef<String>>(a: T, q: U) -> bool {
    &&& trimmed(q.amount_of()@, 0) == a.amount_of()@
    &&& a.date_of()@ == q.date_of()@
}

/// The statement record `a` matches some record of `qb`.
pub open spec fn anz_matched<T: AsRef<String>, U: AsRef<String>>(a: T, qb: Seq<U>) -> bool {
    exists|j: int| 0 <= j < qb.len() && #[trigger] pair_matches(a, qb[j])
}

/// The ledger record `q` matches some record of `anz`.
pub open spec fn qb_matched<T: AsRef<String>, U: AsRef<String>>(q: U, anz: Seq<T>) -> bool {
    exists|i: int| 0 <= i < anz.len() && #[trigger] pair_matches(anz[i], q)
}

/// The statement records that match no ledger record, in order.
pub open spec fn pruned_anz<T: AsRef<String>, U: AsRef<String>>(anz: Seq<T>, qb: Seq<U>) -> Seq<T> {
    anz.filter(|a: T| !anz_matched(a, qb))
}

/// The ledger records that match no statement record, in order.
pub open spec fn pruned_qb<T: AsRef<String>, U: AsRef<String>>(anz: Seq<T>, qb: Seq<U>) -> Seq<U> {
    qb.filter(|q: U| !qb_matched(q, anz))
}

/// Matching trims every ledger amount once for each statement record.
pub open spec fn prune_defined<T: AsRef<String>, U: AsRef<String>>(anz: Seq<T>, qb: Seq<U>) -> bool {
    anz.len() > 0 ==> forall|j: int| 0 <= j < qb.len() ==> trim_defined(#[trigger] qb[j].amount_of()@, 0)
}

/// Filtering a sequence that starts with `x`.
pub proof fn lemma_filter_cons<A>(x: A, s: Seq<A>, p: spec_fn(A) -> bool)
    ensures
        (seq![x] + s).filter(p) == if p(x) {
            seq![x] + s.filter(p)
        } else {
            s.filter(p)
        },
{
    Seq::filter_distributes_over_add(seq![x], s, p);
    reveal_with_fuel(Seq::filter, 2);
    assert(seq![x].drop_last() =~= Seq::<A>::empty());
    if p(x) {
        assert(seq![x].filter(p) =~= seq![x]);
    } else {
        assert(seq![x].filter(p) =~= Seq::<A>::empty());
    }
    assert(Seq::<A>::empty() + s.filter(p) =~= s.filter(p));
}

/// Removes from `v` the elements whose flag is set; the others keep their
/// order.
fn remove_flagged<A>(v: &mut Vec<A>, flags: &Vec<bool>, Ghost(p): Ghost<spec_fn(A) -> bool>)
    requires
        flags@.len() == old(v)@.len(),
        forall|i: int| 0 <= i < flags@.len() ==> flags@[i] == !p(#[trigger] old(v)@[i]),
    ensures
        final(v)@ == old(v)@.filter(p),
{
    let ghost s = v@;
    let mut i = v.len();
    assert(s.skip(i as int) =~= Seq::<A>::empty());
    assert(Seq::<A>::empty().filter(p) =~= Seq::<A>::empty()) by {
        reveal(Seq::filter);
    }
    assert(s.take(i as int) + Seq::<A>::empty() =~= s);
    while i > 0
        invariant
            i <= s.len(),
            flags@.len() == s.len(),
            forall|k: int| 0 <= k < flags@.len() ==> flags@[k] == !p(#[trigger] s[k]),
            v@ == s.take(i as int) + s.skip(i as int).filter(p),
        decreases i,
    {
        i = i - 1;
        let ghost x = s[i as int];
        assert(s.skip(i as int) =~= seq![x] + s.skip(i + 1));
        proof {
            lemma_filter_cons(x, s.skip(i + 1), p);
        }
        assert(s.take(i + 1) =~= s.take(i as int).push(x));
        if flags[i] {
            v.remove(i);
            assert(v@ =~= s.take(i as int) + s.skip(i as int).filter(p));
        } else {
            assert(v@ =~= s.take(i as int) + s.skip(i as int).filter(p));
        }
    }
    assert(s.take(0) + s.skip(0).filter(p) =~= s.filter(p)) by {
        assert(s.skip(0) =~= s);
    }
}

/// Removes from both sides the records that have a partner on the other
/// side: a statement record and a ledger record are partners when the
/// ledger amount with trailing zeros trimmed equals the statement amount
/// and the dates are equal. Both lists keep their order.
pub fn check_and_prune_structs<T: AsRef<String>, U: AsRef<String>>(
    anz_struct: &mut Vec<T>,
    qb_struct: &mut Vec<U>,
)
    requires
        prune_defined(old(anz_struct)@, old(qb_struct)@),
    ensures
        final(anz_struct)@ == pruned_anz(old(anz_struct)@, old(qb_struct)@),
        final(qb_struct)@ == pruned_qb(old(anz_struct)@, old(qb_struct)@),
        forall|i: int|
            0 <= i < old(anz_struct)@.len() ==> (final(anz_struct)@.contains(
                #[trigger] old(anz_struct)@[i],
            ) <==> !exists|j: int|
                #![trigger old(qb_struct)@[j]]
                0 <= j < old(qb_struct)@.len() && trimmed(old(qb_struct)@[j].amount_of()@, 0)
                    == old(anz_struct)@[i].amount_of()@ && old(anz_struct)@[i].date_of()@ == old(
                    qb_struct,
                )@[j].date_of()@),
        forall|j: int|
            0 <= j < old(qb_struct)@.len() ==> (final(qb_struct)@.contains(
                #[trigger] old(qb_struct)@[j],
            ) <==> !exists|i: int|
                #![trigger old(anz_struct)@[i]]
                0 <= i < old(anz_struct)@.len() && trimmed(old(qb_struct)@[j].amount_of()@, 0)
                    == old(anz_struct)@[i].amount_of()@ && old(anz_struct)@[i].date_of()@ == old(
                    qb_struct,
                )@[j].date_of()@),
{
    let ghost a = anz_struct@;
    let ghost q = qb_struct@;
    let na = anz_struct.len();
    let nq = qb_struct.len();
    let mut anz_remove: Vec<bool> = Vec::new();
    let mut k: usize = 0;
    while k < na
        invariant
            k <= na,
            anz_remove@.len() == k,
            forall|i: int| 0 <= i < k ==> !#[trigger] anz_remove@[i],
        decreases na - k,
    {
        anz_remove.push(false);
        k = k + 1;
    }
    let mut qb_remove: Vec<bool> = Vec::new();
    let mut k: usize = 0;
    while k < nq
        invariant
            k <= nq,
            qb_remove@.len() == k,
            forall|j: int| 0 <= j < k ==> !#[trigger] qb_remove@[j],
        decreases nq - k,
    {
        qb_remove.push(false);
        k = k + 1;
    }
    let mut pos: usize = 0;
    while pos < na
        invariant
            a == anz_struct@,
            q == qb_struct@,
            na == a.len(),
            nq == q.len(),
            prune_defined(a, q),
            pos <= na,
            anz_remove@.len() == na,
            qb_remove@.len() == nq,
            forall|i: int| 0 <= i < pos ==> #[trigger] anz_remove@[i] == anz_matched(a[i], q),
            forall|i: int| pos <= i < na ==> !#[trigger] anz_remove@[i],
            forall|j: int|
                0 <= j < nq ==> #[trigger] qb_remove@[j] == exists|i: int|
                    0 <= i < pos && #[trigger] pair_matches(a[i], q[j]),
        decreases na - pos,
    {
        let mut pos2: usize = 0;
        while pos2 < nq
            invariant
                a == anz_struct@,
                q == qb_struct@,
                na == a.len(),
                nq == q.len(),
                prune_defined(a, q),
                pos < na,
                pos2 <= nq,
                anz_remove@.len() == na,
                qb_remove@.len() == nq,
                forall|i: int| 0 <= i < pos ==> #[trigger] anz_remove@[i] == anz_matched(a[i], q),
                forall|i: int| pos < i < na ==> !#[trigger] anz_remove@[i],
                anz_remove@[pos as int] == exists|j: int|
                    0 <= j < pos2 && #[trigger] pair_matches(a[pos as int], q[j]),
                forall|j: int|
                    0 <= j < pos2 ==> #[trigger] qb_remove@[j] == exists|i: int|
                        0 <= i <= pos && #[trigger] pair_matches(a[i], q[j]),
                forall|j: int|
                    pos2 <= j < nq ==> #[trigger] qb_remove@[j] == exists|i: int|
                        0 <= i < pos && #[trigger] pair_matches(a[i], q[j]),
            decreases nq - pos2,
        {
            let ghost old_anz_remove = anz_remove@;
            let ghost old_qb_remove = qb_remove@;
            assert(trim_defined(q[pos2 as int].amount_of()@, 0));
            let qb_value = remove_trailing_zeros(qb_struct[pos2].as_ref().clone(), 0);
            let mut hit = false;
            if anz_struct[pos].as_ref().eq(&qb_value) {
                if anz_struct[pos].as_ref_date().eq(qb_struct[pos2].as_ref_date()) {
                    hit = true;
                }
            }
            assert(hit == pair_matches(a[pos as int], q[pos2 as int]));
            if hit {
                anz_remove.set(pos, true);
                qb_remove.set(pos2, true);
            }
            assert forall|j: int| 0 <= j < pos2 + 1 implies #[trigger] qb_remove@[j] == exists|i: int|
                0 <= i <= pos && #[trigger] pair_matches(a[i], q[j]) by {
                if j < pos2 {
                    assert(qb_remove@[j] == old_qb_remove[j]);
                } else {
                    if hit {
                        assert(pair_matches(a[pos as int], q[j]));
                    } else {
                        assert(old_qb_remove[j] == exists|i: int|
                            0 <= i < pos && #[trigger] pair_matches(a[i], q[j]));
                        if exists|i: int| 0 <= i <= pos && #[trigger] pair_matches(a[i], q[j]) {
                            let i = choose|i: int| 0 <= i <= pos && #[trigger] pair_matches(a[i], q[j]);
                            assert(i < pos);
                        }
                    }
                }
            }
            proof {
                if !hit {
                    if exists|j: int| 0 <= j < pos2 + 1 && #[trigger] pair_matches(a[pos as int], q[j]) {
                        let j = choose|j: int| 0 <= j < pos2 + 1 && #[trigger] pair_matches(a[pos as int], q[j]);
                        assert(j < pos2);
                    }
                } else {
                    assert(pair_matches(a[pos as int], q[pos2 as int]));
                }
            }
            pos2 = pos2 + 1;
        }
        assert forall|j: int| 0 <= j < nq implies #[trigger] qb_remove@[j] == exists|i: int|
            0 <= i < pos + 1 && #[trigger] pair_matches(a[i], q[j]) by {
            assert(qb_remove@[j] == exists|i: int| 0 <= i <= pos && #[trigger] pair_matches(a[i], q[j]));
        }
        assert(anz_remove@[pos as int] == anz_matched(a[pos as int], q));
        pos = pos + 1;
    }
    proof {
        assert forall|j: int| 0 <= j < nq implies #[trigger] qb_remove@[j] == !(|x: U| !qb_matched(x, a))(q[j]) by {
            assert(qb_remove@[j] == exists|i: int| 0 <= i < na && #[trigger] pair_matches(a[i], q[j]));
        }
        assert forall|i: int| 0 <= i < na implies #[trigger] anz_remove@[i] == !(|x: T| !anz_matched(x, q))(a[i]) by {
        }
    }
    remove_flagged(anz_struct, &anz_remove, Ghost(|x: T| !anz_matched(x, q)));
    remove_flagged(qb_struct, &qb_remove, Ghost(|x: U| !qb_matched(x, a)));
    proof {
        law_prune_keeps_exactly_the_records_without_partner(a, q);
    }
}

} // verus!

verus! {

/// `g` with the record `x` appended to the group of its amount; a new
/// group comes last.
pub open spec fn group_add<T: AsRef<String>>(g: Seq<(Seq<char>, Seq<T>)>, x: T) -> Seq<(Seq<char>, Seq<T>)> {
    let k = x.amount_of()@;
    if has_key(g, k) {
        g.update(key_index(g, k), (k, g[key_index(g, k)].1.push(x)))
    } else {
        g.push((k, seq![x]))
    }
}

/// `g` with the records of `s` added in order.
pub open spec fn grouped<T: AsRef<String>>(g: Seq<(Seq<char>, Seq<T>)>, s: Seq<T>) -> Seq<(Seq<char>, Seq<T>)>
    decreases s.len(),
{
    if s.len() == 0 {
        g
    } else {
        group_add(grouped(g, s.drop_last()), s.last())
    }
}

/// `c` with the count of `k` raised by one; a new count comes last.
pub open spec fn count_add(c: Seq<(Seq<char>, i32)>, k: Seq<char>) -> Seq<(Seq<char>, i32)> {
    if has_key(c, k) {
        c.update(key_index(c, k), (k, (c[key_index(c, k)].1 + 1) as i32))
    } else {
        c.push((k, 1i32))
    }
}

/// `c` with the amounts of the records of `s` counted in order.
pub open spec fn counted<T: AsRef<String>>(c: Seq<(Seq<char>, i32)>, s: Seq<T>) -> Seq<(Seq<char>, i32)>
    decreases s.len(),
{
    if s.len() == 0 {
        c
    } else {
        count_add(counted(c, s.drop_last()), s.last().amount_of()@)
    }
}

/// No count reaches past `i32::MAX` while the records of `s` are counted
/// into `c`.
pub open spec fn counts_fit<T: AsRef<String>>(c: Seq<(Seq<char>, i32)>, s: Seq<T>) -> bool
    decreases s.len(),
{
    s.len() == 0 || {
        &&& counts_fit(c, s.drop_last())
        &&& match lookup(counted(c, s.drop_last()), s.last().amount_of()@) {
            Some(n) => n < i32::MAX,
            None => true,
        }
    }
}

/// The groups of `m`, each by its records.
pub open spec fn group_view<T>(m: AmountMap<Vec<T>>) -> Seq<(Seq<char>, Seq<T>)> {
    m.entries().map_values(|e: (Seq<char>, Vec<T>)| (e.0, e.1@))
}

/// In `keys_distinct` sequences, the entry whose key is `k` is the one at
/// its position.
pub proof fn lemma_key_index_unique<W>(e: Seq<(Seq<char>, W)>, i: int, k: Seq<char>)
    requires
        keys_distinct(e),
        0 <= i < e.len(),
        e[i].0 == k,
    ensures
        has_key(e, k),
        key_index(e, k) == i,
{
}

/// Adding an entry under a new key, or updating one in place, keeps the
/// keys distinct.
pub proof fn lemma_distinct_after_add<W>(e: Seq<(Seq<char>, W)>, k: Seq<char>, v: W)
    requires
        keys_distinct(e),
    ensures
        has_key(e, k) ==> keys_distinct(e.update(key_index(e, k), (k, v))),
        !has_key(e, k) ==> keys_distinct(e.push((k, v))),
{
    if !has_key(e, k) {
        let f = e.push((k, v));
        assert forall|i: int, j: int| 0 <= i < f.len() && 0 <= j < f.len() && i != j implies #[trigger] f[i].0 != #[trigger] f[j].0 by {
            if i == e.len() {
                assert(e[j].0 == f[j].0);
            } else if j == e.len() {
                assert(e[i].0 == f[i].0);
            }
        }
    }
}

/// The groups and counts that `check_and_return_hash` builds keep their
/// keys distinct.
pub proof fn lemma_grouped_distinct<T: AsRef<String>>(g: Seq<(Seq<char>, Seq<T>)>, s: Seq<T>)
    requires
        keys_distinct(g),
    ensures
        keys_distinct(grouped(g, s)),
    decreases s.len(),
{
    if s.len() > 0 {
        lemma_grouped_distinct(g, s.drop_last());
        let h = grouped(g, s.drop_last());
        let x = s.last();
        let k = x.amount_of()@;
        if has_key(h, k) {
            lemma_distinct_after_add(h, k, h[key_index(h, k)].1.push(x));
        } else {
            lemma_distinct_after_add(h, k, seq![x]);
        }
    }
}

/// Groups the records of `struct_data` by amount into `hash_map`, each
/// group in the order of the records, and counts them by amount in
/// `hash_counter`. Amounts not seen before are added at the end.
pub fn check_and_return_hash<T: AsRef<String>>(
    struct_data: Vec<T>,
    hash_map: &mut AmountMap<Vec<T>>,
    hash_counter: &mut AmountMap<i32>,
)
    requires
        old(hash_map).wf(),
        old(hash_counter).wf(),
        counts_fit(old(hash_counter).entries(), struct_data@),
    ensures
        final(hash_map).wf(),
        final(hash_counter).wf(),
        group_view(*final(hash_map)) == grouped(group_view(*old(hash_map)), struct_data@),
        final(hash_counter).entries() == counted(old(hash_counter).entries(), struct_data@),
{
    let ghost s = struct_data@;
    let ghost g0 = group_view(*hash_map);
    let ghost c0 = hash_counter.entries();
    let mut struct_data = struct_data;
    let total = struct_data.len();
    let mut done: usize = 0;
    assert(s.take(0) =~= Seq::<T>::empty());
    assert(s.skip(0) =~= s);
    while struct_data.len() > 0
        invariant
            hash_map.wf(),
            hash_counter.wf(),
            done <= s.len(),
            total == s.len(),
            struct_data@ == s.skip(done as int),
            group_view(*hash_map) == grouped(g0, s.take(done as int)),
            hash_counter.entries() == counted(c0, s.take(done as int)),
            counts_fit(c0, s),
        decreases struct_data@.len(),
    {
        let i = struct_data.remove(0);
        let ghost pre = s.take(done as int);
        assert(s.take(done + 1) =~= pre.push(i));
        assert(s.take(done + 1).drop_last() =~= pre);
        assert(s.skip(done + 1) =~= s.skip(done as int).drop_first());
        proof {
            lemma_counts_fit_prefix(c0, s, done as int + 1);
        }
        let key = i.as_ref().clone();
        let ghost k = key@;
        let ghost gv = group_view(*hash_map);
        match hash_map.find(&key) {
            Some(idx) => {
                proof {
                    lemma_key_index_unique(gv, idx as int, k);
                }
                let mut v = hash_map.replace_value(idx, Vec::new());
                v.push(i);
                let _ = hash_map.replace_value(idx, v);
                assert(group_view(*hash_map) =~= gv.update(idx as int, (k, gv[idx as int].1.push(i))));
            },
            None => {
                let mut group: Vec<T> = Vec::new();
                group.push(i);
                hash_map.insert(key.clone(), group);
                assert(group_view(*hash_map) =~= gv.push((k, seq![i])));
            },
        }
        let ghost c = hash_counter.entries();
        match hash_counter.find(&key) {
            Some(idx) => {
                let n = *hash_counter.value_at(idx);
                let _ = hash_counter.replace_value(idx, n + 1);
                assert(hash_counter.entries() =~= c.update(idx as int, (k, (c[idx as int].1 + 1) as i32)));
            },
            None => {
                hash_counter.insert(key, 1);
            },
        }
        done = done + 1;
    }
    assert(s.take(s.len() as int) =~= s);
}

/// A prefix of records whose counting fits also fits.
pub proof fn lemma_counts_fit_prefix<T: AsRef<String>>(c: Seq<(Seq<char>, i32)>, s: Seq<T>, n: int)
    requires
        counts_fit(c, s),
        0 <= n <= s.len(),
    ensures
        counts_fit(c, s.take(n)),
        n > 0 ==> match lookup(counted(c, s.take(n - 1)), s[n - 1].amount_of()@) {
            Some(m) => m < i32::MAX,
            None => true,
        },
    decreases s.len() - n,
{
    if n < s.len() {
        assert(s.drop_last().len() == s.len() - 1);
        lemma_counts_fit_prefix(c, s.drop_last(), n);
        assert(s.drop_last().take(n) =~= s.take(n));
        if n > 0 {
            assert(s.drop_last().take(n - 1) =~= s.take(n - 1));
        }
    } else {
        assert(s.take(n) =~= s);
        if n > 0 {
            assert(s.take(n - 1) =~= s.drop_last());
        }
    }
}

} // verus!

verus! {

/// `e` without the entries of the keys `ks`, removed one after another.
pub open spec fn remove_keys<W>(e: Seq<(Seq<char>, W)>, ks: Seq<Seq<char>>) -> Seq<(Seq<char>, W)>
    decreases ks.len(),
{
    if ks.len() == 0 {
        e
    } else {
        remove_entry(remove_keys(e, ks.drop_last()), ks.last())
    }
}

/// When `comp_hash_count` counts `key` exactly `value` times, records
/// `key` for removal on the statement side and `original_key` on the
/// ledger side.
pub fn get_matching_values(
    comp_hash_count: &AmountMap<i32>,
    anz_remove: &mut Vec<String>,
    qb_remove: &mut Vec<String>,
    key: String,
    original_key: String,
    value: &i32,
)
    requires
        comp_hash_count.wf(),
    ensures
        lookup(comp_hash_count.entries(), key@) == Some(*value) ==> {
            &&& final(anz_remove)@ == old(anz_remove)@.push(key)
            &&& final(qb_remove)@ == old(qb_remove)@.push(original_key)
        },
        lookup(comp_hash_count.entries(), key@) != Some(*value) ==> {
            &&& final(anz_remove)@ == old(anz_remove)@
            &&& final(qb_remove)@ == old(qb_remove)@
        },
{
    match comp_hash_count.get(&key) {
        Some(v) => {
            if *value == *v {
                anz_remove.push(key);
                qb_remove.push(original_key);
            }
        },
        None => {},
    }
}

/// Removes every key of `values_to_remove` from both counters.
pub fn remove_matching_values_from_counter(
    values_to_remove: Vec<String>,
    hash_counter_one: &mut AmountMap<i32>,
    hash_counter_two: &mut AmountMap<i32>,
)
    requires
        old(hash_counter_one).wf(),
        old(hash_counter_two).wf(),
    ensures
        final(hash_counter_one).wf(),
        final(hash_counter_two).wf(),
        final(hash_counter_one).entries() == remove_keys(
            old(hash_counter_one).entries(),
            string_views(values_to_remove@),
        ),
        final(hash_counter_two).entries() == remove_keys(
            old(hash_counter_two).entries(),
            string_views(values_to_remove@),
        ),
{
    let ghost ks = string_views(values_to_remove@);
    let ghost e1 = hash_counter_one.entries();
    let ghost e2 = hash_counter_two.entries();
    let n = values_to_remove.len();
    let mut k: usize = 0;
    assert(ks.take(0) =~= Seq::<Seq<char>>::empty());
    while k < n
        invariant
            n == values_to_remove@.len(),
            ks == string_views(values_to_remove@),
            k <= n,
            hash_counter_one.wf(),
            hash_counter_two.wf(),
            hash_counter_one.entries() == remove_keys(e1, ks.take(k as int)),
            hash_counter_two.entries() == remove_keys(e2, ks.take(k as int)),
        decreases n - k,
    {
        assert(ks.take(k + 1).drop_last() =~= ks.take(k as int));
        assert(ks.take(k + 1).last() == values_to_remove@[k as int]@);
        let _ = hash_counter_one.remove(&values_to_remove[k]);
        let _ = hash_counter_two.remove(&values_to_remove[k]);
        k = k + 1;
    }
    assert(ks.take(n as int) =~= ks);
}

/// Looks `key` up in `hash_counter`. Where it is counted more than `value`
/// times, `original_key` goes to `qb_vec`; where it is counted at most
/// `value` times, `key` goes to `anz_vec`; in both cases `exists` is set.
/// Where it is not counted, nothing changes.
pub fn build_investigation(
    hash_counter: &AmountMap<i32>,
    key: &String,
    original_key: &String,
    value: &i32,
    exists: &mut bool,
    qb_vec: &mut Vec<String>,
    anz_vec: &mut Vec<String>,
)
    requires
        hash_counter.wf(),
    ensures
        match lookup(hash_counter.entries(), key@) {
            Some(v) => {
                &&& *final(exists)
                &&& v > *value ==> final(qb_vec)@ == old(qb_vec)@.push(*original_key)
                    && final(anz_vec)@ == old(anz_vec)@
                &&& v <= *value ==> final(anz_vec)@ == old(anz_vec)@.push(*key)
                    && final(qb_vec)@ == old(qb_vec)@
            },
            None => {
                &&& *final(exists) == *old(exists)
                &&& final(qb_vec)@ == old(qb_vec)@
                &&& final(anz_vec)@ == old(anz_vec)@
            },
        },
{
    match hash_counter.get(key) {
        Some(v) => {
            if *v > *value {
                qb_vec.push(original_key.clone());
            } else {
                anz_vec.push(key.clone());
            }
            *exists = true;
        },
        None => {},
    }
}

} // verus!

verus! {

/// Every key of the counts comes from the starting counts or from a record.
pub proof fn lemma_counted_keys<T: AsRef<String>>(c: Seq<(Seq<char>, i32)>, s: Seq<T>, k: Seq<char>)
    requires
        has_key(counted(c, s), k),
    ensures
        has_key(c, k) || exists|i: int| 0 <= i < s.len() && #[trigger] s[i].amount_of()@ == k,
    decreases s.len(),
{
    if s.len() > 0 {
        let prev = counted(c, s.drop_last());
        let kx = s.last().amount_of()@;
        let cur = counted(c, s);
        if k == kx {
            assert(s[s.len() - 1].amount_of()@ == k);
        } else {
            let idx = choose|i: int| 0 <= i < cur.len() && #[trigger] cur[i].0 == k;
            if has_key(prev, kx) {
                assert(idx != key_index(prev, kx));
                assert(prev[idx].0 == k);
            } else {
                assert(idx < prev.len());
                assert(prev[idx].0 == k);
            }
            lemma_counted_keys(c, s.drop_last(), k);
            if !has_key(c, k) {
                let i = choose|i: int| 0 <= i < s.drop_last().len() && #[trigger] s.drop_last()[i].amount_of()@ == k;
                assert(s[i].amount_of()@ == k);
            }
        }
    }
}

/// Every key of the groups comes from the starting groups or from a record.
pub proof fn lemma_grouped_keys<T: AsRef<String>>(g: Seq<(Seq<char>, Seq<T>)>, s: Seq<T>, k: Seq<char>)
    requires
        has_key(grouped(g, s), k),
    ensures
        has_key(g, k) || exists|i: int| 0 <= i < s.len() && #[trigger] s[i].amount_of()@ == k,
    decreases s.len(),
{
    if s.len() > 0 {
        let prev = grouped(g, s.drop_last());
        let kx = s.last().amount_of()@;
        let cur = grouped(g, s);
        if k == kx {
            assert(s[s.len() - 1].amount_of()@ == k);
        } else {
            let idx = choose|i: int| 0 <= i < cur.len() && #[trigger] cur[i].0 == k;
            if has_key(prev, kx) {
                assert(idx != key_index(prev, kx));
                assert(prev[idx].0 == k);
            } else {
                assert(idx < prev.len());
                assert(prev[idx].0 == k);
            }
            lemma_grouped_keys(g, s.drop_last(), k);
            if !has_key(g, k) {
                let i = choose|i: int| 0 <= i < s.drop_last().len() && #[trigger] s.drop_last()[i].amount_of()@ == k;
                assert(s[i].amount_of()@ == k);
            }
        }
    }
}

/// Removing keys leaves only keys that were there.
pub proof fn lemma_remove_keys_subset<W>(e: Seq<(Seq<char>, W)>, ks: Seq<Seq<char>>, k: Seq<char>)
    requires
        has_key(remove_keys(e, ks), k),
    ensures
        has_key(e, k),
    decreases ks.len(),
{
    if ks.len() > 0 {
        let prev = remove_keys(e, ks.drop_last());
        let cur = remove_keys(e, ks);
        let j = choose|j: int| 0 <= j < cur.len() && #[trigger] cur[j].0 == k;
        if has_key(prev, ks.last()) {
            let i = key_index(prev, ks.last());
            if j < i {
                assert(prev[j].0 == k);
            } else {
                assert(prev[j + 1].0 == k);
            }
        } else {
            assert(prev[j].0 == k);
        }
        lemma_remove_keys_subset(e, ks.drop_last(), k);
    }
}

} // verus!

verus! {

/// Matching sets aside exactly the records that have a partner on the
/// other side, and no two records that are left are partners.
pub proof fn law_prune_sets_aside_exactly_the_matched<T: AsRef<String>, U: AsRef<String>>(
    anz: Seq<T>,
    qb: Seq<U>,
)
    ensures
        forall|i: int|
            0 <= i < anz.len() ==> (pruned_anz(anz, qb).contains(#[trigger] anz[i]) <==> !anz_matched(
                anz[i],
                qb,
            )),
        forall|j: int|
            0 <= j < qb.len() ==> (pruned_qb(anz, qb).contains(#[trigger] qb[j]) <==> !qb_matched(
                qb[j],
                anz,
            )),
        forall|i: int, j: int|
            0 <= i < pruned_anz(anz, qb).len() && 0 <= j < pruned_qb(anz, qb).len() ==> !pair_matches(
                #[trigger] pruned_anz(anz, qb)[i],
                #[trigger] pruned_qb(anz, qb)[j],
            ),
{
    let pa_pred = |a: T| !anz_matched(a, qb);
    let pq_pred = |q: U| !qb_matched(q, anz);
    let pa = anz.filter(pa_pred);
    let pq = qb.filter(pq_pred);
    assert forall|i: int| 0 <= i < anz.len() implies (pa.contains(#[trigger] anz[i]) <==> !anz_matched(anz[i], qb)) by {
        if !anz_matched(anz[i], qb) {
            anz.lemma_filter_contains(pa_pred, i);
        }
        if pa.contains(anz[i]) {
            let k = choose|k: int| 0 <= k < pa.len() && pa[k] == anz[i];
            anz.lemma_filter_pred(pa_pred, k);
        }
    }
    assert forall|j: int| 0 <= j < qb.len() implies (pq.contains(#[trigger] qb[j]) <==> !qb_matched(qb[j], anz)) by {
        if !qb_matched(qb[j], anz) {
            qb.lemma_filter_contains(pq_pred, j);
        }
        if pq.contains(qb[j]) {
            let k = choose|k: int| 0 <= k < pq.len() && pq[k] == qb[j];
            qb.lemma_filter_pred(pq_pred, k);
        }
    }
    assert forall|i: int, j: int| 0 <= i < pa.len() && 0 <= j < pq.len() implies !pair_matches(
        #[trigger] pa[i],
        #[trigger] pq[j],
    ) by {
        anz.lemma_filter_pred(pa_pred, i);
        assert(pq.contains(pq[j]));
        qb.lemma_filter_contains_rev(pq_pred, pq[j]);
        let k = choose|k: int| 0 <= k < qb.len() && qb[k] == pq[j];
        if pair_matches(pa[i], pq[j]) {
            assert(pair_matches(pa[i], qb[k]));
        }
    }
}

} // verus!

verus! {

/// The records of `s` whose amount is `k`, in order.
pub open spec fn with_amount<T: AsRef<String>>(s: Seq<T>, k: Seq<char>) -> Seq<T> {
    s.filter(|x: T| x.amount_of()@ == k)
}

/// Counting builds distinct keys.
pub proof fn lemma_counted_distinct<T: AsRef<String>>(c: Seq<(Seq<char>, i32)>, s: Seq<T>)
    requires
        keys_distinct(c),
    ensures
        keys_distinct(counted(c, s)),
    decreases s.len(),
{
    if s.len() > 0 {
        lemma_counted_distinct(c, s.drop_last());
        let h = counted(c, s.drop_last());
        let k = s.last().amount_of()@;
        if has_key(h, k) {
            lemma_distinct_after_add(h, k, (h[key_index(h, k)].1 + 1) as i32);
        } else {
            lemma_distinct_after_add(h, k, 1i32);
        }
    }
}

/// The records of `s` with amount `k`, split at the last one.
proof fn lemma_with_amount_step<T: AsRef<String>>(s: Seq<T>, k: Seq<char>)
    requires
        s.len() > 0,
    ensures
        with_amount(s, k) == if s.last().amount_of()@ == k {
            with_amount(s.drop_last(), k).push(s.last())
        } else {
            with_amount(s.drop_last(), k)
        },
{
    reveal(Seq::filter);
}

/// Grouping puts each record in the group of its amount: the group of `k`
/// holds exactly the records with amount `k`, in order, and there is a
/// group for `k` exactly when some record has that amount.
pub proof fn law_groups_partition_records<T: AsRef<String>>(s: Seq<T>, k: Seq<char>)
    ensures
        keys_distinct(grouped(Seq::empty(), s)),
        lookup(grouped(Seq::empty(), s), k) == if with_amount(s, k).len() > 0 {
            Some(with_amount(s, k))
        } else {
            None::<Seq<T>>
        },
    decreases s.len(),
{
    lemma_grouped_distinct(Seq::<(Seq<char>, Seq<T>)>::empty(), s);
    if s.len() == 0 {
        assert(with_amount(s, k) =~= Seq::<T>::empty()) by {
            reveal(Seq::filter);
        }
    } else {
        let d = s.drop_last();
        let x = s.last();
        let kx = x.amount_of()@;
        law_groups_partition_records(d, k);
        law_groups_partition_records(d, kx);
        lemma_with_amount_step(s, k);
        let prev = grouped(Seq::<(Seq<char>, Seq<T>)>::empty(), d);
        let v = if has_key(prev, kx) {
            prev[key_index(prev, kx)].1.push(x)
        } else {
            seq![x]
        };
        assert(group_add(prev, x) == insert_entry(prev, kx, v));
        law_lookup_after_insert(prev, kx, v, k);
        if k == kx && !has_key(prev, kx) {
            assert(with_amount(d, k) =~= Seq::<T>::empty()) by {
                if with_amount(d, k).len() > 0 {
                    assert(lookup(prev, kx) is Some);
                }
            }
            assert(with_amount(s, k) =~= seq![x]);
        }
    }
}

/// The count of each amount is the number of records with that amount.
pub proof fn law_counts_are_group_sizes<T: AsRef<String>>(s: Seq<T>, k: Seq<char>)
    requires
        counts_fit(Seq::empty(), s),
    ensures
        keys_distinct(counted(Seq::empty(), s)),
        with_amount(s, k).len() <= i32::MAX,
        lookup(counted(Seq::empty(), s), k) == if with_amount(s, k).len() > 0 {
            Some(with_amount(s, k).len() as i32)
        } else {
            None::<i32>
        },
    decreases s.len(),
{
    lemma_counted_distinct(Seq::<(Seq<char>, i32)>::empty(), s);
    if s.len() == 0 {
        assert(with_amount(s, k) =~= Seq::<T>::empty()) by {
            reveal(Seq::filter);
        }
    } else {
        let d = s.drop_last();
        let x = s.last();
        let kx = x.amount_of()@;
        law_counts_are_group_sizes(d, k);
        law_counts_are_group_sizes(d, kx);
        lemma_with_amount_step(s, k);
        let prev = counted(Seq::<(Seq<char>, i32)>::empty(), d);
        let v = if has_key(prev, kx) {
            (prev[key_index(prev, kx)].1 + 1) as i32
        } else {
            1i32
        };
        assert(count_add(prev, kx) == insert_entry(prev, kx, v));
        law_lookup_after_insert(prev, kx, v, k);
        if k == kx && !has_key(prev, kx) {
            assert(with_amount(d, k) =~= Seq::<T>::empty());
        }
    }
}

/// Counting and grouping the same records give the same amounts in the
/// same order.
pub proof fn law_counts_and_groups_share_keys<T: AsRef<String>>(s: Seq<T>)
    ensures
        keys_of(counted(Seq::empty(), s)) == keys_of(grouped(Seq::empty(), s)),
    decreases s.len(),
{
    if s.len() > 0 {
        let d = s.drop_last();
        let x = s.last();
        let kx = x.amount_of()@;
        law_counts_and_groups_share_keys(d);
        let c = counted(Seq::<(Seq<char>, i32)>::empty(), d);
        let g = grouped(Seq::<(Seq<char>, Seq<T>)>::empty(), d);
        assert(keys_of(c) == keys_of(g));
        assert(c.len() == keys_of(c).len() && g.len() == keys_of(g).len());
        assert forall|i: int| 0 <= i < c.len() implies c[i].0 == g[i].0 by {
            assert(keys_of(c)[i] == keys_of(g)[i]);
        }
        assert(has_key(c, kx) == has_key(g, kx)) by {
            if has_key(c, kx) {
                let i = key_index(c, kx);
                assert(g[i].0 == kx);
            }
            if has_key(g, kx) {
                let i = key_index(g, kx);
                assert(c[i].0 == kx);
            }
        }
        lemma_counted_distinct(Seq::<(Seq<char>, i32)>::empty(), d);
        lemma_grouped_distinct(Seq::<(Seq<char>, Seq<T>)>::empty(), d);
        if has_key(c, kx) {
            let i = key_index(c, kx);
            lemma_key_index_unique(g, i, kx);
        }
        assert(keys_of(counted(Seq::<(Seq<char>, i32)>::empty(), s)) =~= keys_of(
            grouped(Seq::<(Seq<char>, Seq<T>)>::empty(), s),
        ));
    }
}

} // verus!

verus! {

/// Removing the keys `ks` leaves exactly the other keys, with their values,
/// and the keys stay distinct.
pub proof fn law_remove_keys_leaves_the_rest<W>(e: Seq<(Seq<char>, W)>, ks: Seq<Seq<char>>, k: Seq<char>)
    requires
        keys_distinct(e),
    ensures
        keys_distinct(remove_keys(e, ks)),
        lookup(remove_keys(e, ks), k) == if ks.contains(k) {
            None::<W>
        } else {
            lookup(e, k)
        },
    decreases ks.len(),
{
    if ks.len() > 0 {
        let d = ks.drop_last();
        law_remove_keys_leaves_the_rest(e, d, k);
        law_remove_keys_leaves_the_rest(e, d, ks.last());
        law_lookup_after_remove(remove_keys(e, d), ks.last(), k);
        if ks.contains(k) && k != ks.last() {
            let i = choose|i: int| 0 <= i < ks.len() && ks[i] == k;
            assert(d[i] == k);
        }
        if d.contains(k) {
            let i = choose|i: int| 0 <= i < d.len() && d[i] == k;
            assert(ks[i] == k);
        }
    }
}

} // verus!

verus! {

/// A statement record stays exactly when no ledger record has the same
/// date and an amount that, with trailing zeros trimmed, is exactly the
/// statement amount; a ledger record stays exactly when no statement
/// record is such a partner for it.
pub proof fn law_prune_keeps_exactly_the_records_without_partner<T: AsRef<String>, U: AsRef<String>>(
    anz: Seq<T>,
    qb: Seq<U>,
)
    ensures
        forall|i: int|
            0 <= i < anz.len() ==> (pruned_anz(anz, qb).contains(#[trigger] anz[i]) <==> !exists|j: int|
                #![trigger qb[j]]
                0 <= j < qb.len() && trimmed(qb[j].amount_of()@, 0) == anz[i].amount_of()@
                    && anz[i].date_of()@ == qb[j].date_of()@),
        forall|j: int|
            0 <= j < qb.len() ==> (pruned_qb(anz, qb).contains(#[trigger] qb[j]) <==> !exists|i: int|
                #![trigger anz[i]]
                0 <= i < anz.len() && trimmed(qb[j].amount_of()@, 0) == anz[i].amount_of()@
                    && anz[i].date_of()@ == qb[j].date_of()@),
{
    law_prune_sets_aside_exactly_the_matched(anz, qb);
    assert forall|i: int| 0 <= i < anz.len() implies (anz_matched(anz[i], qb) <==> exists|j: int|
        #![trigger qb[j]]
        0 <= j < qb.len() && trimmed(qb[j].amount_of()@, 0) == anz[i].amount_of()@
            && anz[i].date_of()@ == qb[j].date_of()@) by {
        if anz_matched(anz[i], qb) {
            let j = choose|j: int| 0 <= j < qb.len() && #[trigger] pair_matches(anz[i], qb[j]);
            assert(qb[j] == qb[j]);
        }
        if exists|j: int|
            #![trigger qb[j]]
            0 <= j < qb.len() && trimmed(qb[j].amount_of()@, 0) == anz[i].amount_of()@
                && anz[i].date_of()@ == qb[j].date_of()@ {
            let j = choose|j: int|
                #![trigger qb[j]]
                0 <= j < qb.len() && trimmed(qb[j].amount_of()@, 0) == anz[i].amount_of()@
                    && anz[i].date_of()@ == qb[j].date_of()@;
            assert(pair_matches(anz[i], qb[j]));
        }
    }
    assert forall|j: int| 0 <= j < qb.len() implies (qb_matched(qb[j], anz) <==> exists|i: int|
        #![trigger anz[i]]
        0 <= i < anz.len() && trimmed(qb[j].amount_of()@, 0) == anz[i].amount_of()@
            && anz[i].date_of()@ == qb[j].date_of()@) by {
        if qb_matched(qb[j], anz) {
            let i = choose|i: int| 0 <= i < anz.len() && #[trigger] pair_matches(anz[i], qb[j]);
            assert(anz[i] == anz[i]);
        }
        if exists|i: int|
            #![trigger anz[i]]
            0 <= i < anz.len() && trimmed(qb[j].amount_of()@, 0) == anz[i].amount_of()@
                && anz[i].date_of()@ == qb[j].date_of()@ {
            let i = choose|i: int|
                #![trigger anz[i]]
                0 <= i < anz.len() && trimmed(qb[j].amount_of()@, 0) == anz[i].amount_of()@
                    && anz[i].date_of()@ == qb[j].date_of()@;
            assert(pair_matches(anz[i], qb[j]));
        }
    }
}

} // verus!
