//! The registry model: registered applications, case-insensitive path
//! identity, last-wins deduplication and the stable case-insensitive order,
//! with the laws that govern them.
use vstd::prelude::*;
use vstd::seq_lib::lemma_multiset_commutative;
use crate::text::{
    lower, seq_lt, seq_le, lemma_seq_lt_total, lemma_seq_lt_trans, eq_ci, lt_ci,
};

verus! {

/// A registered application: a display name and the canonical bundle path.
/// The path is the identity key, compared case-insensitively.
#[derive(Debug)]
pub struct RegisteredApp {
    pub name: String,
    pub path: String,
}

/// The mathematical value of a registered application.
#[verifier::ext_equal]
pub ghost struct AppView {
    pub name: Seq<char>,
    pub path: Seq<char>,
}

impl View for RegisteredApp {
    type V = AppView;

    open spec fn view(&self) -> AppView {
        AppView { name: self.name@, path: self.path@ }
    }
}

impl RegisteredApp {
    /// An exact copy, with the copy's value pinned to the original's.
    pub fn duplicate(&self) -> (r: RegisteredApp)
        ensures
            r@ == self@,
    {
        RegisteredApp { name: self.name.clone(), path: self.path.clone() }
    }
}

/// The identity key of an entry: its path, lowercased.
pub open spec fn key(a: AppView) -> Seq<char> {
    lower(a.path)
}

/// The sequence of entry values carried by a vector of applications.
pub open spec fn app_views(v: Seq<RegisteredApp>) -> Seq<AppView> {
    v.map_values(|a: RegisteredApp| a@)
}

/// Some entry of `s` has key `k`.
pub open spec fn has_key(s: Seq<AppView>, k: Seq<char>) -> bool {
    exists|i: int| 0 <= i < s.len() && key(s[i]) == k
}

/// No two entries of `s` share a key.
pub open spec fn unique_keys(s: Seq<AppView>) -> bool {
    forall|i: int, j: int| 0 <= i < j < s.len() ==> key(s[i]) != key(s[j])
}

/// The position of the first entry with key `k`.
pub open spec fn first_key_index(s: Seq<AppView>, k: Seq<char>) -> int
    decreases s.len(),
{
    if s.len() == 0 {
        0
    } else if key(s[0]) == k {
        0
    } else {
        1 + first_key_index(s.drop_first(), k)
    }
}

/// The position of the last entry with key `k`.
pub open spec fn last_key_index(s: Seq<AppView>, k: Seq<char>) -> int
    decreases s.len(),
{
    if s.len() > 0 && has_key(s.drop_first(), k) {
        1 + last_key_index(s.drop_first(), k)
    } else {
        0
    }
}

/// The entry of `s` that carries key `k` (the first one, which is the only
/// one when keys are unique).
pub open spec fn entry(s: Seq<AppView>, k: Seq<char>) -> AppView {
    s[first_key_index(s, k)]
}

/// One deduplication step: an entry replaces the first entry sharing its
/// key, in place, or is appended when its key is new.
pub open spec fn upsert(s: Seq<AppView>, a: AppView) -> Seq<AppView> {
    if has_key(s, key(a)) {
        s.update(first_key_index(s, key(a)), a)
    } else {
        s.push(a)
    }
}

pub open spec fn dedupe_into(acc: Seq<AppView>, rest: Seq<AppView>) -> Seq<AppView>
    decreases rest.len(),
{
    if rest.len() == 0 {
        acc
    } else {
        dedupe_into(upsert(acc, rest[0]), rest.drop_first())
    }
}

/// Last-wins deduplication by case-insensitive path, keeping the position
/// of each key's first occurrence.
pub open spec fn dedupe(s: Seq<AppView>) -> Seq<AppView> {
    dedupe_into(Seq::empty(), s)
}

/// The registry order: case-insensitive name ascending, ties broken by
/// case-insensitive path ascending.
pub open spec fn app_le(a: AppView, b: AppView) -> bool {
    seq_lt(lower(a.name), lower(b.name)) || (lower(a.name) == lower(b.name) && seq_le(
        lower(a.path),
        lower(b.path),
    ))
}

pub open spec fn sorted_apps(s: Seq<AppView>) -> bool {
    forall|i: int, j: int| 0 <= i < j < s.len() ==> app_le(s[i], s[j])
}

/// Stable insertion: the new entry goes after every entry it does not
/// strictly precede, so entries that compare equal keep their order.
pub open spec fn insert_sorted(s: Seq<AppView>, a: AppView) -> Seq<AppView>
    decreases s.len(),
{
    if s.len() == 0 {
        seq![a]
    } else if app_le(s[0], a) {
        seq![s[0]] + insert_sorted(s.drop_first(), a)
    } else {
        seq![a] + s
    }
}

pub open spec fn sort_apps_from(acc: Seq<AppView>, rest: Seq<AppView>) -> Seq<AppView>
    decreases rest.len(),
{
    if rest.len() == 0 {
        acc
    } else {
        sort_apps_from(insert_sorted(acc, rest[0]), rest.drop_first())
    }
}

/// Stable insertion sort under `app_le`.
pub open spec fn sort_apps(s: Seq<AppView>) -> Seq<AppView> {
    sort_apps_from(Seq::empty(), s)
}

/// The normal form of a registry: deduplicated last-wins, then sorted.
pub open spec fn normalize(s: Seq<AppView>) -> Seq<AppView> {
    sort_apps(dedupe(s))
}

/// The registry order is total, antisymmetric up to case-insensitive
/// equality of both fields, and transitive.
pub proof fn lemma_app_order_total(a: AppView, b: AppView, c: AppView)
    ensures
        app_le(a, b) || app_le(b, a),
        app_le(a, b) && app_le(b, a) ==> lower(a.name) == lower(b.name) && lower(a.path) == lower(
            b.path,
        ),
        app_le(a, b) && app_le(b, c) ==> app_le(a, c),
{
    lemma_seq_lt_total(lower(a.name), lower(b.name));
    lemma_seq_lt_total(lower(a.path), lower(b.path));
    lemma_seq_lt_total(lower(b.name), lower(c.name));
    lemma_seq_lt_total(lower(b.path), lower(c.path));
    lemma_seq_lt_total(lower(a.name), lower(c.name));
    lemma_seq_lt_total(lower(a.path), lower(c.path));
    if seq_lt(lower(a.name), lower(b.name)) && seq_lt(lower(b.name), lower(c.name)) {
        lemma_seq_lt_trans(lower(a.name), lower(b.name), lower(c.name));
    }
    if seq_lt(lower(a.path), lower(b.path)) && seq_lt(lower(b.path), lower(c.path)) {
        lemma_seq_lt_trans(lower(a.path), lower(b.path), lower(c.path));
    }
}

/// Case-insensitive comparison of whole entries, the executable order.
pub fn app_le_exec(a: &RegisteredApp, b: &RegisteredApp) -> (r: bool)
    ensures
        r == app_le(a@, b@),
{
    if lt_ci(a.name.as_str(), b.name.as_str()) {
        true
    } else if eq_ci(a.name.as_str(), b.name.as_str()) {
        lt_ci(a.path.as_str(), b.path.as_str()) || eq_ci(a.path.as_str(), b.path.as_str())
    } else {
        false
    }
}

proof fn lemma_first_key_index_props(s: Seq<AppView>, k: Seq<char>)
    requires
        has_key(s, k),
    ensures
        0 <= first_key_index(s, k) < s.len(),
        key(s[first_key_index(s, k)]) == k,
        forall|j: int| 0 <= j < first_key_index(s, k) ==> key(s[j]) != k,
    decreases s.len(),
{
    if key(s[0]) == k {
    } else {
        assert(has_key(s.drop_first(), k)) by {
            let i = choose|i: int| 0 <= i < s.len() && key(s[i]) == k;
            assert(key(s.drop_first()[i - 1]) == k);
        }
        lemma_first_key_index_props(s.drop_first(), k);
        assert(forall|j: int|
            1 <= j < first_key_index(s, k) ==> key(s[j]) == key(s.drop_first()[j - 1]));
    }
}

proof fn lemma_first_key_index_unique(s: Seq<AppView>, k: Seq<char>, j: int)
    requires
        0 <= j < s.len(),
        key(s[j]) == k,
        forall|l: int| 0 <= l < j ==> key(s[l]) != k,
    ensures
        has_key(s, k),
        first_key_index(s, k) == j,
{
    assert(has_key(s, k));
    lemma_first_key_index_props(s, k);
    let f = first_key_index(s, k);
    if f < j {
        assert(key(s[f]) != k);
    }
    if j < f {
        assert(key(s[j]) != k);
    }
}

proof fn lemma_last_key_index_props(s: Seq<AppView>, k: Seq<char>)
    requires
        has_key(s, k),
    ensures
        0 <= last_key_index(s, k) < s.len(),
        key(s[last_key_index(s, k)]) == k,
        forall|j: int| last_key_index(s, k) < j < s.len() ==> key(s[j]) != k,
    decreases s.len(),
{
    if has_key(s.drop_first(), k) {
        lemma_last_key_index_props(s.drop_first(), k);
        assert(forall|j: int|
            last_key_index(s, k) < j < s.len() ==> key(s[j]) == key(s.drop_first()[j - 1]));
    } else {
        assert(forall|j: int| 1 <= j < s.len() ==> key(s[j]) == key(s.drop_first()[j - 1]));
        assert(forall|j: int| 1 <= j < s.len() ==> key(s[j]) != k);
        assert(key(s[0]) == k) by {
            let i = choose|i: int| 0 <= i < s.len() && key(s[i]) == k;
            assert(i == 0);
        }
    }
}

proof fn lemma_upsert(s: Seq<AppView>, a: AppView)
    requires
        unique_keys(s),
    ensures
        unique_keys(upsert(s, a)),
        forall|k: Seq<char>|
            has_key(upsert(s, a), k) <==> (has_key(s, k) || k == key(a)),
        entry(upsert(s, a), key(a)) == a,
        forall|k: Seq<char>|
            k != key(a) && has_key(s, k) ==> entry(upsert(s, a), k) == entry(s, k),
{
    let u = upsert(s, a);
    if has_key(s, key(a)) {
        lemma_first_key_index_props(s, key(a));
        let f = first_key_index(s, key(a));
        assert(u == s.update(f, a));
        assert(unique_keys(u)) by {
            assert(forall|i: int| 0 <= i < u.len() && i != f ==> key(u[i]) == key(s[i]));
            assert(key(u[f]) == key(s[f]));
        }
        assert forall|k: Seq<char>| has_key(u, k) implies (has_key(s, k) || k == key(a)) by {
            let i = choose|i: int| 0 <= i < u.len() && key(u[i]) == k;
            assert(key(s[i]) == k);
        }
        assert forall|k: Seq<char>| has_key(s, k) implies has_key(u, k) by {
            let i = choose|i: int| 0 <= i < s.len() && key(s[i]) == k;
            assert(key(u[i]) == k);
        }
        lemma_first_key_index_unique(u, key(a), f);
        assert forall|k: Seq<char>| k != key(a) && has_key(s, k) implies entry(u, k) == entry(
            s,
            k,
        ) by {
            lemma_first_key_index_props(s, k);
            let g = first_key_index(s, k);
            assert(key(u[g]) == k);
            assert(forall|l: int| 0 <= l < g ==> key(u[l]) == key(s[l]));
            lemma_first_key_index_unique(u, k, g);
        }
    } else {
        assert(u == s.push(a));
        assert(forall|i: int| 0 <= i < s.len() ==> key(u[i]) == key(s[i]));
        assert(forall|i: int| 0 <= i < s.len() ==> key(s[i]) != key(a));
        assert(key(u[s.len() as int]) == key(a));
        assert forall|k: Seq<char>| has_key(u, k) implies (has_key(s, k) || k == key(a)) by {
            let i = choose|i: int| 0 <= i < u.len() && key(u[i]) == k;
            if i < s.len() {
                assert(key(s[i]) == k);
            }
        }
        lemma_first_key_index_unique(u, key(a), s.len() as int);
        assert forall|k: Seq<char>| k != key(a) && has_key(s, k) implies entry(u, k) == entry(
            s,
            k,
        ) by {
            lemma_first_key_index_props(s, k);
            let g = first_key_index(s, k);
            assert(key(u[g]) == k);
            assert(forall|l: int| 0 <= l < g ==> key(u[l]) == key(s[l]));
            lemma_first_key_index_unique(u, k, g);
        }
    }
}

proof fn lemma_dedupe_into(acc: Seq<AppView>, rest: Seq<AppView>)
    requires
        unique_keys(acc),
    ensures
        unique_keys(dedupe_into(acc, rest)),
        forall|k: Seq<char>|
            has_key(dedupe_into(acc, rest), k) <==> (has_key(acc, k) || has_key(rest, k)),
        forall|k: Seq<char>|
            has_key(rest, k) ==> entry(dedupe_into(acc, rest), k) == rest[last_key_index(rest, k)],
        forall|k: Seq<char>|
            !has_key(rest, k) && has_key(acc, k) ==> entry(dedupe_into(acc, rest), k) == entry(
                acc,
                k,
            ),
    decreases rest.len(),
{
    if rest.len() == 0 {
        assert(forall|k: Seq<char>| !has_key(rest, k));
    } else {
        let r0 = rest[0];
        let acc1 = upsert(acc, r0);
        let rest1 = rest.drop_first();
        lemma_upsert(acc, r0);
        lemma_dedupe_into(acc1, rest1);
        let d = dedupe_into(acc, rest);
        assert(d == dedupe_into(acc1, rest1));
        assert forall|k: Seq<char>| has_key(rest, k) implies has_key(acc1, k) || has_key(
            rest1,
            k,
        ) by {
            let i = choose|i: int| 0 <= i < rest.len() && key(rest[i]) == k;
            if i == 0 {
                assert(k == key(r0));
            } else {
                assert(key(rest1[i - 1]) == k);
            }
        }
        assert forall|k: Seq<char>| has_key(rest1, k) implies has_key(rest, k) by {
            let i = choose|i: int| 0 <= i < rest1.len() && key(rest1[i]) == k;
            assert(key(rest[i + 1]) == k);
        }
        assert forall|k: Seq<char>| has_key(rest, k) implies entry(d, k) == rest[last_key_index(
            rest,
            k,
        )] by {
            if has_key(rest1, k) {
                assert(entry(d, k) == rest1[last_key_index(rest1, k)]);
                assert(last_key_index(rest, k) == 1 + last_key_index(rest1, k));
                lemma_last_key_index_props(rest1, k);
                assert(rest[last_key_index(rest, k)] == rest1[last_key_index(rest1, k)]);
            } else {
                let i = choose|i: int| 0 <= i < rest.len() && key(rest[i]) == k;
                if i > 0 {
                    assert(key(rest1[i - 1]) == k);
                }
                assert(k == key(r0));
                assert(last_key_index(rest, k) == 0);
                assert(has_key(acc1, k));
                assert(entry(d, k) == entry(acc1, k));
                assert(entry(acc1, k) == r0);
            }
        }
    }
}

/// Deduplication keeps exactly one entry per case-insensitive path: the
/// later-positioned entry's contents win.
pub proof fn lemma_dedupe_last_wins(s: Seq<AppView>)
    ensures
        unique_keys(dedupe(s)),
        forall|k: Seq<char>| has_key(dedupe(s), k) <==> has_key(s, k),
        forall|k: Seq<char>|
            has_key(s, k) ==> entry(dedupe(s), k) == s[last_key_index(s, k)],
        dedupe(s).len() == s.map_values(|a: AppView| key(a)).to_set().len(),
{
    lemma_dedupe_into(Seq::empty(), s);
    let d = dedupe(s);
    let dk = d.map_values(|a: AppView| key(a));
    let sk = s.map_values(|a: AppView| key(a));
    assert(forall|i: int| 0 <= i < d.len() ==> dk[i] == key(d[i]));
    assert(forall|i: int| 0 <= i < s.len() ==> sk[i] == key(s[i]));
    assert(dk.no_duplicates());
    dk.unique_seq_to_set();
    assert(dk.to_set() =~= sk.to_set()) by {
        assert forall|k: Seq<char>| dk.to_set().contains(k) implies sk.to_set().contains(k) by {
            let i = choose|i: int| 0 <= i < dk.len() && dk[i] == k;
            assert(key(d[i]) == k);
            assert(has_key(d, k));
            assert(has_key(s, k));
            let j = choose|j: int| 0 <= j < s.len() && key(s[j]) == k;
            assert(sk[j] == k);
            assert(sk.contains(k));
        }
        assert forall|k: Seq<char>| sk.to_set().contains(k) implies dk.to_set().contains(k) by {
            let i = choose|i: int| 0 <= i < sk.len() && sk[i] == k;
            assert(key(s[i]) == k);
            assert(has_key(s, k));
            assert(has_key(d, k));
            let j = choose|j: int| 0 <= j < d.len() && key(d[j]) == k;
            assert(dk[j] == k);
            assert(dk.contains(k));
        }
    }
}

/// Deduplication leaves a registry with unique keys untouched.
pub proof fn lemma_dedupe_identity(s: Seq<AppView>)
    requires
        unique_keys(s),
    ensures
        dedupe(s) == s,
{
    lemma_dedupe_into_identity(Seq::empty(), s);
    assert(Seq::<AppView>::empty() + s =~= s);
}

proof fn lemma_dedupe_into_identity(acc: Seq<AppView>, rest: Seq<AppView>)
    requires
        unique_keys(acc + rest),
    ensures
        dedupe_into(acc, rest) == acc + rest,
    decreases rest.len(),
{
    if rest.len() == 0 {
        assert(dedupe_into(acc, rest) =~= acc + rest);
    } else {
        let r0 = rest[0];
        let c = acc + rest;
        assert(forall|i: int| 0 <= i < acc.len() ==> acc[i] == c[i]);
        assert(c[acc.len() as int] == r0);
        assert(!has_key(acc, key(r0))) by {
            if has_key(acc, key(r0)) {
                let i = choose|i: int| 0 <= i < acc.len() && key(acc[i]) == key(r0);
                assert(key(c[i]) == key(c[acc.len() as int]));
            }
        }
        assert(upsert(acc, r0) == acc.push(r0));
        assert(acc.push(r0) + rest.drop_first() =~= acc + rest);
        lemma_dedupe_into_identity(acc.push(r0), rest.drop_first());
    }
}

proof fn lemma_insert_sorted_multiset(s: Seq<AppView>, a: AppView)
    ensures
        insert_sorted(s, a).to_multiset() =~= s.to_multiset().insert(a),
    decreases s.len(),
{
    broadcast use vstd::seq_lib::group_to_multiset_ensures;

    if s.len() == 0 {
        assert(seq![a] =~= Seq::<AppView>::empty().push(a));
    } else if app_le(s[0], a) {
        lemma_insert_sorted_multiset(s.drop_first(), a);
        lemma_multiset_commutative(seq![s[0]], insert_sorted(s.drop_first(), a));
        lemma_multiset_commutative(seq![s[0]], s.drop_first());
        assert(seq![s[0]] + s.drop_first() =~= s);
        assert(seq![s[0]] =~= Seq::<AppView>::empty().push(s[0]));
    } else {
        lemma_multiset_commutative(seq![a], s);
        assert(seq![a] =~= Seq::<AppView>::empty().push(a));
    }
}

proof fn lemma_sort_from_multiset(acc: Seq<AppView>, rest: Seq<AppView>)
    ensures
        sort_apps_from(acc, rest).to_multiset() =~= (acc + rest).to_multiset(),
    decreases rest.len(),
{
    broadcast use vstd::seq_lib::group_to_multiset_ensures;

    if rest.len() == 0 {
        assert(acc + rest =~= acc);
    } else {
        let acc1 = insert_sorted(acc, rest[0]);
        lemma_insert_sorted_multiset(acc, rest[0]);
        lemma_sort_from_multiset(acc1, rest.drop_first());
        lemma_multiset_commutative(acc1, rest.drop_first());
        lemma_multiset_commutative(acc, rest);
        lemma_multiset_commutative(acc, rest.drop_first());
        assert(rest =~= seq![rest[0]] + rest.drop_first());
        lemma_multiset_commutative(seq![rest[0]], rest.drop_first());
        assert(seq![rest[0]] =~= Seq::<AppView>::empty().push(rest[0]));
    }
}

/// Sorting permutes the entries.
pub proof fn lemma_sort_apps_multiset(s: Seq<AppView>)
    ensures
        sort_apps(s).to_multiset() =~= s.to_multiset(),
{
    lemma_sort_from_multiset(Seq::empty(), s);
    assert(Seq::<AppView>::empty() + s =~= s);
}

/// A permutation of a registry with unique keys has unique keys.
pub proof fn lemma_unique_keys_permutation(t: Seq<AppView>, s: Seq<AppView>)
    requires
        t.to_multiset() == s.to_multiset(),
        unique_keys(s),
    ensures
        unique_keys(t),
{
    broadcast use vstd::seq_lib::group_to_multiset_ensures;

    assert forall|i: int, j: int| 0 <= i < j < t.len() implies key(t[i]) != key(t[j]) by {
        if key(t[i]) == key(t[j]) {
            if t[i] == t[j] {
                assert(t.remove(i).to_multiset() =~= t.to_multiset().remove(t[i]));
                assert(t.remove(i)[j - 1] == t[j]);
                assert(t.remove(i).contains(t[j]));
                assert(t.remove(i).to_multiset().count(t[j]) > 0);
                assert(s.to_multiset().count(t[i]) >= 2);
                assert(s.contains(t[i]));
                let p = choose|p: int| 0 <= p < s.len() && s[p] == t[i];
                assert(s.remove(p).to_multiset() =~= s.to_multiset().remove(s[p]));
                assert(s.remove(p).to_multiset().count(t[i]) > 0);
                assert(s.remove(p).contains(t[i]));
                let q0 = choose|q: int| 0 <= q < s.remove(p).len() && s.remove(p)[q] == t[i];
                let q = if q0 < p { q0 } else { q0 + 1 };
                assert(s[q] == t[i]);
                assert(key(s[p]) == key(s[q]) && p != q);
            } else {
                assert(t.contains(t[i]));
                assert(t.contains(t[j]));
                assert(s.to_multiset().count(t[i]) > 0);
                assert(s.to_multiset().count(t[j]) > 0);
                assert(s.contains(t[i]));
                assert(s.contains(t[j]));
                let p = choose|p: int| 0 <= p < s.len() && s[p] == t[i];
                let q = choose|q: int| 0 <= q < s.len() && s[q] == t[j];
                assert(key(s[p]) == key(s[q]) && p != q);
            }
        }
    }
}

proof fn lemma_insert_sorted_retains(s: Seq<AppView>, a: AppView)
    ensures
        sorted_apps(s) ==> sorted_apps(insert_sorted(s, a)),
    decreases s.len(),
{
    if s.len() == 0 {
    } else if app_le(s[0], a) {
        lemma_insert_sorted_retains(s.drop_first(), a);
        if sorted_apps(s) {
            assert(sorted_apps(s.drop_first())) by {
                assert(forall|i: int, j: int|
                    0 <= i < j < s.drop_first().len() ==> app_le(
                        s.drop_first()[i],
                        s.drop_first()[j],
                    ) == app_le(s[i + 1], s[j + 1]));
            }
            let r = seq![s[0]] + insert_sorted(s.drop_first(), a);
            let inner = insert_sorted(s.drop_first(), a);
            assert forall|i: int, j: int| 0 <= i < j < r.len() implies app_le(r[i], r[j]) by {
                if i == 0 {
                    assert(r[j] == inner[j - 1]);
                    lemma_insert_sorted_element(s.drop_first(), a, j - 1);
                    if inner[j - 1] == a {
                        assert(app_le(s[0], a));
                    } else {
                        assert(s.drop_first().contains(inner[j - 1]));
                        let l = choose|l: int|
                            0 <= l < s.drop_first().len() && s.drop_first()[l] == inner[j - 1];
                        assert(app_le(s[0], s[l + 1]));
                    }
                } else {
                    assert(r[i] == inner[i - 1] && r[j] == inner[j - 1]);
                }
            }
        }
    } else {
        if sorted_apps(s) {
            let r = seq![a] + s;
            lemma_app_order_total(a, s[0], s[0]);
            assert forall|i: int, j: int| 0 <= i < j < r.len() implies app_le(r[i], r[j]) by {
                if i == 0 {
                    assert(r[j] == s[j - 1]);
                    if j - 1 > 0 {
                        assert(app_le(s[0], s[j - 1]));
                    }
                    lemma_app_order_total(a, s[0], s[j - 1]);
                } else {
                    assert(r[i] == s[i - 1] && r[j] == s[j - 1]);
                }
            }
        }
    }
}

proof fn lemma_insert_sorted_element(s: Seq<AppView>, a: AppView, i: int)
    requires
        0 <= i < insert_sorted(s, a).len(),
    ensures
        insert_sorted(s, a)[i] == a || s.contains(insert_sorted(s, a)[i]),
    decreases s.len(),
{
    if s.len() == 0 {
    } else if app_le(s[0], a) {
        if i == 0 {
            assert(s.contains(s[0]));
        } else {
            lemma_insert_sorted_element(s.drop_first(), a, i - 1);
            let x = insert_sorted(s.drop_first(), a)[i - 1];
            if s.drop_first().contains(x) {
                let l = choose|l: int| 0 <= l < s.drop_first().len() && s.drop_first()[l] == x;
                assert(s[l + 1] == x);
            }
        }
    } else {
        if i > 0 {
            assert(insert_sorted(s, a)[i] == s[i - 1]);
        }
    }
}

proof fn lemma_sort_from_sorted(acc: Seq<AppView>, rest: Seq<AppView>)
    requires
        sorted_apps(acc),
    ensures
        sorted_apps(sort_apps_from(acc, rest)),
    decreases rest.len(),
{
    if rest.len() == 0 {
    } else {
        lemma_insert_sorted_retains(acc, rest[0]);
        lemma_sort_from_sorted(insert_sorted(acc, rest[0]), rest.drop_first());
    }
}

/// The normal form is sorted.
pub proof fn lemma_normalize_sorted(s: Seq<AppView>)
    ensures
        sorted_apps(normalize(s)),
        unique_keys(normalize(s)),
{
    lemma_sort_from_sorted(Seq::empty(), dedupe(s));
    lemma_dedupe_last_wins(s);
    lemma_sort_apps_multiset(dedupe(s));
    lemma_unique_keys_permutation(sort_apps(dedupe(s)), dedupe(s));
}

proof fn lemma_insert_sorted_at_end(s: Seq<AppView>, a: AppView)
    requires
        forall|j: int| 0 <= j < s.len() ==> app_le(s[j], a),
    ensures
        insert_sorted(s, a) == s.push(a),
    decreases s.len(),
{
    if s.len() == 0 {
        assert(insert_sorted(s, a) =~= s.push(a));
    } else {
        assert(app_le(s[0], a));
        lemma_insert_sorted_at_end(s.drop_first(), a);
        assert(seq![s[0]] + s.drop_first().push(a) =~= s.push(a));
    }
}

proof fn lemma_sort_from_identity(acc: Seq<AppView>, rest: Seq<AppView>)
    requires
        sorted_apps(acc + rest),
    ensures
        sort_apps_from(acc, rest) == acc + rest,
    decreases rest.len(),
{
    if rest.len() == 0 {
        assert(sort_apps_from(acc, rest) =~= acc + rest);
    } else {
        let c = acc + rest;
        assert(forall|j: int| 0 <= j < acc.len() ==> acc[j] == c[j]);
        assert(c[acc.len() as int] == rest[0]);
        assert(forall|j: int| 0 <= j < acc.len() ==> app_le(acc[j], rest[0]));
        lemma_insert_sorted_at_end(acc, rest[0]);
        assert(acc.push(rest[0]) + rest.drop_first() =~= acc + rest);
        lemma_sort_from_identity(acc.push(rest[0]), rest.drop_first());
    }
}

/// Sorting a sorted registry leaves it untouched.
pub proof fn lemma_sort_identity(s: Seq<AppView>)
    requires
        sorted_apps(s),
    ensures
        sort_apps(s) == s,
{
    assert(Seq::<AppView>::empty() + s =~= s);
    lemma_sort_from_identity(Seq::empty(), s);
}

/// Normalization is idempotent: a second pass changes nothing.
pub proof fn lemma_normalize_idempotent(s: Seq<AppView>)
    ensures
        normalize(normalize(s)) == normalize(s),
{
    let t = normalize(s);
    lemma_normalize_sorted(s);
    lemma_dedupe_identity(t);
    lemma_sort_identity(t);
}

proof fn lemma_dedupe_into_snoc(acc: Seq<AppView>, t: Seq<AppView>, x: AppView)
    ensures
        dedupe_into(acc, t.push(x)) == upsert(dedupe_into(acc, t), x),
    decreases t.len(),
{
    if t.len() == 0 {
        assert(t.push(x)[0] == x);
        assert(t.push(x).drop_first() =~= Seq::<AppView>::empty());
        assert(dedupe_into(acc, t.push(x)) == dedupe_into(
            upsert(acc, x),
            Seq::<AppView>::empty(),
        ));
        assert(dedupe_into(upsert(acc, x), Seq::<AppView>::empty()) == upsert(acc, x));
    } else {
        assert(t.push(x)[0] == t[0]);
        assert(t.push(x).drop_first() =~= t.drop_first().push(x));
        lemma_dedupe_into_snoc(upsert(acc, t[0]), t.drop_first(), x);
        assert(dedupe_into(acc, t.push(x)) == dedupe_into(
            upsert(acc, t[0]),
            t.drop_first().push(x),
        ));
    }
}

proof fn lemma_sort_from_snoc(acc: Seq<AppView>, t: Seq<AppView>, x: AppView)
    ensures
        sort_apps_from(acc, t.push(x)) == insert_sorted(sort_apps_from(acc, t), x),
    decreases t.len(),
{
    if t.len() == 0 {
        assert(t.push(x)[0] == x);
        assert(t.push(x).drop_first() =~= Seq::<AppView>::empty());
        assert(sort_apps_from(acc, t.push(x)) == sort_apps_from(
            insert_sorted(acc, x),
            Seq::<AppView>::empty(),
        ));
        assert(sort_apps_from(insert_sorted(acc, x), Seq::<AppView>::empty()) == insert_sorted(
            acc,
            x,
        ));
    } else {
        assert(t.push(x)[0] == t[0]);
        assert(t.push(x).drop_first() =~= t.drop_first().push(x));
        lemma_sort_from_snoc(insert_sorted(acc, t[0]), t.drop_first(), x);
        assert(sort_apps_from(acc, t.push(x)) == sort_apps_from(
            insert_sorted(acc, t[0]),
            t.drop_first().push(x),
        ));
    }
}

proof fn lemma_insert_sorted_at(s: Seq<AppView>, a: AppView, p: int)
    requires
        0 <= p <= s.len(),
        forall|l: int| 0 <= l < p ==> app_le(s[l], a),
        p == s.len() || !app_le(s[p], a),
    ensures
        insert_sorted(s, a) == s.take(p) + seq![a] + s.skip(p),
    decreases s.len(),
{
    if s.len() == 0 {
        assert(insert_sorted(s, a) =~= s.take(p) + seq![a] + s.skip(p));
    } else if p == 0 {
        assert(!app_le(s[0], a));
        assert(seq![a] + s =~= s.take(0) + seq![a] + s.skip(0));
    } else {
        assert(app_le(s[0], a));
        lemma_insert_sorted_at(s.drop_first(), a, p - 1);
        assert(seq![s[0]] + (s.drop_first().take(p - 1) + seq![a] + s.drop_first().skip(p - 1))
            =~= s.take(p) + seq![a] + s.skip(p));
    }
}

/// Last-wins deduplication by case-insensitive path, then a sort by
/// case-insensitive name with ties broken by case-insensitive path.
pub fn sort_and_dedupe_apps(apps: Vec<RegisteredApp>) -> (r: Vec<RegisteredApp>)
    ensures
        app_views(r@) == normalize(app_views(apps@)),
        sorted_apps(app_views(r@)),
        unique_keys(app_views(r@)),
{
    let ghost pre = app_views(apps@);
    proof {
        lemma_normalize_sorted(pre);
    }
    let mut deduped: Vec<RegisteredApp> = Vec::new();
    let mut i: usize = 0;
    while i < apps.len()
        invariant
            0 <= i <= apps.len(),
            pre == app_views(apps@),
            pre.len() == apps@.len(),
            app_views(deduped@) == dedupe_into(Seq::empty(), pre.take(i as int)),
        decreases apps.len() - i,
    {
        let app = apps[i].duplicate();
        let ghost dv = app_views(deduped@);
        assert(app@ == pre[i as int]);
        let mut j: usize = 0;
        let mut found: bool = false;
        while j < deduped.len() && !found
            invariant
                0 <= j <= deduped.len(),
                dv == app_views(deduped@),
                dv.len() == deduped@.len(),
                forall|l: int| 0 <= l < j ==> key(dv[l]) != key(app@),
                found ==> j < deduped.len() && key(dv[j as int]) == key(app@),
            decreases deduped.len() - j + (if found { 0int } else { 1int }),
        {
            if eq_ci(deduped[j].path.as_str(), app.path.as_str()) {
                assert(key(dv[j as int]) == key(app@));
                found = true;
            } else {
                assert(key(dv[j as int]) != key(app@));
                j = j + 1;
            }
        }
        if found {
            proof {
                lemma_first_key_index_unique(dv, key(app@), j as int);
            }
            deduped.set(j, app);
            assert(app_views(deduped@) =~= upsert(dv, pre[i as int]));
        } else {
            assert(!has_key(dv, key(app@)));
            deduped.push(app);
            assert(app_views(deduped@) =~= upsert(dv, pre[i as int]));
        }
        proof {
            lemma_dedupe_into_snoc(Seq::empty(), pre.take(i as int), pre[i as int]);
            assert(pre.take(i + 1) =~= pre.take(i as int).push(pre[i as int]));
        }
        i = i + 1;
    }
    assert(pre.take(pre.len() as int) =~= pre);
    let ghost dd = app_views(deduped@);
    assert(dd == dedupe(pre));
    let mut out: Vec<RegisteredApp> = Vec::new();
    let mut n: usize = 0;
    while n < deduped.len()
        invariant
            0 <= n <= deduped.len(),
            dd == app_views(deduped@),
            dd.len() == deduped@.len(),
            app_views(out@) == sort_apps_from(Seq::empty(), dd.take(n as int)),
        decreases deduped.len() - n,
    {
        let a = deduped[n].duplicate();
        let ghost ov = app_views(out@);
        assert(a@ == dd[n as int]);
        let mut pos: usize = 0;
        let mut stop: bool = false;
        while !stop
            invariant
                0 <= pos <= out.len(),
                ov == app_views(out@),
                ov.len() == out@.len(),
                forall|l: int| 0 <= l < pos ==> app_le(ov[l], a@),
                stop ==> pos == out.len() || !app_le(ov[pos as int], a@),
            decreases out.len() - pos + (if stop { 0int } else { 1int }),
        {
            if pos >= out.len() {
                stop = true;
            } else if !app_le_exec(&out[pos], &a) {
                assert(!app_le(ov[pos as int], a@));
                stop = true;
            } else {
                assert(app_le(ov[pos as int], a@));
                pos = pos + 1;
            }
        }
        proof {
            lemma_insert_sorted_at(ov, a@, pos as int);
        }
        out.insert(pos, a);
        assert(app_views(out@) =~= ov.take(pos as int) + seq![dd[n as int]] + ov.skip(pos as int));
        proof {
            lemma_sort_from_snoc(Seq::empty(), dd.take(n as int), dd[n as int]);
            assert(dd.take(n + 1) =~= dd.take(n as int).push(dd[n as int]));
        }
        n = n + 1;
    }
    assert(dd.take(dd.len() as int) =~= dd);
    assert(app_views(out@) == normalize(pre));
    out
}

} // verus!
