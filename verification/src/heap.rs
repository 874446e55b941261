//! The heap of arrays and maps: allocation, lookup, indexing, and the text
//! of a value as `print` shows it.
use vstd::prelude::*;
use crate::error::SfError;
use crate::text::{digits_of, push_digits, bytes_eq, bytes_less, bytes_lt, copy_bytes, int_text, push_bytes, push_int, push_str, str_bytes};
use crate::value::{
    entries_view, entry_view, is_runtime_error, kind_name_text, outcome_is, values_view, Heap, Obj,
    SObj, SVal, Value,
};

verus! {

// ------------------------------------------------------------------ //
// Association lists
// ------------------------------------------------------------------ //

/// `i` is the first position of key `k` in `es`.
pub open spec fn first_key_at(es: Seq<(Seq<u8>, SVal)>, k: Seq<u8>, i: int) -> bool {
    &&& 0 <= i < es.len()
    &&& es[i].0 == k
    &&& forall|j: int| 0 <= j < i ==> es[j].0 != k
}

/// The position of key `k` in `es`, or -1.
pub open spec fn find_key(es: Seq<(Seq<u8>, SVal)>, k: Seq<u8>) -> int {
    if exists|i: int| first_key_at(es, k, i) {
        choose|i: int| first_key_at(es, k, i)
    } else {
        -1
    }
}

/// The value stored under `k`, if any.
pub open spec fn dict_get(es: Seq<(Seq<u8>, SVal)>, k: Seq<u8>) -> Option<SVal> {
    let i = find_key(es, k);
    if i >= 0 { Some(es[i].1) } else { None }
}

/// `es` with `k` bound to `v`: an existing binding is replaced in place, a
/// new one goes last.
pub open spec fn dict_insert(es: Seq<(Seq<u8>, SVal)>, k: Seq<u8>, v: SVal) -> Seq<(Seq<u8>, SVal)> {
    let i = find_key(es, k);
    if i >= 0 { es.update(i, (k, v)) } else { es.push((k, v)) }
}

/// The map built from `entries` in order: a later entry for a key replaces
/// an earlier one.
pub open spec fn dict_from(entries: Seq<(Seq<u8>, SVal)>) -> Seq<(Seq<u8>, SVal)>
    decreases entries.len(),
{
    if entries.len() == 0 {
        Seq::empty()
    } else {
        dict_insert(dict_from(entries.drop_last()), entries.last().0, entries.last().1)
    }
}

proof fn lemma_first_key_unique(es: Seq<(Seq<u8>, SVal)>, k: Seq<u8>, i: int)
    requires
        first_key_at(es, k, i),
    ensures
        find_key(es, k) == i,
{
    let c = choose|c: int| first_key_at(es, k, c);
    assert(first_key_at(es, k, c));
    if c < i {
        assert(es[c].0 != k);
    } else if c > i {
        assert(es[i].0 != k);
    }
}

/// A key that occurs in `es` has a first position there.
proof fn lemma_key_has_first(es: Seq<(Seq<u8>, SVal)>, k: Seq<u8>, j: int)
    requires
        0 <= j < es.len(),
        es[j].0 == k,
    ensures
        exists|i: int| first_key_at(es, k, i),
    decreases j,
{
    if exists|m: int| 0 <= m < j && es[m].0 == k {
        let m = choose|m: int| 0 <= m < j && es[m].0 == k;
        lemma_key_has_first(es, k, m);
    } else {
        assert(first_key_at(es, k, j));
    }
}

/// A map gives back what was last stored under a key, and binding one key
/// leaves every other key as it was.
pub proof fn lemma_dict_get_insert(es: Seq<(Seq<u8>, SVal)>, k: Seq<u8>, v: SVal, other: Seq<u8>)
    ensures
        dict_get(dict_insert(es, k, v), k) == Some(v),
        other != k ==> dict_get(dict_insert(es, k, v), other) == dict_get(es, other),
{
    let i = find_key(es, k);
    let es2 = dict_insert(es, k, v);
    if exists|c: int| first_key_at(es, k, c) {
        let c = choose|c: int| first_key_at(es, k, c);
        lemma_first_key_unique(es, k, c);
        assert(first_key_at(es2, k, i));
        lemma_first_key_unique(es2, k, i);
    } else {
        assert forall|j: int| 0 <= j < es.len() implies es[j].0 != k by {
            if es[j].0 == k {
                lemma_key_has_first(es, k, j);
            }
        }
        assert(first_key_at(es2, k, es.len() as int));
        lemma_first_key_unique(es2, k, es.len() as int);
    }
    if other != k {
        assert forall|j: int| 0 <= j < es.len() implies es2[j].0 == es[j].0 by {}
        if exists|c: int| first_key_at(es, other, c) {
            let c = choose|c: int| first_key_at(es, other, c);
            lemma_first_key_unique(es, other, c);
            assert(first_key_at(es2, other, c));
            lemma_first_key_unique(es2, other, c);
        } else {
            if exists|c: int| first_key_at(es2, other, c) {
                let c = choose|c: int| first_key_at(es2, other, c);
                assert(first_key_at(es, other, c));
            }
        }
    }
}

/// Finds the position of `k` in the map's entries.
pub fn find_entry(es: &Vec<(Vec<u8>, Value)>, k: &[u8]) -> (r: Option<usize>)
    ensures
        match r {
            Some(i) => find_key(entries_view(es@), k@) == i as int && i < es@.len(),
            None => find_key(entries_view(es@), k@) == -1,
        },
{
    let ghost ev = entries_view(es@);
    let mut i: usize = 0;
    while i < es.len()
        invariant
            i <= es@.len(),
            ev == entries_view(es@),
            forall|j: int| 0 <= j < i ==> ev[j].0 != k@,
        decreases es@.len() - i,
    {
        if bytes_eq(es[i].0.as_slice(), k) {
            proof {
                assert(first_key_at(ev, k@, i as int));
                lemma_first_key_unique(ev, k@, i as int);
            }
            return Some(i);
        }
        i = i + 1;
    }
    proof {
        assert(!exists|j: int| first_key_at(ev, k@, j));
    }
    None
}

// ------------------------------------------------------------------ //
// Sorting map entries by key
// ------------------------------------------------------------------ //

/// `p` is the first position of `s` whose key sorts after `k`, or `s.len()`.
pub open spec fn first_after(s: Seq<(Seq<u8>, SVal)>, k: Seq<u8>, p: int) -> bool {
    &&& 0 <= p <= s.len()
    &&& (p < s.len() ==> bytes_lt(k, s[p].0))
    &&& forall|j: int| 0 <= j < p ==> !bytes_lt(k, s[j].0)
}

pub open spec fn insert_pos(s: Seq<(Seq<u8>, SVal)>, k: Seq<u8>) -> int {
    choose|p: int| first_after(s, k, p)
}

/// `s` with `e` inserted after every entry whose key does not sort after it.
pub open spec fn insert_sorted(s: Seq<(Seq<u8>, SVal)>, e: (Seq<u8>, SVal)) -> Seq<(Seq<u8>, SVal)> {
    s.insert(insert_pos(s, e.0), e)
}

/// The entries in ascending key order (a stable insertion sort).
pub open spec fn sort_entries(s: Seq<(Seq<u8>, SVal)>) -> Seq<(Seq<u8>, SVal)>
    decreases s.len(),
{
    if s.len() == 0 {
        s
    } else {
        insert_sorted(sort_entries(s.drop_last()), s.last())
    }
}

proof fn lemma_first_after_unique(s: Seq<(Seq<u8>, SVal)>, k: Seq<u8>, p: int)
    requires
        first_after(s, k, p),
    ensures
        insert_pos(s, k) == p,
{
    let c = choose|c: int| first_after(s, k, c);
    assert(first_after(s, k, c));
    if c < p {
        assert(!bytes_lt(k, s[c].0));
    } else if c > p {
        assert(!bytes_lt(k, s[p].0));
    }
}

proof fn lemma_bytes_lt_irrefl(a: Seq<u8>)
    ensures
        !bytes_lt(a, a),
    decreases a.len(),
{
    if a.len() > 0 {
        lemma_bytes_lt_irrefl(a.drop_first());
    }
}

proof fn lemma_bytes_lt_asym(a: Seq<u8>, b: Seq<u8>)
    ensures
        bytes_lt(a, b) ==> !bytes_lt(b, a),
    decreases a.len(),
{
    if a.len() > 0 && b.len() > 0 {
        lemma_bytes_lt_asym(a.drop_first(), b.drop_first());
    }
}

proof fn lemma_bytes_lt_trans(a: Seq<u8>, b: Seq<u8>, c: Seq<u8>)
    ensures
        bytes_lt(a, b) && bytes_lt(b, c) ==> bytes_lt(a, c),
    decreases a.len(),
{
    if a.len() > 0 && b.len() > 0 && c.len() > 0 {
        lemma_bytes_lt_trans(a.drop_first(), b.drop_first(), c.drop_first());
    }
}

proof fn lemma_bytes_lt_total(a: Seq<u8>, b: Seq<u8>)
    ensures
        a != b ==> bytes_lt(a, b) || bytes_lt(b, a),
    decreases a.len(),
{
    if a.len() > 0 && b.len() > 0 {
        lemma_bytes_lt_total(a.drop_first(), b.drop_first());
        if a[0] == b[0] && a.drop_first() == b.drop_first() {
            assert forall|i: int| 0 <= i < a.len() implies a[i] == b[i] by {
                if i > 0 {
                    assert(a[i] == a.drop_first()[i - 1]);
                    assert(b[i] == b.drop_first()[i - 1]);
                }
            }
            assert(a =~= b);
        }
    } else if a.len() == 0 && b.len() == 0 {
        assert(a =~= b);
    }
}

/// The byte order of texts is a strict total order.
pub proof fn lemma_bytes_lt_strict_total_order(a: Seq<u8>, b: Seq<u8>, c: Seq<u8>)
    ensures
        !bytes_lt(a, a),
        bytes_lt(a, b) ==> !bytes_lt(b, a),
        bytes_lt(a, b) && bytes_lt(b, c) ==> bytes_lt(a, c),
        a != b ==> bytes_lt(a, b) || bytes_lt(b, a),
{
    lemma_bytes_lt_irrefl(a);
    lemma_bytes_lt_asym(a, b);
    lemma_bytes_lt_trans(a, b, c);
    lemma_bytes_lt_total(a, b);
}

/// The entries are in ascending key order.
pub open spec fn keys_sorted(s: Seq<(Seq<u8>, SVal)>) -> bool {
    forall|i: int, j: int| 0 <= i < j < s.len() ==> !bytes_lt(#[trigger] s[j].0, #[trigger] s[i].0)
}

proof fn lemma_first_after_exists(s: Seq<(Seq<u8>, SVal)>, k: Seq<u8>)
    ensures
        exists|p: int| first_after(s, k, p),
    decreases s.len(),
{
    if s.len() == 0 {
        assert(first_after(s, k, 0));
    } else {
        let t = s.drop_first();
        lemma_first_after_exists(t, k);
        let q = choose|q: int| first_after(t, k, q);
        if bytes_lt(k, s[0].0) {
            assert(first_after(s, k, 0));
        } else {
            assert forall|j: int| 0 <= j < q + 1 implies !bytes_lt(k, s[j].0) by {
                if j > 0 {
                    assert(s[j] == t[j - 1]);
                }
            }
            if q < t.len() {
                assert(s[q + 1] == t[q]);
            }
            assert(first_after(s, k, q + 1));
        }
    }
}

/// Sorting keeps the number of entries, and every key of the result is a
/// key of the input.
proof fn lemma_sort_keys_from(s: Seq<(Seq<u8>, SVal)>)
    ensures
        sort_entries(s).len() == s.len(),
        forall|i: int| 0 <= i < s.len() ==> exists|j: int| 0 <= j < s.len() && #[trigger] sort_entries(s)[i].0 == s[j].0,
    decreases s.len(),
{
    if s.len() > 0 {
        let d = s.drop_last();
        lemma_sort_keys_from(d);
        let t = sort_entries(d);
        let e = s.last();
        lemma_first_after_exists(t, e.0);
        let c = choose|c: int| first_after(t, e.0, c);
        lemma_first_after_unique(t, e.0, c);
        let p = insert_pos(t, e.0);
        let r = t.insert(p, e);
        assert(r == sort_entries(s));
        assert forall|i: int| 0 <= i < s.len() implies exists|j: int| 0 <= j < s.len() && #[trigger] r[i].0 == s[j].0 by {
            if i == p {
                assert(r[i].0 == s[s.len() - 1].0);
            } else {
                let k = if i < p { i } else { i - 1 };
                assert(r[i] == t[k]);
                let j = choose|j: int| 0 <= j < d.len() && t[k].0 == d[j].0;
                assert(d[j] == s[j]);
            }
        }
    }
}

/// Sorting the entries of a map with distinct keys keeps the keys distinct.
pub proof fn lemma_sort_keys_distinct(s: Seq<(Seq<u8>, SVal)>)
    requires
        keys_distinct(s),
    ensures
        keys_distinct(sort_entries(s)),
    decreases s.len(),
{
    if s.len() > 0 {
        let d = s.drop_last();
        assert forall|i: int, j: int| 0 <= i < j < d.len() implies #[trigger] d[i].0 != #[trigger] d[j].0 by {
            assert(d[i] == s[i] && d[j] == s[j]);
        }
        lemma_sort_keys_distinct(d);
        lemma_sort_keys_from(d);
        let t = sort_entries(d);
        let e = s.last();
        lemma_first_after_exists(t, e.0);
        let c = choose|c: int| first_after(t, e.0, c);
        lemma_first_after_unique(t, e.0, c);
        let p = insert_pos(t, e.0);
        let r = t.insert(p, e);
        assert(r == sort_entries(s));
        assert forall|k: int| 0 <= k < t.len() implies #[trigger] t[k].0 != e.0 by {
            let j = choose|j: int| 0 <= j < d.len() && t[k].0 == d[j].0;
            assert(d[j] == s[j]);
            assert(s[j].0 != s[s.len() - 1].0);
        }
        assert forall|i: int, j: int| 0 <= i < j < r.len() implies #[trigger] r[i].0 != #[trigger] r[j].0 by {
            if i == p {
                assert(r[j] == t[j - 1]);
            } else if j == p {
                assert(r[i] == t[i]);
            } else {
                let ki = if i < p { i } else { i - 1 };
                let kj = if j < p { j } else { j - 1 };
                assert(r[i] == t[ki]);
                assert(r[j] == t[kj]);
            }
        }
    }
}

/// Sorting map entries gives them in ascending key order, and gives the
/// same entries, each as often as before.
pub proof fn lemma_sort_entries(s: Seq<(Seq<u8>, SVal)>)
    ensures
        keys_sorted(sort_entries(s)),
        sort_entries(s).to_multiset() == s.to_multiset(),
    decreases s.len(),
{
    broadcast use vstd::seq_lib::to_multiset_build, vstd::seq_lib::to_multiset_insert;
    if s.len() > 0 {
        let t = sort_entries(s.drop_last());
        lemma_sort_entries(s.drop_last());
        let e = s.last();
        lemma_first_after_exists(t, e.0);
        let c = choose|c: int| first_after(t, e.0, c);
        lemma_first_after_unique(t, e.0, c);
        let p = insert_pos(t, e.0);
        let r = t.insert(p, e);
        assert(r == sort_entries(s));
        assert forall|i: int, j: int| 0 <= i < j < r.len() implies !bytes_lt(#[trigger] r[j].0, #[trigger] r[i].0) by {
            if j < p {
                assert(r[i] == t[i] && r[j] == t[j]);
            } else if j == p {
                assert(r[i] == t[i]);
            } else if i == p {
                assert(r[j] == t[j - 1]);
                assert(bytes_lt(e.0, t[p].0));
                lemma_bytes_lt_asym(e.0, t[p].0);
                if j - 1 > p {
                    assert(!bytes_lt(t[j - 1].0, t[p].0));
                    lemma_bytes_lt_total(t[j - 1].0, t[p].0);
                    lemma_bytes_lt_trans(e.0, t[p].0, t[j - 1].0);
                    lemma_bytes_lt_asym(e.0, t[j - 1].0);
                }
            } else if i < p {
                assert(r[i] == t[i] && r[j] == t[j - 1]);
            } else {
                assert(r[i] == t[i - 1] && r[j] == t[j - 1]);
            }
        }
        assert(s.drop_last().push(e) =~= s);
    }
}

fn copy_entry(e: &(Vec<u8>, Value)) -> (r: (Vec<u8>, Value))
    ensures
        entry_view(r) == entry_view(*e),
{
    (copy_bytes(&e.0), e.1.copy())
}

/// A copy of a map's entries in ascending key order.
pub fn sorted_entries(es: &Vec<(Vec<u8>, Value)>) -> (r: Vec<(Vec<u8>, Value)>)
    ensures
        entries_view(r@) == sort_entries(entries_view(es@)),
{
    let mut r: Vec<(Vec<u8>, Value)> = Vec::new();
    let mut i: usize = 0;
    while i < es.len()
        invariant
            i <= es@.len(),
            entries_view(r@) == sort_entries(entries_view(es@.subrange(0, i as int))),
        decreases es@.len() - i,
    {
        let e = copy_entry(&es[i]);
        let ghost rv = entries_view(r@);
        let mut p: usize = 0;
        while p < r.len() && !bytes_less(e.0.as_slice(), r[p].0.as_slice())
            invariant
                p <= r@.len(),
                rv == entries_view(r@),
                entry_view(e) == entry_view(es@[i as int]),
                forall|j: int| 0 <= j < p ==> !bytes_lt(e.0@, rv[j].0),
            decreases r@.len() - p,
        {
            p = p + 1;
        }
        proof {
            assert(first_after(rv, e.0@, p as int));
            lemma_first_after_unique(rv, e.0@, p as int);
            let pre = entries_view(es@.subrange(0, i + 1));
            assert(pre.drop_last() =~= entries_view(es@.subrange(0, i as int)));
            assert(pre.last() == entry_view(es@[i as int]));
        }
        r.insert(p, e);
        proof {
            assert(entries_view(r@) =~= rv.insert(p as int, entry_view(es@[i as int])));
        }
        i = i + 1;
    }
    assert(es@.subrange(0, es@.len() as int) =~= es@);
    r
}

// ------------------------------------------------------------------ //
// The heap
// ------------------------------------------------------------------ //

impl Heap {
    pub fn new() -> (h: Heap)
        ensures
            h@ == Seq::<SObj>::empty(),
    {
        let h = Heap { objs: Vec::new() };
        assert(h@ =~= Seq::<SObj>::empty());
        h
    }

    /// The number of objects allocated so far.
    pub fn len(&self) -> (n: usize)
        ensures
            n == self@.len(),
    {
        self.objs.len()
    }

    /// Allocates a new array holding `items`.
    pub fn alloc_array(&mut self, items: Vec<Value>) -> (v: Value)
        ensures
            final(self)@ == old(self)@.push(SObj::Arr(values_view(items@))),
            v@ == SVal::Arr(old(self)@.len()),
    {
        let i = self.objs.len();
        self.objs.push(Obj::Array(items));
        assert(self@ =~= old(self)@.push(SObj::Arr(values_view(items@))));
        Value::Array(i)
    }

    /// Allocates a new map built from `entries` in order (a later entry for
    /// a key replaces an earlier one).
    pub fn alloc_dict(&mut self, entries: Vec<(Vec<u8>, Value)>) -> (v: Value)
        ensures
            final(self)@ == old(self)@.push(SObj::Dict(dict_from(entries_view(entries@)))),
            v@ == SVal::Dict(old(self)@.len()),
    {
        let mut es: Vec<(Vec<u8>, Value)> = Vec::new();
        let mut rest = entries;
        let ghost all = entries_view(rest@);
        let ghost n = all.len();
        assert(all.subrange(0, 0) =~= Seq::<(Seq<u8>, SVal)>::empty());
        while rest.len() > 0
            invariant
                rest@.len() <= n,
                n == all.len(),
                entries_view(es@) == dict_from(all.subrange(0, n - rest@.len())),
                entries_view(rest@) =~= all.subrange(n - rest@.len(), n as int),
            decreases rest@.len(),
        {
            let ghost done = n - rest@.len();
            let ghost before = rest@;
            let e = rest.remove(0);
            proof {
                assert(entries_view(before)[0] == entry_view(e));
                assert(all[done] == entry_view(e));
                let pre = all.subrange(0, done + 1);
                assert(pre.drop_last() =~= all.subrange(0, done));
                assert(entries_view(rest@) =~= entries_view(before).drop_first());
            }
            dict_set(&mut es, e.0, e.1);
        }
        assert(all.subrange(0, all.len() as int) =~= all);
        let i = self.objs.len();
        self.objs.push(Obj::Dict(es));
        assert(self@ =~= old(self)@.push(SObj::Dict(dict_from(entries_view(entries@)))));
        Value::Dict(i)
    }
}

/// Binds `k` to `v` in the entries `es`.
pub fn dict_set(es: &mut Vec<(Vec<u8>, Value)>, k: Vec<u8>, v: Value)
    ensures
        entries_view(final(es)@) == dict_insert(entries_view(old(es)@), k@, v@),
{
    match find_entry(es, k.as_slice()) {
        Some(i) => {
            es.set(i, (k, v));
            assert(entries_view(es@) =~= dict_insert(entries_view(old(es)@), k@, v@));
        },
        None => {
            es.push((k, v));
            assert(entries_view(es@) =~= dict_insert(entries_view(old(es)@), k@, v@));
        },
    }
}

// ------------------------------------------------------------------ //
// Indexing
// ------------------------------------------------------------------ //

pub open spec fn dangling_msg() -> Seq<u8> {
    str_bytes("internal error: dangling reference")
}

pub open spec fn out_of_bounds_msg(n: int, len: int) -> Seq<u8> {
    str_bytes("array index ") + int_text(n) + str_bytes(" out of bounds (length ") + digits_of(len as nat)
        + str_bytes(")")
}

pub open spec fn bad_array_index_msg(idx: SVal) -> Seq<u8> {
    str_bytes("array index must be a number, got ") + kind_name_text(idx)
}

pub open spec fn bad_map_key_msg(idx: SVal) -> Seq<u8> {
    str_bytes("map key must be a string, got ") + kind_name_text(idx)
}

pub open spec fn not_indexable_msg(base: SVal) -> Seq<u8> {
    str_bytes("cannot index a value of type ") + kind_name_text(base)
}

/// `base[idx]`: an array element, a map entry (`nil` for a missing key).
pub open spec fn index_get_result(h: Seq<SObj>, base: SVal, idx: SVal) -> Result<SVal, Seq<u8>> {
    match base {
        SVal::Arr(i) => if i >= h.len() || !(h[i as int] is Arr) {
            Err(dangling_msg())
        } else {
            let items = h[i as int]->Arr_0;
            match idx {
                SVal::Num(n) => if 0 <= n < items.len() {
                    Ok(items[n])
                } else {
                    Err(out_of_bounds_msg(n, items.len() as int))
                },
                _ => Err(bad_array_index_msg(idx)),
            }
        },
        SVal::Dict(i) => if i >= h.len() || !(h[i as int] is Dict) {
            Err(dangling_msg())
        } else {
            match idx {
                SVal::Str(k) => match dict_get(h[i as int]->Dict_0, k) {
                    Some(v) => Ok(v),
                    None => Ok(SVal::Nil),
                },
                _ => Err(bad_map_key_msg(idx)),
            }
        },
        _ => Err(not_indexable_msg(base)),
    }
}

/// The heap after `base[idx] = v`.
pub open spec fn index_set_result(h: Seq<SObj>, base: SVal, idx: SVal, v: SVal) -> Result<Seq<SObj>, Seq<u8>> {
    match base {
        SVal::Arr(i) => if i >= h.len() || !(h[i as int] is Arr) {
            Err(dangling_msg())
        } else {
            let items = h[i as int]->Arr_0;
            match idx {
                SVal::Num(n) => if 0 <= n < items.len() {
                    Ok(h.update(i as int, SObj::Arr(items.update(n, v))))
                } else {
                    Err(out_of_bounds_msg(n, items.len() as int))
                },
                _ => Err(bad_array_index_msg(idx)),
            }
        },
        SVal::Dict(i) => if i >= h.len() || !(h[i as int] is Dict) {
            Err(dangling_msg())
        } else {
            match idx {
                SVal::Str(k) => Ok(h.update(i as int, SObj::Dict(dict_insert(h[i as int]->Dict_0, k, v)))),
                _ => Err(bad_map_key_msg(idx)),
            }
        },
        _ => Err(not_indexable_msg(base)),
    }
}

/// The object `base` refers to, if it is an array or a map.
pub open spec fn target_of(base: SVal) -> int {
    match base {
        SVal::Arr(i) => i as int,
        SVal::Dict(i) => i as int,
        _ => -1,
    }
}

/// What a read gives back of a write: after `base[idx] = v` succeeds,
/// `base[idx]` is `v`, read through `base` or through any other value that
/// refers to the same object; no object but the one written changes.
pub proof fn lemma_index_get_after_set(h: Seq<SObj>, base: SVal, idx: SVal, v: SVal, alias: SVal)
    requires
        index_set_result(h, base, idx, v) is Ok,
        alias == base,
    ensures
        index_get_result(index_set_result(h, base, idx, v)->Ok_0, alias, idx) == Ok::<SVal, Seq<u8>>(v),
        index_set_result(h, base, idx, v)->Ok_0.len() == h.len(),
        forall|j: int| 0 <= j < h.len() && j != target_of(base) ==> #[trigger] index_set_result(h, base, idx, v)->Ok_0[j] == h[j],
{
    if let (SVal::Dict(i), SVal::Str(k)) = (base, idx) {
        lemma_dict_get_insert(h[i as int]->Dict_0, k, v, k);
    }
}

/// The reference `v` holds, if any, names an object of its kind in `h`.
pub open spec fn val_ok(h: Seq<SObj>, v: SVal) -> bool {
    match v {
        SVal::Arr(i) => i < h.len() && h[i as int] is Arr,
        SVal::Dict(i) => i < h.len() && h[i as int] is Dict,
        _ => true,
    }
}

/// No key occurs twice in the association list.
pub open spec fn keys_distinct(es: Seq<(Seq<u8>, SVal)>) -> bool {
    forall|i: int, j: int| 0 <= i < j < es.len() ==> #[trigger] es[i].0 != #[trigger] es[j].0
}

/// Every value the object holds is well formed in `h`, and a map holds no
/// key twice.
pub open spec fn obj_ok(h: Seq<SObj>, o: SObj) -> bool {
    match o {
        SObj::Arr(items) => forall|j: int| 0 <= j < items.len() ==> val_ok(h, #[trigger] items[j]),
        SObj::Dict(es) => {
            &&& forall|j: int| 0 <= j < es.len() ==> val_ok(h, #[trigger] es[j].1)
            &&& keys_distinct(es)
        },
    }
}

/// Binding a key keeps the keys of a map distinct.
pub proof fn lemma_dict_insert_distinct(es: Seq<(Seq<u8>, SVal)>, k: Seq<u8>, v: SVal)
    requires
        keys_distinct(es),
    ensures
        keys_distinct(dict_insert(es, k, v)),
{
    let es2 = dict_insert(es, k, v);
    if exists|c: int| first_key_at(es, k, c) {
        let c = choose|c: int| first_key_at(es, k, c);
        lemma_first_key_unique(es, k, c);
        assert forall|i: int, j: int| 0 <= i < j < es2.len() implies #[trigger] es2[i].0 != #[trigger] es2[j].0 by {
            assert(es2[i].0 == es[i].0);
            assert(es2[j].0 == es[j].0);
        }
    } else {
        assert forall|j: int| 0 <= j < es.len() implies es[j].0 != k by {
            if es[j].0 == k {
                lemma_key_has_first(es, k, j);
            }
        }
        assert forall|i: int, j: int| 0 <= i < j < es2.len() implies #[trigger] es2[i].0 != #[trigger] es2[j].0 by {
            assert(es2[i] == es[i]);
            if j < es.len() {
                assert(es2[j] == es[j]);
            }
        }
    }
}

/// A map built from entries holds no key twice.
pub proof fn lemma_dict_from_distinct(es: Seq<(Seq<u8>, SVal)>)
    ensures
        keys_distinct(dict_from(es)),
    decreases es.len(),
{
    if es.len() > 0 {
        lemma_dict_from_distinct(es.drop_last());
        lemma_dict_insert_distinct(dict_from(es.drop_last()), es.last().0, es.last().1);
    }
}

/// Every reference held by an object of the heap names an object of its kind.
pub open spec fn heap_ok(h: Seq<SObj>) -> bool {
    forall|i: int| 0 <= i < h.len() ==> obj_ok(h, #[trigger] h[i])
}

/// `h2` keeps every object of `h`, each of the same kind, in its place.
pub open spec fn kinds_kept(h: Seq<SObj>, h2: Seq<SObj>) -> bool {
    &&& h.len() <= h2.len()
    &&& forall|i: int| 0 <= i < h.len() ==> (#[trigger] h2[i] is Arr) == (h[i] is Arr)
}

/// A heap that keeps the kinds of `h` keeps every well-formed value of `h`
/// well formed.
pub proof fn lemma_kinds_kept_val_ok(h: Seq<SObj>, h2: Seq<SObj>, v: SVal)
    requires
        kinds_kept(h, h2),
        val_ok(h, v),
    ensures
        val_ok(h2, v),
{
}

/// Every value of the association list is well formed in `h`.
pub open spec fn entries_ok(h: Seq<SObj>, es: Seq<(Seq<u8>, SVal)>) -> bool {
    forall|j: int| 0 <= j < es.len() ==> val_ok(h, #[trigger] es[j].1)
}

/// What a well-formed map gives is well formed.
pub proof fn lemma_dict_get_ok(h: Seq<SObj>, es: Seq<(Seq<u8>, SVal)>, k: Seq<u8>)
    requires
        entries_ok(h, es),
    ensures
        dict_get(es, k) matches Some(v) ==> val_ok(h, v),
{
    if dict_get(es, k) is Some {
        let c = choose|c: int| first_key_at(es, k, c);
        lemma_first_key_unique(es, k, c);
    }
}

/// Binding a well-formed value keeps a map well formed.
pub proof fn lemma_dict_insert_ok(h: Seq<SObj>, es: Seq<(Seq<u8>, SVal)>, k: Seq<u8>, v: SVal)
    requires
        entries_ok(h, es),
        val_ok(h, v),
    ensures
        entries_ok(h, dict_insert(es, k, v)),
{
    let es2 = dict_insert(es, k, v);
    assert forall|j: int| 0 <= j < es2.len() implies val_ok(h, #[trigger] es2[j].1) by {
        if es2[j].1 != v {
            assert(es2[j] == es[j]);
        }
    }
}

/// A map built from well-formed entries is well formed.
pub proof fn lemma_dict_from_ok(h: Seq<SObj>, es: Seq<(Seq<u8>, SVal)>)
    requires
        entries_ok(h, es),
    ensures
        entries_ok(h, dict_from(es)),
        keys_distinct(dict_from(es)),
    decreases es.len(),
{
    lemma_dict_from_distinct(es);
    if es.len() > 0 {
        assert(entries_ok(h, es.drop_last()));
        lemma_dict_from_ok(h, es.drop_last());
        assert(val_ok(h, es.last().1));
        lemma_dict_insert_ok(h, dict_from(es.drop_last()), es.last().0, es.last().1);
    }
}

/// A heap that keeps the kinds of `h` keeps a well-formed list of `h` well formed.
pub proof fn lemma_kinds_kept_entries_ok(h: Seq<SObj>, h2: Seq<SObj>, es: Seq<(Seq<u8>, SVal)>)
    requires
        kinds_kept(h, h2),
        entries_ok(h, es),
    ensures
        entries_ok(h2, es),
{
    assert forall|j: int| 0 <= j < es.len() implies val_ok(h2, #[trigger] es[j].1) by {
        lemma_kinds_kept_val_ok(h, h2, es[j].1);
    }
}

pub proof fn lemma_kinds_kept_trans(h: Seq<SObj>, h2: Seq<SObj>, h3: Seq<SObj>)
    requires
        kinds_kept(h, h2),
        kinds_kept(h2, h3),
    ensures
        kinds_kept(h, h3),
{
    assert forall|i: int| 0 <= i < h.len() implies (#[trigger] h3[i] is Arr) == (h[i] is Arr) by {
        assert(h2[i] is Arr == (h[i] is Arr));
    }
}

pub proof fn lemma_kinds_kept_refl(h: Seq<SObj>)
    ensures
        kinds_kept(h, h),
{
}

/// Allocating an object whose values are well formed keeps the heap well
/// formed, and the new reference is well formed.
pub proof fn lemma_alloc_keeps_heap_ok(h: Seq<SObj>, o: SObj)
    requires
        heap_ok(h),
        obj_ok(h, o),
    ensures
        heap_ok(h.push(o)),
        kinds_kept(h, h.push(o)),
{
    let h2 = h.push(o);
    assert forall|i: int| 0 <= i < h2.len() implies obj_ok(h2, #[trigger] h2[i]) by {
        let oi = if i < h.len() { h[i] } else { o };
        assert(obj_ok(h, oi));
        assert(h2[i] == oi);
        match oi {
            SObj::Arr(items) => {
                assert forall|j: int| 0 <= j < items.len() implies val_ok(h2, #[trigger] items[j]) by {
                    lemma_kinds_kept_val_ok(h, h2, items[j]);
                }
            },
            SObj::Dict(es) => {
                assert forall|j: int| 0 <= j < es.len() implies val_ok(h2, #[trigger] es[j].1) by {
                    lemma_kinds_kept_val_ok(h, h2, es[j].1);
                }
            },
        }
    }
}

/// Reading from a well-formed heap through a well-formed reference gives a
/// well-formed value.
pub proof fn lemma_index_get_ok(h: Seq<SObj>, base: SVal, idx: SVal)
    requires
        heap_ok(h),
        val_ok(h, base),
    ensures
        index_get_result(h, base, idx) matches Ok(v) ==> val_ok(h, v),
{
    if let (SVal::Dict(i), SVal::Str(k)) = (base, idx) {
        let es = h[i as int]->Dict_0;
        assert(obj_ok(h, h[i as int]));
        if dict_get(es, k) is Some {
            let c = choose|c: int| first_key_at(es, k, c);
            lemma_first_key_unique(es, k, c);
        }
    }
    if let SVal::Arr(i) = base {
        assert(obj_ok(h, h[i as int]));
    }
}

/// Writing a well-formed value keeps the heap well formed, with every
/// object of the same kind as before.
pub proof fn lemma_index_set_keeps_heap_ok(h: Seq<SObj>, base: SVal, idx: SVal, v: SVal)
    requires
        heap_ok(h),
        val_ok(h, v),
        index_set_result(h, base, idx, v) is Ok,
    ensures
        heap_ok(index_set_result(h, base, idx, v)->Ok_0),
        kinds_kept(h, index_set_result(h, base, idx, v)->Ok_0),
{
    let h2 = index_set_result(h, base, idx, v)->Ok_0;
    let t = target_of(base);
    assert(kinds_kept(h, h2));
    assert(obj_ok(h, h[t]));
    if let (SVal::Dict(_), SVal::Str(k)) = (base, idx) {
        lemma_dict_insert_distinct(h[t]->Dict_0, k, v);
    }
    assert forall|i: int| 0 <= i < h2.len() implies obj_ok(h2, #[trigger] h2[i]) by {
        assert(obj_ok(h, h[i]));
        match h2[i] {
            SObj::Arr(items) => {
                assert forall|j: int| 0 <= j < items.len() implies val_ok(h2, #[trigger] items[j]) by {
                    if i == t {
                        let old_items = h[t]->Arr_0;
                        if items[j] != v {
                            assert(items[j] == old_items[j]);
                        }
                    }
                }
            },
            SObj::Dict(es) => {
                assert forall|j: int| 0 <= j < es.len() implies val_ok(h2, #[trigger] es[j].1) by {
                    if i == t {
                        let old_es = h[t]->Dict_0;
                        let k = idx->Str_0;
                        lemma_dict_insert_distinct(old_es, k, v);
                        let p = find_key(old_es, k);
                        if es[j].1 != v {
                            if p >= 0 {
                                assert(es[j] == old_es[j]);
                            } else {
                                assert(j < old_es.len());
                                assert(es[j] == old_es[j]);
                            }
                        }
                    }
                }
            },
        }
    }
}

fn msg_error(m: Vec<u8>, line: u32) -> (e: SfError)
    ensures
        is_runtime_error(e, m@, line),
{
    SfError::runtime(m, line)
}

fn dangling(line: u32) -> (e: SfError)
    ensures
        is_runtime_error(e, dangling_msg(), line),
{
    let mut m: Vec<u8> = Vec::new();
    push_str(&mut m, "internal error: dangling reference");
    assert(m@ =~= dangling_msg());
    msg_error(m, line)
}

fn out_of_bounds(n: i64, len: usize, line: u32) -> (e: SfError)
    ensures
        is_runtime_error(e, out_of_bounds_msg(n as int, len as int), line),
{
    let mut m: Vec<u8> = Vec::new();
    push_str(&mut m, "array index ");
    push_int(&mut m, n);
    push_str(&mut m, " out of bounds (length ");
    push_digits(&mut m, len as u64);
    push_str(&mut m, ")");
    assert(m@ =~= out_of_bounds_msg(n as int, len as int));
    msg_error(m, line)
}

fn bad_array_index(idx: &Value, line: u32) -> (e: SfError)
    ensures
        is_runtime_error(e, bad_array_index_msg(idx@), line),
{
    let mut m: Vec<u8> = Vec::new();
    push_str(&mut m, "array index must be a number, got ");
    push_str(&mut m, idx.kind_name());
    assert(m@ =~= bad_array_index_msg(idx@));
    msg_error(m, line)
}

fn bad_map_key(idx: &Value, line: u32) -> (e: SfError)
    ensures
        is_runtime_error(e, bad_map_key_msg(idx@), line),
{
    let mut m: Vec<u8> = Vec::new();
    push_str(&mut m, "map key must be a string, got ");
    push_str(&mut m, idx.kind_name());
    assert(m@ =~= bad_map_key_msg(idx@));
    msg_error(m, line)
}

fn not_indexable(base: &Value, line: u32) -> (e: SfError)
    ensures
        is_runtime_error(e, not_indexable_msg(base@), line),
{
    let mut m: Vec<u8> = Vec::new();
    push_str(&mut m, "cannot index a value of type ");
    push_str(&mut m, base.kind_name());
    assert(m@ =~= not_indexable_msg(base@));
    msg_error(m, line)
}

/// `base[idx]`.
pub fn index_get(heap: &Heap, base: &Value, idx: &Value, line: u32) -> (res: Result<Value, SfError>)
    ensures
        outcome_is(res, index_get_result(heap@, base@, idx@), line),
{
    match base {
        Value::Array(i) => {
            if *i >= heap.objs.len() {
                return Err(dangling(line));
            }
            match &heap.objs[*i] {
                Obj::Array(items) => {
                    match idx {
                        Value::Number(n) => {
                            if *n >= 0 && (*n as u64) < (items.len() as u64) {
                                let k = *n as usize;
                                Ok(items[k].copy())
                            } else {
                                Err(out_of_bounds(*n, items.len(), line))
                            }
                        },
                        _ => Err(bad_array_index(idx, line)),
                    }
                },
                Obj::Dict(_) => Err(dangling(line)),
            }
        },
        Value::Dict(i) => {
            if *i >= heap.objs.len() {
                return Err(dangling(line));
            }
            match &heap.objs[*i] {
                Obj::Dict(es) => {
                    match idx {
                        Value::Str(k) => {
                            match find_entry(es, k.as_slice()) {
                                Some(j) => Ok(es[j].1.copy()),
                                None => Ok(Value::Nil),
                            }
                        },
                        _ => Err(bad_map_key(idx, line)),
                    }
                },
                Obj::Array(_) => Err(dangling(line)),
            }
        },
        _ => Err(not_indexable(base, line)),
    }
}

/// `base[idx] = v`.
pub fn index_set(heap: &mut Heap, base: &Value, idx: &Value, v: Value, line: u32) -> (res: Result<(), SfError>)
    ensures
        match index_set_result(old(heap)@, base@, idx@, v@) {
            Ok(h) => res is Ok && final(heap)@ == h,
            Err(m) => res is Err && is_runtime_error(res->Err_0, m, line) && final(heap)@ == old(heap)@,
        },
{
    let i: usize = match base {
        Value::Array(i) => *i,
        Value::Dict(i) => *i,
        _ => return Err(not_indexable(base, line)),
    };
    if i >= heap.objs.len() {
        return Err(dangling(line));
    }
    let ghost h0 = heap@;
    let mut o = Obj::Array(Vec::new());
    std::mem::swap(&mut o, &mut heap.objs[i]);
    assert(o@ == h0[i as int]);
    match o {
        Obj::Array(mut items) => {
            match base {
                Value::Array(_) => {},
                _ => {
                    heap.objs.set(i, Obj::Array(items));
                    assert(heap@ =~= h0);
                    return Err(dangling(line));
                },
            }
            match idx {
                Value::Number(n) => {
                    if *n >= 0 && (*n as u64) < (items.len() as u64) {
                        let k = *n as usize;
                        let ghost iv = values_view(items@);
                        items.set(k, v);
                        assert(values_view(items@) =~= iv.update(k as int, v@));
                        heap.objs.set(i, Obj::Array(items));
                        assert(heap@ =~= h0.update(i as int, SObj::Arr(iv.update(*n as int, v@))));
                        Ok(())
                    } else {
                        let e = out_of_bounds(*n, items.len(), line);
                        heap.objs.set(i, Obj::Array(items));
                        assert(heap@ =~= h0);
                        Err(e)
                    }
                },
                _ => {
                    heap.objs.set(i, Obj::Array(items));
                    assert(heap@ =~= h0);
                    Err(bad_array_index(idx, line))
                },
            }
        },
        Obj::Dict(mut es) => {
            match base {
                Value::Dict(_) => {},
                _ => {
                    heap.objs.set(i, Obj::Dict(es));
                    assert(heap@ =~= h0);
                    return Err(dangling(line));
                },
            }
            match idx {
                Value::Str(k) => {
                    let ghost ev = entries_view(es@);
                    dict_set(&mut es, copy_bytes(k), v);
                    heap.objs.set(i, Obj::Dict(es));
                    assert(heap@ =~= h0.update(i as int, SObj::Dict(dict_insert(ev, k@, v@))));
                    Ok(())
                },
                _ => {
                    heap.objs.set(i, Obj::Dict(es));
                    assert(heap@ =~= h0);
                    Err(bad_map_key(idx, line))
                },
            }
        },
    }
}

// ------------------------------------------------------------------ //
// The text of a value
// ------------------------------------------------------------------ //

/// The measure that bounds the nesting of arrays and maps being shown.
pub open spec fn room(h: Seq<SObj>, path: Seq<usize>) -> int {
    h.len() - path.len()
}

/// The text `print` shows for `v`. Arrays show as `[a, b]`, maps as
/// `{k: v, ...}` in ascending key order, strings without quotes. An array or
/// map that (directly or not) contains itself shows as `[...]`/`{...}` where
/// it recurs. `path` holds the arrays and maps being shown around `v`.
pub open spec fn show(h: Seq<SObj>, v: SVal, path: Seq<usize>) -> Seq<u8>
    decreases room(h, path), 0int,
{
    match v {
        SVal::Num(n) => int_text(n),
        SVal::Bool(b) => if b { str_bytes("true") } else { str_bytes("false") },
        SVal::Nil => str_bytes("nil"),
        SVal::Str(s) => s,
        SVal::Arr(i) => if i < h.len() && h[i as int] is Arr && !path.contains(i as usize)
            && path.len() < h.len() {
            str_bytes("[") + show_items(h, h[i as int]->Arr_0, path.push(i as usize)) + str_bytes("]")
        } else {
            str_bytes("[...]")
        },
        SVal::Dict(i) => if i < h.len() && h[i as int] is Dict && !path.contains(i as usize)
            && path.len() < h.len() {
            str_bytes("{") + show_entries(h, sort_entries(h[i as int]->Dict_0), path.push(i as usize))
                + str_bytes("}")
        } else {
            str_bytes("{...}")
        },
    }
}

/// The items shown one after the other, separated by `, `.
pub open spec fn show_items(h: Seq<SObj>, items: Seq<SVal>, path: Seq<usize>) -> Seq<u8>
    decreases room(h, path), items.len() + 1,
{
    if items.len() == 0 {
        Seq::empty()
    } else if items.len() == 1 {
        show(h, items[0], path)
    } else {
        show(h, items[0], path) + str_bytes(", ") + show_items(h, items.drop_first(), path)
    }
}

/// The entries shown as `key: value`, separated by `, `.
pub open spec fn show_entries(h: Seq<SObj>, es: Seq<(Seq<u8>, SVal)>, path: Seq<usize>) -> Seq<u8>
    decreases room(h, path), es.len() + 1,
{
    if es.len() == 0 {
        Seq::empty()
    } else if es.len() == 1 {
        es[0].0 + str_bytes(": ") + show(h, es[0].1, path)
    } else {
        es[0].0 + str_bytes(": ") + show(h, es[0].1, path) + str_bytes(", ") + show_entries(
            h,
            es.drop_first(),
            path,
        )
    }
}

fn path_contains(path: &Vec<usize>, i: usize) -> (b: bool)
    ensures
        b == path@.contains(i),
{
    let mut j: usize = 0;
    while j < path.len()
        invariant
            j <= path@.len(),
            forall|k: int| 0 <= k < j ==> path@[k] != i,
        decreases path@.len() - j,
    {
        if path[j] == i {
            return true;
        }
        j = j + 1;
    }
    false
}

impl Heap {
    /// Appends the text of `v` to `out`.
    pub fn show_value(&self, v: &Value, path: &mut Vec<usize>, out: &mut Vec<u8>)
        ensures
            final(path)@ == old(path)@,
            final(out)@ == old(out)@ + show(self@, v@, old(path)@),
        decreases room(self@, old(path)@), 0int,
    {
        match v {
            Value::Number(n) => push_int(out, *n),
            Value::Bool(b) => if *b { push_str(out, "true") } else { push_str(out, "false") },
            Value::Nil => push_str(out, "nil"),
            Value::Str(s) => push_bytes(out, s.as_slice()),
            Value::Array(i) => {
                let i = *i;
                if i < self.objs.len() && path.len() < self.objs.len() && !path_contains(path, i) {
                    match &self.objs[i] {
                        Obj::Array(items) => {
                            push_str(out, "[");
                            path.push(i);
                            assert(values_view(items@).skip(0) =~= values_view(items@));
                            self.show_items_from(items, 0, path, out);
                            path.pop();
                            assert(path@ =~= old(path)@);
                            push_str(out, "]");
                            assert(out@ =~= old(out)@ + show(self@, v@, old(path)@));
                            return;
                        },
                        _ => {},
                    }
                }
                push_str(out, "[...]");
            },
            Value::Dict(i) => {
                let i = *i;
                if i < self.objs.len() && path.len() < self.objs.len() && !path_contains(path, i) {
                    match &self.objs[i] {
                        Obj::Dict(es) => {
                            let sorted = sorted_entries(es);
                            push_str(out, "{");
                            path.push(i);
                            assert(entries_view(sorted@).skip(0) =~= entries_view(sorted@));
                            self.show_entries_from(&sorted, 0, path, out);
                            path.pop();
                            assert(path@ =~= old(path)@);
                            push_str(out, "}");
                            assert(out@ =~= old(out)@ + show(self@, v@, old(path)@));
                            return;
                        },
                        _ => {},
                    }
                }
                push_str(out, "{...}");
            },
        }
    }

    fn show_items_from(&self, items: &Vec<Value>, start: usize, path: &mut Vec<usize>, out: &mut Vec<u8>)
        requires
            start <= items@.len(),
        ensures
            final(path)@ == old(path)@,
            final(out)@ == old(out)@ + show_items(self@, values_view(items@).skip(start as int), old(path)@),
        decreases room(self@, old(path)@), items@.len() - start + 1,
    {
        let ghost rest = values_view(items@).skip(start as int);
        if start == items.len() {
            assert(rest.len() == 0);
            assert(out@ =~= old(out)@ + show_items(self@, rest, old(path)@));
            return;
        }
        assert(rest[0] == items@[start as int]@);
        self.show_value(&items[start], path, out);
        if start + 1 < items.len() {
            push_str(out, ", ");
            assert(rest.drop_first() =~= values_view(items@).skip(start + 1));
            self.show_items_from(items, start + 1, path, out);
        }
        assert(out@ =~= old(out)@ + show_items(self@, rest, old(path)@));
    }

    fn show_entries_from(&self, es: &Vec<(Vec<u8>, Value)>, start: usize, path: &mut Vec<usize>, out: &mut Vec<u8>)
        requires
            start <= es@.len(),
        ensures
            final(path)@ == old(path)@,
            final(out)@ == old(out)@ + show_entries(self@, entries_view(es@).skip(start as int), old(path)@),
        decreases room(self@, old(path)@), es@.len() - start + 1,
    {
        let ghost rest = entries_view(es@).skip(start as int);
        if start == es.len() {
            assert(rest.len() == 0);
            assert(out@ =~= old(out)@ + show_entries(self@, rest, old(path)@));
            return;
        }
        assert(rest[0] == entry_view(es@[start as int]));
        push_bytes(out, es[start].0.as_slice());
        push_str(out, ": ");
        self.show_value(&es[start].1, path, out);
        if start + 1 < es.len() {
            push_str(out, ", ");
            assert(rest.drop_first() =~= entries_view(es@).skip(start + 1));
            self.show_entries_from(es, start + 1, path, out);
        }
        assert(out@ =~= old(out)@ + show_entries(self@, rest, old(path)@));
    }

    /// Appends the text of `v` to `out`, as `print` shows it.
    pub fn display(&self, v: &Value, out: &mut Vec<u8>)
        ensures
            final(out)@ == old(out)@ + show(self@, v@, Seq::empty()),
    {
        let mut path: Vec<usize> = Vec::new();
        assert(path@ =~= Seq::<usize>::empty());
        self.show_value(v, &mut path, out);
    }
}

} // verus!
