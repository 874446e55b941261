//! Native functions: `len`, `push`, `pop`, `keys`. User functions with one of
//! these names are rejected at compile time, so both back ends agree on which
//! function a call names.
use vstd::prelude::*;
use crate::error::SfError;
use crate::heap::{
    dangling_msg, heap_ok, kinds_kept, lemma_alloc_keeps_heap_ok, lemma_bytes_lt_strict_total_order,
    lemma_kinds_kept_val_ok, lemma_sort_entries, lemma_sort_keys_distinct, obj_ok, sort_entries, sorted_entries, val_ok,
};
use crate::text::{bytes_eq, bytes_lt, char_count, copy_bytes, digits_of, push_bytes, push_digits, push_str, str_bytes};
use crate::value::{
    is_runtime_error, kind_name_text, number_result, outcome_is, values_view, Heap, Obj, SObj, SVal,
    Value, MAX_SAFE,
};

verus! {

/// The names of the builtins, by id: `len`, `push`, `pop`, `keys`.
pub open spec fn builtin_names() -> Seq<Seq<u8>> {
    seq![seq![108u8, 101u8, 110u8], seq![112u8, 117u8, 115u8, 104u8], seq![112u8, 111u8, 112u8],
        seq![107u8, 101u8, 121u8, 115u8]]
}

pub open spec fn builtin_arity(id: int) -> nat {
    if id == 1 { 2 } else { 1 }
}

/// The id of the builtin called `name`.
pub open spec fn spec_builtin_id(name: Seq<u8>) -> Option<usize> {
    if name == builtin_names()[0] {
        Some(0usize)
    } else if name == builtin_names()[1] {
        Some(1usize)
    } else if name == builtin_names()[2] {
        Some(2usize)
    } else if name == builtin_names()[3] {
        Some(3usize)
    } else {
        None
    }
}

/// Whether `name` names a builtin.
pub fn is_builtin(name: &[u8]) -> (b: bool)
    ensures
        b == spec_builtin_id(name@) is Some,
{
    builtin_id(name).is_some()
}

/// The id of the builtin called `name`, if there is one.
pub fn builtin_id(name: &[u8]) -> (r: Option<usize>)
    ensures
        r == spec_builtin_id(name@),
{
    let mut i: usize = 0;
    while i < 4
        invariant
            i <= 4,
            forall|j: int| 0 <= j < i ==> name@ != builtin_names()[j],
        decreases 4 - i,
    {
        let n = builtin_name(i);
        if bytes_eq(n.as_slice(), name) {
            return Some(i);
        }
        i = i + 1;
    }
    None
}

/// The name of builtin `id`.
pub fn builtin_name(id: usize) -> (n: Vec<u8>)
    requires
        id < 4,
    ensures
        n@ == builtin_names()[id as int],
{
    let n = if id == 0 {
        vec![108u8, 101u8, 110u8]
    } else if id == 1 {
        vec![112u8, 117u8, 115u8, 104u8]
    } else if id == 2 {
        vec![112u8, 111u8, 112u8]
    } else {
        vec![107u8, 101u8, 121u8, 115u8]
    };
    assert(n@ =~= builtin_names()[id as int]);
    n
}

pub open spec fn arity_msg(name: Seq<u8>, expected: nat, got: nat) -> Seq<u8> {
    name + str_bytes("() expects ") + digits_of(expected) + str_bytes(" argument(s), got ")
        + digits_of(got)
}

/// Fails unless `args` holds `expected` values.
pub fn check_arity(name: &[u8], args: &Vec<Value>, expected: usize, line: u32) -> (r: Result<(), SfError>)
    ensures
        r is Ok <==> args@.len() == expected,
        r is Err ==> is_runtime_error(r->Err_0, arity_msg(name@, expected as nat, args@.len()), line),
{
    if args.len() != expected {
        let mut m: Vec<u8> = Vec::new();
        push_bytes(&mut m, name);
        push_str(&mut m, "() expects ");
        push_digits(&mut m, expected as u64);
        push_str(&mut m, " argument(s), got ");
        push_digits(&mut m, args.len() as u64);
        assert(m@ =~= arity_msg(name@, expected as nat, args@.len()));
        return Err(SfError::runtime(m, line));
    }
    Ok(())
}

pub open spec fn wrong_kind_msg(id: int, v: SVal) -> Seq<u8> {
    if id == 0 {
        str_bytes("len() expects an array, string, or map, got ") + kind_name_text(v)
    } else if id == 1 {
        str_bytes("push() expects an array as its first argument, got ") + kind_name_text(v)
    } else if id == 2 {
        str_bytes("pop() expects an array, got ") + kind_name_text(v)
    } else {
        str_bytes("keys() expects a map, got ") + kind_name_text(v)
    }
}

/// The array of the sorted keys of a map.
pub open spec fn key_values(es: Seq<(Seq<u8>, SVal)>) -> Seq<SVal> {
    sort_entries(es).map_values(|e: (Seq<u8>, SVal)| SVal::Str(e.0))
}

/// The keys `keys` gives of a map in a well-formed heap are in strictly
/// ascending byte order: each once, smallest first.
pub proof fn lemma_keys_strictly_ascending(h: Seq<SObj>, m: int)
    requires
        heap_ok(h),
        0 <= m < h.len(),
        h[m] is Dict,
    ensures
        forall|i: int, j: int| 0 <= i < j < key_values(h[m]->Dict_0).len() ==> bytes_lt(
            #[trigger] key_values(h[m]->Dict_0)[i]->Str_0,
            #[trigger] key_values(h[m]->Dict_0)[j]->Str_0,
        ),
{
    let es = h[m]->Dict_0;
    assert(obj_ok(h, h[m]));
    lemma_sort_keys_distinct(es);
    lemma_sort_entries(es);
    let r = sort_entries(es);
    assert forall|i: int, j: int| 0 <= i < j < key_values(es).len() implies bytes_lt(
        #[trigger] key_values(es)[i]->Str_0,
        #[trigger] key_values(es)[j]->Str_0,
    ) by {
        assert(key_values(es)[i] == SVal::Str(r[i].0));
        assert(key_values(es)[j] == SVal::Str(r[j].0));
        assert(!bytes_lt(r[j].0, r[i].0));
        assert(r[i].0 != r[j].0);
        lemma_bytes_lt_strict_total_order(r[i].0, r[j].0, r[j].0);
    }
}

/// What builtin `id` returns for `args`, and the heap after it.
pub open spec fn builtin_result(id: int, args: Seq<SVal>, h: Seq<SObj>) -> Result<(SVal, Seq<SObj>), Seq<u8>> {
    if args.len() != builtin_arity(id) {
        Err(arity_msg(builtin_names()[id], builtin_arity(id), args.len()))
    } else {
        let a = args[0];
        match a {
            SVal::Arr(i) => if i >= h.len() || !(h[i as int] is Arr) {
                Err(dangling_msg())
            } else {
                let items = h[i as int]->Arr_0;
                if id == 0 {
                    match number_result(items.len() as int) {
                        Ok(n) => Ok((n, h)),
                        Err(m) => Err(m),
                    }
                } else if id == 1 {
                    Ok((SVal::Nil, h.update(i as int, SObj::Arr(items.push(args[1])))))
                } else if id == 2 {
                    if items.len() == 0 {
                        Ok((SVal::Nil, h))
                    } else {
                        Ok((items.last(), h.update(i as int, SObj::Arr(items.drop_last()))))
                    }
                } else {
                    Err(wrong_kind_msg(id, a))
                }
            },
            SVal::Dict(i) => if id == 0 || id == 3 {
                if i >= h.len() || !(h[i as int] is Dict) {
                    Err(dangling_msg())
                } else if id == 0 {
                    match number_result(h[i as int]->Dict_0.len() as int) {
                        Ok(n) => Ok((n, h)),
                        Err(m) => Err(m),
                    }
                } else {
                    Ok((SVal::Arr(h.len()), h.push(SObj::Arr(key_values(h[i as int]->Dict_0)))))
                }
            } else {
                Err(wrong_kind_msg(id, a))
            },
            SVal::Str(s) => if id == 0 {
                match number_result(char_count(s) as int) {
                    Ok(n) => Ok((n, h)),
                    Err(m) => Err(m),
                }
            } else {
                Err(wrong_kind_msg(id, a))
            },
            _ => Err(wrong_kind_msg(id, a)),
        }
    }
}

/// `len` of a string counts its characters, not its bytes: on valid UTF-8
/// text it gives the number of `char`s the text decodes to, whatever the
/// width of their encodings.
pub proof fn lemma_len_counts_chars(b: Seq<u8>, h: Seq<SObj>)
    requires
        vstd::utf8::valid_utf8(b),
        vstd::utf8::decode_utf8(b).len() <= MAX_SAFE,
    ensures
        builtin_result(0, seq![SVal::Str(b)], h)
            == Ok::<(SVal, Seq<SObj>), Seq<u8>>((SVal::Num(vstd::utf8::decode_utf8(b).len() as int), h)),
{
    crate::text::lemma_char_count_decodes(b);
}

/// `pop` undoes `push`: pushing `v` onto an array and popping it again
/// gives `v` back and leaves the heap as it was.
pub proof fn lemma_pop_undoes_push(h: Seq<SObj>, arr: SVal, v: SVal)
    requires
        builtin_result(1, seq![arr, v], h) is Ok,
    ensures
        builtin_result(2, seq![arr], builtin_result(1, seq![arr, v], h)->Ok_0.1) == Ok::<(SVal, Seq<SObj>), Seq<u8>>((v, h)),
{
    let i = arr->Arr_0;
    let items = h[i as int]->Arr_0;
    let h1 = h.update(i as int, SObj::Arr(items.push(v)));
    assert(items.push(v).drop_last() =~= items);
    assert(h1.update(i as int, SObj::Arr(items)) =~= h);
}

/// `push` grows the array by one: its `len` afterwards is one more (while
/// that stays a number the language holds).
pub proof fn lemma_push_grows_len(h: Seq<SObj>, arr: SVal, v: SVal, m: int)
    requires
        builtin_result(1, seq![arr, v], h) is Ok,
        builtin_result(0, seq![arr], h) matches Ok((SVal::Num(n), _)) && n == m,
        m < MAX_SAFE,
    ensures
        builtin_result(0, seq![arr], builtin_result(1, seq![arr, v], h)->Ok_0.1)
            == Ok::<(SVal, Seq<SObj>), Seq<u8>>((SVal::Num(m + 1), builtin_result(1, seq![arr, v], h)->Ok_0.1)),
{
}

/// The builtins keep the heap well formed: given well-formed arguments, a
/// call keeps every object of the same kind, leaves every reference naming
/// an object of its kind, and returns a well-formed value.
pub proof fn lemma_builtin_keeps_heap_ok(id: int, args: Seq<SVal>, h: Seq<SObj>)
    requires
        0 <= id < 4,
        heap_ok(h),
        forall|j: int| 0 <= j < args.len() ==> val_ok(h, #[trigger] args[j]),
        builtin_result(id, args, h) is Ok,
    ensures
        heap_ok(builtin_result(id, args, h)->Ok_0.1),
        kinds_kept(h, builtin_result(id, args, h)->Ok_0.1),
        val_ok(builtin_result(id, args, h)->Ok_0.1, builtin_result(id, args, h)->Ok_0.0),
{
    let (v, h2) = builtin_result(id, args, h)->Ok_0;
    let a = args[0];
    assert(val_ok(h, a));
    if let SVal::Arr(i) = a {
        let items = h[i as int]->Arr_0;
        assert(obj_ok(h, h[i as int]));
        if id == 1 || (id == 2 && items.len() > 0) {
            let new_items = if id == 1 { items.push(args[1]) } else { items.drop_last() };
            assert(h2 == h.update(i as int, SObj::Arr(new_items)));
            if id == 1 {
                assert(val_ok(h, args[1]));
            }
            assert(kinds_kept(h, h2));
            assert forall|k: int| 0 <= k < h2.len() implies obj_ok(h2, #[trigger] h2[k]) by {
                assert(obj_ok(h, h[k]));
                match h2[k] {
                    SObj::Arr(its) => {
                        assert forall|j: int| 0 <= j < its.len() implies val_ok(h2, #[trigger] its[j]) by {
                            if k == i {
                                if j < items.len() {
                                    assert(its[j] == items[j]);
                                }
                            } else {
                                assert(its[j] == h[k]->Arr_0[j]);
                            }
                        }
                    },
                    SObj::Dict(es) => {
                        assert forall|j: int| 0 <= j < es.len() implies val_ok(h2, #[trigger] es[j].1) by {
                            assert(es[j] == h[k]->Dict_0[j]);
                        }
                    },
                }
            }
            if id == 2 && items.len() > 0 {
                assert(val_ok(h, items[items.len() - 1]));
            }
        }
    }
    if let SVal::Dict(i) = a {
        if id == 3 {
            let kv = key_values(h[i as int]->Dict_0);
            assert(obj_ok(h, SObj::Arr(kv)));
            lemma_alloc_keeps_heap_ok(h, SObj::Arr(kv));
        }
    }
}

/// `res` and the heap after the call are what `builtin_result` describes.
pub open spec fn builtin_outcome(
    res: Result<Value, SfError>,
    h_after: Seq<SObj>,
    spec: Result<(SVal, Seq<SObj>), Seq<u8>>,
    h_before: Seq<SObj>,
    line: u32,
) -> bool {
    match spec {
        Ok((v, h)) => res is Ok && res->Ok_0@ == v && h_after == h,
        Err(m) => res is Err && is_runtime_error(res->Err_0, m, line) && h_after == h_before,
    }
}

fn wrong_kind(id: usize, v: &Value, line: u32) -> (e: SfError)
    requires
        id < 4,
    ensures
        is_runtime_error(e, wrong_kind_msg(id as int, v@), line),
{
    let mut m: Vec<u8> = Vec::new();
    if id == 0 {
        push_str(&mut m, "len() expects an array, string, or map, got ");
    } else if id == 1 {
        push_str(&mut m, "push() expects an array as its first argument, got ");
    } else if id == 2 {
        push_str(&mut m, "pop() expects an array, got ");
    } else {
        push_str(&mut m, "keys() expects a map, got ");
    }
    push_str(&mut m, v.kind_name());
    assert(m@ =~= wrong_kind_msg(id as int, v@));
    SfError::runtime(m, line)
}

fn count_value(n: usize, line: u32) -> (r: Result<Value, SfError>)
    ensures
        outcome_is(r, number_result(n as int), line),
{
    if n as u64 <= MAX_SAFE as u64 {
        Ok(Value::Number(n as i64))
    } else {
        let mut m: Vec<u8> = Vec::new();
        push_str(&mut m, "number out of range");
        assert(m@ =~= str_bytes("number out of range"));
        Err(SfError::runtime(m, line))
    }
}

fn dangling_error(line: u32) -> (e: SfError)
    ensures
        is_runtime_error(e, dangling_msg(), line),
{
    let mut m: Vec<u8> = Vec::new();
    push_str(&mut m, "internal error: dangling reference");
    assert(m@ =~= dangling_msg());
    SfError::runtime(m, line)
}

/// Runs builtin `id` (0 `len`, 1 `push`, 2 `pop`, 3 `keys`) on `args`.
pub fn call_builtin_id(id: usize, args: &Vec<Value>, line: u32, heap: &mut Heap) -> (res: Result<Value, SfError>)
    requires
        id < 4,
    ensures
        builtin_outcome(res, final(heap)@, builtin_result(id as int, values_view(args@), old(heap)@), old(heap)@, line),
{
    let name = builtin_name(id);
    let expected: usize = if id == 1 { 2 } else { 1 };
    check_arity(name.as_slice(), args, expected, line)?;
    let ghost av = values_view(args@);
    assert(av[0] == args@[0]@);
    let a = &args[0];
    match a {
        Value::Array(i) => {
            let i = *i;
            if i >= heap.objs.len() {
                return Err(dangling_error(line));
            }
            if id == 3 {
                match &heap.objs[i] {
                    Obj::Array(_) => return Err(wrong_kind(id, a, line)),
                    Obj::Dict(_) => return Err(dangling_error(line)),
                }
            }
            if id == 0 {
                match &heap.objs[i] {
                    Obj::Array(items) => return count_value(items.len(), line),
                    Obj::Dict(_) => return Err(dangling_error(line)),
                }
            }
            let ghost h0 = heap@;
            let mut o = Obj::Array(Vec::new());
            std::mem::swap(&mut o, &mut heap.objs[i]);
            assert(o@ == h0[i as int]);
            match o {
                Obj::Array(mut items) => {
                    let ghost iv = values_view(items@);
                    if id == 1 {
                        assert(av[1] == args@[1]@);
                        items.push(args[1].copy());
                        assert(values_view(items@) =~= iv.push(av[1]));
                        heap.objs.set(i, Obj::Array(items));
                        assert(heap@ =~= h0.update(i as int, SObj::Arr(iv.push(av[1]))));
                        Ok(Value::Nil)
                    } else {
                        match items.pop() {
                            Some(last) => {
                                assert(values_view(items@) =~= iv.drop_last());
                                heap.objs.set(i, Obj::Array(items));
                                assert(heap@ =~= h0.update(i as int, SObj::Arr(iv.drop_last())));
                                Ok(last)
                            },
                            None => {
                                heap.objs.set(i, Obj::Array(items));
                                assert(heap@ =~= h0);
                                Ok(Value::Nil)
                            },
                        }
                    }
                },
                Obj::Dict(es) => {
                    heap.objs.set(i, Obj::Dict(es));
                    assert(heap@ =~= h0);
                    Err(dangling_error(line))
                },
            }
        },
        Value::Dict(i) => {
            let i = *i;
            if id != 0 && id != 3 {
                return Err(wrong_kind(id, a, line));
            }
            if i >= heap.objs.len() {
                return Err(dangling_error(line));
            }
            let keys: Vec<Value> = match &heap.objs[i] {
                Obj::Array(_) => return Err(dangling_error(line)),
                Obj::Dict(es) => {
                    if id == 0 {
                        return count_value(es.len(), line);
                    }
                    let sorted = sorted_entries(es);
                    let mut ks: Vec<Value> = Vec::new();
                    let mut j: usize = 0;
                    while j < sorted.len()
                        invariant
                            j <= sorted@.len(),
                            values_view(ks@) =~= crate::value::entries_view(sorted@).subrange(0, j as int).map_values(
                                |e: (Seq<u8>, SVal)| SVal::Str(e.0),
                            ),
                        decreases sorted@.len() - j,
                    {
                        let ghost before = values_view(ks@);
                        ks.push(Value::Str(copy_bytes(&sorted[j].0)));
                        proof {
                            let ev = crate::value::entries_view(sorted@);
                            assert(ev[j as int].0 == sorted@[j as int].0@);
                            assert(values_view(ks@) =~= before.push(SVal::Str(ev[j as int].0)));
                            assert(ev.subrange(0, j + 1) =~= ev.subrange(0, j as int).push(ev[j as int]));
                        }
                        j = j + 1;
                    }
                    assert(crate::value::entries_view(sorted@).subrange(0, sorted@.len() as int)
                        =~= crate::value::entries_view(sorted@));
                    ks
                },
            };
            Ok(heap.alloc_array(keys))
        },
        Value::Str(s) => {
            if id != 0 {
                return Err(wrong_kind(id, a, line));
            }
            count_value(crate::text::count_chars(s.as_slice()), line)
        },
        _ => Err(wrong_kind(id, a, line)),
    }
}

/// Runs the builtin called `name`, which must be a builtin.
pub fn call_builtin_checked(name: &[u8], args: &Vec<Value>, line: u32, heap: &mut Heap) -> (res: Result<Value, SfError>)
    requires
        spec_builtin_id(name@) is Some,
    ensures
        builtin_outcome(res, final(heap)@, builtin_result(spec_builtin_id(name@)->Some_0 as int, values_view(args@), old(heap)@), old(heap)@, line),
{
    let id = builtin_id(name).unwrap();
    call_builtin_id(id, args, line, heap)
}

/// Runs the builtin called `name`; `Ok(None)` (and nothing changed) when
/// `name` is not a builtin.
pub fn call_builtin(name: &[u8], args: &Vec<Value>, line: u32, heap: &mut Heap) -> (res: Result<Option<Value>, SfError>)
    ensures
        match spec_builtin_id(name@) {
            None => res == Ok::<Option<Value>, SfError>(None) && final(heap)@ == old(heap)@,
            Some(id) => match builtin_result(id as int, values_view(args@), old(heap)@) {
                Ok((v, h)) => res is Ok && res->Ok_0 is Some && res->Ok_0->Some_0@ == v && final(heap)@ == h,
                Err(m) => res is Err && is_runtime_error(res->Err_0, m, line) && final(heap)@ == old(heap)@,
            },
        },
{
    match builtin_id(name) {
        None => Ok(None),
        Some(id) => {
            let v = call_builtin_id(id, args, line, heap)?;
            Ok(Some(v))
        },
    }
}

} // verus!
