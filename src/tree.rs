//! The schema-free tree that decoded markup is turned into, and the pure
//! object operations that build it.
use vstd::prelude::*;

verus! {

/// The mathematical model of a decoded value.
pub enum Json {
    Null,
    Str(Seq<char>),
    Arr(Seq<Json>),
    Obj(Seq<(Seq<char>, Json)>),
}

/// A decoded value: null, a string, an ordered array, or an object whose
/// entries keep their insertion order.
#[derive(Debug, PartialEq)]
pub enum Value {
    Null,
    String(String),
    Array(Vec<Value>),
    Object(Vec<(String, Value)>),
}

impl Value {
    pub open spec fn model(self) -> Json
        decreases self,
    {
        match self {
            Value::Null => Json::Null,
            Value::String(s) => Json::Str(s@),
            Value::Array(items) => Json::Arr(
                Seq::new(
                    items@.len(),
                    |i: int|
                        if 0 <= i < items.len() {
                            items[i].model()
                        } else {
                            Json::Null
                        },
                ),
            ),
            Value::Object(entries) => Json::Obj(
                Seq::new(
                    entries@.len(),
                    |i: int|
                        if 0 <= i < entries.len() {
                            (entries[i].0@, entries[i].1.model())
                        } else {
                            (Seq::empty(), Json::Null)
                        },
                ),
            ),
        }
    }
}

/// The model of a list of object entries.
pub open spec fn entries_model(e: Seq<(String, Value)>) -> Seq<(Seq<char>, Json)> {
    Seq::new(e.len(), |i: int| (e[i].0@, e[i].1.model()))
}

/// The model of a list of values.
pub open spec fn items_model(v: Seq<Value>) -> Seq<Json> {
    Seq::new(v.len(), |i: int| v[i].model())
}

pub proof fn lemma_object_model(entries: Vec<(String, Value)>)
    ensures
        Value::Object(entries).model() == Json::Obj(entries_model(entries@)),
{
    let m = Value::Object(entries).model()->Obj_0;
    assert forall|i: int| 0 <= i < m.len() implies m[i] == entries_model(entries@)[i] by {}
    assert(m =~= entries_model(entries@));
}

pub proof fn lemma_array_model(items: Vec<Value>)
    ensures
        Value::Array(items).model() == Json::Arr(items_model(items@)),
{
    let m = Value::Array(items).model()->Arr_0;
    assert forall|i: int| 0 <= i < m.len() implies m[i] == items_model(items@)[i] by {}
    assert(m =~= items_model(items@));
}

/// `i` is the first entry of `e` under key `k`.
pub open spec fn is_first_key(e: Seq<(Seq<char>, Json)>, k: Seq<char>, i: int) -> bool {
    &&& 0 <= i < e.len()
    &&& e[i].0 == k
    &&& forall|j: int| 0 <= j < i ==> e[j].0 != k
}

pub open spec fn has_key(e: Seq<(Seq<char>, Json)>, k: Seq<char>) -> bool {
    exists|i: int| is_first_key(e, k, i)
}

pub open spec fn first_key(e: Seq<(Seq<char>, Json)>, k: Seq<char>) -> int {
    choose|i: int| is_first_key(e, k, i)
}

/// Every key occurs at most once.
pub open spec fn keys_unique(e: Seq<(Seq<char>, Json)>) -> bool {
    forall|i: int, j: int| 0 <= i < e.len() && 0 <= j < e.len() && i != j ==> e[i].0 != e[j].0
}

/// Every object in `j`, at any depth, has unique keys.
pub open spec fn keys_unique_deep(j: Json) -> bool
    decreases j,
{
    match j {
        Json::Null => true,
        Json::Str(_) => true,
        Json::Arr(s) => forall|i: int| 0 <= i < s.len() ==> keys_unique_deep(#[trigger] s[i]),
        Json::Obj(e) => keys_unique(e) && forall|i: int|
            0 <= i < e.len() ==> keys_unique_deep(#[trigger] e[i].1),
    }
}

/// Entries with unique keys whose values are all `keys_unique_deep`.
pub open spec fn entries_ok(e: Seq<(Seq<char>, Json)>) -> bool {
    keys_unique(e) && forall|i: int| 0 <= i < e.len() ==> keys_unique_deep(#[trigger] e[i].1)
}

pub proof fn lemma_unique_key_is_first(e: Seq<(Seq<char>, Json)>, k: Seq<char>, i: int)
    requires
        keys_unique(e),
        0 <= i < e.len(),
        e[i].0 == k,
    ensures
        has_key(e, k),
        first_key(e, k) == i,
{
    assert forall|j: int| 0 <= j < i implies e[j].0 != k by {
        assert(e[j].0 != e[i].0);
    }
    lemma_first_key(e, k, i);
}

pub proof fn lemma_put_ok(e: Seq<(Seq<char>, Json)>, k: Seq<char>, v: Json)
    requires
        entries_ok(e),
        keys_unique_deep(v),
    ensures
        entries_ok(put(e, k, v)),
{
    if has_key(e, k) {
        let i = first_key(e, k);
        assert(is_first_key(e, k, i));
        let r = put(e, k, v);
        assert forall|a: int, b: int| 0 <= a < r.len() && 0 <= b < r.len() && a != b implies r[a].0 != r[b].0 by {
            assert(r[a].0 == e[a].0 && r[b].0 == e[b].0);
        }
    } else {
        let r = put(e, k, v);
        assert forall|j: int| 0 <= j < e.len() implies e[j].0 != k by {
            if e[j].0 == k {
                lemma_unique_key_is_first(e, k, j);
            }
        }
        assert forall|a: int, b: int| 0 <= a < r.len() && 0 <= b < r.len() && a != b implies r[a].0 != r[b].0 by {
        }
    }
}

pub proof fn lemma_merge_ok(e: Seq<(Seq<char>, Json)>, k: Seq<char>, v: Json)
    requires
        entries_ok(e),
        keys_unique_deep(v),
    ensures
        entries_ok(merge_child(e, k, v)),
{
    if has_key(e, k) {
        let i = first_key(e, k);
        assert(is_first_key(e, k, i));
        let old = e[i].1;
        assert(keys_unique_deep(old));
        let p = promoted(old, v);
        match old {
            Json::Arr(s) => {
                assert forall|j: int| 0 <= j < s.push(v).len() implies keys_unique_deep(#[trigger] s.push(v)[j]) by {
                    if j < s.len() {
                        assert(s.push(v)[j] == s[j]);
                    }
                }
            },
            _ => {
                let t = seq![old, v];
                assert forall|j: int| 0 <= j < t.len() implies keys_unique_deep(#[trigger] t[j]) by {}
            },
        }
        assert(keys_unique_deep(p));
        let r = merge_child(e, k, v);
        assert forall|a: int, b: int| 0 <= a < r.len() && 0 <= b < r.len() && a != b implies r[a].0 != r[b].0 by {
            assert(r[a].0 == e[a].0 && r[b].0 == e[b].0);
        }
    } else {
        let r = merge_child(e, k, v);
        assert forall|j: int| 0 <= j < e.len() implies e[j].0 != k by {
            if e[j].0 == k {
                lemma_unique_key_is_first(e, k, j);
            }
        }
        assert forall|a: int, b: int| 0 <= a < r.len() && 0 <= b < r.len() && a != b implies r[a].0 != r[b].0 by {
        }
    }
}

/// Sets `k` to `v`: in place where `k` is present, appended where it is not.
pub open spec fn put(e: Seq<(Seq<char>, Json)>, k: Seq<char>, v: Json) -> Seq<(Seq<char>, Json)> {
    if has_key(e, k) {
        e.update(first_key(e, k), (k, v))
    } else {
        e.push((k, v))
    }
}

/// What a repeated key holds once `v` joins the value `old` already under it.
pub open spec fn promoted(old: Json, v: Json) -> Json {
    match old {
        Json::Arr(s) => Json::Arr(s.push(v)),
        _ => Json::Arr(seq![old, v]),
    }
}

/// Adds the child value `v` under the element name `k`: a first occurrence is
/// stored as it is, a later one turns the entry into an array in document order.
pub open spec fn merge_child(e: Seq<(Seq<char>, Json)>, k: Seq<char>, v: Json) -> Seq<(Seq<char>, Json)> {
    if has_key(e, k) {
        e.update(first_key(e, k), (k, promoted(e[first_key(e, k)].1, v)))
    } else {
        e.push((k, v))
    }
}

/// The entries after children `vs`, all named `k`, are merged in order.
pub open spec fn merge_all(e: Seq<(Seq<char>, Json)>, k: Seq<char>, vs: Seq<Json>) -> Seq<(Seq<char>, Json)>
    decreases vs.len(),
{
    if vs.len() == 0 {
        e
    } else {
        merge_child(merge_all(e, k, vs.drop_last()), k, vs.last())
    }
}

/// The value that `k` children `vs` leave under their name: the child itself
/// where there is one, else all of them in order as an array.
pub open spec fn siblings_value(vs: Seq<Json>) -> Json {
    if vs.len() == 1 {
        vs[0]
    } else {
        Json::Arr(vs)
    }
}

/// Repeated siblings: merging one or more non-array children of the same
/// name, into entries with unique keys that lack that name, leaves that name
/// once, holding the lone child, or from the second occurrence on an array
/// of all of them in document order.
pub proof fn lemma_siblings_promote(e: Seq<(Seq<char>, Json)>, k: Seq<char>, vs: Seq<Json>)
    requires
        keys_unique(e),
        !has_key(e, k),
        vs.len() >= 1,
        forall|i: int| 0 <= i < vs.len() ==> !(#[trigger] vs[i] is Arr),
    ensures
        has_key(merge_all(e, k, vs), k),
        merge_all(e, k, vs)[first_key(merge_all(e, k, vs), k)].1 == siblings_value(vs),
        first_key(merge_all(e, k, vs), k) == e.len(),
    decreases vs.len(),
{
    if vs.len() == 1 {
        assert forall|j: int| 0 <= j < e.len() implies e[j].0 != k by {
            if e[j].0 == k {
                lemma_unique_key_is_first(e, k, j);
            }
        }
        assert(vs.drop_last() =~= Seq::<Json>::empty());
        let m = merge_all(e, k, vs);
        assert(m == e.push((k, vs[0])));
        lemma_first_key(m, k, e.len() as int);
    } else {
        let prev = vs.drop_last();
        assert forall|i: int| 0 <= i < prev.len() implies !(#[trigger] prev[i] is Arr) by {
            assert(prev[i] == vs[i]);
        }
        lemma_siblings_promote(e, k, prev);
        let m0 = merge_all(e, k, prev);
        let i = first_key(m0, k);
        assert(is_first_key(m0, k, i));
        let m = merge_all(e, k, vs);
        let v = vs.last();
        assert(m == m0.update(i, (k, promoted(m0[i].1, v))));
        assert(is_first_key(m, k, i));
        lemma_first_key(m, k, i);
        if prev.len() == 1 {
            assert(seq![prev[0], v] =~= vs);
        } else {
            assert(prev.push(v) =~= vs);
        }
    }
}

/// The first position of `key` among `entries`, if any.
pub fn find_key(entries: &Vec<(String, Value)>, key: &String) -> (r: Option<usize>)
    ensures
        match r {
            Some(i) => is_first_key(entries_model(entries@), key@, i as int),
            None => !has_key(entries_model(entries@), key@),
        },
{
    let ghost m = entries_model(entries@);
    let mut i: usize = 0;
    while i < entries.len()
        invariant
            i <= entries.len(),
            m == entries_model(entries@),
            forall|j: int| 0 <= j < i ==> m[j].0 != key@,
        decreases entries.len() - i,
    {
        if entries[i].0 == *key {
            return Some(i);
        }
        i = i + 1;
    }
    None
}

pub proof fn lemma_first_key(e: Seq<(Seq<char>, Json)>, k: Seq<char>, i: int)
    requires
        is_first_key(e, k, i),
    ensures
        has_key(e, k),
        first_key(e, k) == i,
{
    let c = first_key(e, k);
    assert(is_first_key(e, k, c));
    if c < i {
        assert(e[c].0 != k);
    } else if c > i {
        assert(e[i].0 != k);
    }
}

/// Sets `key` to `v` in the entry list: in place where the key is present,
/// appended where it is not.
pub fn put_entry(entries: &mut Vec<(String, Value)>, key: String, v: Value)
    ensures
        entries_model(final(entries)@) == put(entries_model(old(entries)@), key@, v.model()),
{
    let ghost m = entries_model(entries@);
    let ghost kv = key@;
    let ghost vm = v.model();
    match find_key(entries, &key) {
        Some(i) => {
            proof {
                lemma_first_key(m, kv, i as int);
            }
            let _ = entries.remove(i);
            entries.insert(i, (key, v));
            assert(entries_model(entries@) =~= m.update(i as int, (kv, vm)));
        },
        None => {
            entries.push((key, v));
            assert(entries_model(entries@) =~= m.push((kv, vm)));
        },
    }
}

/// Adds a child element's value under its name. A name seen for the first time
/// is stored as it is; a repeated one turns the entry into an array that keeps
/// document order.
pub fn merge_entry(entries: &mut Vec<(String, Value)>, name: String, v: Value)
    ensures
        entries_model(final(entries)@) == merge_child(entries_model(old(entries)@), name@, v.model()),
{
    let ghost m = entries_model(entries@);
    let ghost kv = name@;
    let ghost vm = v.model();
    match find_key(entries, &name) {
        Some(i) => {
            proof {
                lemma_first_key(m, kv, i as int);
            }
            let (_, existing) = entries.remove(i);
            assert(existing.model() == m[i as int].1);
            let merged = match existing {
                Value::Array(mut items) => {
                    proof {
                        lemma_array_model(items);
                    }
                    let ghost before = items@;
                    items.push(v);
                    proof {
                        lemma_array_model(items);
                        assert(items_model(items@) =~= items_model(before).push(vm));
                    }
                    Value::Array(items)
                },
                other => {
                    let mut items: Vec<Value> = Vec::new();
                    items.push(other);
                    items.push(v);
                    proof {
                        lemma_array_model(items);
                        assert(items_model(items@) =~= seq![m[i as int].1, vm]);
                    }
                    Value::Array(items)
                },
            };
            assert(merged.model() == promoted(m[i as int].1, vm));
            entries.insert(i, (name, merged));
            assert(entries_model(entries@) =~= m.update(i as int, (kv, promoted(m[i as int].1, vm))));
        },
        None => {
            entries.push((name, v));
            assert(entries_model(entries@) =~= m.push((kv, vm)));
        },
    }
}

impl Value {
    /// A copy of this value.
    pub fn deep_clone(&self) -> (r: Value)
        ensures
            r.model() == self.model(),
        decreases self,
    {
        match self {
            Value::Null => Value::Null,
            Value::String(s) => Value::String(s.clone()),
            Value::Array(items) => {
                let mut out: Vec<Value> = Vec::new();
                let mut i: usize = 0;
                while i < items.len()
                    invariant
                        i <= items.len(),
                        items_model(out@) =~= items_model(items@).take(i as int),
                        *self == Value::Array(*items),
                    decreases items.len() - i,
                {
                    proof {
                        vstd::std_specs::vec::axiom_vec_index_decreases(*items, i as int);
                        assert(decreases_to!(*self => (*self)->Array_0));
                    }
                    let c = items[i].deep_clone();
                    let ghost before = out@;
                    out.push(c);
                    assert(items_model(out@) =~= items_model(before).push(items@[i as int].model()));
                    assert(items_model(out@) =~= items_model(items@).take(i + 1));
                    i = i + 1;
                }
                proof {
                    lemma_array_model(*items);
                    lemma_array_model(out);
                    assert(items_model(out@) =~= items_model(items@));
                }
                Value::Array(out)
            },
            Value::Object(entries) => {
                let mut out: Vec<(String, Value)> = Vec::new();
                let mut i: usize = 0;
                while i < entries.len()
                    invariant
                        i <= entries.len(),
                        entries_model(out@) =~= entries_model(entries@).take(i as int),
                        *self == Value::Object(*entries),
                    decreases entries.len() - i,
                {
                    proof {
                        vstd::std_specs::vec::axiom_vec_index_decreases(*entries, i as int);
                        assert(decreases_to!(*self => (*self)->Object_0));
                        assert(decreases_to!(entries[i as int] => entries[i as int].1));
                    }
                    let c = entries[i].1.deep_clone();
                    let ghost before = out@;
                    let k = entries[i].0.clone();
                    out.push((k, c));
                    assert(entries_model(out@) =~= entries_model(before).push(
                        (entries@[i as int].0@, entries@[i as int].1.model()),
                    ));
                    assert(entries_model(out@) =~= entries_model(entries@).take(i + 1));
                    i = i + 1;
                }
                proof {
                    lemma_object_model(*entries);
                    lemma_object_model(out);
                    assert(entries_model(out@) =~= entries_model(entries@));
                }
                Value::Object(out)
            },
        }
    }
}

} // verus!
