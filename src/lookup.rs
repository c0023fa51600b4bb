//! Reading decoded replies: lookups by key and by key path, the transceiver
//! state of each component of a reply, and integer readings.
use vstd::prelude::*;
use vstd::utf8::encode_utf8;
use crate::tree::{
    entries_model, find_key, first_key, has_key, items_model, lemma_array_model, lemma_first_key,
    lemma_object_model, Json, Value,
};

verus! {

/// The value under key `k` of an object, if `j` is one and has the key.
pub open spec fn lookup(j: Json, k: Seq<char>) -> Option<Json> {
    match j {
        Json::Obj(e) => if has_key(e, k) {
            Some(e[first_key(e, k)].1)
        } else {
            None
        },
        _ => None,
    }
}

/// The value reached from `j` by the keys of `path` in turn.
pub open spec fn lookup_path(j: Json, path: Seq<Seq<char>>) -> Option<Json>
    decreases path.len(),
{
    if path.len() == 0 {
        Some(j)
    } else {
        match lookup(j, path[0]) {
            Some(c) => lookup_path(c, path.drop_first()),
            None => None,
        }
    }
}

pub open spec fn opt_model(r: Option<&Value>) -> Option<Json> {
    match r {
        Some(v) => Some(v.model()),
        None => None,
    }
}

/// The value under `key`, where `v` is an object that has it.
pub fn get_key<'a>(v: &'a Value, key: &String) -> (r: Option<&'a Value>)
    ensures
        opt_model(r) == lookup(v.model(), key@),
{
    match v {
        Value::Object(entries) => {
            proof {
                lemma_object_model(*entries);
            }
            match find_key(entries, key) {
                Some(i) => {
                    proof {
                        lemma_first_key(entries_model(entries@), key@, i as int);
                    }
                    Some(&entries[i].1)
                },
                None => None,
            }
        },
        _ => None,
    }
}

/// The value reached from `v` by the keys of `path` in turn.
pub fn get_path<'a>(v: &'a Value, path: &Vec<String>) -> (r: Option<&'a Value>)
    ensures
        opt_model(r) == lookup_path(v.model(), path@.map_values(|k: String| k@)),
{
    let ghost keys = path@.map_values(|k: String| k@);
    let mut cur = v;
    let mut i: usize = 0;
    assert(keys.skip(0) =~= keys);
    while i < path.len()
        invariant
            i <= path.len(),
            keys == path@.map_values(|k: String| k@),
            lookup_path(v.model(), keys) == lookup_path(cur.model(), keys.skip(i as int)),
        decreases path.len() - i,
    {
        assert(keys.skip(i as int)[0] == path@[i as int]@);
        assert(keys.skip(i as int).drop_first() =~= keys.skip(i + 1));
        match get_key(cur, &path[i]) {
            Some(next) => {
                cur = next;
            },
            None => {
                return None;
            },
        }
        i = i + 1;
    }
    assert(keys.skip(i as int) =~= Seq::<Seq<char>>::empty());
    Some(cur)
}

/// What a reply states of one component: its name and, where its
/// transceiver is present, the transceiver's details.
pub struct ComponentState {
    pub name: Value,
    pub transceiver: Option<TransceiverState>,
}

/// The details of a present transceiver.
pub struct TransceiverState {
    pub serial_no: Value,
    pub vendor: Value,
    pub vendor_part: Value,
    pub vendor_rev: Value,
    /// The state object of each physical channel, in order (an empty object
    /// for a channel without one).
    pub channels: Vec<Value>,
}

pub open spec fn present_path() -> Seq<Seq<char>> {
    seq!["transceiver"@, "state"@, "present"@]
}

pub open spec fn channel_path() -> Seq<Seq<char>> {
    seq!["transceiver"@, "physical-channels"@, "channel"@]
}

pub open spec fn components_path() -> Seq<Seq<char>> {
    seq!["rpc-reply"@, "data"@, "components"@, "component"@]
}

pub open spec fn field(c: Json, k: Seq<char>) -> Option<Json> {
    lookup_path(c, seq!["transceiver"@, "state"@, k])
}

/// The state of one channel entry: what it holds under `state`, else an empty object.
pub open spec fn state_of(ch: Json) -> Json {
    match lookup(ch, "state"@) {
        Some(s) => s,
        None => Json::Obj(Seq::empty()),
    }
}

/// The channel states of a component: one per entry where `channel` holds an
/// array, one where it holds a single object, none otherwise.
pub open spec fn channel_states(c: Json) -> Seq<Json> {
    match lookup_path(c, channel_path()) {
        Some(Json::Arr(chs)) => chs.map_values(|ch: Json| state_of(ch)),
        Some(Json::Obj(e)) => seq![state_of(Json::Obj(e))],
        _ => Seq::empty(),
    }
}

/// Whether a component's transceiver is stated present.
pub open spec fn is_present(c: Json) -> bool {
    lookup_path(c, present_path()) == Some(Json::Str("PRESENT"@))
}

/// Whether a component entry holds what a summary needs: a name, a presence
/// state and, when present, the four identification fields.
pub open spec fn component_complete(c: Json) -> bool {
    &&& lookup(c, "name"@) is Some
    &&& lookup_path(c, present_path()) is Some
    &&& is_present(c) ==> {
        &&& field(c, "serial-no"@) is Some
        &&& field(c, "vendor"@) is Some
        &&& field(c, "vendor-part"@) is Some
        &&& field(c, "vendor-rev"@) is Some
    }
}

pub open spec fn values_model(v: Seq<Value>) -> Seq<Json> {
    v.map_values(|x: Value| x.model())
}

/// `s` is the summary of the component entry `c`.
pub open spec fn describes(s: ComponentState, c: Json) -> bool {
    &&& Some(s.name.model()) == lookup(c, "name"@)
    &&& match s.transceiver {
        Some(t) => {
            &&& is_present(c)
            &&& Some(t.serial_no.model()) == field(c, "serial-no"@)
            &&& Some(t.vendor.model()) == field(c, "vendor"@)
            &&& Some(t.vendor_part.model()) == field(c, "vendor-part"@)
            &&& Some(t.vendor_rev.model()) == field(c, "vendor-rev"@)
            &&& values_model(t.channels@) == channel_states(c)
        },
        None => !is_present(c),
    }
}

fn key(k: &str) -> (r: String)
    ensures
        r@ == k@,
{
    String::from_str(k)
}

fn state_field(c: &Value, k: &str) -> (r: Option<Value>)
    ensures
        match r {
            Some(v) => field(c.model(), k@) == Some(v.model()),
            None => field(c.model(), k@) is None,
        },
{
    let path = vec![key("transceiver"), key("state"), key(k)];
    assert(path@.map_values(|s: String| s@) =~= seq!["transceiver"@, "state"@, k@]);
    match get_path(c, &path) {
        Some(v) => Some(v.deep_clone()),
        None => None,
    }
}

fn channel_state(ch: &Value) -> (r: Value)
    ensures
        r.model() == state_of(ch.model()),
{
    match get_key(ch, &key("state")) {
        Some(s) => s.deep_clone(),
        None => {
            let e: Vec<(String, Value)> = Vec::new();
            proof {
                lemma_object_model(e);
                assert(entries_model(e@) =~= Seq::empty());
            }
            Value::Object(e)
        },
    }
}

/// The channel states of a component entry.
pub fn channels_of(c: &Value) -> (r: Vec<Value>)
    ensures
        values_model(r@) == channel_states(c.model()),
{
    let path = vec![key("transceiver"), key("physical-channels"), key("channel")];
    assert(path@.map_values(|s: String| s@) =~= channel_path());
    let mut out: Vec<Value> = Vec::new();
    match get_path(c, &path) {
        Some(Value::Array(chs)) => {
            proof {
                lemma_array_model(*chs);
            }
            let ghost want = items_model(chs@).map_values(|ch: Json| state_of(ch));
            let mut i: usize = 0;
            while i < chs.len()
                invariant
                    i <= chs.len(),
                    want == items_model(chs@).map_values(|ch: Json| state_of(ch)),
                    values_model(out@) =~= want.take(i as int),
                decreases chs.len() - i,
            {
                let st = channel_state(&chs[i]);
                let ghost before = out@;
                out.push(st);
                assert(values_model(out@) =~= values_model(before).push(want[i as int]));
                assert(want.take(i + 1) =~= want.take(i as int).push(want[i as int]));
                i = i + 1;
            }
            assert(want.take(i as int) =~= want);
        },
        Some(ch) => {
            if let Value::Object(_) = ch {
                out.push(channel_state(ch));
                assert(values_model(out@) =~= seq![state_of(ch.model())]);
            } else {
                assert(values_model(out@) =~= Seq::empty());
            }
        },
        None => {
            assert(values_model(out@) =~= Seq::empty());
        },
    }
    out
}

/// The summary of one component entry, or `None` where the entry lacks a
/// field the summary needs.
pub fn component_state(c: &Value) -> (r: Option<ComponentState>)
    ensures
        match r {
            Some(s) => component_complete(c.model()) && describes(s, c.model()),
            None => !component_complete(c.model()),
        },
{
    let name = match get_key(c, &key("name")) {
        Some(n) => n.deep_clone(),
        None => {
            return None;
        },
    };
    let present = match state_field(c, "present") {
        Some(p) => {
            let is = match p {
                Value::String(s) => s == key("PRESENT"),
                _ => false,
            };
            is
        },
        None => {
            return None;
        },
    };
    if !present {
        return Some(ComponentState { name, transceiver: None });
    }
    let serial_no = match state_field(c, "serial-no") {
        Some(v) => v,
        None => {
            return None;
        },
    };
    let vendor = match state_field(c, "vendor") {
        Some(v) => v,
        None => {
            return None;
        },
    };
    let vendor_part = match state_field(c, "vendor-part") {
        Some(v) => v,
        None => {
            return None;
        },
    };
    let vendor_rev = match state_field(c, "vendor-rev") {
        Some(v) => v,
        None => {
            return None;
        },
    };
    let channels = channels_of(c);
    Some(ComponentState {
        name,
        transceiver: Some(TransceiverState { serial_no, vendor, vendor_part, vendor_rev, channels }),
    })
}

/// The summaries of the components listed in a decoded reply, in order:
/// none where the reply lists no array of components, and `None` where an
/// entry lacks a field its summary needs.
pub fn reply_components(reply: &Value) -> (r: Option<Vec<ComponentState>>)
    ensures
        match lookup_path(reply.model(), components_path()) {
            Some(Json::Arr(cs)) => match r {
                Some(v) => {
                    &&& v.len() == cs.len()
                    &&& forall|i: int| 0 <= i < cs.len() ==> describes(#[trigger] v@[i], cs[i])
                },
                None => exists|i: int| 0 <= i < cs.len() && !component_complete(#[trigger] cs[i]),
            },
            _ => r matches Some(v) && v.len() == 0,
        },
{
    let path = vec![key("rpc-reply"), key("data"), key("components"), key("component")];
    assert(path@.map_values(|s: String| s@) =~= components_path());
    let mut out: Vec<ComponentState> = Vec::new();
    match get_path(reply, &path) {
        Some(Value::Array(cs)) => {
            proof {
                lemma_array_model(*cs);
            }
            let ghost m = items_model(cs@);
            let mut i: usize = 0;
            while i < cs.len()
                invariant
                    i <= cs.len(),
                    m == items_model(cs@),
                    lookup_path(reply.model(), components_path()) == Some(Json::Arr(m)),
                    out.len() == i,
                    forall|j: int| 0 <= j < i ==> describes(#[trigger] out@[j], m[j]),
                decreases cs.len() - i,
            {
                match component_state(&cs[i]) {
                    Some(s) => {
                        out.push(s);
                    },
                    None => {
                        assert(m[i as int] == cs@[i as int].model());
                        assert(!component_complete(m[i as int]));
                        assert(exists|k: int| 0 <= k < m.len() && !component_complete(#[trigger] m[k]));
                        let ghost l = lookup_path(reply.model(), components_path());
                        assert(l matches Some(Json::Arr(cs)) && cs == m);
                        return None;
                    },
                }
                i = i + 1;
            }
            Some(out)
        },
        _ => Some(out),
    }
}

/// The record that reports a component: its name and presence state, and
/// for a present transceiver its four identification fields and, where it
/// has any, its channel states; entries in that order.
pub open spec fn record_model(s: ComponentState) -> Json {
    match s.transceiver {
        Some(t) => Json::Obj(
            seq![
                ("name"@, s.name.model()),
                ("present-state"@, Json::Str("PRESENT"@)),
                ("serial-no"@, t.serial_no.model()),
                ("vendor"@, t.vendor.model()),
                ("vendor-part"@, t.vendor_part.model()),
                ("vendor-rev"@, t.vendor_rev.model()),
            ] + if t.channels.len() > 0 {
                seq![("channel"@, Json::Arr(values_model(t.channels@)))]
            } else {
                Seq::empty()
            },
        ),
        None => Json::Obj(
            seq![("name"@, s.name.model()), ("present-state"@, Json::Str("NOT_PRESENT"@))],
        ),
    }
}

fn clone_all(items: &Vec<Value>) -> (r: Vec<Value>)
    ensures
        values_model(r@) == values_model(items@),
{
    let mut out: Vec<Value> = Vec::new();
    let mut i: usize = 0;
    while i < items.len()
        invariant
            i <= items.len(),
            values_model(out@) =~= values_model(items@).take(i as int),
        decreases items.len() - i,
    {
        let ghost before = out@;
        out.push(items[i].deep_clone());
        assert(values_model(out@) =~= values_model(before).push(items@[i as int].model()));
        assert(values_model(items@).take(i + 1) =~= values_model(items@).take(i as int).push(
            items@[i as int].model(),
        ));
        i = i + 1;
    }
    assert(values_model(items@).take(i as int) =~= values_model(items@));
    out
}

/// The record that reports a component.
pub fn component_record(c: &ComponentState) -> (v: Value)
    ensures
        v.model() == record_model(*c),
{
    let mut e: Vec<(String, Value)> = Vec::new();
    e.push((key("name"), c.name.deep_clone()));
    match &c.transceiver {
        Some(t) => {
            e.push((key("present-state"), Value::String(key("PRESENT"))));
            e.push((key("serial-no"), t.serial_no.deep_clone()));
            e.push((key("vendor"), t.vendor.deep_clone()));
            e.push((key("vendor-part"), t.vendor_part.deep_clone()));
            e.push((key("vendor-rev"), t.vendor_rev.deep_clone()));
            let ghost six = entries_model(e@);
            if t.channels.len() > 0 {
                let items = clone_all(&t.channels);
                proof {
                    lemma_array_model(items);
                    assert(items_model(items@) =~= values_model(t.channels@));
                }
                e.push((key("channel"), Value::Array(items)));
                assert(entries_model(e@) =~= six + seq![
                    ("channel"@, Json::Arr(values_model(t.channels@))),
                ]);
            } else {
                assert(entries_model(e@) =~= six + Seq::empty());
            }
            assert(six =~= seq![
                ("name"@, c.name.model()),
                ("present-state"@, Json::Str("PRESENT"@)),
                ("serial-no"@, t.serial_no.model()),
                ("vendor"@, t.vendor.model()),
                ("vendor-part"@, t.vendor_part.model()),
                ("vendor-rev"@, t.vendor_rev.model()),
            ]);
        },
        None => {
            e.push((key("present-state"), Value::String(key("NOT_PRESENT"))));
            assert(entries_model(e@) =~= seq![
                ("name"@, c.name.model()),
                ("present-state"@, Json::Str("NOT_PRESENT"@)),
            ]);
        },
    }
    proof {
        lemma_object_model(e);
    }
    Value::Object(e)
}

pub open spec fn is_digit(b: u8) -> bool {
    48 <= b <= 57
}

pub open spec fn all_digits(d: Seq<u8>) -> bool {
    forall|i: int| 0 <= i < d.len() ==> is_digit(#[trigger] d[i])
}

/// The number that a string of ASCII decimal digits denotes.
pub open spec fn digits_value(d: Seq<u8>) -> int
    decreases d.len(),
{
    if d.len() == 0 {
        0
    } else {
        digits_value(d.drop_last()) * 10 + (d.last() - 48)
    }
}

/// What the UTF-8 text `s` denotes as an `i64` in decimal, as std's integer
/// parsing reads it: an optional `+` or `-`, then one or more ASCII digits,
/// with the value in range; `None` for anything else.
pub open spec fn i64_of(s: Seq<u8>) -> Option<i64> {
    let signed = s.len() > 0 && (s[0] == 45 || s[0] == 43);
    let d = if signed {
        s.drop_first()
    } else {
        s
    };
    let v = if signed && s[0] == 45 {
        -digits_value(d)
    } else {
        digits_value(d)
    };
    if d.len() > 0 && all_digits(d) && i64::MIN <= v <= i64::MAX {
        Some(v as i64)
    } else {
        None
    }
}

proof fn lemma_digits_nonneg(d: Seq<u8>)
    requires
        forall|i: int| 0 <= i < d.len() ==> is_digit(#[trigger] d[i]),
    ensures
        digits_value(d) >= 0,
    decreases d.len(),
{
    if d.len() > 0 {
        lemma_digits_nonneg(d.drop_last());
    }
}

proof fn lemma_digits_grow(d: Seq<u8>, k: int)
    requires
        0 <= k <= d.len(),
        forall|i: int| 0 <= i < d.len() ==> is_digit(#[trigger] d[i]),
    ensures
        digits_value(d) >= digits_value(d.take(k)),
    decreases d.len(),
{
    if k == d.len() {
        assert(d.take(k) =~= d);
    } else {
        let p = d.drop_last();
        assert(p.take(k) =~= d.take(k));
        lemma_digits_grow(p, k);
        lemma_digits_nonneg(p);
    }
}

/// The `i64` that the text with UTF-8 bytes `b` denotes in decimal, if any.
pub fn parse_i64(b: &[u8]) -> (r: Option<i64>)
    ensures
        r == i64_of(b@),
{
    let n = b.len();
    if n == 0 {
        return None;
    }
    let neg = b[0] == 45u8;
    let signed = neg || b[0] == 43u8;
    let start: usize = if signed {
        1
    } else {
        0
    };
    let ghost d = if signed {
        b@.drop_first()
    } else {
        b@
    };
    assert(d =~= b@.subrange(start as int, n as int));
    if start == n {
        return None;
    }
    let lim: u64 = if neg {
        9223372036854775808u64
    } else {
        9223372036854775807u64
    };
    let mut mag: u64 = 0;
    let mut overflow = false;
    let mut i: usize = start;
    assert(d.take(0) =~= Seq::<u8>::empty());
    while i < n
        invariant
            start <= i <= n,
            n == b@.len(),
            lim == (if neg {
                9223372036854775808u64
            } else {
                9223372036854775807u64
            }),
            neg == (b@[0] == 45),
            signed == (neg || b@[0] == 43),
            d == (if signed {
                b@.drop_first()
            } else {
                b@
            }),
            d == b@.subrange(start as int, n as int),
            forall|j: int| 0 <= j < i - start ==> is_digit(#[trigger] d[j]),
            !overflow ==> mag == digits_value(d.take(i - start)) && mag <= lim,
            overflow ==> digits_value(d.take(i - start)) > lim,
        decreases n - i,
    {
        let c = b[i];
        if c < 48u8 || c > 57u8 {
            assert(!is_digit(d[i - start]));
            assert(!all_digits(d));
            return None;
        }
        let x = (c - 48u8) as u64;
        let ghost k = (i - start) as int;
        proof {
            assert(d[k] == c);
            assert(d.take(k + 1).drop_last() =~= d.take(k));
            assert(d.take(k + 1).last() == c);
            assert forall|j: int| 0 <= j < d.take(k).len() implies is_digit(#[trigger] d.take(k)[j]) by {
                assert(d.take(k)[j] == d[j]);
            }
            lemma_digits_nonneg(d.take(k));
            assert(digits_value(d.take(k + 1)) == digits_value(d.take(k)) * 10 + x);
        }
        if !overflow {
            if mag > (lim - x) / 10 {
                assert(mag * 10 + x > lim) by (nonlinear_arith)
                    requires
                        mag > (lim - x) / 10,
                        x <= lim,
                ;
                overflow = true;
            } else {
                assert(mag * 10 + x <= lim) by (nonlinear_arith)
                    requires
                        mag <= (lim - x) / 10,
                        x <= lim,
                ;
                mag = mag * 10 + x;
            }
        } else {
            assert(digits_value(d.take(k + 1)) >= digits_value(d.take(k)) * 10) by (nonlinear_arith)
                requires
                    digits_value(d.take(k + 1)) == digits_value(d.take(k)) * 10 + x,
                    x >= 0,
            ;
        }
        i = i + 1;
    }
    assert(d.take(n - start) =~= d);
    if overflow {
        return None;
    }
    if neg {
        if mag == 9223372036854775808u64 {
            Some(i64::MIN)
        } else {
            Some(-(mag as i64))
        }
    } else {
        Some(mag as i64)
    }
}

/// The integer that a string leaf holds, if it holds one.
pub fn value_to_i64(value: &Value) -> (r: Option<i64>)
    ensures
        r == (match value.model() {
            Json::Str(s) => i64_of(encode_utf8(s)),
            _ => None,
        }),
{
    match value {
        Value::String(s) => parse_i64(s.as_str().as_bytes()),
        _ => None,
    }
}

} // verus!
