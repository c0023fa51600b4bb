//! The structural decoder: from a stream of markup events to a `Value`.
use vstd::prelude::*;
use crate::error::Error;
use quick_xml::events::attributes::Attributes;
use quick_xml::events::Event::{CData, Comment, Decl, DocType, Empty, End, Eof, Start, Text, PI};
use vstd::utf8::encode_utf8;
use quick_xml::Reader;
use crate::tree::{
    entries_model, entries_ok, items_model, keys_unique_deep, lemma_array_model, lemma_merge_ok,
    lemma_object_model, lemma_put_ok, merge_child, merge_entry, put, put_entry, Json, Value,
};

verus! {

/// One event of a markup reader, with names and character data as owned text.
#[derive(Clone, Debug, PartialEq)]
pub enum XmlEvent {
    /// An element opens: its tag name and the raw text of its attributes.
    Start(String, String),
    /// A run of character data, as written (entities not yet resolved).
    Text(String),
    /// The content of a character-data section.
    CData(String),
    /// The current element closes.
    End,
    /// The markup ends.
    Eof,
    /// A self-closing element: its tag name and the raw text of its attributes.
    Empty(String, String),
    /// A comment.
    Comment,
    /// The XML declaration.
    Declaration,
    /// A processing instruction.
    Instruction,
    /// A document type declaration.
    DocType,
    /// The reader found the markup malformed.
    Malformed,
}

/// The key under which an element's own text is kept beside its children.
pub open spec fn text_key() -> Seq<char> {
    seq!['#', 't', 'e', 'x', 't']
}

/// The key under which an element's character-data section is kept.
pub open spec fn cdata_key() -> Seq<char> {
    seq!['#', 'c', 'd', 'a', 't', 'a']
}

/// The key under which an attribute named `k` is kept.
pub open spec fn attr_key(k: Seq<char>) -> Seq<char> {
    seq!['@'] + k
}

/// The text runs of an element, as character sequences.
pub open spec fn texts_view(t: Seq<String>) -> Seq<Seq<char>> {
    t.map_values(|s: String| s@)
}

/// Attributes as keys and values of characters; `None` for one that could not be read.
pub open spec fn attrs_view(attrs: Seq<Option<(String, String)>>) -> Seq<Option<(Seq<char>, Seq<char>)>> {
    attrs.map_values(
        |a: Option<(String, String)>|
            match a {
                Some((k, v)) => Some((k@, v@)),
                None => None,
            },
    )
}

/// Every attribute of an opening tag could be read.
pub open spec fn attrs_readable(attrs: Seq<Option<(Seq<char>, Seq<char>)>>) -> bool {
    forall|i: int| 0 <= i < attrs.len() ==> (#[trigger] attrs[i]) is Some
}

/// Whether every attribute of an opening tag could be read.
pub fn all_readable(attrs: &Vec<Option<(String, String)>>) -> (r: bool)
    ensures
        r == attrs_readable(attrs_view(attrs@)),
{
    let mut i: usize = 0;
    while i < attrs.len()
        invariant
            i <= attrs.len(),
            forall|j: int| 0 <= j < i ==> (#[trigger] attrs_view(attrs@)[j]) is Some,
        decreases attrs.len() - i,
    {
        if attrs[i].is_none() {
            assert(attrs_view(attrs@)[i as int] is None);
            return false;
        }
        i = i + 1;
    }
    true
}

/// The entries `m` with the readable attributes of `attrs` set on them, in order.
pub open spec fn with_attrs(
    m: Seq<(Seq<char>, Json)>,
    attrs: Seq<Option<(Seq<char>, Seq<char>)>>,
) -> Seq<(Seq<char>, Json)>
    decreases attrs.len(),
{
    if attrs.len() == 0 {
        m
    } else {
        let rest = with_attrs(m, attrs.drop_last());
        match attrs.last() {
            Some((k, v)) => put(rest, attr_key(k), Json::Str(v)),
            None => rest,
        }
    }
}

/// The value of an element whose content decoded to `c` and which carries
/// `attrs`. Attributes join an object content; otherwise, where there are
/// any, they form an object that keeps a string content under `#text`.
pub open spec fn element_value(c: Json, attrs: Seq<Option<(Seq<char>, Seq<char>)>>) -> Json {
    match c {
        Json::Obj(m) => Json::Obj(with_attrs(m, attrs)),
        _ => {
            let a = with_attrs(Seq::empty(), attrs);
            if a.len() == 0 {
                c
            } else if c is Str {
                Json::Obj(put(a, text_key(), c))
            } else {
                Json::Obj(a)
            }
        },
    }
}

/// The value of an element once it closes, from its child entries and its text runs.
pub open spec fn resolve(node: Seq<(Seq<char>, Json)>, texts: Seq<Seq<char>>) -> Json {
    if node.len() > 0 {
        if texts.len() > 0 {
            Json::Obj(put(node, text_key(), Json::Str(texts[0])))
        } else {
            Json::Obj(node)
        }
    } else if texts.len() == 0 {
        Json::Null
    } else if texts.len() == 1 {
        Json::Str(texts[0])
    } else {
        Json::Arr(texts.map_values(|t: Seq<char>| Json::Str(t)))
    }
}

/// Decodes the events from position `i` on, inside an element (or at the
/// document level when `top`) whose entries so far are `node` and whose text
/// runs so far are `texts`. Gives the element's value and the position after
/// its end, or `None` where the events are malformed.
pub open spec fn walk(
    ev: Seq<XmlEvent>,
    i: int,
    node: Seq<(Seq<char>, Json)>,
    texts: Seq<Seq<char>>,
    top: bool,
) -> Option<(Json, int)>
    decreases ev.len() - i,
{
    if i < 0 || i >= ev.len() {
        None
    } else {
        match ev[i] {
            XmlEvent::Start(name, raw) => {
                let attrs = attributes_of(raw@);
                if !attrs_readable(attrs) {
                    None
                } else {
                    match walk(ev, i + 1, Seq::empty(), Seq::empty(), false) {
                        Some((c, j)) => if i < j <= ev.len() {
                            walk(ev, j, merge_child(node, name@, element_value(c, attrs)), texts, top)
                        } else {
                            None
                        },
                        None => None,
                    }
                }
            },
            XmlEvent::Text(raw) => match unescaped(raw@) {
                Some(t) => walk(ev, i + 1, node, texts.push(t), top),
                None => None,
            },
            XmlEvent::CData(t) => walk(ev, i + 1, put(node, cdata_key(), Json::Str(t@)), texts, top),
            XmlEvent::End => if top {
                None
            } else {
                Some((resolve(node, texts), i + 1))
            },
            XmlEvent::Eof => if top {
                Some((resolve(node, texts), i + 1))
            } else {
                None
            },
            XmlEvent::Empty(_, _) => walk(ev, i + 1, node, texts, top),
            XmlEvent::Comment => walk(ev, i + 1, node, texts, top),
            XmlEvent::Declaration => walk(ev, i + 1, node, texts, top),
            XmlEvent::Instruction => walk(ev, i + 1, node, texts, top),
            XmlEvent::DocType => walk(ev, i + 1, node, texts, top),
            XmlEvent::Malformed => None,
        }
    }
}

/// The value that a whole event stream decodes to, or `None` where it is malformed.
pub open spec fn decoded(ev: Seq<XmlEvent>) -> Option<Json> {
    match walk(ev, 0, Seq::empty(), Seq::empty(), true) {
        Some((v, _)) => Some(v),
        None => None,
    }
}

fn text_key_string() -> (s: String)
    ensures
        s@ == text_key(),
{
    let s = String::from_str("#text");
    proof {
        reveal_strlit("#text");
        assert(s@ =~= text_key());
    }
    s
}

fn cdata_key_string() -> (s: String)
    ensures
        s@ == cdata_key(),
{
    let s = String::from_str("#cdata");
    proof {
        reveal_strlit("#cdata");
        assert(s@ =~= cdata_key());
    }
    s
}

/// Sets each readable attribute of `attrs` on `entries`, under its `@` key.
pub fn add_attributes(entries: &mut Vec<(String, Value)>, attrs: &Vec<Option<(String, String)>>)
    ensures
        entries_model(final(entries)@) == with_attrs(entries_model(old(entries)@), attrs_view(attrs@)),
{
    let ghost m0 = entries_model(entries@);
    let ghost av = attrs_view(attrs@);
    let mut i: usize = 0;
    assert(av.take(0) =~= Seq::empty());
    while i < attrs.len()
        invariant
            i <= attrs.len(),
            av == attrs_view(attrs@),
            entries_model(entries@) == with_attrs(m0, av.take(i as int)),
        decreases attrs.len() - i,
    {
        assert(av.take(i + 1).drop_last() =~= av.take(i as int));
        assert(av.take(i + 1).last() == av[i as int]);
        match &attrs[i] {
            Some((k, v)) => {
                let mut key = String::from_str("@");
                proof {
                    reveal_strlit("@");
                }
                key.append(k.as_str());
                assert(key@ =~= attr_key(k@));
                put_entry(entries, key, Value::String(v.clone()));
            },
            None => {},
        }
        i = i + 1;
    }
    assert(av.take(attrs.len() as int) =~= av);
}

/// The value of an element whose content decoded to `c` and which carries `attrs`.
pub fn element_value_of(c: Value, attrs: &Vec<Option<(String, String)>>) -> (v: Value)
    ensures
        v.model() == element_value(c.model(), attrs_view(attrs@)),
{
    match c {
        Value::Object(mut m) => {
            proof {
                lemma_object_model(m);
            }
            add_attributes(&mut m, attrs);
            proof {
                lemma_object_model(m);
            }
            Value::Object(m)
        },
        other => {
            let mut a: Vec<(String, Value)> = Vec::new();
            assert(entries_model(a@) =~= Seq::empty());
            add_attributes(&mut a, attrs);
            proof {
                lemma_object_model(a);
            }
            if a.len() == 0 {
                other
            } else {
                match other {
                    Value::String(s) => {
                        put_entry(&mut a, text_key_string(), Value::String(s));
                        proof {
                            lemma_object_model(a);
                        }
                        Value::Object(a)
                    },
                    _ => Value::Object(a),
                }
            }
        },
    }
}

/// The value of an element once it closes, from its child entries and its text runs.
pub fn resolve_element(node: Vec<(String, Value)>, texts: Vec<String>) -> (v: Value)
    ensures
        v.model() == resolve(entries_model(node@), texts_view(texts@)),
{
    let ghost tv = texts_view(texts@);
    if node.len() > 0 {
        let mut node = node;
        if texts.len() > 0 {
            let first = texts[0].clone();
            put_entry(&mut node, text_key_string(), Value::String(first));
        }
        proof {
            lemma_object_model(node);
        }
        Value::Object(node)
    } else if texts.len() == 0 {
        Value::Null
    } else if texts.len() == 1 {
        Value::String(texts[0].clone())
    } else {
        let mut items: Vec<Value> = Vec::new();
        let mut i: usize = 0;
        while i < texts.len()
            invariant
                i <= texts.len(),
                tv == texts_view(texts@),
                items_model(items@) =~= tv.take(i as int).map_values(|t: Seq<char>| Json::Str(t)),
            decreases texts.len() - i,
        {
            let ghost before = items@;
            items.push(Value::String(texts[i].clone()));
            assert(items_model(items@) =~= items_model(before).push(Json::Str(tv[i as int])));
            assert(tv.take(i + 1) =~= tv.take(i as int).push(tv[i as int]));
            i = i + 1;
        }
        proof {
            lemma_array_model(items);
            assert(tv.take(i as int) =~= tv);
        }
        Value::Array(items)
    }
}

/// Decodes one element's content from position `start` (the document itself
/// when `top`), giving its value and the position after its end.
fn element(events: &Vec<XmlEvent>, start: usize, top: bool) -> (r: Result<(Value, usize), Error>)
    requires
        start <= events.len(),
    ensures
        match r {
            Ok((v, j)) => {
                &&& walk(events@, start as int, Seq::empty(), Seq::empty(), top) == Some((v.model(), j as int))
                &&& start < j <= events.len()
            },
            Err(e) => walk(events@, start as int, Seq::empty(), Seq::empty(), top) is None && e == Error::Decode,
        },
    decreases events.len() - start,
{
    let mut node: Vec<(String, Value)> = Vec::new();
    let mut texts: Vec<String> = Vec::new();
    let mut i: usize = start;
    assert(entries_model(node@) =~= Seq::<(Seq<char>, Json)>::empty());
    assert(texts_view(texts@) =~= Seq::<Seq<char>>::empty());
    loop
        invariant
            start <= i <= events.len(),
            walk(events@, start as int, Seq::empty(), Seq::empty(), top)
                == walk(events@, i as int, entries_model(node@), texts_view(texts@), top),
        decreases events.len() - i,
    {
        if i >= events.len() {
            return Err(Error::Decode);
        }
        match &events[i] {
            XmlEvent::Start(name, raw) => {
                let attrs = parse_attributes(raw.as_str());
                if !all_readable(&attrs) {
                    return Err(Error::Decode);
                }
                match element(events, i + 1, false) {
                    Ok((c, j)) => {
                        let v = element_value_of(c, &attrs);
                        merge_entry(&mut node, name.clone(), v);
                        i = j;
                    },
                    Err(e) => {
                        return Err(e);
                    },
                }
            },
            XmlEvent::Text(raw) => {
                match unescape_text(raw.as_str()) {
                    Some(t) => {
                        let ghost before = texts@;
                        let ghost tv = t@;
                        texts.push(t);
                        assert(texts_view(texts@) =~= texts_view(before).push(tv));
                        i = i + 1;
                    },
                    None => {
                        return Err(Error::Decode);
                    },
                }
            },
            XmlEvent::CData(t) => {
                put_entry(&mut node, cdata_key_string(), Value::String(t.clone()));
                i = i + 1;
            },
            XmlEvent::End => {
                if top {
                    return Err(Error::Decode);
                }
                return Ok((resolve_element(node, texts), i + 1));
            },
            XmlEvent::Eof => {
                if !top {
                    return Err(Error::Decode);
                }
                return Ok((resolve_element(node, texts), i + 1));
            },
            XmlEvent::Empty(_, _) | XmlEvent::Comment | XmlEvent::Declaration | XmlEvent::Instruction
            | XmlEvent::DocType => {
                i = i + 1;
            },
            XmlEvent::Malformed => {
                return Err(Error::Decode);
            },
        }
    }
}

/// Decodes a stream of markup events into a value: the document's top-level
/// elements and text become one value, by the rules of `walk`.
pub fn decode_events(events: &Vec<XmlEvent>) -> (r: Result<Value, Error>)
    ensures
        match r {
            Ok(v) => decoded(events@) == Some(v.model()) && keys_unique_deep(v.model()),
            Err(e) => decoded(events@) is None && e == Error::Decode,
        },
{
    proof {
        lemma_decoded_keys_unique(events@);
    }
    match element(events, 0, true) {
        Ok((v, _)) => Ok(v),
        Err(e) => Err(e),
    }
}

proof fn lemma_with_attrs_ok(m: Seq<(Seq<char>, Json)>, attrs: Seq<Option<(Seq<char>, Seq<char>)>>)
    requires
        entries_ok(m),
    ensures
        entries_ok(with_attrs(m, attrs)),
    decreases attrs.len(),
{
    if attrs.len() > 0 {
        lemma_with_attrs_ok(m, attrs.drop_last());
        if let Some((k, v)) = attrs.last() {
            lemma_put_ok(with_attrs(m, attrs.drop_last()), attr_key(k), Json::Str(v));
        }
    }
}

proof fn lemma_element_value_ok(c: Json, attrs: Seq<Option<(Seq<char>, Seq<char>)>>)
    requires
        keys_unique_deep(c),
    ensures
        keys_unique_deep(element_value(c, attrs)),
{
    match c {
        Json::Obj(m) => {
            lemma_with_attrs_ok(m, attrs);
        },
        _ => {
            lemma_with_attrs_ok(Seq::empty(), attrs);
            let a = with_attrs(Seq::empty(), attrs);
            if a.len() != 0 && c is Str {
                lemma_put_ok(a, text_key(), c);
            }
        },
    }
}

proof fn lemma_resolve_ok(node: Seq<(Seq<char>, Json)>, texts: Seq<Seq<char>>)
    requires
        entries_ok(node),
    ensures
        keys_unique_deep(resolve(node, texts)),
{
    if node.len() > 0 {
        if texts.len() > 0 {
            lemma_put_ok(node, text_key(), Json::Str(texts[0]));
        }
    } else if texts.len() > 1 {
        let a = texts.map_values(|t: Seq<char>| Json::Str(t));
        assert forall|i: int| 0 <= i < a.len() implies keys_unique_deep(#[trigger] a[i]) by {}
    }
}

proof fn lemma_walk_ok(
    ev: Seq<XmlEvent>,
    i: int,
    node: Seq<(Seq<char>, Json)>,
    texts: Seq<Seq<char>>,
    top: bool,
)
    requires
        entries_ok(node),
    ensures
        walk(ev, i, node, texts, top) matches Some((v, _)) ==> keys_unique_deep(v),
    decreases ev.len() - i,
{
    if 0 <= i < ev.len() {
        match ev[i] {
            XmlEvent::Start(name, raw) => {
                let attrs = attributes_of(raw@);
                lemma_walk_ok(ev, i + 1, Seq::empty(), Seq::empty(), false);
                if let Some((c, j)) = walk(ev, i + 1, Seq::empty(), Seq::empty(), false) {
                    if i < j <= ev.len() {
                        lemma_element_value_ok(c, attrs);
                        lemma_merge_ok(node, name@, element_value(c, attrs));
                        lemma_walk_ok(
                            ev,
                            j,
                            merge_child(node, name@, element_value(c, attrs)),
                            texts,
                            top,
                        );
                    }
                }
            },
            XmlEvent::Text(raw) => {
                if let Some(t) = unescaped(raw@) {
                    lemma_walk_ok(ev, i + 1, node, texts.push(t), top);
                }
            },
            XmlEvent::CData(t) => {
                lemma_put_ok(node, cdata_key(), Json::Str(t@));
                lemma_walk_ok(ev, i + 1, put(node, cdata_key(), Json::Str(t@)), texts, top);
            },
            XmlEvent::End => {
                lemma_resolve_ok(node, texts);
            },
            XmlEvent::Eof => {
                lemma_resolve_ok(node, texts);
            },
            XmlEvent::Empty(_, _) | XmlEvent::Comment | XmlEvent::Declaration | XmlEvent::Instruction
            | XmlEvent::DocType => {
                lemma_walk_ok(ev, i + 1, node, texts, top);
            },
            XmlEvent::Malformed => {},
        }
    }
}

/// Every object that decoding produces, at any depth, has unique keys:
/// repeated child names become one array entry, and attributes, text and
/// character data each take one key.
pub proof fn lemma_decoded_keys_unique(ev: Seq<XmlEvent>)
    ensures
        decoded(ev) matches Some(v) ==> keys_unique_deep(v),
{
    assert(entries_ok(Seq::<(Seq<char>, Json)>::empty()));
    lemma_walk_ok(ev, 0, Seq::empty(), Seq::empty(), true);
}

/// The event at position `i` (counting from zero) that quick_xml's reader,
/// set to trim text, hands out on the markup `xml`, converted to an
/// `XmlEvent`. The reader is deterministic: the events depend on the markup
/// alone.
pub uninterp spec fn markup_event(xml: Seq<char>, i: nat) -> XmlEvent;

/// A markup reader over a borrowed string: quick_xml's reader, set to trim
/// whitespace around text runs.
#[verifier::external_body]
pub struct MarkupEvents<'a> {
    reader: Reader<&'a [u8]>,
}

/// The markup that a reader reads.
pub uninterp spec fn reader_source(r: MarkupEvents) -> Seq<char>;

/// How many events a reader has handed out so far.
pub uninterp spec fn reader_position(r: MarkupEvents) -> nat;

/// Relies on quick_xml's `Reader::from_str`, with `trim_text` set: a reader
/// over `xml` that has handed out no event yet.
#[verifier::external_body]
fn open_markup(xml: &str) -> (r: MarkupEvents)
    ensures
        reader_source(r) == xml@,
        reader_position(r) == 0,
{
    let mut reader = Reader::from_str(xml);
    reader.config_mut().trim_text(true);
    MarkupEvents { reader }
}

/// Relies on quick_xml's `Reader::read_event`: the reader's next event,
/// with tag names (`BytesStart::name`), the raw attribute text of a tag
/// (`BytesStart::attributes_raw`), and text and character data copied out
/// as written.
#[verifier::external_body]
fn next_event(m: &mut MarkupEvents) -> (e: XmlEvent)
    ensures
        e == markup_event(reader_source(*old(m)), reader_position(*old(m))),
        reader_source(*final(m)) == reader_source(*old(m)),
        reader_position(*final(m)) == reader_position(*old(m)) + 1,
{
    let text = |b: &[u8]| String::from_utf8_lossy(b).into_owned();
    let Ok(event) = m.reader.read_event() else { return XmlEvent::Malformed };
    match event {
        Start(t) => XmlEvent::Start(text(t.name().0), text(t.attributes_raw())),
        Empty(t) => XmlEvent::Empty(text(t.name().0), text(t.attributes_raw())),
        Text(t) => XmlEvent::Text(text(&t.into_inner())),
        CData(t) => XmlEvent::CData(text(&t.into_inner())),
        End(_) => XmlEvent::End,
        Comment(_) => XmlEvent::Comment,
        Decl(_) => XmlEvent::Declaration,
        PI(_) => XmlEvent::Instruction,
        DocType(_) => XmlEvent::DocType,
        Eof => XmlEvent::Eof,
    }
}

/// The attributes that quick_xml's attribute iterator reads from the raw
/// attribute text of a tag, in order, each as its key and its raw value;
/// `None` for one that the iterator reports as an error.
pub uninterp spec fn attributes_of(raw: Seq<char>) -> Seq<Option<(Seq<char>, Seq<char>)>>;

/// Relies on quick_xml's `Attributes::new` (the iterator that
/// `BytesStart::attributes` also builds, there over the tag from the end of
/// its name): the attributes of the raw attribute text `raw`.
#[verifier::external_body]
fn parse_attributes(raw: &str) -> (r: Vec<Option<(String, String)>>)
    ensures
        attrs_view(r@) == attributes_of(raw@),
{
    let text = |b: &[u8]| String::from_utf8_lossy(b).into_owned();
    Attributes::new(raw, 0).map(|a| a.ok().map(|a| (text(a.key.0), text(&a.value)))).collect()
}

/// The text that quick_xml's `escape::unescape` makes of `raw`, with the
/// predefined and numeric character references resolved; `None` where a
/// reference does not resolve.
pub uninterp spec fn unescaped(raw: Seq<char>) -> Option<Seq<char>>;

/// Relies on quick_xml's `escape::unescape` (which `BytesText::unescape`
/// applies to a text event's content): `raw` with its references resolved.
#[verifier::external_body]
fn unescape_text(raw: &str) -> (r: Option<String>)
    ensures
        match r {
            Some(t) => unescaped(raw@) == Some(t@),
            None => unescaped(raw@) is None,
        },
{
    quick_xml::escape::unescape(raw).ok().map(|t| t.into_owned())
}

/// Whether reading stops at this event: the end of the markup or an error.
pub open spec fn stops(e: XmlEvent) -> bool {
    e is Eof || e is Malformed
}

/// The first `n` events of the markup.
pub open spec fn markup_prefix(xml: Seq<char>, n: nat) -> Seq<XmlEvent> {
    Seq::new(n, |i: int| markup_event(xml, i as nat))
}

/// `n` is the position of the first event at which reading stops.
pub open spec fn is_stop(xml: Seq<char>, n: nat) -> bool {
    stops(markup_event(xml, n)) && forall|i: nat| i < n ==> !stops(#[trigger] markup_event(xml, i))
}

/// What markup decodes to: its events up to and including the first that
/// ends reading, decoded by `decoded`. Every event but the last consumes part
/// of the markup, so a reader that gives more events than the markup has
/// bytes no longer advances, and such markup decodes to nothing.
pub open spec fn markup_decoded(xml: Seq<char>) -> Option<Json> {
    if exists|n: nat| n <= encode_utf8(xml).len() && is_stop(xml, n) {
        let n = choose|n: nat| n <= encode_utf8(xml).len() && is_stop(xml, n);
        decoded(markup_prefix(xml, n + 1))
    } else {
        None
    }
}

/// Decoding markup is a function of the markup: two decodes of the same
/// markup give structurally equal values.
pub proof fn lemma_markup_decode_deterministic(a: Seq<char>, b: Seq<char>, va: Value, vb: Value)
    requires
        a == b,
        markup_decoded(a) == Some(va.model()),
        markup_decoded(b) == Some(vb.model()),
    ensures
        va.model() == vb.model(),
{
}

/// Converts markup into a `Value`: the reader's events, up to the end of the
/// markup or its first error, decoded by `decode_events`.
pub fn to_json(xml: &str) -> (r: Result<Value, Error>)
    ensures
        match r {
            Ok(v) => markup_decoded(xml@) == Some(v.model()) && keys_unique_deep(v.model()),
            Err(e) => markup_decoded(xml@) is None && e == Error::Decode,
        },
{
    let mut src = open_markup(xml);
    let mut events: Vec<XmlEvent> = Vec::new();
    let mut count: usize = 0;
    let limit = xml.as_bytes().len();
    let ghost x = xml@;
    assert(events@ =~= markup_prefix(x, 0));
    loop
        invariant
            count <= limit,
            x == xml@,
            limit == encode_utf8(x).len(),
            reader_source(src) == x,
            reader_position(src) == count,
            events@ == markup_prefix(x, count as nat),
            forall|i: nat| i < count ==> !stops(#[trigger] markup_event(x, i)),
        decreases limit - count,
    {
        let e = next_event(&mut src);
        let last = matches!(e, XmlEvent::Eof | XmlEvent::Malformed);
        events.push(e);
        assert(events@ =~= markup_prefix(x, count as nat + 1));
        if last {
            proof {
                assert(is_stop(x, count as nat));
                assert forall|n: nat| n <= encode_utf8(x).len() && is_stop(x, n) implies n == count by {
                    if n < count {
                        assert(!stops(markup_event(x, n)));
                    } else if n > count {
                        assert(!stops(markup_event(x, count as nat)));
                    }
                }
                let c = count as nat;
                assert(c <= encode_utf8(x).len() && is_stop(x, c));
                let n = choose|n: nat| n <= encode_utf8(x).len() && is_stop(x, n);
                assert(n == c);
                assert(markup_decoded(x) == decoded(markup_prefix(x, c + 1)));
            }
            return decode_events(&events);
        }
        if count == limit {
            proof {
                assert forall|n: nat| n <= encode_utf8(x).len() implies !is_stop(x, n) by {
                    assert(!stops(markup_event(x, n)));
                }
                assert(!(exists|n: nat| n <= encode_utf8(x).len() && is_stop(x, n)));
                assert(markup_decoded(x) is None);
            }
            return Err(Error::Decode);
        }
        count = count + 1;
    }
}

} // verus!
