use vstd::prelude::*;
use crate::text::{push_char, push_indent, push_str, spaces};

verus! {

/// A JSON document as the formatter sees it.
#[derive(Debug, PartialEq, Eq)]
pub enum JsonValue {
    Null,
    Bool(bool),
    /// The number's text, exactly as it is written back out.
    Number(String),
    Str(String),
    Array(Vec<JsonValue>),
    /// Members in document order.
    Object(Vec<(String, JsonValue)>),
}

/// The mathematical value of a JSON document: numbers by their text, strings
/// as characters, arrays and objects as sequences in document order.
pub enum Json {
    Null,
    Bool(bool),
    Number(Seq<char>),
    Str(Seq<char>),
    Array(Seq<Json>),
    Object(Seq<(Seq<char>, Json)>),
}

pub open spec fn json_of(v: JsonValue) -> Json
    decreases v,
{
    match v {
        JsonValue::Null => Json::Null,
        JsonValue::Bool(b) => Json::Bool(b),
        JsonValue::Number(t) => Json::Number(t@),
        JsonValue::Str(s) => Json::Str(s@),
        JsonValue::Array(a) => Json::Array(json_items(a@)),
        JsonValue::Object(m) => Json::Object(json_members(m@)),
    }
}

pub open spec fn json_items(s: Seq<JsonValue>) -> Seq<Json>
    decreases s,
{
    if s.len() == 0 {
        Seq::empty()
    } else {
        json_items(s.drop_last()).push(json_of(s.last()))
    }
}

pub open spec fn json_members(s: Seq<(String, JsonValue)>) -> Seq<(Seq<char>, Json)>
    decreases s,
{
    if s.len() == 0 {
        Seq::empty()
    } else {
        json_members(s.drop_last()).push((s.last().0@, json_of(s.last().1)))
    }
}

impl View for JsonValue {
    type V = Json;

    open spec fn view(&self) -> Json {
        json_of(*self)
    }
}

pub proof fn lemma_json_items(s: Seq<JsonValue>)
    ensures
        json_items(s).len() == s.len(),
        forall|i: int| 0 <= i < s.len() ==> #[trigger] json_items(s)[i] == s[i]@,
    decreases s.len(),
{
    if s.len() > 0 {
        lemma_json_items(s.drop_last());
    }
}

pub proof fn lemma_json_members(s: Seq<(String, JsonValue)>)
    ensures
        json_members(s).len() == s.len(),
        forall|i: int| 0 <= i < s.len() ==> #[trigger] json_members(s)[i] == (s[i].0@, s[i].1@),
    decreases s.len(),
{
    if s.len() > 0 {
        lemma_json_members(s.drop_last());
    }
}

pub open spec fn hex_digit(d: int) -> char {
    seq!['0', '1', '2', '3', '4', '5', '6', '7', '8', '9', 'a', 'b', 'c', 'd', 'e', 'f'][d]
}

/// How one character of a string is written inside JSON quotes.
pub open spec fn escape_char(c: char) -> Seq<char> {
    if c == '"' {
        seq!['\\', '"']
    } else if c == '\\' {
        seq!['\\', '\\']
    } else if c == '\x08' {
        seq!['\\', 'b']
    } else if c == '\t' {
        seq!['\\', 't']
    } else if c == '\n' {
        seq!['\\', 'n']
    } else if c == '\x0C' {
        seq!['\\', 'f']
    } else if c == '\r' {
        seq!['\\', 'r']
    } else if (c as u32) < 0x20 {
        seq!['\\', 'u', '0', '0', hex_digit((c as u32) as int / 16), hex_digit((c as u32) as int % 16)]
    } else {
        seq![c]
    }
}

pub open spec fn escape(s: Seq<char>) -> Seq<char>
    decreases s.len(),
{
    if s.len() == 0 {
        Seq::empty()
    } else {
        escape(s.drop_last()) + escape_char(s.last())
    }
}

pub open spec fn quoted(s: Seq<char>) -> Seq<char> {
    seq!['"'] + escape(s) + seq!['"']
}

/// Text of a value as `serde_json::to_string` writes it.
pub open spec fn compact(v: Json) -> Seq<char>
    decreases v,
{
    match v {
        Json::Null => seq!['n', 'u', 'l', 'l'],
        Json::Bool(b) => if b { seq!['t', 'r', 'u', 'e'] } else { seq!['f', 'a', 'l', 's', 'e'] },
        Json::Number(t) => t,
        Json::Str(s) => quoted(s),
        Json::Array(a) => seq!['['] + compact_items(a) + seq![']'],
        Json::Object(o) => seq!['{'] + compact_members(o) + seq!['}'],
    }
}

pub open spec fn compact_items(s: Seq<Json>) -> Seq<char>
    decreases s,
{
    if s.len() == 0 {
        Seq::empty()
    } else if s.len() == 1 {
        compact(s[0])
    } else {
        compact_items(s.drop_last()) + seq![','] + compact(s.last())
    }
}

pub open spec fn compact_members(s: Seq<(Seq<char>, Json)>) -> Seq<char>
    decreases s,
{
    if s.len() == 0 {
        Seq::empty()
    } else if s.len() == 1 {
        quoted(s[0].0) + seq![':'] + compact(s[0].1)
    } else {
        compact_members(s.drop_last()) + seq![','] + quoted(s.last().0) + seq![':'] + compact(s.last().1)
    }
}


fn hex_char(d: u32) -> (c: char)
    requires
        d < 16,
    ensures
        c == hex_digit(d as int),
{
    let digits: [char; 16] = ['0', '1', '2', '3', '4', '5', '6', '7', '8', '9', 'a', 'b', 'c', 'd', 'e', 'f'];
    assert(digits@ =~= seq!['0', '1', '2', '3', '4', '5', '6', '7', '8', '9', 'a', 'b', 'c', 'd', 'e', 'f']);
    digits[d as usize]
}

fn push_escaped_char(c: char, out: &mut String)
    ensures
        final(out)@ == old(out)@ + escape_char(c),
{
    let code = c as u32;
    if c == '"' {
        push_char(out, '\\');
        push_char(out, '"');
    } else if c == '\\' {
        push_char(out, '\\');
        push_char(out, '\\');
    } else if c == '\x08' {
        push_char(out, '\\');
        push_char(out, 'b');
    } else if c == '\t' {
        push_char(out, '\\');
        push_char(out, 't');
    } else if c == '\n' {
        push_char(out, '\\');
        push_char(out, 'n');
    } else if c == '\x0C' {
        push_char(out, '\\');
        push_char(out, 'f');
    } else if c == '\r' {
        push_char(out, '\\');
        push_char(out, 'r');
    } else if code < 0x20 {
        push_char(out, '\\');
        push_char(out, 'u');
        push_char(out, '0');
        push_char(out, '0');
        let hi = hex_char(code / 16);
        let lo = hex_char(code % 16);
        push_char(out, hi);
        push_char(out, lo);
    } else {
        push_char(out, c);
    }
    assert(out@ =~= old(out)@ + escape_char(c));
}

pub(crate) fn push_escaped(s: &str, out: &mut String)
    ensures
        final(out)@ == old(out)@ + escape(s@),
{
    let ghost start = out@;
    broadcast use vstd::string::group_string_axioms;
    assert(s@.take(0) =~= Seq::<char>::empty());
    for c in it: s.chars()
        invariant
            it.seq() == s@,
            out@ == start + escape(s@.take(it.index() as int)),
    {
        assert(s@.take(it.index() + 1).drop_last() =~= s@.take(it.index() as int));
        push_escaped_char(c, out);
    }
    assert(s@.take(s@.len() as int) =~= s@);
}


/// Keys of an object's members are pairwise different.
pub open spec fn keys_distinct(m: Seq<(Seq<char>, Json)>) -> bool {
    forall|i: int, j: int| 0 <= i < j < m.len() ==> m[i].0 != m[j].0
}

impl Json {
    /// Every object in the value has pairwise different keys, as every
    /// parsed JSON map has.
    pub open spec fn wf(self) -> bool
        decreases self,
    {
        match self {
            Json::Array(a) => forall|i: int| 0 <= i < a.len() ==> (#[trigger] a[i]).wf(),
            Json::Object(o) => keys_distinct(o) && forall|i: int| 0 <= i < o.len() ==> (#[trigger] o[i]).1.wf(),
            _ => true,
        }
    }
}

/// Text of a value as `serde_json::to_string_pretty` writes it, at nesting `d`.
pub open spec fn pretty(v: Json, d: nat) -> Seq<char>
    decreases v,
{
    match v {
        Json::Array(a) => if a.len() == 0 {
            seq!['[', ']']
        } else {
            seq!['[', '\n'] + pretty_items(a, d) + seq!['\n'] + spaces(2 * d) + seq![']']
        },
        Json::Object(o) => if o.len() == 0 {
            seq!['{', '}']
        } else {
            seq!['{', '\n'] + pretty_members(o, d) + seq!['\n'] + spaces(2 * d) + seq!['}']
        },
        _ => compact(v),
    }
}

pub open spec fn pretty_items(s: Seq<Json>, d: nat) -> Seq<char>
    decreases s,
{
    if s.len() == 0 {
        Seq::empty()
    } else if s.len() == 1 {
        spaces(2 * (d + 1)) + pretty(s[0], d + 1)
    } else {
        pretty_items(s.drop_last(), d) + seq![',', '\n'] + spaces(2 * (d + 1)) + pretty(s.last(), d + 1)
    }
}

pub open spec fn pretty_members(s: Seq<(Seq<char>, Json)>, d: nat) -> Seq<char>
    decreases s,
{
    if s.len() == 0 {
        Seq::empty()
    } else if s.len() == 1 {
        spaces(2 * (d + 1)) + quoted(s[0].0) + seq![':', ' '] + pretty(s[0].1, d + 1)
    } else {
        pretty_members(s.drop_last(), d) + seq![',', '\n'] + spaces(2 * (d + 1)) + quoted(s.last().0)
            + seq![':', ' '] + pretty(s.last().1, d + 1)
    }
}

/// Length in bytes of the UTF-8 encoding, as `str::len` reports it.
pub open spec fn byte_len(s: Seq<char>) -> usize {
    vstd::utf8::encode_utf8(s).len() as usize
}

/// A preview of text `s` cut at `n` bytes cuts at a character boundary.
pub open spec fn cut_ok(s: Seq<char>, n: usize) -> bool {
    byte_len(s) > n ==> vstd::utf8::is_char_boundary(vstd::utf8::encode_utf8(s), n as int)
}

/// The first `n` bytes of `s` followed by `...` when `s` is longer than `n`
/// bytes, else `s`.
pub open spec fn cut_preview(s: Seq<char>, n: usize) -> Seq<char> {
    if byte_len(s) > n {
        vstd::utf8::decode_utf8(vstd::utf8::encode_utf8(s).subrange(0, n as int)) + seq!['.', '.', '.']
    } else {
        s
    }
}

/// Counts gathered over a whole value: nodes, greatest nesting depth,
/// arrays, longest array, objects and object keys.
pub struct Tally {
    pub nodes: nat,
    pub depth: nat,
    pub arrays: nat,
    pub max_array_len: nat,
    pub objects: nat,
    pub keys: nat,
}

pub open spec fn tally_zero() -> Tally {
    Tally { nodes: 0, depth: 0, arrays: 0, max_array_len: 0, objects: 0, keys: 0 }
}

pub open spec fn nat_max(a: nat, b: nat) -> nat {
    if a >= b { a } else { b }
}

pub open spec fn tally_join(a: Tally, b: Tally) -> Tally {
    Tally {
        nodes: a.nodes + b.nodes,
        depth: nat_max(a.depth, b.depth),
        arrays: a.arrays + b.arrays,
        max_array_len: nat_max(a.max_array_len, b.max_array_len),
        objects: a.objects + b.objects,
        keys: a.keys + b.keys,
    }
}

pub open spec fn tally(v: Json) -> Tally
    decreases v,
{
    match v {
        Json::Array(a) => {
            let c = tally_items(a);
            Tally {
                nodes: c.nodes + 1,
                depth: if a.len() == 0 { 0 } else { c.depth + 1 },
                arrays: c.arrays + 1,
                max_array_len: nat_max(a.len(), c.max_array_len),
                objects: c.objects,
                keys: c.keys,
            }
        },
        Json::Object(o) => {
            let c = tally_members(o);
            Tally {
                nodes: c.nodes + 1,
                depth: if o.len() == 0 { 0 } else { c.depth + 1 },
                arrays: c.arrays,
                max_array_len: c.max_array_len,
                objects: c.objects + 1,
                keys: c.keys + o.len(),
            }
        },
        _ => Tally { nodes: 1, depth: 0, arrays: 0, max_array_len: 0, objects: 0, keys: 0 },
    }
}

pub open spec fn tally_items(s: Seq<Json>) -> Tally
    decreases s,
{
    if s.len() == 0 {
        tally_zero()
    } else {
        tally_join(tally_items(s.drop_last()), tally(s.last()))
    }
}

pub open spec fn tally_members(s: Seq<(Seq<char>, Json)>) -> Tally
    decreases s,
{
    if s.len() == 0 {
        tally_zero()
    } else {
        tally_join(tally_members(s.drop_last()), tally(s.last().1))
    }
}

pub proof fn lemma_tally_items_depth(s: Seq<Json>, i: int)
    requires
        0 <= i < s.len(),
    ensures
        tally(s[i]).depth <= tally_items(s).depth,
        tally_items(s.take(i)).depth <= tally_items(s).depth,
    decreases s.len(),
{
    if i < s.len() - 1 {
        lemma_tally_items_depth(s.drop_last(), i);
        assert(s.drop_last()[i] == s[i]);
        assert(s.drop_last().take(i) =~= s.take(i));
    } else {
        assert(s.drop_last() =~= s.take(i));
    }
}

pub proof fn lemma_tally_members_depth(s: Seq<(Seq<char>, Json)>, i: int)
    requires
        0 <= i < s.len(),
    ensures
        tally(s[i].1).depth <= tally_members(s).depth,
        tally_members(s.take(i)).depth <= tally_members(s).depth,
    decreases s.len(),
{
    if i < s.len() - 1 {
        lemma_tally_members_depth(s.drop_last(), i);
        assert(s.drop_last()[i] == s[i]);
        assert(s.drop_last().take(i) =~= s.take(i));
    } else {
        assert(s.drop_last() =~= s.take(i));
    }
}

/// Every field of `a` is at most the same field of `b`.
pub open spec fn tally_le(a: Tally, b: Tally) -> bool {
    a.nodes <= b.nodes && a.depth <= b.depth && a.arrays <= b.arrays && a.max_array_len
        <= b.max_array_len && a.objects <= b.objects && a.keys <= b.keys
}

pub proof fn lemma_tally_items_parts(s: Seq<Json>, i: int)
    requires
        0 <= i <= s.len(),
    ensures
        tally_le(tally_items(s.take(i)), tally_items(s)),
        i < s.len() ==> tally_le(tally(s[i]), tally_items(s)),
    decreases s.len(),
{
    if i == s.len() {
        assert(s.take(i) =~= s);
    } else {
        lemma_tally_items_parts(s.drop_last(), i);
        if i < s.len() - 1 {
            assert(s.drop_last()[i] == s[i]);
            assert(s.drop_last().take(i) =~= s.take(i));
        } else {
            assert(s.drop_last() =~= s.take(i));
        }
    }
}

pub proof fn lemma_tally_members_parts(s: Seq<(Seq<char>, Json)>, i: int)
    requires
        0 <= i <= s.len(),
    ensures
        tally_le(tally_members(s.take(i)), tally_members(s)),
        i < s.len() ==> tally_le(tally(s[i].1), tally_members(s)),
    decreases s.len(),
{
    if i == s.len() {
        assert(s.take(i) =~= s);
    } else {
        lemma_tally_members_parts(s.drop_last(), i);
        if i < s.len() - 1 {
            assert(s.drop_last()[i] == s[i]);
            assert(s.drop_last().take(i) =~= s.take(i));
        } else {
            assert(s.drop_last() =~= s.take(i));
        }
    }
}

/// Each count is bounded by the number of nodes.
pub proof fn lemma_tally_bounds(v: Json)
    ensures
        tally(v).arrays + tally(v).objects <= tally(v).nodes,
        tally(v).keys + 1 <= tally(v).nodes,
        tally(v).depth + 1 <= tally(v).nodes,
        tally(v).max_array_len + 1 <= tally(v).nodes,
    decreases v,
{
    match v {
        Json::Array(a) => lemma_tally_items_bounds(a),
        Json::Object(o) => lemma_tally_members_bounds(o),
        _ => {},
    }
}

pub proof fn lemma_tally_items_bounds(s: Seq<Json>)
    ensures
        tally_items(s).arrays + tally_items(s).objects <= tally_items(s).nodes,
        tally_items(s).keys + s.len() <= tally_items(s).nodes,
        s.len() > 0 ==> tally_items(s).depth + 1 <= tally_items(s).nodes,
        tally_items(s).max_array_len + (if s.len() > 0 { 1int } else { 0int }) <= tally_items(s).nodes,
    decreases s,
{
    if s.len() > 0 {
        lemma_tally_items_bounds(s.drop_last());
        lemma_tally_bounds(s.last());
    }
}

pub proof fn lemma_tally_members_bounds(s: Seq<(Seq<char>, Json)>)
    ensures
        tally_members(s).arrays + tally_members(s).objects <= tally_members(s).nodes,
        tally_members(s).keys + s.len() <= tally_members(s).nodes,
        s.len() > 0 ==> tally_members(s).depth + 1 <= tally_members(s).nodes,
        tally_members(s).max_array_len + (if s.len() > 0 { 1int } else { 0int }) <= tally_members(s).nodes,
    decreases s,
{
    if s.len() > 0 {
        lemma_tally_members_bounds(s.drop_last());
        lemma_tally_bounds(s.last().1);
    }
}

/// Name of the kind of a value.
pub open spec fn base_name(v: Json) -> Seq<char> {
    match v {
        Json::Null => "null"@,
        Json::Bool(_) => "boolean"@,
        Json::Number(_) => "number"@,
        Json::Str(_) => "string"@,
        Json::Array(_) => "array"@,
        Json::Object(_) => "object"@,
    }
}

/// Null, a boolean, a number or a string.
pub open spec fn is_scalar(v: Json) -> bool {
    !(v is Array) && !(v is Object)
}


fn push_items(a: &Vec<JsonValue>, out: &mut String)
    ensures
        final(out)@ == old(out)@ + compact_items(json_items(a@)),
    decreases a@,
{
    let ghost js = json_items(a@);
    proof { lemma_json_items(a@); }
    let ghost start = out@;
    let mut i: usize = 0;
    while i < a.len()
        invariant
            i <= a.len(),
            js == json_items(a@),
            js.len() == a.len(),
            forall|k: int| 0 <= k < a.len() ==> #[trigger] js[k] == a@[k]@,
            out@ == start + compact_items(js.take(i as int)),
        decreases a.len() - i,
    {
        if i > 0 {
            push_char(out, ',');
        }
        assert(decreases_to!(a@ => a@[i as int]));
        write_compact(&a[i], out);
        assert(js.take(i + 1).drop_last() =~= js.take(i as int));
        assert(js.take(i + 1).last() == js[i as int]);
        i = i + 1;
    }
    assert(js.take(a.len() as int) =~= js);
}

fn push_key(k: &String, out: &mut String)
    ensures
        final(out)@ == old(out)@ + quoted(k@),
{
    push_char(out, '"');
    push_escaped(k.as_str(), out);
    push_char(out, '"');
}

fn push_members(m: &Vec<(String, JsonValue)>, out: &mut String)
    ensures
        final(out)@ == old(out)@ + compact_members(json_members(m@)),
    decreases m@,
{
    let ghost js = json_members(m@);
    proof { lemma_json_members(m@); }
    let ghost start = out@;
    let mut i: usize = 0;
    while i < m.len()
        invariant
            i <= m.len(),
            js == json_members(m@),
            js.len() == m.len(),
            forall|k: int| 0 <= k < m.len() ==> #[trigger] js[k] == (m@[k].0@, m@[k].1@),
            out@ == start + compact_members(js.take(i as int)),
        decreases m.len() - i,
    {
        if i > 0 {
            push_char(out, ',');
        }
        let ghost before = out@;
        push_key(&m[i].0, out);
        push_char(out, ':');
        assert(decreases_to!(m@ => m@[i as int].1));
        write_compact(&m[i].1, out);
        assert(js.take(i + 1).drop_last() =~= js.take(i as int));
        assert(js.take(i + 1).last() == js[i as int]);
        i = i + 1;
    }
    assert(js.take(m.len() as int) =~= js);
}

/// Appends the compact JSON text of `v`.
pub fn write_compact(v: &JsonValue, out: &mut String)
    ensures
        final(out)@ == old(out)@ + compact(v@),
    decreases v,
{
    match v {
        JsonValue::Null => {
            push_str(out, "null");
            proof { reveal_strlit("null"); }
        },
        JsonValue::Bool(b) => {
            if *b {
                push_str(out, "true");
                proof { reveal_strlit("true"); }
            } else {
                push_str(out, "false");
                proof { reveal_strlit("false"); }
            }
        },
        JsonValue::Number(t) => {
            push_str(out, t.as_str());
        },
        JsonValue::Str(s) => {
            push_key(s, out);
        },
        JsonValue::Array(a) => {
            push_char(out, '[');
            push_items(a, out);
            push_char(out, ']');
        },
        JsonValue::Object(m) => {
            push_char(out, '{');
            push_members(m, out);
            push_char(out, '}');
        },
    }
    assert(out@ =~= old(out)@ + compact(v@));
}

/// The compact JSON text of `v`, as `serde_json::to_string` writes it.
pub fn to_compact(v: &JsonValue) -> (r: String)
    ensures
        r@ == compact(v@),
{
    let mut r = String::new();
    write_compact(v, &mut r);
    assert(r@ =~= compact(v@));
    r
}

fn push_pretty_items(a: &Vec<JsonValue>, d: usize, out: &mut String)
    requires
        d + 1 + tally_items(json_items(a@)).depth <= usize::MAX,
    ensures
        final(out)@ == old(out)@ + pretty_items(json_items(a@), d as nat),
    decreases a@,
{
    let ghost js = json_items(a@);
    proof { lemma_json_items(a@); }
    let ghost start = out@;
    let mut i: usize = 0;
    while i < a.len()
        invariant
            i <= a.len(),
            js == json_items(a@),
            js.len() == a.len(),
            forall|k: int| 0 <= k < a.len() ==> #[trigger] js[k] == a@[k]@,
            d + 1 + tally_items(js).depth <= usize::MAX,
            out@ == start + pretty_items(js.take(i as int), d as nat),
        decreases a.len() - i,
    {
        if i > 0 {
            push_char(out, ',');
            push_char(out, '\n');
        }
        push_indent(out, d + 1);
        assert(decreases_to!(a@ => a@[i as int]));
        proof { lemma_tally_items_depth(js, i as int); }
        write_pretty(&a[i], d + 1, out);
        assert(js.take(i + 1).drop_last() =~= js.take(i as int));
        assert(js.take(i + 1).last() == js[i as int]);
        assert(out@ =~= start + pretty_items(js.take(i + 1), d as nat));
        i = i + 1;
    }
    assert(js.take(a.len() as int) =~= js);
}

fn push_member_head(k: &String, levels: usize, out: &mut String)
    ensures
        final(out)@ == old(out)@ + spaces(2 * levels as nat) + quoted(k@) + seq![':', ' '],
{
    let ghost start = out@;
    push_indent(out, levels);
    push_key(k, out);
    push_char(out, ':');
    push_char(out, ' ');
    assert(out@ =~= start + spaces(2 * levels as nat) + quoted(k@) + seq![':', ' ']);
}

fn push_pretty_members(m: &Vec<(String, JsonValue)>, d: usize, out: &mut String)
    requires
        d + 1 + tally_members(json_members(m@)).depth <= usize::MAX,
    ensures
        final(out)@ == old(out)@ + pretty_members(json_members(m@), d as nat),
    decreases m@,
{
    let ghost js = json_members(m@);
    proof { lemma_json_members(m@); }
    let ghost start = out@;
    let mut i: usize = 0;
    while i < m.len()
        invariant
            i <= m.len(),
            js == json_members(m@),
            js.len() == m.len(),
            forall|k: int| 0 <= k < m.len() ==> #[trigger] js[k] == (m@[k].0@, m@[k].1@),
            d + 1 + tally_members(js).depth <= usize::MAX,
            out@ == start + pretty_members(js.take(i as int), d as nat),
        decreases m.len() - i,
    {
        if i > 0 {
            push_char(out, ',');
            push_char(out, '\n');
        }
        push_member_head(&m[i].0, d + 1, out);
        assert(decreases_to!(m@ => m@[i as int].1));
        proof { lemma_tally_members_depth(js, i as int); }
        write_pretty(&m[i].1, d + 1, out);
        assert(js.take(i + 1).drop_last() =~= js.take(i as int));
        assert(js.take(i + 1).last() == js[i as int]);
        assert(out@ =~= start + pretty_members(js.take(i + 1), d as nat));
        i = i + 1;
    }
    assert(js.take(m.len() as int) =~= js);
}

/// Appends the indented JSON text of `v` at nesting `d`.
pub fn write_pretty(v: &JsonValue, d: usize, out: &mut String)
    requires
        d + tally(v@).depth <= usize::MAX,
    ensures
        final(out)@ == old(out)@ + pretty(v@, d as nat),
    decreases v,
{
    match v {
        JsonValue::Array(a) => {
            if a.len() == 0 {
                push_char(out, '[');
                push_char(out, ']');
                proof { lemma_json_items(a@); }
            } else {
                proof { lemma_json_items(a@); }
                push_char(out, '[');
                push_char(out, '\n');
                push_pretty_items(a, d, out);
                push_char(out, '\n');
                push_indent(out, d);
                push_char(out, ']');
            }
        },
        JsonValue::Object(m) => {
            if m.len() == 0 {
                push_char(out, '{');
                push_char(out, '}');
                proof { lemma_json_members(m@); }
            } else {
                proof { lemma_json_members(m@); }
                push_char(out, '{');
                push_char(out, '\n');
                push_pretty_members(m, d, out);
                push_char(out, '\n');
                push_indent(out, d);
                push_char(out, '}');
            }
        },
        _ => {
            write_compact(v, out);
        },
    }
    assert(out@ =~= old(out)@ + pretty(v@, d as nat));
}

impl Clone for JsonValue {
    fn clone(&self) -> (r: Self)
        ensures
            r@ == self@,
    {
        self.deep_copy()
    }
}

impl JsonValue {
    /// A copy of the value.
    #[verifier::loop_isolation(false)]
    pub fn deep_copy(&self) -> (r: JsonValue)
        ensures
            r@ == self@,
        decreases self,
    {
        match self {
            JsonValue::Null => JsonValue::Null,
            JsonValue::Bool(b) => JsonValue::Bool(*b),
            JsonValue::Number(t) => JsonValue::Number(t.clone()),
            JsonValue::Str(t) => JsonValue::Str(t.clone()),
            JsonValue::Array(a) => {
                let mut r: Vec<JsonValue> = Vec::new();
                let mut i: usize = 0;
                while i < a.len()
                    invariant
                        i <= a.len(),
                        json_items(r@) == json_items(a@.take(i as int)),
                    decreases a.len() - i,
                {
                    assert(decreases_to!(a@ => a@[i as int]));
                    let x = a[i].deep_copy();
                    let ghost old_r = r@;
                    r.push(x);
                    assert(r@.drop_last() =~= old_r);
                    assert(a@.take(i + 1).drop_last() =~= a@.take(i as int));
                    i = i + 1;
                }
                assert(a@.take(a.len() as int) =~= a@);
                JsonValue::Array(r)
            },
            JsonValue::Object(m) => {
                let mut r: Vec<(String, JsonValue)> = Vec::new();
                let mut i: usize = 0;
                while i < m.len()
                    invariant
                        i <= m.len(),
                        json_members(r@) == json_members(m@.take(i as int)),
                    decreases m.len() - i,
                {
                    assert(decreases_to!(m@ => m@[i as int].1));
                    let x = m[i].1.deep_copy();
                    let k = m[i].0.clone();
                    let ghost old_r = r@;
                    r.push((k, x));
                    assert(r@.drop_last() =~= old_r);
                    assert(m@.take(i + 1).drop_last() =~= m@.take(i as int));
                    i = i + 1;
                }
                assert(m@.take(m.len() as int) =~= m@);
                JsonValue::Object(r)
            },
        }
    }

    /// Null, a boolean, a number or a string.
    pub fn is_scalar(&self) -> (r: bool)
        ensures
            r == is_scalar(self@),
    {
        match self {
            JsonValue::Array(_) => false,
            JsonValue::Object(_) => false,
            _ => true,
        }
    }

    pub fn is_object(&self) -> (r: bool)
        ensures
            r == (self@ is Object),
    {
        match self {
            JsonValue::Object(_) => true,
            _ => false,
        }
    }
}

/// The compact text of `v`, cut after `n` bytes with `...` appended when it
/// is longer.
/// The first `n` characters of `s`, followed by `...` where `s` is longer.
pub open spec fn char_preview(s: Seq<char>, n: nat) -> Seq<char> {
    if s.len() > n {
        s.take(n as int) + seq!['.', '.', '.']
    } else {
        s
    }
}

/// The first `n` characters of the compact text of `v`, followed by `...`
/// where the text is longer.
pub fn char_preview_of(v: &JsonValue, n: usize) -> (r: String)
    ensures
        r@ == char_preview(compact(v@), n as nat),
{
    let s = to_compact(v);
    let cs = crate::text::chars_of(s.as_str());
    if cs.len() > n {
        let mut r = String::new();
        let mut i: usize = 0;
        while i < n
            invariant
                i <= n < cs@.len(),
                cs@ == compact(v@),
                r@ == cs@.take(i as int),
            decreases n - i,
        {
            push_char(&mut r, cs[i]);
            assert(r@ =~= cs@.take(i + 1));
            i = i + 1;
        }
        push_str(&mut r, "...");
        proof {
            reveal_strlit("...");
        }
        assert(r@ =~= char_preview(compact(v@), n as nat));
        r
    } else {
        s
    }
}

pub fn preview(v: &JsonValue, n: usize) -> (r: String)
    requires
        cut_ok(compact(v@), n),
    ensures
        r@ == cut_preview(compact(v@), n),
{
    let s = to_compact(v);
    if s.as_str().len() > n {
        let (head, _) = s.as_str().split_at(n);
        proof {
            vstd::utf8::encode_utf8_decode_utf8(head@);
        }
        let mut r = head.to_owned();
        push_str(&mut r, "...");
        proof {
            reveal_strlit("...");
        }
        assert(r@ =~= cut_preview(compact(v@), n));
        r
    } else {
        s
    }
}


/// The number of values in `v`, `v` included, or `None` when it does not fit
/// in a `usize`.
#[verifier::loop_isolation(false)]
pub fn count_nodes(v: &JsonValue) -> (r: Option<usize>)
    ensures
        match r {
            Some(c) => c == tally(v@).nodes,
            None => tally(v@).nodes > usize::MAX,
        },
    decreases v,
{
    match v {
        JsonValue::Array(a) => {
            let ghost js = json_items(a@);
            proof { lemma_json_items(a@); }
            let mut total: usize = 1;
            let mut i: usize = 0;
            while i < a.len()
                invariant
                    i <= a.len(),
                    js == json_items(a@),
                    js.len() == a.len(),
                    forall|k: int| 0 <= k < a.len() ==> #[trigger] js[k] == a@[k]@,
                    total == 1 + tally_items(js.take(i as int)).nodes,
                decreases a.len() - i,
            {
                assert(decreases_to!(a@ => a@[i as int]));
                assert(js.take(i + 1).drop_last() =~= js.take(i as int));
                assert(js.take(i + 1).last() == js[i as int]);
                proof { lemma_tally_items_parts(js, i + 1); }
                match count_nodes(&a[i]) {
                    Some(c) => {
                        if c > usize::MAX - total {
                            assert(js.take(js.len() as int) =~= js);
                            return None;
                        }
                        total = total + c;
                    },
                    None => {
                        proof { lemma_tally_items_parts(js, i as int); }
                        return None;
                    },
                }
                i = i + 1;
            }
            assert(js.take(a.len() as int) =~= js);
            Some(total)
        },
        JsonValue::Object(m) => {
            let ghost js = json_members(m@);
            proof { lemma_json_members(m@); }
            let mut total: usize = 1;
            let mut i: usize = 0;
            while i < m.len()
                invariant
                    i <= m.len(),
                    js == json_members(m@),
                    js.len() == m.len(),
                    forall|k: int| 0 <= k < m.len() ==> #[trigger] js[k] == (m@[k].0@, m@[k].1@),
                    total == 1 + tally_members(js.take(i as int)).nodes,
                decreases m.len() - i,
            {
                assert(decreases_to!(m@ => m@[i as int].1));
                assert(js.take(i + 1).drop_last() =~= js.take(i as int));
                assert(js.take(i + 1).last() == js[i as int]);
                proof { lemma_tally_members_parts(js, i + 1); }
                match count_nodes(&m[i].1) {
                    Some(c) => {
                        if c > usize::MAX - total {
                            return None;
                        }
                        total = total + c;
                    },
                    None => {
                        proof { lemma_tally_members_parts(js, i as int); }
                        return None;
                    },
                }
                i = i + 1;
            }
            assert(js.take(m.len() as int) =~= js);
            Some(total)
        },
        _ => Some(1),
    }
}

} // verus!
