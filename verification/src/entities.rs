use vstd::prelude::*;
use crate::parse::{parsed, read_json};
use crate::sort::strings_view;
use crate::value::{json_items, lemma_json_items, Json, JsonValue};
use crate::text::{chars_of, string_of};

verus! {

/// The characters with the Unicode `White_Space` property, those for which
/// `char::is_whitespace` holds.
pub open spec fn is_white_space(c: char) -> bool {
    let u = c as u32;
    (0x09 <= u && u <= 0x0D) || u == 0x20 || u == 0x85 || u == 0xA0 || u == 0x1680 || (0x2000 <= u && u <= 0x200A)
        || u == 0x2028 || u == 0x2029 || u == 0x202F || u == 0x205F || u == 0x3000
}

/// `s` without its leading white space.
pub open spec fn trim_start(s: Seq<char>) -> Seq<char>
    decreases s.len(),
{
    if s.len() > 0 && is_white_space(s[0]) {
        trim_start(s.drop_first())
    } else {
        s
    }
}

/// `s` without its trailing white space.
pub open spec fn trim_end(s: Seq<char>) -> Seq<char>
    decreases s.len(),
{
    if s.len() > 0 && is_white_space(s.last()) {
        trim_end(s.drop_last())
    } else {
        s
    }
}

/// `s` without leading and trailing white space, as `str::trim` gives it.
pub open spec fn trimmed(s: Seq<char>) -> Seq<char> {
    trim_end(trim_start(s))
}

/// The pieces of `s` between commas, as `str::split(',')` gives them: one
/// more piece than there are commas, empty pieces included.
pub open spec fn split_commas(s: Seq<char>) -> Seq<Seq<char>>
    decreases s.len(),
{
    if s.len() == 0 {
        seq![Seq::empty()]
    } else {
        let p = split_commas(s.drop_last());
        if s.last() == ',' {
            p.push(Seq::empty())
        } else {
            p.update(p.len() - 1, p.last().push(s.last()))
        }
    }
}

/// The comma-separated pieces of `s`, each trimmed.
pub open spec fn comma_parts(s: Seq<char>) -> Seq<Seq<char>> {
    split_commas(s).map_values(|p: Seq<char>| trimmed(p))
}

proof fn lemma_split_commas_len(s: Seq<char>)
    ensures
        split_commas(s).len() >= 1,
    decreases s.len(),
{
    if s.len() > 0 {
        lemma_split_commas_len(s.drop_last());
    }
}

proof fn lemma_trim_start_shape(s: Seq<char>) -> (a: int)
    ensures
        0 <= a <= s.len(),
        trim_start(s) == s.subrange(a, s.len() as int),
        forall|i: int| 0 <= i < a ==> is_white_space(#[trigger] s[i]),
        a < s.len() ==> !is_white_space(s[a]),
    decreases s.len(),
{
    if s.len() > 0 && is_white_space(s[0]) {
        let b = lemma_trim_start_shape(s.drop_first());
        assert(s.drop_first().subrange(b, s.len() - 1) =~= s.subrange(b + 1, s.len() as int));
        assert forall|i: int| 0 <= i < b + 1 implies is_white_space(#[trigger] s[i]) by {
            if i > 0 {
                assert(s[i] == s.drop_first()[i - 1]);
            }
        }
        b + 1
    } else {
        assert(s.subrange(0, s.len() as int) =~= s);
        0
    }
}

proof fn lemma_trim_end_shape(s: Seq<char>) -> (b: int)
    ensures
        0 <= b <= s.len(),
        trim_end(s) == s.subrange(0, b),
        forall|i: int| b <= i < s.len() ==> is_white_space(#[trigger] s[i]),
        b > 0 ==> !is_white_space(s[b - 1]),
    decreases s.len(),
{
    if s.len() > 0 && is_white_space(s.last()) {
        let b = lemma_trim_end_shape(s.drop_last());
        assert(s.drop_last().subrange(0, b) =~= s.subrange(0, b));
        assert forall|i: int| b <= i < s.len() implies is_white_space(#[trigger] s[i]) by {
            if i < s.len() - 1 {
                assert(s[i] == s.drop_last()[i]);
            }
        }
        b
    } else {
        assert(s.subrange(0, s.len() as int) =~= s);
        s.len() as int
    }
}

/// Trimming takes white space off both ends and nothing else: the input is
/// a white-space prefix, the trimmed text, and a white-space suffix, and
/// the trimmed text neither begins nor ends with white space.
pub proof fn lemma_trim_shape(s: Seq<char>)
    ensures
        exists|a: int, b: int|
            0 <= a <= b <= s.len() && trimmed(s) == s.subrange(a, b) && (forall|i: int|
                0 <= i < a ==> is_white_space(#[trigger] s[i])) && (forall|i: int|
                b <= i < s.len() ==> is_white_space(#[trigger] s[i])),
        trimmed(s).len() > 0 ==> !is_white_space(trimmed(s)[0]) && !is_white_space(trimmed(s).last()),
{
    let a = lemma_trim_start_shape(s);
    let t = trim_start(s);
    let b = lemma_trim_end_shape(t);
    assert(trimmed(s) == t.subrange(0, b));
    assert(t.subrange(0, b) =~= s.subrange(a, a + b));
    assert forall|i: int| a + b <= i < s.len() implies is_white_space(#[trigger] s[i]) by {
        assert(s[i] == t[i - a]);
    }
    if b > 0 {
        assert(trimmed(s)[0] == s[a]);
        assert(trimmed(s).last() == t[b - 1]);
    }
    assert(0 <= a <= a + b <= s.len() && trimmed(s) == s.subrange(a, a + b));
}

fn is_white_space_exec(c: char) -> (r: bool)
    ensures
        r == is_white_space(c),
{
    let u = c as u32;
    (0x09 <= u && u <= 0x0D) || u == 0x20 || u == 0x85 || u == 0xA0 || u == 0x1680 || (0x2000 <= u && u <= 0x200A)
        || u == 0x2028 || u == 0x2029 || u == 0x202F || u == 0x205F || u == 0x3000
}

/// `s` without leading and trailing white space.
pub fn trim_text(s: &str) -> (r: String)
    ensures
        r@ == trimmed(s@),
{
    let cs = chars_of(s);
    let n = cs.len();
    let mut lo: usize = 0;
    assert(cs@.subrange(0, n as int) =~= cs@);
    while lo < n && is_white_space_exec(cs[lo])
        invariant
            lo <= n,
            n == cs@.len(),
            trim_start(cs@) == trim_start(cs@.subrange(lo as int, n as int)),
        decreases n - lo,
    {
        assert(cs@.subrange(lo as int, n as int).drop_first() =~= cs@.subrange(lo + 1, n as int));
        lo = lo + 1;
    }
    let ghost mid = cs@.subrange(lo as int, n as int);
    assert(trim_start(cs@) == mid);
    let mut hi: usize = n;
    while hi > lo && is_white_space_exec(cs[hi - 1])
        invariant
            lo <= hi <= n,
            n == cs@.len(),
            mid == cs@.subrange(lo as int, n as int),
            trim_end(mid) == trim_end(cs@.subrange(lo as int, hi as int)),
        decreases hi - lo,
    {
        assert(cs@.subrange(lo as int, hi as int).drop_last() =~= cs@.subrange(lo as int, hi - 1));
        hi = hi - 1;
    }
    let mut out: Vec<char> = Vec::new();
    let mut i: usize = lo;
    while i < hi
        invariant
            lo <= i <= hi <= n,
            n == cs@.len(),
            out@ == cs@.subrange(lo as int, i as int),
        decreases hi - i,
    {
        out.push(cs[i]);
        assert(out@ =~= cs@.subrange(lo as int, i + 1));
        i = i + 1;
    }
    assert(trim_end(cs@.subrange(lo as int, hi as int)) == cs@.subrange(lo as int, hi as int));
    string_of(&out)
}

/// The comma-separated pieces of `s`, each trimmed.
pub fn comma_parts_exec(s: &str) -> (r: Vec<String>)
    ensures
        strings_view(r@) == comma_parts(s@),
{
    let cs = chars_of(s);
    let mut pieces: Vec<String> = Vec::new();
    let mut cur: Vec<char> = Vec::new();
    let mut i: usize = 0;
    assert(cs@.take(0) =~= Seq::<char>::empty());
    while i < cs.len()
        invariant
            i <= cs@.len(),
            cs@ == s@,
            pieces@.len() + 1 == split_commas(cs@.take(i as int)).len(),
            forall|q: int| 0 <= q < pieces@.len() ==> #[trigger] pieces@[q]@ == trimmed(split_commas(cs@.take(i as int))[q]),
            cur@ == split_commas(cs@.take(i as int)).last(),
        decreases cs.len() - i,
    {
        let c = cs[i];
        assert(cs@.take(i + 1).drop_last() =~= cs@.take(i as int));
        assert(cs@.take(i + 1).last() == c);
        proof { lemma_split_commas_len(cs@.take(i as int)); }
        if c == ',' {
            let done = string_of(&cur);
            let t = trim_text(done.as_str());
            pieces.push(t);
            cur = Vec::new();
        } else {
            cur.push(c);
        }
        i = i + 1;
    }
    assert(cs@.take(cs@.len() as int) =~= cs@);
    let done = string_of(&cur);
    let t = trim_text(done.as_str());
    pieces.push(t);
    proof { lemma_split_commas_len(cs@); }
    assert(strings_view(pieces@) =~= comma_parts(s@));
    pieces
}

/// The strings of an array whose items are all strings.
pub open spec fn string_items(v: Json) -> Option<Seq<Seq<char>>> {
    match v {
        Json::Array(a) => if forall|i: int| 0 <= i < a.len() ==> (#[trigger] a[i]) is Str {
            Some(Seq::new(a.len(), |i: int| match a[i] {
                Json::Str(s) => s,
                _ => Seq::empty(),
            }))
        } else {
            None
        },
        _ => None,
    }
}

/// `t` opens with `[` and closes with `]`.
pub open spec fn bracketed(t: Seq<char>) -> bool {
    t.len() > 0 && t[0] == '[' && t.last() == ']'
}

/// The entity paths that a list argument names, and whether it looked like a
/// JSON array without being an array of strings. A trimmed argument in
/// brackets is read as a JSON array of strings (`p` is what a JSON parse of
/// it gave); any other argument, or one that is no such array, is a
/// comma-separated list whose pieces are trimmed.
pub open spec fn entity_paths(text: Seq<char>, p: Option<Json>) -> (Seq<Seq<char>>, bool) {
    if bracketed(trimmed(text)) {
        match p {
            Some(v) => match string_items(v) {
                Some(l) => (l, false),
                None => (comma_parts(text), true),
            },
            None => (comma_parts(text), true),
        }
    } else {
        (comma_parts(text), false)
    }
}

fn string_items_exec(v: &JsonValue) -> (r: Option<Vec<String>>)
    ensures
        match r {
            Some(l) => string_items(v@) == Some(strings_view(l@)),
            None => string_items(v@) is None,
        },
{
    match v {
        JsonValue::Array(a) => {
            proof { lemma_json_items(a@); }
            let ghost js = json_items(a@);
            assert(v@ == Json::Array(js));
            let mut out: Vec<String> = Vec::new();
            let mut i: usize = 0;
            while i < a.len()
                invariant
                    i <= a@.len(),
                    js == json_items(a@),
                    v@ == Json::Array(js),
                    js.len() == a@.len(),
                    forall|q: int| 0 <= q < a@.len() ==> #[trigger] js[q] == a@[q]@,
                    out@.len() == i,
                    forall|q: int| 0 <= q < i ==> (#[trigger] js[q]) is Str,
                    forall|q: int| 0 <= q < i ==> js[q] == Json::Str((#[trigger] out@[q])@),
                decreases a.len() - i,
            {
                match &a[i] {
                    JsonValue::Str(s) => {
                        out.push(s.clone());
                    },
                    _ => {
                        assert(js[i as int] == a@[i as int]@);
                        assert(!(js[i as int] is Str));
                        assert(!(forall|q: int| 0 <= q < js.len() ==> (#[trigger] js[q]) is Str));
                        return None;
                    },
                }
                i = i + 1;
            }
            assert(strings_view(out@) =~= Seq::new(js.len(), |q: int| match js[q] {
                Json::Str(s) => s,
                _ => Seq::empty(),
            }));
            Some(out)
        },
        _ => None,
    }
}

/// The entity paths named by a list argument, given what a JSON parse of the
/// trimmed argument gave; the flag tells that it looked like a JSON array
/// but was not an array of strings, so the comma-separated reading was used.
pub fn entity_paths_given(text: &str, p: Option<&JsonValue>) -> (r: (Vec<String>, bool))
    ensures
        (strings_view(r.0@), r.1) == entity_paths(
            text@,
            match p {
                Some(v) => Some(v@),
                None => None,
            },
        ),
{
    let t = chars_of(trim_text(text).as_str());
    let looks_like_array = t.len() > 0 && t[0] == '[' && t[t.len() - 1] == ']';
    if looks_like_array {
        if let Some(v) = p {
            if let Some(l) = string_items_exec(v) {
                return (l, false);
            }
        }
        (comma_parts_exec(text), true)
    } else {
        (comma_parts_exec(text), false)
    }
}

/// The entity paths named by a list argument: a JSON array of strings, or
/// else a comma-separated list; the flag tells that it looked like a JSON
/// array but was not an array of strings.
pub fn parse_entity_paths(text: &str) -> (r: (Vec<String>, bool))
    ensures
        (strings_view(r.0@), r.1) == entity_paths(text@, parsed(trimmed(text@))),
{
    let t = trim_text(text);
    let cs = chars_of(t.as_str());
    if cs.len() > 0 && cs[0] == '[' && cs[cs.len() - 1] == ']' {
        match read_json(t.as_str()) {
            Ok(v) => entity_paths_given(text, Some(&v)),
            Err(_) => entity_paths_given(text, None),
        }
    } else {
        entity_paths_given(text, None)
    }
}

} // verus!
