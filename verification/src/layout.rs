use vstd::prelude::*;
use crate::formatter::{smart, smart_items, smart_members, Config};
use crate::stats::{pattern_path, NodeView};
use crate::text::spaces;
use crate::value::{
    compact, compact_items, compact_members, escape, escape_char, hex_digit, pretty, pretty_items, pretty_members, quoted,
    Json,
};

verus! {

/// Where a scanner of JSON text stands: between tokens, inside a string, or
/// just after a backslash inside a string.
pub enum Scan {
    Between,
    InString,
    Escaped,
}

/// Whitespace that JSON allows between tokens.
pub open spec fn is_json_space(c: char) -> bool {
    c == ' ' || c == '\t' || c == '\n' || c == '\r'
}

/// One step of the scanner: what it keeps of `c`, and where it stands next.
pub open spec fn scan_step(st: Scan, c: char) -> (Seq<char>, Scan) {
    match st {
        Scan::Between => if c == '"' {
            (seq![c], Scan::InString)
        } else if is_json_space(c) {
            (Seq::empty(), Scan::Between)
        } else {
            (seq![c], Scan::Between)
        },
        Scan::InString => if c == '\\' {
            (seq![c], Scan::Escaped)
        } else if c == '"' {
            (seq![c], Scan::Between)
        } else {
            (seq![c], Scan::InString)
        },
        Scan::Escaped => (seq![c], Scan::InString),
    }
}

/// Scans `s` from state `st`: the text kept and the final state.
pub open spec fn scan(st: Scan, s: Seq<char>) -> (Seq<char>, Scan)
    decreases s.len(),
{
    if s.len() == 0 {
        (Seq::empty(), st)
    } else {
        let prev = scan(st, s.drop_last());
        let last = scan_step(prev.1, s.last());
        (prev.0 + last.0, last.1)
    }
}

/// `s` without the whitespace between its tokens.
pub open spec fn minify(s: Seq<char>) -> Seq<char> {
    scan(Scan::Between, s).0
}

proof fn lemma_scan_concat(st: Scan, a: Seq<char>, b: Seq<char>)
    ensures
        scan(st, a + b).0 == scan(st, a).0 + scan(scan(st, a).1, b).0,
        scan(st, a + b).1 == scan(scan(st, a).1, b).1,
    decreases b.len(),
{
    if b.len() == 0 {
        assert(a + b =~= a);
    } else {
        lemma_scan_concat(st, a, b.drop_last());
        assert((a + b).drop_last() =~= a + b.drop_last());
        assert((a + b).last() == b.last());
        let mid = scan(st, a).1;
        assert(scan(mid, b).0 == scan(mid, b.drop_last()).0 + scan_step(scan(mid, b.drop_last()).1, b.last()).0);
    }
}

proof fn lemma_scan_one(st: Scan, c: char)
    ensures
        scan(st, seq![c]) == scan_step(st, c),
{
    let s = seq![c];
    assert(s.drop_last() =~= Seq::<char>::empty());
    assert(s.last() == c);
    assert(scan(st, s.drop_last()) == (Seq::<char>::empty(), st));
    assert(Seq::<char>::empty() + scan_step(st, c).0 =~= scan_step(st, c).0);
}

proof fn lemma_scan_spaces(n: nat)
    ensures
        scan(Scan::Between, spaces(n)) == (Seq::<char>::empty(), Scan::Between),
    decreases n,
{
    if n > 0 {
        lemma_scan_spaces((n - 1) as nat);
        assert(spaces(n).drop_last() =~= spaces((n - 1) as nat));
        assert(Seq::<char>::empty() + Seq::<char>::empty() =~= Seq::<char>::empty());
    }
}

/// No quote or backslash: text that a string scan copies as it is.
pub open spec fn plain_in_string(s: Seq<char>) -> bool {
    forall|i: int| 0 <= i < s.len() ==> #[trigger] s[i] != '"' && s[i] != '\\'
}

proof fn lemma_scan_plain(s: Seq<char>)
    requires
        plain_in_string(s),
    ensures
        scan(Scan::InString, s) == (s, Scan::InString),
    decreases s.len(),
{
    if s.len() > 0 {
        assert(plain_in_string(s.drop_last()));
        lemma_scan_plain(s.drop_last());
        assert(s.last() == s[s.len() - 1]);
        assert(s.drop_last() + seq![s.last()] =~= s);
    }
}

proof fn lemma_hex_plain(d: int)
    requires
        0 <= d < 16,
    ensures
        hex_digit(d) != '"' && hex_digit(d) != '\\',
{
    let t = seq!['0', '1', '2', '3', '4', '5', '6', '7', '8', '9', 'a', 'b', 'c', 'd', 'e', 'f'];
    assert(hex_digit(d) == t[d]);
    assert(plain_in_string(t));
}

proof fn lemma_scan_escape_char(c: char)
    ensures
        scan(Scan::InString, escape_char(c)) == (escape_char(c), Scan::InString),
{
    let e = escape_char(c);
    if e.len() == 1 {
        assert(plain_in_string(e));
        lemma_scan_plain(e);
    } else {
        let head = seq![e[0]];
        let rest = e.subrange(1, e.len() as int);
        assert(e =~= head + rest);
        assert(e[0] == '\\');
        lemma_scan_one(Scan::InString, e[0]);
        lemma_scan_concat(Scan::InString, head, rest);
        let x = seq![rest[0]];
        let tail = rest.subrange(1, rest.len() as int);
        assert(rest =~= x + tail);
        lemma_scan_one(Scan::Escaped, rest[0]);
        lemma_scan_concat(Scan::Escaped, x, tail);
        if tail.len() > 0 {
            lemma_hex_plain((c as u32) as int / 16);
            lemma_hex_plain((c as u32) as int % 16);
            assert(plain_in_string(tail));
        }
        lemma_scan_plain(tail);
        assert(head + x + tail =~= e);
    }
}

proof fn lemma_scan_escape(s: Seq<char>)
    ensures
        scan(Scan::InString, escape(s)) == (escape(s), Scan::InString),
    decreases s.len(),
{
    if s.len() > 0 {
        lemma_scan_escape(s.drop_last());
        lemma_scan_escape_char(s.last());
        lemma_scan_concat(Scan::InString, escape(s.drop_last()), escape_char(s.last()));
    }
}

/// A quoted string scans to itself and leaves the scanner between tokens.
proof fn lemma_scan_quoted(s: Seq<char>)
    ensures
        scan(Scan::Between, quoted(s)) == (quoted(s), Scan::Between),
{
    lemma_scan_one(Scan::Between, '"');
    lemma_scan_escape(s);
    lemma_scan_concat(Scan::Between, seq!['"'], escape(s));
    lemma_scan_one(Scan::InString, '"');
    lemma_scan_concat(Scan::Between, seq!['"'] + escape(s), seq!['"']);
}

/// Text that a scan between tokens copies as it is: no quote, no whitespace.
pub open spec fn plain_token(t: Seq<char>) -> bool {
    forall|i: int| 0 <= i < t.len() ==> #[trigger] t[i] != '"' && !is_json_space(t[i])
}

/// Every number of `v` is written as one token, as a JSON number literal is.
pub open spec fn numbers_plain(v: Json) -> bool
    decreases v,
{
    match v {
        Json::Number(t) => plain_token(t),
        Json::Array(a) => forall|i: int| 0 <= i < a.len() ==> numbers_plain(#[trigger] a[i]),
        Json::Object(o) => forall|i: int| 0 <= i < o.len() ==> numbers_plain(#[trigger] o[i].1),
        _ => true,
    }
}

proof fn lemma_scan_token(t: Seq<char>)
    requires
        plain_token(t),
    ensures
        scan(Scan::Between, t) == (t, Scan::Between),
    decreases t.len(),
{
    if t.len() > 0 {
        assert(plain_token(t.drop_last()));
        lemma_scan_token(t.drop_last());
        assert(t.last() == t[t.len() - 1]);
        assert(t.drop_last() + seq![t.last()] =~= t);
    }
}

/// Scanning `a` then `b` from between tokens, where each copies itself and
/// ends between tokens.
proof fn lemma_scan_join(a: Seq<char>, b: Seq<char>)
    requires
        scan(Scan::Between, a) == (a, Scan::Between),
        scan(Scan::Between, b) == (b, Scan::Between),
    ensures
        scan(Scan::Between, a + b) == (a + b, Scan::Between),
{
    lemma_scan_concat(Scan::Between, a, b);
}

proof fn lemma_scan_punct(c: char)
    requires
        c != '"',
        !is_json_space(c),
    ensures
        scan(Scan::Between, seq![c]) == (seq![c], Scan::Between),
{
    lemma_scan_one(Scan::Between, c);
}

proof fn lemma_scan_compact(v: Json)
    requires
        numbers_plain(v),
    ensures
        scan(Scan::Between, compact(v)) == (compact(v), Scan::Between),
    decreases v,
{
    match v {
        Json::Null => {
            assert(plain_token(seq!['n', 'u', 'l', 'l']));
            lemma_scan_token(seq!['n', 'u', 'l', 'l']);
        },
        Json::Bool(b) => {
            assert(plain_token(seq!['t', 'r', 'u', 'e']));
            assert(plain_token(seq!['f', 'a', 'l', 's', 'e']));
            lemma_scan_token(seq!['t', 'r', 'u', 'e']);
            lemma_scan_token(seq!['f', 'a', 'l', 's', 'e']);
        },
        Json::Number(t) => {
            lemma_scan_token(t);
        },
        Json::Str(s) => {
            lemma_scan_quoted(s);
        },
        Json::Array(a) => {
            lemma_scan_compact_items(a);
            lemma_scan_punct('[');
            lemma_scan_punct(']');
            lemma_scan_join(seq!['['], compact_items(a));
            lemma_scan_join(seq!['['] + compact_items(a), seq![']']);
        },
        Json::Object(o) => {
            lemma_scan_compact_members(o);
            lemma_scan_punct('{');
            lemma_scan_punct('}');
            lemma_scan_join(seq!['{'], compact_members(o));
            lemma_scan_join(seq!['{'] + compact_members(o), seq!['}']);
        },
    }
}

proof fn lemma_scan_compact_items(s: Seq<Json>)
    requires
        forall|i: int| 0 <= i < s.len() ==> numbers_plain(#[trigger] s[i]),
    ensures
        scan(Scan::Between, compact_items(s)) == (compact_items(s), Scan::Between),
    decreases s,
{
    if s.len() == 0 {
    } else if s.len() == 1 {
        lemma_scan_compact(s[0]);
    } else {
        let p = s.drop_last();
        assert(forall|i: int| 0 <= i < p.len() ==> p[i] == s[i]);
        lemma_scan_compact_items(p);
        lemma_scan_compact(s.last());
        lemma_scan_punct(',');
        lemma_scan_join(compact_items(p), seq![',']);
        lemma_scan_join(compact_items(p) + seq![','], compact(s.last()));
    }
}

proof fn lemma_scan_compact_members(s: Seq<(Seq<char>, Json)>)
    requires
        forall|i: int| 0 <= i < s.len() ==> numbers_plain(#[trigger] s[i].1),
    ensures
        scan(Scan::Between, compact_members(s)) == (compact_members(s), Scan::Between),
    decreases s,
{
    if s.len() == 0 {
    } else if s.len() == 1 {
        lemma_scan_quoted(s[0].0);
        lemma_scan_punct(':');
        lemma_scan_compact(s[0].1);
        lemma_scan_join(quoted(s[0].0), seq![':']);
        lemma_scan_join(quoted(s[0].0) + seq![':'], compact(s[0].1));
    } else {
        let p = s.drop_last();
        assert(forall|i: int| 0 <= i < p.len() ==> p[i] == s[i]);
        lemma_scan_compact_members(p);
        lemma_scan_quoted(s.last().0);
        lemma_scan_punct(':');
        lemma_scan_compact(s.last().1);
        lemma_scan_join(quoted(s.last().0), seq![':']);
        lemma_scan_join(quoted(s.last().0) + seq![':'], compact(s.last().1));
        lemma_scan_punct(',');
        lemma_scan_join(compact_members(p), seq![',']);
        let m = quoted(s.last().0) + seq![':'] + compact(s.last().1);
        lemma_scan_join(compact_members(p) + seq![','], m);
        assert(compact_members(p) + seq![','] + m =~= compact_members(s));
    }
}

/// Scanning two pieces that each end between tokens.
proof fn lemma_scan_cat(a: Seq<char>, a2: Seq<char>, b: Seq<char>, b2: Seq<char>)
    requires
        scan(Scan::Between, a) == (a2, Scan::Between),
        scan(Scan::Between, b) == (b2, Scan::Between),
    ensures
        scan(Scan::Between, a + b) == (a2 + b2, Scan::Between),
{
    lemma_scan_concat(Scan::Between, a, b);
}

proof fn lemma_scan_space(c: char)
    requires
        is_json_space(c),
    ensures
        scan(Scan::Between, seq![c]) == (Seq::<char>::empty(), Scan::Between),
{
    lemma_scan_one(Scan::Between, c);
}

/// An opening bracket followed by a line break scans to the bracket.
proof fn lemma_scan_open_line(c: char)
    requires
        c != '"',
        !is_json_space(c),
    ensures
        scan(Scan::Between, seq![c, '\n']) == (seq![c], Scan::Between),
{
    lemma_scan_punct(c);
    lemma_scan_space('\n');
    lemma_scan_cat(seq![c], seq![c], seq!['\n'], Seq::empty());
    assert(seq![c] + seq!['\n'] =~= seq![c, '\n']);
    assert(seq![c] + Seq::<char>::empty() =~= seq![c]);
}

/// A line break, an indentation and a closing bracket scan to the bracket.
proof fn lemma_scan_close_line(n: nat, c: char)
    requires
        c != '"',
        !is_json_space(c),
    ensures
        scan(Scan::Between, seq!['\n'] + spaces(n) + seq![c]) == (seq![c], Scan::Between),
{
    lemma_scan_space('\n');
    lemma_scan_spaces(n);
    lemma_scan_punct(c);
    lemma_scan_cat(seq!['\n'], Seq::empty(), spaces(n), Seq::empty());
    lemma_scan_cat(seq!['\n'] + spaces(n), Seq::empty(), seq![c], seq![c]);
    assert(Seq::<char>::empty() + Seq::<char>::empty() =~= Seq::<char>::empty());
    assert(Seq::<char>::empty() + seq![c] =~= seq![c]);
}

proof fn lemma_scan_pretty(v: Json, d: nat)
    requires
        numbers_plain(v),
    ensures
        scan(Scan::Between, pretty(v, d)) == (compact(v), Scan::Between),
    decreases v,
{
    match v {
        Json::Array(a) => {
            if a.len() == 0 {
                assert(compact(v) =~= seq!['[', ']']);
                lemma_scan_compact(v);
            } else {
                lemma_scan_pretty_items(a, d);
                lemma_scan_open_line('[');
                lemma_scan_close_line(2 * d, ']');
                lemma_scan_cat(seq!['[', '\n'], seq!['['], pretty_items(a, d), compact_items(a));
                lemma_scan_cat(
                    seq!['[', '\n'] + pretty_items(a, d),
                    seq!['['] + compact_items(a),
                    seq!['\n'] + spaces(2 * d) + seq![']'],
                    seq![']'],
                );
                assert(seq!['[', '\n'] + pretty_items(a, d) + (seq!['\n'] + spaces(2 * d) + seq![']'])
                    =~= pretty(v, d));
            }
        },
        Json::Object(o) => {
            if o.len() == 0 {
                assert(compact(v) =~= seq!['{', '}']);
                lemma_scan_compact(v);
            } else {
                lemma_scan_pretty_members(o, d);
                lemma_scan_open_line('{');
                lemma_scan_close_line(2 * d, '}');
                lemma_scan_cat(seq!['{', '\n'], seq!['{'], pretty_members(o, d), compact_members(o));
                lemma_scan_cat(
                    seq!['{', '\n'] + pretty_members(o, d),
                    seq!['{'] + compact_members(o),
                    seq!['\n'] + spaces(2 * d) + seq!['}'],
                    seq!['}'],
                );
                assert(seq!['{', '\n'] + pretty_members(o, d) + (seq!['\n'] + spaces(2 * d) + seq!['}'])
                    =~= pretty(v, d));
            }
        },
        _ => {
            lemma_scan_compact(v);
        },
    }
}

proof fn lemma_scan_pretty_items(s: Seq<Json>, d: nat)
    requires
        forall|i: int| 0 <= i < s.len() ==> numbers_plain(#[trigger] s[i]),
    ensures
        scan(Scan::Between, pretty_items(s, d)) == (compact_items(s), Scan::Between),
    decreases s,
{
    if s.len() == 0 {
    } else {
        let ind = spaces(2 * (d + 1));
        lemma_scan_spaces(2 * (d + 1));
        lemma_scan_pretty(s.last(), d + 1);
        lemma_scan_cat(ind, Seq::empty(), pretty(s.last(), d + 1), compact(s.last()));
        assert(Seq::<char>::empty() + compact(s.last()) =~= compact(s.last()));
        if s.len() == 1 {
            assert(s.last() == s[0]);
        } else {
            let p = s.drop_last();
            assert(forall|i: int| 0 <= i < p.len() ==> p[i] == s[i]);
            lemma_scan_pretty_items(p, d);
            lemma_scan_open_line(',');
            lemma_scan_cat(pretty_items(p, d), compact_items(p), seq![',', '\n'], seq![',']);
            lemma_scan_cat(
                pretty_items(p, d) + seq![',', '\n'],
                compact_items(p) + seq![','],
                ind + pretty(s.last(), d + 1),
                compact(s.last()),
            );
            assert(pretty_items(p, d) + seq![',', '\n'] + (ind + pretty(s.last(), d + 1)) =~= pretty_items(s, d));
        }
    }
}

proof fn lemma_scan_pretty_members(s: Seq<(Seq<char>, Json)>, d: nat)
    requires
        forall|i: int| 0 <= i < s.len() ==> numbers_plain(#[trigger] s[i].1),
    ensures
        scan(Scan::Between, pretty_members(s, d)) == (compact_members(s), Scan::Between),
    decreases s,
{
    if s.len() == 0 {
    } else {
        let k = s.last().0;
        let ind = spaces(2 * (d + 1));
        lemma_scan_spaces(2 * (d + 1));
        lemma_scan_quoted(k);
        lemma_scan_punct(':');
        lemma_scan_space(' ');
        lemma_scan_cat(seq![':'], seq![':'], seq![' '], Seq::empty());
        assert(seq![':'] + seq![' '] =~= seq![':', ' ']);
        assert(seq![':'] + Seq::<char>::empty() =~= seq![':']);
        lemma_scan_pretty(s.last().1, d + 1);
        lemma_scan_cat(ind, Seq::empty(), quoted(k), quoted(k));
        assert(Seq::<char>::empty() + quoted(k) =~= quoted(k));
        lemma_scan_cat(ind + quoted(k), quoted(k), seq![':', ' '], seq![':']);
        lemma_scan_cat(ind + quoted(k) + seq![':', ' '], quoted(k) + seq![':'], pretty(s.last().1, d + 1), compact(s.last().1));
        let line = ind + quoted(k) + seq![':', ' '] + pretty(s.last().1, d + 1);
        let cline = quoted(k) + seq![':'] + compact(s.last().1);
        if s.len() == 1 {
            assert(s.last() == s[0]);
        } else {
            let p = s.drop_last();
            assert(forall|i: int| 0 <= i < p.len() ==> p[i] == s[i]);
            lemma_scan_pretty_members(p, d);
            lemma_scan_open_line(',');
            lemma_scan_cat(pretty_members(p, d), compact_members(p), seq![',', '\n'], seq![',']);
            lemma_scan_cat(pretty_members(p, d) + seq![',', '\n'], compact_members(p) + seq![','], line, cline);
            assert(pretty_members(p, d) + seq![',', '\n'] + line =~= pretty_members(s, d));
            assert(compact_members(p) + seq![','] + cline =~= compact_members(s));
        }
    }
}

/// The opening of a member line as the smart layout writes it: the quoted
/// key, a colon and a space.
proof fn lemma_scan_key_prefix(k: Seq<char>)
    ensures
        scan(Scan::Between, quoted(k) + ": "@) == (quoted(k) + seq![':'], Scan::Between),
{
    reveal_strlit(": ");
    assert(": "@ =~= seq![':', ' ']);
    lemma_scan_quoted(k);
    lemma_scan_punct(':');
    lemma_scan_space(' ');
    lemma_scan_cat(seq![':'], seq![':'], seq![' '], Seq::empty());
    assert(seq![':'] + seq![' '] =~= seq![':', ' ']);
    assert(seq![':'] + Seq::<char>::empty() =~= seq![':']);
    lemma_scan_cat(quoted(k), quoted(k), ": "@, seq![':']);
}

proof fn lemma_scan_smart(
    cfg: Config,
    stats: Option<Map<Seq<char>, NodeView>>,
    v: Json,
    depth: nat,
    path: Seq<char>,
)
    requires
        numbers_plain(v),
    ensures
        scan(Scan::Between, smart(cfg, stats, v, depth, path)) == (compact(v), Scan::Between),
    decreases v,
{
    lemma_scan_compact(v);
    let n = (depth * cfg.indent) as nat;
    reveal_strlit("[]");
    reveal_strlit("{}");
    reveal_strlit("[\n");
    reveal_strlit("{\n");
    reveal_strlit("\n");
    reveal_strlit("]");
    reveal_strlit("}");
    assert("[\n"@ =~= seq!['[', '\n']);
    assert("{\n"@ =~= seq!['{', '\n']);
    assert("\n"@ =~= seq!['\n']);
    assert("]"@ =~= seq![']']);
    assert("}"@ =~= seq!['}']);
    match v {
        Json::Array(a) => {
            if a.len() == 0 {
                assert(compact(v) =~= "[]"@);
            } else {
                let inner = smart_items(cfg, stats, a, depth, path + "[*]"@);
                lemma_scan_smart_items(cfg, stats, a, depth, path + "[*]"@);
                lemma_scan_open_line('[');
                lemma_scan_close_line(n, ']');
                lemma_scan_cat(seq!['[', '\n'], seq!['['], inner, compact_items(a));
                lemma_scan_cat(seq!['[', '\n'] + inner, seq!['['] + compact_items(a), seq!['\n'] + spaces(n) + seq![']'], seq![']']);
                assert(seq!['[', '\n'] + inner + (seq!['\n'] + spaces(n) + seq![']'])
                    =~= "[\n"@ + inner + "\n"@ + spaces(n) + "]"@);
            }
        },
        Json::Object(o) => {
            if o.len() == 0 {
                assert(compact(v) =~= "{}"@);
            } else {
                let is_map = o.len() >= 2 && crate::heuristics::same_base(o);
                let inner = smart_members(cfg, stats, o, depth, path, is_map);
                lemma_scan_smart_members(cfg, stats, o, depth, path, is_map);
                lemma_scan_open_line('{');
                lemma_scan_close_line(n, '}');
                lemma_scan_cat(seq!['{', '\n'], seq!['{'], inner, compact_members(o));
                lemma_scan_cat(seq!['{', '\n'] + inner, seq!['{'] + compact_members(o), seq!['\n'] + spaces(n) + seq!['}'], seq!['}']);
                assert(seq!['{', '\n'] + inner + (seq!['\n'] + spaces(n) + seq!['}'])
                    =~= "{\n"@ + inner + "\n"@ + spaces(n) + "}"@);
            }
        },
        _ => {},
    }
}

proof fn lemma_scan_smart_items(
    cfg: Config,
    stats: Option<Map<Seq<char>, NodeView>>,
    a: Seq<Json>,
    depth: nat,
    path: Seq<char>,
)
    requires
        forall|i: int| 0 <= i < a.len() ==> numbers_plain(#[trigger] a[i]),
    ensures
        scan(Scan::Between, smart_items(cfg, stats, a, depth, path)) == (compact_items(a), Scan::Between),
    decreases a,
{
    if a.len() > 0 {
        let ind = spaces(((depth + 1) * cfg.indent) as nat);
        let item = smart(cfg, stats, a.last(), depth + 1, path);
        lemma_scan_spaces(((depth + 1) * cfg.indent) as nat);
        lemma_scan_smart(cfg, stats, a.last(), depth + 1, path);
        lemma_scan_cat(ind, Seq::empty(), item, compact(a.last()));
        assert(Seq::<char>::empty() + compact(a.last()) =~= compact(a.last()));
        if a.len() == 1 {
            assert(a.last() == a[0]);
        } else {
            let p = a.drop_last();
            assert(forall|i: int| 0 <= i < p.len() ==> p[i] == a[i]);
            lemma_scan_smart_items(cfg, stats, p, depth, path);
            reveal_strlit(",\n");
            assert(",\n"@ =~= seq![',', '\n']);
            lemma_scan_open_line(',');
            let prev = smart_items(cfg, stats, p, depth, path);
            lemma_scan_cat(prev, compact_items(p), seq![',', '\n'], seq![',']);
            lemma_scan_cat(prev + seq![',', '\n'], compact_items(p) + seq![','], ind + item, compact(a.last()));
        }
    }
}

proof fn lemma_scan_smart_members(
    cfg: Config,
    stats: Option<Map<Seq<char>, NodeView>>,
    o: Seq<(Seq<char>, Json)>,
    depth: nat,
    path: Seq<char>,
    is_map: bool,
)
    requires
        forall|i: int| 0 <= i < o.len() ==> numbers_plain(#[trigger] o[i].1),
    ensures
        scan(Scan::Between, smart_members(cfg, stats, o, depth, path, is_map)) == (compact_members(o), Scan::Between),
    decreases o,
{
    if o.len() > 0 {
        let k = o.last().0;
        let ind = spaces(((depth + 1) * cfg.indent) as nat);
        let val = smart(cfg, stats, o.last().1, depth + 1, pattern_path(path, k, is_map));
        assert(o.last() == o[o.len() - 1]);
        lemma_scan_spaces(((depth + 1) * cfg.indent) as nat);
        lemma_scan_key_prefix(k);
        lemma_scan_smart(cfg, stats, o.last().1, depth + 1, pattern_path(path, k, is_map));
        lemma_scan_cat(ind, Seq::empty(), quoted(k) + ": "@, quoted(k) + seq![':']);
        assert(Seq::<char>::empty() + (quoted(k) + seq![':']) =~= quoted(k) + seq![':']);
        assert(ind + (quoted(k) + ": "@) =~= ind + quoted(k) + ": "@);
        lemma_scan_cat(ind + quoted(k) + ": "@, quoted(k) + seq![':'], val, compact(o.last().1));
        let line = ind + quoted(k) + ": "@ + val;
        let cline = quoted(k) + seq![':'] + compact(o.last().1);
        if o.len() == 1 {
            assert(o.last() == o[0]);
        } else {
            let p = o.drop_last();
            assert(forall|i: int| 0 <= i < p.len() ==> p[i] == o[i]);
            lemma_scan_smart_members(cfg, stats, p, depth, path, is_map);
            reveal_strlit(",\n");
            assert(",\n"@ =~= seq![',', '\n']);
            lemma_scan_open_line(',');
            let prev = smart_members(cfg, stats, p, depth, path, is_map);
            lemma_scan_cat(prev, compact_members(p), seq![',', '\n'], seq![',']);
            lemma_scan_cat(prev + seq![',', '\n'], compact_members(p) + seq![','], line, cline);
            assert(compact_members(p) + seq![','] + cline =~= compact_members(o));
        }
    }
}

/// `s` holds no line break.
pub open spec fn one_line(s: Seq<char>) -> bool {
    forall|i: int| 0 <= i < s.len() ==> #[trigger] s[i] != '\n'
}

proof fn lemma_one_line_cat(a: Seq<char>, b: Seq<char>)
    requires
        one_line(a),
        one_line(b),
    ensures
        one_line(a + b),
{
    assert forall|i: int| 0 <= i < (a + b).len() implies #[trigger] (a + b)[i] != '\n' by {
        if i >= a.len() {
            assert((a + b)[i] == b[i - a.len()]);
        }
    }
}

proof fn lemma_one_line_escape(s: Seq<char>)
    ensures
        one_line(escape(s)),
    decreases s.len(),
{
    if s.len() > 0 {
        lemma_one_line_escape(s.drop_last());
        let c = s.last();
        let e = escape_char(c);
        if e.len() == 6 {
            lemma_hex_plain((c as u32) as int / 16);
            lemma_hex_plain((c as u32) as int % 16);
            lemma_hex_no_break((c as u32) as int / 16);
            lemma_hex_no_break((c as u32) as int % 16);
        }
        assert(one_line(e));
        lemma_one_line_cat(escape(s.drop_last()), e);
    }
}

proof fn lemma_hex_no_break(d: int)
    requires
        0 <= d < 16,
    ensures
        hex_digit(d) != '\n',
{
    let t = seq!['0', '1', '2', '3', '4', '5', '6', '7', '8', '9', 'a', 'b', 'c', 'd', 'e', 'f'];
    assert(hex_digit(d) == t[d]);
    assert(one_line(t));
}

proof fn lemma_one_line_compact(v: Json)
    requires
        numbers_plain(v),
    ensures
        one_line(compact(v)),
    decreases v,
{
    match v {
        Json::Null => {
            assert(one_line(seq!['n', 'u', 'l', 'l']));
        },
        Json::Bool(b) => {
            assert(one_line(seq!['t', 'r', 'u', 'e']));
            assert(one_line(seq!['f', 'a', 'l', 's', 'e']));
        },
        Json::Number(t) => {},
        Json::Str(s) => {
            lemma_one_line_escape(s);
            lemma_one_line_cat(seq!['"'], escape(s));
            lemma_one_line_cat(seq!['"'] + escape(s), seq!['"']);
        },
        Json::Array(a) => {
            lemma_one_line_items(a);
            lemma_one_line_cat(seq!['['], compact_items(a));
            lemma_one_line_cat(seq!['['] + compact_items(a), seq![']']);
        },
        Json::Object(o) => {
            lemma_one_line_members(o);
            lemma_one_line_cat(seq!['{'], compact_members(o));
            lemma_one_line_cat(seq!['{'] + compact_members(o), seq!['}']);
        },
    }
}

proof fn lemma_one_line_items(s: Seq<Json>)
    requires
        forall|i: int| 0 <= i < s.len() ==> numbers_plain(#[trigger] s[i]),
    ensures
        one_line(compact_items(s)),
    decreases s,
{
    if s.len() == 1 {
        lemma_one_line_compact(s[0]);
    } else if s.len() > 1 {
        let p = s.drop_last();
        assert(forall|i: int| 0 <= i < p.len() ==> p[i] == s[i]);
        lemma_one_line_items(p);
        lemma_one_line_compact(s.last());
        lemma_one_line_cat(compact_items(p), seq![',']);
        lemma_one_line_cat(compact_items(p) + seq![','], compact(s.last()));
    }
}

proof fn lemma_one_line_members(s: Seq<(Seq<char>, Json)>)
    requires
        forall|i: int| 0 <= i < s.len() ==> numbers_plain(#[trigger] s[i].1),
    ensures
        one_line(compact_members(s)),
    decreases s,
{
    if s.len() > 0 {
        let k = s.last().0;
        lemma_one_line_escape(k);
        lemma_one_line_cat(seq!['"'], escape(k));
        lemma_one_line_cat(seq!['"'] + escape(k), seq!['"']);
        lemma_one_line_cat(quoted(k), seq![':']);
        lemma_one_line_compact(s.last().1);
        lemma_one_line_cat(quoted(k) + seq![':'], compact(s.last().1));
        if s.len() == 1 {
            assert(s.last() == s[0]);
        } else {
            let p = s.drop_last();
            assert(forall|i: int| 0 <= i < p.len() ==> p[i] == s[i]);
            lemma_one_line_members(p);
            lemma_one_line_cat(compact_members(p), seq![',']);
            lemma_one_line_cat(compact_members(p) + seq![','], quoted(k) + seq![':'] + compact(s.last().1));
            assert(compact_members(p) + seq![','] + (quoted(k) + seq![':'] + compact(s.last().1))
                =~= compact_members(s));
        }
    }
}

/// Compact text is a single line: a line break inside a string is written
/// as an escape.
pub proof fn lemma_compact_is_one_line(v: Json)
    requires
        numbers_plain(v),
    ensures
        one_line(compact(v)),
{
    lemma_one_line_compact(v);
}

/// Compact text has no whitespace between its tokens: taking it out
/// changes nothing.
pub proof fn lemma_compact_is_minified(v: Json)
    requires
        numbers_plain(v),
    ensures
        minify(compact(v)) == compact(v),
{
    lemma_scan_compact(v);
}

/// Pretty mode only adds whitespace between tokens: taking it out of the
/// pretty text gives the compact text of the same value.
pub proof fn lemma_pretty_minifies_to_compact(v: Json, d: nat)
    requires
        numbers_plain(v),
    ensures
        minify(pretty(v, d)) == compact(v),
{
    lemma_scan_pretty(v, d);
}

/// Smart mode only adds whitespace between tokens: taking it out of the
/// smart text gives the compact text of the same value, whatever the
/// configuration, statistics, depth and path.
pub proof fn lemma_smart_minifies_to_compact(
    cfg: Config,
    stats: Option<Map<Seq<char>, NodeView>>,
    v: Json,
    depth: nat,
    path: Seq<char>,
)
    requires
        numbers_plain(v),
    ensures
        minify(smart(cfg, stats, v, depth, path)) == compact(v),
{
    lemma_scan_smart(cfg, stats, v, depth, path);
}

} // verus!
