use vstd::prelude::*;
use crate::formatter::{
    line_limit, member_order, member_sort_keys, prompt_outcome, prompt_text, sample_listing, smart, smart_items,
    smart_members, sorted_members, Config, Result, SortStrategy,
};
use crate::heuristics::{same_base, signature, weight};
use crate::index::{index_events, info_of, item_events, item_path, member_events, member_path};
use crate::laws::lemma_sorted_members_index;
use crate::schema::schema;
use crate::sort::{lemma_sort_order_range, lemma_sort_order_sorted};
use crate::stats::{stat_event, stat_events, stat_item_events, stat_member_events, lemma_sort_asc_sorts, p90_at, p90_of, pattern_path, sort_asc, stats_of, NodeView};
use crate::text::{decimal, ends_with, has_substr, lex_lt, occurs_at, spaces, starts_with};
use crate::value::{
    base_name, byte_len, compact, pretty, pretty_items, pretty_members, tally, tally_items, tally_members, Json,
};

verus! {

/// Every configured entity path, the last one as much as the first, gets
/// the entity limit: a value at that path whose compact text fits the entity
/// limit is written as that one line.
pub proof fn lemma_configured_entities_are_honoured(
    cfg: Config,
    stats: Option<Map<Seq<char>, NodeView>>,
    v: Json,
    depth: nat,
    i: int,
)
    requires
        0 <= i < cfg.entities@.len(),
        byte_len(compact(v)) <= cfg.array_item_inline_limit,
    ensures
        line_limit(cfg, stats, cfg.entities@[i]@) == cfg.array_item_inline_limit,
        smart(cfg, stats, v, depth, cfg.entities@[i]@) == compact(v),
{
    assert(cfg.entities@[i]@ == cfg.entities@[i]@);
}

/// The schema of a nonempty array describes its first item: in brackets on
/// one line, or on lines of their own where the item's schema spans lines.
pub proof fn lemma_array_schema_from_first_item(a: Seq<Json>, ind: nat)
    requires
        a.len() > 0,
    ensures
        has_substr(schema(a[0], ind + 1), "\n"@) ==> schema(Json::Array(a), ind) == "[\n"@ + spaces(2 * (ind + 1))
            + schema(a[0], ind + 1) + "\n"@ + spaces(2 * ind) + "]"@,
        !has_substr(schema(a[0], ind + 1), "\n"@) ==> schema(Json::Array(a), ind) == "["@ + schema(a[0], ind + 1)
            + "]"@,
{
}

/// Arrays with the same first item have the same schema, whatever their
/// later items.
pub proof fn lemma_array_schema_ignores_later_items(a: Seq<Json>, b: Seq<Json>, ind: nat)
    requires
        a.len() > 0,
        b.len() > 0,
        a[0] == b[0],
    ensures
        schema(Json::Array(a), ind) == schema(Json::Array(b), ind),
{
    lemma_array_schema_from_first_item(a, ind);
    lemma_array_schema_from_first_item(b, ind);
}

/// A prompt carries the document's schema: the line `Schema:` followed by
/// the schema of the whole document and a blank line.
pub proof fn lemma_prompt_holds_schema(v: Json, r: Result<String>)
    requires
        prompt_outcome(v, r),
        r is Ok,
    ensures
        has_substr(r->Ok_0@, "Schema:\n"@ + schema(v, 0) + "\n\n"@),
{
    let t = r->Ok_0;
    let list = choose|list: Seq<(Seq<char>, Seq<Seq<char>>)>|
        sample_listing(stats_of(v), list) && t@ == prompt_text(schema(v, 0), list);
    let intro = "Analyze the JSON schema below and identify 'Business Entities' - array items that represent meaningful data records (e.g., user, order, product) suitable for single-line display.\n\n"@;
    let pat = "Schema:\n"@ + schema(v, 0) + "\n\n"@;
    let l = intro.len() as int;
    assert(t@.subrange(l, l + pat.len()) =~= pat);
    assert(occurs_at(t@, pat, l));
}

/// The keys that the documentation puts first under the smart order.
pub open spec fn documented_priority_key(k: Seq<char>) -> bool {
    ||| k == seq!['i', 'd']
    ||| k == seq!['n', 'a', 'm', 'e']
    ||| k == seq!['t', 'y', 'p', 'e']
    ||| k == seq!['s', 't', 'a', 't', 'u', 's']
    ||| k == seq!['t', 'i', 't', 'l', 'e']
    ||| k == seq!['k', 'e', 'y']
    ||| k == seq!['v', 'a', 'l', 'u', 'e']
}

proof fn lemma_no_substr(s: Seq<char>, pat: Seq<char>)
    requires
        pat.len() >= 2,
        forall|i: int| 0 <= i && i + pat.len() <= s.len() ==> #[trigger] s[i] != pat[0] || s[i + 1] != pat[1],
    ensures
        !has_substr(s, pat),
{
    assert forall|i: int| !occurs_at(s, pat, i) by {
        if occurs_at(s, pat, i) {
            assert(s.subrange(i, i + pat.len())[0] == pat[0]);
            assert(s.subrange(i, i + pat.len())[1] == pat[1]);
            assert(s[i] != pat[0] || s[i + 1] != pat[1]);
        }
    }
}

proof fn lemma_plain_priority_key(k: Seq<char>)
    requires
        documented_priority_key(k),
    ensures
        !starts_with(k, "_"@),
        !has_substr(k, "internal"@),
        !has_substr(k, "debug"@),
        !has_substr(k, "test"@),
{
    reveal_strlit("_");
    reveal_strlit("internal");
    reveal_strlit("debug");
    reveal_strlit("test");
    assert(k[0] != '_');
    assert(k.subrange(0, 1)[0] == k[0]);
    lemma_no_substr(k, "internal"@);
    lemma_no_substr(k, "debug"@);
    lemma_no_substr(k, "test"@);
}

/// The documented priority keys `id`, `name`, `type`, `status`, `title`,
/// `key` and `value` each weigh 100; every other key weighs at most 0.
pub proof fn lemma_priority_keys_weigh_most(k: Seq<char>)
    ensures
        documented_priority_key(k) ==> weight(k) == 100,
        !documented_priority_key(k) ==> weight(k) <= 0,
{
    reveal_strlit("id");
    reveal_strlit("name");
    reveal_strlit("type");
    reveal_strlit("status");
    reveal_strlit("title");
    reveal_strlit("key");
    reveal_strlit("value");
    assert("id"@ =~= seq!['i', 'd']);
    assert("name"@ =~= seq!['n', 'a', 'm', 'e']);
    assert("type"@ =~= seq!['t', 'y', 'p', 'e']);
    assert("status"@ =~= seq!['s', 't', 'a', 't', 'u', 's']);
    assert("title"@ =~= seq!['t', 'i', 't', 'l', 'e']);
    assert("key"@ =~= seq!['k', 'e', 'y']);
    assert("value"@ =~= seq!['v', 'a', 'l', 'u', 'e']);
    if documented_priority_key(k) {
        lemma_plain_priority_key(k);
    }
}

/// Under the smart order every member whose key is a documented priority
/// key comes before every member whose key is not one.
pub proof fn lemma_priority_keys_sort_first(o: Seq<(Seq<char>, Json)>)
    ensures
        ({
            let s = sorted_members(o, member_order(o, SortStrategy::Smart), SortStrategy::Smart);
            forall|p: int, q: int|
                0 <= p < q < s.len() ==> !(documented_priority_key(#[trigger] s[q].0) && !documented_priority_key(
                    #[trigger] s[p].0,
                ))
        }),
{
    let ks = member_sort_keys(o, SortStrategy::Smart);
    let ord = member_order(o, SortStrategy::Smart);
    lemma_sort_order_range(ks, o.len());
    lemma_sort_order_sorted(ks, o.len());
    lemma_sorted_members_index(o, ord, SortStrategy::Smart);
    let s = sorted_members(o, ord, SortStrategy::Smart);
    assert forall|p: int, q: int| 0 <= p < q < s.len() implies !(documented_priority_key(#[trigger] s[q].0)
        && !documented_priority_key(#[trigger] s[p].0)) by {
        lemma_priority_keys_weigh_most(s[q].0);
        lemma_priority_keys_weigh_most(s[p].0);
        assert(s[q].0 == o[ord[q]].0 && s[p].0 == o[ord[p]].0);
        assert(ks[ord[q]] == (weight(s[q].0), s[q].0));
        assert(ks[ord[p]] == (weight(s[p].0), s[p].0));
        assert(!crate::sort::key_before(ks[ord[q]], ks[ord[p]]));
    }
}

/// Every value of a document, each once: the document itself, then the
/// values inside it in document order.
pub open spec fn subvalues(v: Json) -> Seq<Json>
    decreases v,
{
    seq![v] + match v {
        Json::Array(a) => item_subvalues(a),
        Json::Object(o) => member_subvalues(o),
        _ => Seq::empty(),
    }
}

pub open spec fn item_subvalues(a: Seq<Json>) -> Seq<Json>
    decreases a,
{
    if a.len() == 0 {
        Seq::empty()
    } else {
        item_subvalues(a.drop_last()) + subvalues(a.last())
    }
}

pub open spec fn member_subvalues(o: Seq<(Seq<char>, Json)>) -> Seq<Json>
    decreases o,
{
    if o.len() == 0 {
        Seq::empty()
    } else {
        member_subvalues(o.drop_last()) + subvalues(o.last().1)
    }
}

/// What is counted of one value.
pub enum Measure {
    /// 1 for an array, empty or not.
    Arrays,
    /// 1 for an object, empty or not.
    Objects,
    /// The number of members of an object.
    Keys,
}

pub open spec fn measure(m: Measure, x: Json) -> nat {
    match m {
        Measure::Arrays => if x is Array { 1 } else { 0 },
        Measure::Objects => if x is Object { 1 } else { 0 },
        Measure::Keys => match x {
            Json::Object(o) => o.len(),
            _ => 0,
        },
    }
}

/// The sum of a measure over values.
pub open spec fn total(s: Seq<Json>, m: Measure) -> nat
    decreases s.len(),
{
    if s.len() == 0 {
        0
    } else {
        total(s.drop_last(), m) + measure(m, s.last())
    }
}

/// The length of the longest array among values (0 where there is none).
pub open spec fn longest_array(s: Seq<Json>) -> nat
    decreases s.len(),
{
    if s.len() == 0 {
        0
    } else {
        let here: nat = match s.last() {
            Json::Array(a) => a.len(),
            _ => 0,
        };
        let before = longest_array(s.drop_last());
        if before >= here { before } else { here }
    }
}

proof fn lemma_total_concat(a: Seq<Json>, b: Seq<Json>, m: Measure)
    ensures
        total(a + b, m) == total(a, m) + total(b, m),
        longest_array(a + b) == if longest_array(a) >= longest_array(b) { longest_array(a) } else { longest_array(b) },
    decreases b.len(),
{
    if b.len() == 0 {
        assert(a + b =~= a);
    } else {
        lemma_total_concat(a, b.drop_last(), m);
        assert((a + b).drop_last() =~= a + b.drop_last());
        assert((a + b).last() == b.last());
    }
}

proof fn lemma_census(v: Json, m: Measure)
    ensures
        tally(v).nodes == subvalues(v).len(),
        tally(v).arrays == total(subvalues(v), Measure::Arrays),
        tally(v).objects == total(subvalues(v), Measure::Objects),
        tally(v).keys == total(subvalues(v), Measure::Keys),
        tally(v).max_array_len == longest_array(subvalues(v)),
    decreases v,
{
    let one = seq![v];
    assert(one.drop_last() =~= Seq::<Json>::empty());
    assert(one.last() == v);
    assert(total(one.drop_last(), Measure::Arrays) == 0);
    assert(total(one.drop_last(), Measure::Objects) == 0);
    assert(total(one.drop_last(), Measure::Keys) == 0);
    assert(longest_array(one.drop_last()) == 0);
    assert(total(one, Measure::Arrays) == measure(Measure::Arrays, v));
    assert(total(one, Measure::Objects) == measure(Measure::Objects, v));
    assert(total(one, Measure::Keys) == measure(Measure::Keys, v));
    match v {
        Json::Array(a) => {
            lemma_census_items(a, m);
            lemma_total_concat(one, item_subvalues(a), Measure::Arrays);
            lemma_total_concat(one, item_subvalues(a), Measure::Objects);
            lemma_total_concat(one, item_subvalues(a), Measure::Keys);
        },
        Json::Object(o) => {
            lemma_census_members(o, m);
            lemma_total_concat(one, member_subvalues(o), Measure::Arrays);
            lemma_total_concat(one, member_subvalues(o), Measure::Objects);
            lemma_total_concat(one, member_subvalues(o), Measure::Keys);
        },
        _ => {
            assert(subvalues(v) =~= one);
        },
    }
}

proof fn lemma_census_items(a: Seq<Json>, m: Measure)
    ensures
        tally_items(a).nodes == item_subvalues(a).len(),
        tally_items(a).arrays == total(item_subvalues(a), Measure::Arrays),
        tally_items(a).objects == total(item_subvalues(a), Measure::Objects),
        tally_items(a).keys == total(item_subvalues(a), Measure::Keys),
        tally_items(a).max_array_len == longest_array(item_subvalues(a)),
    decreases a,
{
    if a.len() > 0 {
        lemma_census_items(a.drop_last(), m);
        lemma_census(a.last(), m);
        lemma_total_concat(item_subvalues(a.drop_last()), subvalues(a.last()), Measure::Arrays);
        lemma_total_concat(item_subvalues(a.drop_last()), subvalues(a.last()), Measure::Objects);
        lemma_total_concat(item_subvalues(a.drop_last()), subvalues(a.last()), Measure::Keys);
    }
}

proof fn lemma_census_members(o: Seq<(Seq<char>, Json)>, m: Measure)
    ensures
        tally_members(o).nodes == member_subvalues(o).len(),
        tally_members(o).arrays == total(member_subvalues(o), Measure::Arrays),
        tally_members(o).objects == total(member_subvalues(o), Measure::Objects),
        tally_members(o).keys == total(member_subvalues(o), Measure::Keys),
        tally_members(o).max_array_len == longest_array(member_subvalues(o)),
    decreases o,
{
    if o.len() > 0 {
        lemma_census_members(o.drop_last(), m);
        lemma_census(o.last().1, m);
        lemma_total_concat(member_subvalues(o.drop_last()), subvalues(o.last().1), Measure::Arrays);
        lemma_total_concat(member_subvalues(o.drop_last()), subvalues(o.last().1), Measure::Objects);
        lemma_total_concat(member_subvalues(o.drop_last()), subvalues(o.last().1), Measure::Keys);
    }
}

/// The structure figures count every value of the document: the node count
/// is the number of values, the array count the number of arrays (empty ones
/// too), the object count the number of objects, the key count the members
/// of all objects, and the longest array length the length of the longest
/// array among them.
pub proof fn lemma_metadata_counts_every_value(v: Json)
    ensures
        tally(v).nodes == subvalues(v).len(),
        tally(v).arrays == total(subvalues(v), Measure::Arrays),
        tally(v).objects == total(subvalues(v), Measure::Objects),
        tally(v).keys == total(subvalues(v), Measure::Keys),
        tally(v).max_array_len == longest_array(subvalues(v)),
{
    lemma_census(v, Measure::Arrays);
}

/// The nesting level of every value of `v`, `v` itself at level `d`.
pub open spec fn levels(v: Json, d: nat) -> Seq<nat>
    decreases v,
{
    seq![d] + match v {
        Json::Array(a) => item_levels(a, d + 1),
        Json::Object(o) => member_levels(o, d + 1),
        _ => Seq::empty(),
    }
}

pub open spec fn item_levels(a: Seq<Json>, d: nat) -> Seq<nat>
    decreases a,
{
    if a.len() == 0 {
        Seq::empty()
    } else {
        item_levels(a.drop_last(), d) + levels(a.last(), d)
    }
}

pub open spec fn member_levels(o: Seq<(Seq<char>, Json)>, d: nat) -> Seq<nat>
    decreases o,
{
    if o.len() == 0 {
        Seq::empty()
    } else {
        member_levels(o.drop_last(), d) + levels(o.last().1, d)
    }
}

/// The greatest number of `s`, 0 where it is empty.
pub open spec fn deepest(s: Seq<nat>) -> nat
    decreases s.len(),
{
    if s.len() == 0 {
        0
    } else {
        let before = deepest(s.drop_last());
        if before >= s.last() { before } else { s.last() }
    }
}

proof fn lemma_deepest_concat(a: Seq<nat>, b: Seq<nat>)
    ensures
        deepest(a + b) == if deepest(a) >= deepest(b) { deepest(a) } else { deepest(b) },
    decreases b.len(),
{
    if b.len() == 0 {
        assert(a + b =~= a);
    } else {
        lemma_deepest_concat(a, b.drop_last());
        assert((a + b).drop_last() =~= a + b.drop_last());
        assert((a + b).last() == b.last());
    }
}

proof fn lemma_levels(v: Json, d: nat)
    ensures
        deepest(levels(v, d)) == d + tally(v).depth,
    decreases v,
{
    let one = seq![d];
    assert(one.drop_last() =~= Seq::<nat>::empty());
    assert(deepest(one.drop_last()) == 0);
    assert(one.last() == d);
    assert(deepest(one) == d);
    match v {
        Json::Array(a) => {
            lemma_item_levels(a, d + 1);
            lemma_deepest_concat(one, item_levels(a, d + 1));
        },
        Json::Object(o) => {
            lemma_member_levels(o, d + 1);
            lemma_deepest_concat(one, member_levels(o, d + 1));
        },
        _ => {
            assert(levels(v, d) =~= one);
        },
    }
}

proof fn lemma_item_levels(a: Seq<Json>, d: nat)
    ensures
        a.len() == 0 ==> item_levels(a, d) == Seq::<nat>::empty() && tally_items(a).depth == 0,
        a.len() > 0 ==> deepest(item_levels(a, d)) == d + tally_items(a).depth,
    decreases a,
{
    if a.len() > 0 {
        lemma_item_levels(a.drop_last(), d);
        lemma_levels(a.last(), d);
        lemma_deepest_concat(item_levels(a.drop_last(), d), levels(a.last(), d));
        if a.len() == 1 {
            assert(deepest(Seq::<nat>::empty()) == 0);
        }
    }
}

proof fn lemma_member_levels(o: Seq<(Seq<char>, Json)>, d: nat)
    ensures
        o.len() == 0 ==> member_levels(o, d) == Seq::<nat>::empty() && tally_members(o).depth == 0,
        o.len() > 0 ==> deepest(member_levels(o, d)) == d + tally_members(o).depth,
    decreases o,
{
    if o.len() > 0 {
        lemma_member_levels(o.drop_last(), d);
        lemma_levels(o.last().1, d);
        lemma_deepest_concat(member_levels(o.drop_last(), d), levels(o.last().1, d));
        if o.len() == 1 {
            assert(deepest(Seq::<nat>::empty()) == 0);
        }
    }
}

/// The depth figure is the deepest nesting level of any value of the
/// document, the document itself being at level 0.
pub proof fn lemma_depth_is_deepest_level(v: Json)
    ensures
        tally(v).depth == deepest(levels(v, 0)),
{
    lemma_levels(v, 0);
}

/// No value of `v`, `v` included, has a compact text of at most `n` bytes.
pub open spec fn no_value_fits(v: Json, n: usize) -> bool
    decreases v,
{
    byte_len(compact(v)) > n && match v {
        Json::Array(a) => forall|i: int| 0 <= i < a.len() ==> no_value_fits(#[trigger] a[i], n),
        Json::Object(o) => forall|i: int| 0 <= i < o.len() ==> no_value_fits(#[trigger] o[i].1, n),
        _ => true,
    }
}

/// Where no value fits on a line, the smart layout at an indent of two
/// spaces is the standard indented layout: one entry per line, nested
/// entries indented two spaces more, whatever the statistics and path.
pub proof fn lemma_smart_expands_like_pretty(
    cfg: Config,
    stats: Option<Map<Seq<char>, NodeView>>,
    v: Json,
    d: nat,
    path: Seq<char>,
)
    requires
        cfg.indent == 2,
        cfg.inline_limit == cfg.array_item_inline_limit,
        no_value_fits(v, cfg.inline_limit),
    ensures
        smart(cfg, stats, v, d, path) == pretty(v, d),
    decreases v,
{
    reveal_strlit("[]");
    reveal_strlit("{}");
    reveal_strlit("[\n");
    reveal_strlit("{\n");
    reveal_strlit("\n");
    reveal_strlit("]");
    reveal_strlit("}");
    assert(line_limit(cfg, stats, path) == cfg.inline_limit);
    match v {
        Json::Array(a) => {
            if a.len() > 0 {
                lemma_smart_items_like_pretty(cfg, stats, a, d, path + "[*]"@);
                assert((d * cfg.indent) as nat == 2 * d);
            } else {
                assert("[]"@ =~= seq!['[', ']']);
            }
        },
        Json::Object(o) => {
            if o.len() > 0 {
                lemma_smart_members_like_pretty(cfg, stats, o, d, path, o.len() >= 2 && crate::heuristics::same_base(o));
                assert((d * cfg.indent) as nat == 2 * d);
            } else {
                assert("{}"@ =~= seq!['{', '}']);
            }
        },
        _ => {},
    }
}

proof fn lemma_smart_items_like_pretty(
    cfg: Config,
    stats: Option<Map<Seq<char>, NodeView>>,
    a: Seq<Json>,
    d: nat,
    path: Seq<char>,
)
    requires
        cfg.indent == 2,
        cfg.inline_limit == cfg.array_item_inline_limit,
        forall|i: int| 0 <= i < a.len() ==> no_value_fits(#[trigger] a[i], cfg.inline_limit),
    ensures
        smart_items(cfg, stats, a, d, path) == pretty_items(a, d),
    decreases a,
{
    if a.len() > 0 {
        lemma_smart_expands_like_pretty(cfg, stats, a.last(), d + 1, path);
        assert(((d + 1) * cfg.indent) as nat == 2 * (d + 1));
        reveal_strlit(",\n");
        assert(",\n"@ =~= seq![',', '\n']);
        if a.len() == 1 {
            assert(a.last() == a[0]);
        } else {
            let p = a.drop_last();
            assert(forall|i: int| 0 <= i < p.len() ==> p[i] == a[i]);
            lemma_smart_items_like_pretty(cfg, stats, p, d, path);
        }
    }
}

proof fn lemma_smart_members_like_pretty(
    cfg: Config,
    stats: Option<Map<Seq<char>, NodeView>>,
    o: Seq<(Seq<char>, Json)>,
    d: nat,
    path: Seq<char>,
    is_map: bool,
)
    requires
        cfg.indent == 2,
        cfg.inline_limit == cfg.array_item_inline_limit,
        forall|i: int| 0 <= i < o.len() ==> no_value_fits(#[trigger] o[i].1, cfg.inline_limit),
    ensures
        smart_members(cfg, stats, o, d, path, is_map) == pretty_members(o, d),
    decreases o,
{
    if o.len() > 0 {
        assert(o.last() == o[o.len() - 1]);
        lemma_smart_expands_like_pretty(cfg, stats, o.last().1, d + 1, pattern_path(path, o.last().0, is_map));
        assert(((d + 1) * cfg.indent) as nat == 2 * (d + 1));
        reveal_strlit(",\n");
        reveal_strlit(": ");
        assert(",\n"@ =~= seq![',', '\n']);
        assert(": "@ =~= seq![':', ' ']);
        if o.len() == 1 {
            assert(o.last() == o[0]);
        } else {
            let p = o.drop_last();
            assert(forall|i: int| 0 <= i < p.len() ==> p[i] == o[i]);
            lemma_smart_members_like_pretty(cfg, stats, p, d, path, is_map);
        }
    }
}

/// The index keeps a value's compact text whole up to 100 characters;
/// a longer text is cut to its first 100 characters followed by `...`.
pub proof fn lemma_index_preview_shape(v: Json)
    ensures
        compact(v).len() <= 100 ==> info_of(v).1 == compact(v),
        compact(v).len() > 100 ==> {
            let p = info_of(v).1;
            &&& p.len() == 103
            &&& p.subrange(0, 100) == compact(v).subrange(0, 100)
            &&& p[100] == '.' && p[101] == '.' && p[102] == '.'
        },
{
    if compact(v).len() > 100 {
        assert(info_of(v).1.subrange(0, 100) =~= compact(v).subrange(0, 100));
    }
}

/// The kinds of values are named `null`, `boolean`, `number`, `string`,
/// `array` and `object`; a scalar's shape is its kind's name.
pub proof fn lemma_kind_names(v: Json)
    ensures
        v is Null ==> base_name(v) == seq!['n', 'u', 'l', 'l'],
        v is Bool ==> base_name(v) == seq!['b', 'o', 'o', 'l', 'e', 'a', 'n'],
        v is Number ==> base_name(v) == seq!['n', 'u', 'm', 'b', 'e', 'r'],
        v is Str ==> base_name(v) == seq!['s', 't', 'r', 'i', 'n', 'g'],
        v is Array ==> base_name(v) == seq!['a', 'r', 'r', 'a', 'y'],
        v is Object ==> base_name(v) == seq!['o', 'b', 'j', 'e', 'c', 't'],
        !(v is Array) && !(v is Object) ==> signature(v) == base_name(v),
{
    reveal_strlit("null");
    reveal_strlit("boolean");
    reveal_strlit("number");
    reveal_strlit("string");
    reveal_strlit("array");
    reveal_strlit("object");
}

/// An array's shape is that of its first item in brackets (`[]` when it
/// is empty): arrays with the same first item have the same shape, whatever
/// their later items.
pub proof fn lemma_array_signature_from_first_item(a: Seq<Json>, b: Seq<Json>)
    ensures
        a.len() == 0 ==> signature(Json::Array(a)) == seq!['[', ']'],
        a.len() > 0 ==> signature(Json::Array(a)) == seq!['['] + signature(a[0]) + seq![']'],
        a.len() > 0 && b.len() > 0 && a[0] == b[0] ==> signature(Json::Array(a)) == signature(Json::Array(b)),
{
    reveal_strlit("[]");
    reveal_strlit("[");
    reveal_strlit("]");
    assert("[]"@ =~= seq!['[', ']']);
    assert("["@ =~= seq!['[']);
    assert("]"@ =~= seq![']']);
}

/// A key that starts with `_` or contains `internal` loses 50 of its
/// weight, one that contains `debug` or `test` loses 30, and only the
/// documented priority keys gain.
pub proof fn lemma_weight_penalties(k: Seq<char>)
    ensures
        starts_with(k, seq!['_']) || has_substr(k, seq!['i', 'n', 't', 'e', 'r', 'n', 'a', 'l']) ==> weight(k) <= 50,
        has_substr(k, seq!['d', 'e', 'b', 'u', 'g']) || has_substr(k, seq!['t', 'e', 's', 't']) ==> weight(k) <= 70,
        (starts_with(k, seq!['_']) || has_substr(k, seq!['i', 'n', 't', 'e', 'r', 'n', 'a', 'l'])) && (has_substr(
            k,
            seq!['d', 'e', 'b', 'u', 'g'],
        ) || has_substr(k, seq!['t', 'e', 's', 't'])) ==> weight(k) <= 20,
        !documented_priority_key(k) && !starts_with(k, seq!['_']) && !has_substr(
            k,
            seq!['i', 'n', 't', 'e', 'r', 'n', 'a', 'l'],
        ) && !has_substr(k, seq!['d', 'e', 'b', 'u', 'g']) && !has_substr(k, seq!['t', 'e', 's', 't'])
            ==> weight(k) == 0,
        weight(k) >= -80,
{
    reveal_strlit("_");
    reveal_strlit("internal");
    reveal_strlit("debug");
    reveal_strlit("test");
    assert("_"@ =~= seq!['_']);
    assert("internal"@ =~= seq!['i', 'n', 't', 'e', 'r', 'n', 'a', 'l']);
    assert("debug"@ =~= seq!['d', 'e', 'b', 'u', 'g']);
    assert("test"@ =~= seq!['t', 'e', 's', 't']);
    lemma_priority_keys_weigh_most(k);
}

/// Automatic entities: at a path that ends in `[*]`, a 90th-percentile
/// length above 0 and at most the entity threshold gives the entity limit;
/// at a path that is not configured, any other percentile, or a path that
/// does not end in `[*]`, gives the inline limit.
pub proof fn lemma_auto_entity_threshold(cfg: Config, m: Map<Seq<char>, NodeView>, path: Seq<char>)
    ensures
        ends_with(path, seq!['[', '*', ']']) && 0 < p90_at(m, path) <= cfg.entity_threshold ==> line_limit(
            cfg,
            Some(m),
            path,
        ) == cfg.array_item_inline_limit,
        (forall|i: int| 0 <= i < cfg.entities@.len() ==> (#[trigger] cfg.entities@[i])@ != path) && (!ends_with(
            path,
            seq!['[', '*', ']'],
        ) || p90_at(m, path) == 0 || p90_at(m, path) > cfg.entity_threshold) ==> line_limit(cfg, Some(m), path)
            == cfg.inline_limit,
        (forall|i: int| 0 <= i < cfg.entities@.len() ==> (#[trigger] cfg.entities@[i])@ != path) ==> line_limit(
            cfg,
            None,
            path,
        ) == cfg.inline_limit,
{
    reveal_strlit("[*]");
    assert("[*]"@ =~= seq!['[', '*', ']']);
}

/// Under the alphabetic strategy the sorted members come in ascending order
/// of key.
pub proof fn lemma_alphabetic_keys_ascend(o: Seq<(Seq<char>, Json)>)
    ensures
        ({
            let s = sorted_members(o, member_order(o, SortStrategy::Alphabetic), SortStrategy::Alphabetic);
            forall|p: int, q: int| 0 <= p < q < s.len() ==> !lex_lt(#[trigger] s[q].0, #[trigger] s[p].0)
        }),
{
    let ks = member_sort_keys(o, SortStrategy::Alphabetic);
    let ord = member_order(o, SortStrategy::Alphabetic);
    lemma_sort_order_range(ks, o.len());
    lemma_sort_order_sorted(ks, o.len());
    lemma_sorted_members_index(o, ord, SortStrategy::Alphabetic);
    let s = sorted_members(o, ord, SortStrategy::Alphabetic);
    assert forall|p: int, q: int| 0 <= p < q < s.len() implies !lex_lt(#[trigger] s[q].0, #[trigger] s[p].0) by {
        assert(ks[ord[q]] == (0int, s[q].0));
        assert(ks[ord[p]] == (0int, s[p].0));
        assert(!crate::sort::key_before(ks[ord[q]], ks[ord[p]]));
    }
}

/// The key order compares code points from the first character on: a
/// smaller first code point comes first, a common first character defers
/// to the rest, and a proper prefix comes before the longer key.
pub proof fn lemma_key_order_by_code_points(a: char, b: char, x: Seq<char>, y: Seq<char>)
    ensures
        (a as u32) < (b as u32) ==> lex_lt(seq![a] + x, seq![b] + y),
        lex_lt(seq![a] + x, seq![a] + y) == lex_lt(x, y),
        y.len() > 0 ==> lex_lt(x, x + y) && !lex_lt(x + y, x),
    decreases x.len(),
{
    assert((seq![a] + x).drop_first() =~= x);
    assert((seq![b] + y).drop_first() =~= y);
    assert((seq![a] + y).drop_first() =~= y);
    if y.len() > 0 && x.len() > 0 {
        lemma_key_order_by_code_points(x[0], x[0], x.drop_first(), y);
        assert((x + y).drop_first() =~= x.drop_first() + y);
        assert((x + y)[0] == x[0]);
    }
}

/// How many numbers of `s` are below `x` (`strict`), or at most `x`.
pub open spec fn count_le(s: Seq<usize>, x: usize, strict: bool) -> nat
    decreases s.len(),
{
    if s.len() == 0 {
        0
    } else {
        count_le(s.drop_last(), x, strict) + if (strict && s.last() < x) || (!strict && s.last() <= x) {
            1nat
        } else {
            0nat
        }
    }
}

proof fn lemma_count_concat(a: Seq<usize>, b: Seq<usize>, x: usize, strict: bool)
    ensures
        count_le(a + b, x, strict) == count_le(a, x, strict) + count_le(b, x, strict),
    decreases b.len(),
{
    if b.len() == 0 {
        assert(a + b =~= a);
    } else {
        lemma_count_concat(a, b.drop_last(), x, strict);
        assert((a + b).drop_last() =~= a + b.drop_last());
        assert((a + b).last() == b.last());
    }
}

proof fn lemma_count_bounds(s: Seq<usize>, x: usize, strict: bool)
    ensures
        count_le(s, x, strict) <= s.len(),
        (forall|i: int| 0 <= i < s.len() ==> (strict && #[trigger] s[i] < x) || (!strict && s[i] <= x)) ==> count_le(
            s,
            x,
            strict,
        ) == s.len(),
        (forall|i: int| 0 <= i < s.len() ==> !((strict && #[trigger] s[i] < x) || (!strict && s[i] <= x)))
            ==> count_le(s, x, strict) == 0,
    decreases s.len(),
{
    if s.len() > 0 {
        lemma_count_bounds(s.drop_last(), x, strict);
        assert(forall|i: int| 0 <= i < s.len() - 1 ==> s.drop_last()[i] == s[i]);
        assert(s.last() == s[s.len() - 1]);
    }
}

proof fn lemma_count_remove(s: Seq<usize>, j: int, x: usize, strict: bool)
    requires
        0 <= j < s.len(),
    ensures
        count_le(s, x, strict) == count_le(s.remove(j), x, strict) + count_le(seq![s[j]], x, strict),
{
    let a = s.take(j);
    let b = s.skip(j + 1);
    assert(s =~= a + seq![s[j]] + b);
    assert(s.remove(j) =~= a + b);
    lemma_count_concat(a + seq![s[j]], b, x, strict);
    lemma_count_concat(a, seq![s[j]], x, strict);
    lemma_count_concat(a, b, x, strict);
}

proof fn lemma_count_multiset(s1: Seq<usize>, s2: Seq<usize>, x: usize, strict: bool)
    requires
        s1.to_multiset() == s2.to_multiset(),
    ensures
        count_le(s1, x, strict) == count_le(s2, x, strict),
    decreases s1.len(),
{
    broadcast use vstd::seq_lib::group_to_multiset_ensures;
    assert(s1.len() == s1.to_multiset().len());
    assert(s2.len() == s2.to_multiset().len());
    if s1.len() > 0 {
        let y = s1.last();
        assert(s1.to_multiset().count(y) > 0);
        assert(s2.contains(y));
        let j = choose|j: int| 0 <= j < s2.len() && s2[j] == y;
        assert(s2.remove(j).to_multiset() == s2.to_multiset().remove(y));
        assert(s1.drop_last().push(y) =~= s1);
        assert(s1.drop_last().to_multiset() =~= s1.to_multiset().remove(y));
        lemma_count_multiset(s1.drop_last(), s2.remove(j), x, strict);
        lemma_count_remove(s2, j, x, strict);
        let one = seq![y];
        assert(one.drop_last() =~= Seq::<usize>::empty());
        assert(one.last() == y);
        assert(count_le(one.drop_last(), x, strict) == 0);
        assert(count_le(s1, x, strict) == count_le(s1.drop_last(), x, strict) + count_le(one, x, strict));
    }
}

proof fn lemma_sorted_count_below(s: Seq<usize>, idx: int)
    requires
        0 <= idx < s.len(),
        forall|p: int, q: int| 0 <= p < q < s.len() ==> #[trigger] s[p] <= #[trigger] s[q],
    ensures
        count_le(s, s[idx], true) <= idx,
{
    let x = s[idx];
    let lo = s.take(idx);
    let hi = s.skip(idx);
    assert(s =~= lo + hi);
    lemma_count_concat(lo, hi, x, true);
    lemma_count_bounds(lo, x, true);
    assert forall|i: int| 0 <= i < hi.len() implies !((true && #[trigger] hi[i] < x) || (!true && hi[i] <= x)) by {
        assert(hi[i] == s[idx + i]);
        if i > 0 {
            assert(s[idx] <= s[idx + i]);
        }
    }
    lemma_count_bounds(hi, x, true);
}

proof fn lemma_sorted_count_upto(s: Seq<usize>, idx: int)
    requires
        0 <= idx < s.len(),
        forall|p: int, q: int| 0 <= p < q < s.len() ==> #[trigger] s[p] <= #[trigger] s[q],
    ensures
        count_le(s, s[idx], false) >= idx + 1,
{
    let x = s[idx];
    let lo = s.take(idx + 1);
    let hi = s.skip(idx + 1);
    assert(s =~= lo + hi);
    lemma_count_concat(lo, hi, x, false);
    assert forall|i: int| 0 <= i < lo.len() implies (false && #[trigger] lo[i] < x) || (!false && lo[i] <= x) by {
        assert(lo[i] == s[i]);
        if i < idx {
            assert(s[i] <= s[idx]);
        }
    }
    lemma_count_bounds(lo, x, false);
}

/// The 90th-percentile length of `n` lengths holds rank min(⌊9n/10⌋, n − 1)
/// among them: at most that many lengths are below it, and more than that
/// many are at most it.
pub proof fn lemma_p90_rank(lengths: Seq<usize>)
    requires
        lengths.len() > 0,
    ensures
        ({
            let n = lengths.len();
            let idx: nat = if n * 9 / 10 < n - 1 { (n * 9 / 10) as nat } else { (n - 1) as nat };
            &&& count_le(lengths, p90_of(lengths), true) <= idx
            &&& count_le(lengths, p90_of(lengths), false) >= idx + 1
        }),
{
    let n = lengths.len();
    let idx: int = if n * 9 / 10 < n - 1 { (n * 9 / 10) as int } else { n - 1 };
    lemma_sort_asc_sorts(lengths);
    let s = sort_asc(lengths);
    let x = p90_of(lengths);
    assert(x == s[idx]);
    lemma_count_multiset(lengths, s, x, true);
    lemma_count_multiset(lengths, s, x, false);
    lemma_sorted_count_below(s, idx);
    lemma_sorted_count_upto(s, idx);
}

proof fn lemma_item_events_hold(a: Seq<Json>, path: Seq<char>, i: int)
    requires
        0 <= i < a.len(),
    ensures
        item_events(a, path).contains((item_path(path, i as nat), info_of(a[i]))),
    decreases a.len(),
{
    let last = index_events(a.last(), item_path(path, (a.len() - 1) as nat));
    if i < a.len() - 1 {
        lemma_item_events_hold(a.drop_last(), path, i);
        let k = choose|k: int| 0 <= k < item_events(a.drop_last(), path).len() && item_events(a.drop_last(), path)[k] == (
            item_path(path, i as nat),
            info_of(a.drop_last()[i]),
        );
        assert((item_events(a.drop_last(), path) + last)[k] == item_events(a.drop_last(), path)[k]);
    } else {
        reveal_strlit("[");
        assert(item_path(path, i as nat).len() > 0);
        assert(last[0] == (item_path(path, i as nat), info_of(a[i])));
        assert((item_events(a.drop_last(), path) + last)[item_events(a.drop_last(), path).len() as int] == last[0]);
    }
}

/// The index walk records item `i` of an array at `path[i]`, the position
/// written in decimal.
pub proof fn lemma_index_records_items(a: Seq<Json>, path: Seq<char>, i: int)
    requires
        0 <= i < a.len(),
    ensures
        index_events(Json::Array(a), path).contains((path + seq!['['] + decimal(i as nat) + seq![']'], info_of(a[i]))),
{
    reveal_strlit("[");
    reveal_strlit("]");
    assert("["@ =~= seq!['[']);
    assert("]"@ =~= seq![']']);
    lemma_item_events_hold(a, path, i);
    let own: Seq<(Seq<char>, (crate::index::ValueType, Seq<char>))> = if path.len() > 0 {
        seq![(path, info_of(Json::Array(a)))]
    } else {
        Seq::empty()
    };
    let ev = item_events(a, path);
    let k = choose|k: int| 0 <= k < ev.len() && ev[k] == (item_path(path, i as nat), info_of(a[i]));
    assert((own + ev)[own.len() + k] == ev[k]);
}

proof fn lemma_member_events_hold(o: Seq<(Seq<char>, Json)>, path: Seq<char>, i: int)
    requires
        0 <= i < o.len(),
        member_path(path, o[i].0).len() > 0,
    ensures
        member_events(o, path).contains((member_path(path, o[i].0), info_of(o[i].1))),
    decreases o.len(),
{
    let last = index_events(o.last().1, member_path(path, o.last().0));
    if i < o.len() - 1 {
        assert(o.drop_last()[i] == o[i]);
        lemma_member_events_hold(o.drop_last(), path, i);
        let k = choose|k: int| 0 <= k < member_events(o.drop_last(), path).len() && member_events(o.drop_last(), path)[k] == (
            member_path(path, o[i].0),
            info_of(o[i].1),
        );
        assert((member_events(o.drop_last(), path) + last)[k] == member_events(o.drop_last(), path)[k]);
    } else {
        assert(o.last() == o[i]);
        assert(last[0] == (member_path(path, o[i].0), info_of(o[i].1)));
        assert((member_events(o.drop_last(), path) + last)[member_events(o.drop_last(), path).len() as int] == last[0]);
    }
}

/// The index walk records a member with key `k` at `k` when the object is
/// the document itself, and at `path.k` below it (a member whose path would
/// be empty is not recorded).
pub proof fn lemma_index_records_members(o: Seq<(Seq<char>, Json)>, path: Seq<char>, i: int)
    requires
        0 <= i < o.len(),
        path.len() > 0 || o[i].0.len() > 0,
    ensures
        index_events(Json::Object(o), path).contains(
            (if path.len() == 0 { o[i].0 } else { path + seq!['.'] + o[i].0 }, info_of(o[i].1)),
        ),
{
    reveal_strlit(".");
    assert("."@ =~= seq!['.']);
    lemma_member_events_hold(o, path, i);
    let own: Seq<(Seq<char>, (crate::index::ValueType, Seq<char>))> = if path.len() > 0 {
        seq![(path, info_of(Json::Object(o)))]
    } else {
        Seq::empty()
    };
    let ev = member_events(o, path);
    let k = choose|k: int| 0 <= k < ev.len() && ev[k] == (member_path(path, o[i].0), info_of(o[i].1));
    assert((own + ev)[own.len() + k] == ev[k]);
}

proof fn lemma_stat_items_hold(a: Seq<Json>, path: Seq<char>, i: int)
    requires
        0 <= i < a.len(),
    ensures
        stat_item_events(a, path).contains(stat_event(a[i], path)),
    decreases a.len(),
{
    let last = stat_events(a.last(), path);
    if i < a.len() - 1 {
        lemma_stat_items_hold(a.drop_last(), path, i);
        let prev = stat_item_events(a.drop_last(), path);
        let k = choose|k: int| 0 <= k < prev.len() && prev[k] == stat_event(a.drop_last()[i], path);
        assert((prev + last)[k] == prev[k]);
    } else {
        let prev = stat_item_events(a.drop_last(), path);
        assert((prev + last)[prev.len() as int] == last[0]);
    }
}

proof fn lemma_stat_members_hold(o: Seq<(Seq<char>, Json)>, path: Seq<char>, is_map: bool, i: int)
    requires
        0 <= i < o.len(),
    ensures
        stat_member_events(o, path, is_map).contains(stat_event(o[i].1, pattern_path(path, o[i].0, is_map))),
    decreases o.len(),
{
    let last = stat_events(o.last().1, pattern_path(path, o.last().0, is_map));
    let prev = stat_member_events(o.drop_last(), path, is_map);
    if i < o.len() - 1 {
        assert(o.drop_last()[i] == o[i]);
        lemma_stat_members_hold(o.drop_last(), path, is_map, i);
        let k = choose|k: int| 0 <= k < prev.len() && prev[k] == stat_event(o[i].1, pattern_path(path, o[i].0, is_map));
        assert((prev + last)[k] == prev[k]);
    } else {
        assert(o.last() == o[i]);
        assert((prev + last)[prev.len() as int] == last[0]);
    }
}

/// The statistics visit every item of an array at the shared pattern
/// `path[*]`.
pub proof fn lemma_stats_visit_items_at_wildcard(a: Seq<Json>, path: Seq<char>, i: int)
    requires
        0 <= i < a.len(),
    ensures
        stat_events(Json::Array(a), path).contains(stat_event(a[i], path + seq!['[', '*', ']'])),
{
    reveal_strlit("[*]");
    assert("[*]"@ =~= seq!['[', '*', ']']);
    lemma_stat_items_hold(a, path + "[*]"@, i);
    let own = seq![stat_event(Json::Array(a), path)];
    let ev = stat_item_events(a, path + "[*]"@);
    let k = choose|k: int| 0 <= k < ev.len() && ev[k] == stat_event(a[i], path + "[*]"@);
    assert((own + ev)[1 + k] == ev[k]);
}

/// The statistics visit every member value of an object: at the shared
/// pattern `path[*]` when the object reads as a map (two or more members,
/// all of one kind), else at `k` for a member of the document itself and
/// at `path.k` below it.
pub proof fn lemma_stats_visit_members(o: Seq<(Seq<char>, Json)>, path: Seq<char>, i: int)
    requires
        0 <= i < o.len(),
    ensures
        stat_events(Json::Object(o), path).contains(
            stat_event(
                o[i].1,
                if o.len() >= 2 && same_base(o) {
                    path + seq!['[', '*', ']']
                } else if path.len() == 0 {
                    o[i].0
                } else {
                    path + seq!['.'] + o[i].0
                },
            ),
        ),
{
    reveal_strlit("[*]");
    reveal_strlit(".");
    assert("[*]"@ =~= seq!['[', '*', ']']);
    assert("."@ =~= seq!['.']);
    let is_map = o.len() >= 2 && same_base(o);
    lemma_stat_members_hold(o, path, is_map, i);
    let own = seq![stat_event(Json::Object(o), path)];
    let ev = stat_member_events(o, path, is_map);
    let k = choose|k: int| 0 <= k < ev.len() && ev[k] == stat_event(o[i].1, pattern_path(path, o[i].0, is_map));
    assert((own + ev)[1 + k] == ev[k]);
}

} // verus!
