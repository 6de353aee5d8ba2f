use vstd::prelude::*;
use crate::formatter::{
    deep_sorted, is_auto_entity, is_entity_path, line_limit, member_order, member_sort_keys, sample_listing, smart,
    sorted_items, sorted_members, Config, SortStrategy,
};
use crate::heuristics::{all_objects, has_key, merge_all, merge_into, same_base, sig_entries, signature};
use crate::layout::{
    lemma_compact_is_one_line, lemma_pretty_minifies_to_compact, lemma_smart_minifies_to_compact, minify, numbers_plain,
    one_line,
};
use crate::schema::{same_signature, schema};
use crate::sort::{
    key_before, lemma_sorted_names_sorts, lemma_sort_order_of_sorted, sorted_names, lemma_sort_order_permutation, lemma_sort_order_range, lemma_sort_order_sorted,
};
use crate::stats::{
    fold_visits, lemma_sort_asc_sorts, p90_of, record_visit, sort_asc, stat_events, stats_of, NodeView, StatEvent,
};
use crate::text::{
    has_substr, lemma_ascending_multiset_unique, lemma_ascending_unique, lemma_map_values_multiset, lex_lt, starts_with,
};
use crate::value::{base_name, byte_len, compact, keys_distinct, pretty, Json};

verus! {

/// Every object inside `v` lists its members so that no member's sort key
/// belongs strictly before that of an earlier member.
pub open spec fn keys_in_order(v: Json, strat: SortStrategy) -> bool
    decreases v,
{
    match v {
        Json::Array(a) => forall|i: int| 0 <= i < a.len() ==> keys_in_order(#[trigger] a[i], strat),
        Json::Object(o) => {
            &&& forall|p: int, q: int|
                0 <= p < q < o.len() ==> !key_before(
                    #[trigger] member_sort_keys(o, strat)[q],
                    #[trigger] member_sort_keys(o, strat)[p],
                )
            &&& forall|i: int| 0 <= i < o.len() ==> keys_in_order(#[trigger] o[i].1, strat)
        },
        _ => true,
    }
}

pub proof fn lemma_sorted_members_index(o: Seq<(Seq<char>, Json)>, ord: Seq<int>, strat: SortStrategy)
    requires
        forall|p: int| 0 <= p < ord.len() ==> 0 <= #[trigger] ord[p] < o.len(),
    ensures
        sorted_members(o, ord, strat).len() == ord.len(),
        forall|p: int|
            0 <= p < ord.len() ==> #[trigger] sorted_members(o, ord, strat)[p] == (
                o[ord[p]].0,
                deep_sorted(o[ord[p]].1, strat),
            ),
    decreases ord.len(),
{
    if ord.len() > 0 {
        lemma_sorted_members_index(o, ord.drop_last(), strat);
    }
}

proof fn lemma_sorted_items_index(a: Seq<Json>, strat: SortStrategy)
    ensures
        sorted_items(a, strat).len() == a.len(),
        forall|i: int| 0 <= i < a.len() ==> #[trigger] sorted_items(a, strat)[i] == deep_sorted(a[i], strat),
    decreases a.len(),
{
    if a.len() > 0 {
        lemma_sorted_items_index(a.drop_last(), strat);
    }
}

/// After sorting, the members of every object come in the order of the
/// strategy: a greater key weight first (Smart), then ascending key.
pub proof fn lemma_sorted_keys_in_order(v: Json, strat: SortStrategy)
    ensures
        keys_in_order(deep_sorted(v, strat), strat),
    decreases v,
{
    match v {
        Json::Array(a) => {
            lemma_sorted_items_index(a, strat);
            assert forall|i: int| 0 <= i < a.len() implies keys_in_order(
                #[trigger] sorted_items(a, strat)[i],
                strat,
            ) by {
                lemma_sorted_keys_in_order(a[i], strat);
            }
        },
        Json::Object(o) => {
            let ks = member_sort_keys(o, strat);
            let ord = member_order(o, strat);
            lemma_sort_order_range(ks, o.len());
            lemma_sort_order_sorted(ks, o.len());
            lemma_sorted_members_index(o, ord, strat);
            let s = sorted_members(o, ord, strat);
            let ks2 = member_sort_keys(s, strat);
            assert forall|p: int, q: int| 0 <= p < q < s.len() implies !key_before(
                #[trigger] ks2[q],
                #[trigger] ks2[p],
            ) by {
                assert(ks2[p] == ks[ord[p]]);
                assert(ks2[q] == ks[ord[q]]);
            }
            assert forall|i: int| 0 <= i < s.len() implies keys_in_order(#[trigger] s[i].1, strat) by {
                lemma_sorted_keys_in_order(o[ord[i]].1, strat);
            }
        },
        _ => {},
    }
}

/// The listing of array paths and samples in a prompt is determined by the
/// statistics: two listings that both meet `sample_listing` are equal.
pub proof fn lemma_sample_listing_unique(
    m: Map<Seq<char>, NodeView>,
    l1: Seq<(Seq<char>, Seq<Seq<char>>)>,
    l2: Seq<(Seq<char>, Seq<Seq<char>>)>,
)
    requires
        sample_listing(m, l1),
        sample_listing(m, l2),
    ensures
        l1 == l2,
{
    let k1 = Seq::new(l1.len(), |p: int| l1[p].0);
    let k2 = Seq::new(l2.len(), |p: int| l2[p].0);
    assert forall|p: int, q: int| 0 <= p < q < k1.len() implies lex_lt(#[trigger] k1[p], #[trigger] k1[q]) by {}
    assert forall|p: int, q: int| 0 <= p < q < k2.len() implies lex_lt(#[trigger] k2[p], #[trigger] k2[q]) by {}
    assert forall|x: Seq<char>| k1.contains(x) <==> k2.contains(x) by {
        if k1.contains(x) {
            let p = choose|p: int| 0 <= p < k1.len() && k1[p] == x;
            assert(l1[p].0 == x);
            assert(m.contains_key(x) && has_substr(x, "[*]"@) && m[x].2);
            let q = choose|q: int| 0 <= q < l2.len() && #[trigger] l2[q].0 == x;
            assert(k2[q] == x);
        }
        if k2.contains(x) {
            let q = choose|q: int| 0 <= q < k2.len() && k2[q] == x;
            assert(l2[q].0 == x);
            assert(m.contains_key(x) && has_substr(x, "[*]"@) && m[x].2);
            let p = choose|p: int| 0 <= p < l1.len() && #[trigger] l1[p].0 == x;
            assert(k1[p] == x);
        }
    }
    lemma_ascending_unique(k1, k2);
    assert forall|p: int| 0 <= p < l1.len() implies l1[p] == l2[p] by {
        assert(k1[p] == k2[p]);
        assert(l1[p].1 == m[l1[p].0].1);
        assert(l2[p].1 == m[l2[p].0].1);
    }
    assert(l1 =~= l2);
}

/// The visits of `s` at the path pattern `k`, in order.
pub open spec fn visits_at(s: Seq<StatEvent>, k: Seq<char>) -> Seq<StatEvent> {
    s.filter(|e: StatEvent| e.0 == k)
}

/// What the statistics keep of the visits at one path pattern: every
/// length, the previews of the first three visits, and whether the first
/// visit was of an object.
pub open spec fn node_of_visits(w: Seq<StatEvent>) -> NodeView {
    (
        w.map_values(|e: StatEvent| e.1),
        w.take(if w.len() < 3 { w.len() as int } else { 3 }).map_values(|e: StatEvent| e.2),
        w[0].3,
    )
}

proof fn lemma_fold_visits_at(s: Seq<StatEvent>, k: Seq<char>)
    ensures
        fold_visits(Map::empty(), s).contains_key(k) <==> visits_at(s, k).len() > 0,
        visits_at(s, k).len() > 0 ==> fold_visits(Map::empty(), s)[k] == node_of_visits(visits_at(s, k)),
    decreases s.len(),
{
    reveal(Seq::filter);
    if s.len() > 0 {
        let p = s.drop_last();
        let e = s.last();
        lemma_fold_visits_at(p, k);
        let w0 = visits_at(p, k);
        let w = visits_at(s, k);
        let m0 = fold_visits(Map::empty(), p);
        assert(fold_visits(Map::empty(), s) == record_visit(m0, e));
        if e.0 == k {
            assert(w == w0.push(e));
            if w0.len() > 0 {
                let n = node_of_visits(w0);
                assert(n.0.push(e.1) =~= w.map_values(|x: StatEvent| x.1));
                if w0.len() < 3 {
                    assert(n.1.push(e.2) =~= w.take(w.len() as int).map_values(|x: StatEvent| x.2));
                } else {
                    assert(n.1 =~= w.take(3).map_values(|x: StatEvent| x.2));
                }
                assert(w[0] == w0[0]);
            } else {
                assert(w =~= seq![e]);
                assert(seq![e.1] =~= w.map_values(|x: StatEvent| x.1));
                assert(seq![e.2] =~= w.take(1).map_values(|x: StatEvent| x.2));
            }
        } else {
            assert(w == w0);
        }
    }
}

/// The statistics of a document hold, for each path pattern that the walk
/// visits, every length seen there, the previews of the first three values
/// seen there, and whether the first value seen there was an object; they
/// hold no other pattern.
pub proof fn lemma_stats_keep_visits(v: Json, k: Seq<char>)
    ensures
        stats_of(v).contains_key(k) <==> visits_at(stat_events(v, Seq::empty()), k).len() > 0,
        stats_of(v).contains_key(k) ==> stats_of(v)[k] == node_of_visits(visits_at(stat_events(v, Seq::empty()), k)),
        stats_of(v).contains_key(k) ==> 1 <= stats_of(v)[k].1.len() <= 3 && stats_of(v)[k].0.len() >= stats_of(v)[k].1.len(),
{
    lemma_fold_visits_at(stat_events(v, Seq::empty()), k);
}

/// The 90th-percentile length of a nonempty list of lengths is one of them:
/// the one at rank min(⌊9n/10⌋, n − 1) of the n lengths in ascending order.
pub proof fn lemma_p90_is_a_recorded_length(lengths: Seq<usize>)
    requires
        lengths.len() > 0,
    ensures
        lengths.contains(p90_of(lengths)),
        forall|p: int, q: int|
            0 <= p < q < sort_asc(lengths).len() ==> #[trigger] sort_asc(lengths)[p] <= #[trigger] sort_asc(lengths)[q],
        sort_asc(lengths).to_multiset() == lengths.to_multiset(),
{
    broadcast use vstd::seq_lib::group_to_multiset_ensures;
    lemma_sort_asc_sorts(lengths);
    let r = sort_asc(lengths);
    let n = lengths.len();
    let idx: int = if n * 9 / 10 < n - 1 { (n * 9 / 10) as int } else { n - 1 };
    assert(r.len() == n);
    assert(r.contains(r[idx]));
    assert(r.to_multiset().count(r[idx]) > 0);
}

proof fn lemma_sorted_numbers_plain(v: Json, strat: SortStrategy)
    requires
        numbers_plain(v),
    ensures
        numbers_plain(deep_sorted(v, strat)),
    decreases v,
{
    match v {
        Json::Array(a) => {
            lemma_sorted_items_index(a, strat);
            assert forall|i: int| 0 <= i < sorted_items(a, strat).len() implies numbers_plain(
                #[trigger] sorted_items(a, strat)[i],
            ) by {
                lemma_sorted_numbers_plain(a[i], strat);
            }
        },
        Json::Object(o) => {
            let ord = member_order(o, strat);
            lemma_sort_order_range(member_sort_keys(o, strat), o.len());
            lemma_sorted_members_index(o, ord, strat);
            let s = sorted_members(o, ord, strat);
            assert forall|p: int| 0 <= p < s.len() implies numbers_plain(#[trigger] s[p].1) by {
                lemma_sorted_numbers_plain(o[ord[p]].1, strat);
            }
        },
        _ => {},
    }
}

/// All modes write one JSON value: for a document whose numbers are single
/// tokens, as every parsed document's are, the Smart and Pretty texts of the
/// sorted document without the whitespace between tokens are its Compact
/// text, whatever the configuration and statistics.
pub proof fn lemma_modes_write_one_value(cfg: Config, stats: Option<Map<Seq<char>, NodeView>>, v: Json)
    requires
        numbers_plain(v),
    ensures
        minify(smart(cfg, stats, deep_sorted(v, cfg.sort_strategy), 0, Seq::empty())) == compact(
            deep_sorted(v, cfg.sort_strategy),
        ),
        minify(pretty(deep_sorted(v, cfg.sort_strategy), 0)) == compact(deep_sorted(v, cfg.sort_strategy)),
{
    let s = deep_sorted(v, cfg.sort_strategy);
    lemma_sorted_numbers_plain(v, cfg.sort_strategy);
    lemma_smart_minifies_to_compact(cfg, stats, s, 0, Seq::empty());
    lemma_pretty_minifies_to_compact(s, 0);
}

/// The `key:shape` entry of a member.
pub open spec fn sig_entry(m: (Seq<char>, Json)) -> Seq<char> {
    m.0 + ":"@ + signature(m.1)
}

proof fn lemma_sig_entries_map(o: Seq<(Seq<char>, Json)>)
    ensures
        sig_entries(o) == o.map_values(|m: (Seq<char>, Json)| sig_entry(m)),
    decreases o.len(),
{
    if o.len() > 0 {
        lemma_sig_entries_map(o.drop_last());
        assert(o.map_values(|m: (Seq<char>, Json)| sig_entry(m)) =~= o.drop_last().map_values(
            |m: (Seq<char>, Json)| sig_entry(m),
        ).push(sig_entry(o.last())));
    } else {
        assert(o.map_values(|m: (Seq<char>, Json)| sig_entry(m)) =~= Seq::<Seq<char>>::empty());
    }
}

/// The shape of an object does not depend on the order of its members:
/// objects with the same members, each as often, have the same signature.
pub proof fn lemma_signature_ignores_member_order(o1: Seq<(Seq<char>, Json)>, o2: Seq<(Seq<char>, Json)>)
    requires
        o1.to_multiset() == o2.to_multiset(),
    ensures
        signature(Json::Object(o1)) == signature(Json::Object(o2)),
{
    broadcast use vstd::seq_lib::group_to_multiset_ensures;
    assert(o1.len() == o1.to_multiset().len());
    assert(o2.len() == o2.to_multiset().len());
    let f = |m: (Seq<char>, Json)| sig_entry(m);
    lemma_sig_entries_map(o1);
    lemma_sig_entries_map(o2);
    lemma_map_values_multiset(o1, o2, f);
    let e1 = sig_entries(o1);
    let e2 = sig_entries(o2);
    lemma_sorted_names_sorts(e1);
    lemma_sorted_names_sorts(e2);
    lemma_ascending_multiset_unique(sorted_names(e1), sorted_names(e2));
}

/// Sorting is idempotent: sorting an already sorted value changes nothing.
pub proof fn lemma_sort_idempotent(v: Json, strat: SortStrategy)
    ensures
        deep_sorted(deep_sorted(v, strat), strat) == deep_sorted(v, strat),
    decreases v,
{
    match v {
        Json::Array(a) => {
            let s = sorted_items(a, strat);
            lemma_sorted_items_index(a, strat);
            lemma_sorted_items_index(s, strat);
            assert forall|i: int| 0 <= i < a.len() implies #[trigger] sorted_items(s, strat)[i] == s[i] by {
                lemma_sort_idempotent(a[i], strat);
            }
            assert(sorted_items(s, strat) =~= s);
        },
        Json::Object(o) => {
            let ord = member_order(o, strat);
            let ks = member_sort_keys(o, strat);
            lemma_sort_order_range(ks, o.len());
            lemma_sorted_members_index(o, ord, strat);
            let s = sorted_members(o, ord, strat);
            lemma_sorted_keys_in_order(v, strat);
            let ks2 = member_sort_keys(s, strat);
            assert forall|p: int, q: int| 0 <= p < q < s.len() implies !key_before(
                #[trigger] ks2[q],
                #[trigger] ks2[p],
            ) by {}
            lemma_sort_order_of_sorted(ks2, s.len());
            let ord2 = member_order(s, strat);
            lemma_sorted_members_index(s, ord2, strat);
            assert forall|p: int| 0 <= p < s.len() implies #[trigger] sorted_members(s, ord2, strat)[p] == s[p] by {
                assert(ord2[p] == p);
                lemma_sort_idempotent(o[ord[p]].1, strat);
            }
            assert(sorted_members(s, ord2, strat) =~= s);
        },
        _ => {},
    }
}

/// Sorting an object's members keeps every member: the sorted members are
/// the given ones (values sorted in turn) in a new order, each once.
pub proof fn lemma_sort_keeps_members(o: Seq<(Seq<char>, Json)>, strat: SortStrategy)
    ensures
        sorted_members(o, member_order(o, strat), strat).len() == o.len(),
        forall|k: int|
            #![trigger o[k]]
            0 <= k < o.len() ==> exists|p: int|
                0 <= p < o.len() && #[trigger] sorted_members(o, member_order(o, strat), strat)[p] == (
                    o[k].0,
                    deep_sorted(o[k].1, strat),
                ),
        keys_distinct(o) ==> keys_distinct(sorted_members(o, member_order(o, strat), strat)),
{
    let ks = member_sort_keys(o, strat);
    let ord = member_order(o, strat);
    lemma_sort_order_range(ks, o.len());
    lemma_sort_order_permutation(ks, o.len());
    lemma_sorted_members_index(o, ord, strat);
    let s = sorted_members(o, ord, strat);
    assert forall|k: int| #![trigger o[k]] 0 <= k < o.len() implies exists|p: int|
        0 <= p < o.len() && #[trigger] s[p] == (o[k].0, deep_sorted(o[k].1, strat)) by {
        assert(ord.contains(k));
        let p = choose|p: int| 0 <= p < ord.len() && ord[p] == k;
        assert(s[p] == (o[k].0, deep_sorted(o[k].1, strat)));
    }
    if keys_distinct(o) {
        assert forall|p: int, q: int| 0 <= p < q < s.len() implies s[p].0 != s[q].0 by {
            assert(ord[p] != ord[q]);
            if ord[p] < ord[q] {
                assert(o[ord[p]].0 != o[ord[q]].0);
            } else {
                assert(o[ord[q]].0 != o[ord[p]].0);
            }
        }
    }
}

/// A value whose compact text fits its line limit is written on one line,
/// as its compact text.
pub proof fn lemma_smart_keeps_short_values_inline(
    cfg: Config,
    stats: Option<Map<Seq<char>, NodeView>>,
    v: Json,
    depth: nat,
    path: Seq<char>,
)
    requires
        byte_len(compact(v)) <= line_limit(cfg, stats, path),
    ensures
        smart(cfg, stats, v, depth, path) == compact(v),
        numbers_plain(v) ==> one_line(smart(cfg, stats, v, depth, path)),
{
    if numbers_plain(v) {
        lemma_compact_is_one_line(v);
    }
}

/// A value at a configured entity path stays on one line whenever its
/// compact text fits the entity limit.
pub proof fn lemma_forced_entity_on_one_line(
    cfg: Config,
    stats: Option<Map<Seq<char>, NodeView>>,
    v: Json,
    depth: nat,
    path: Seq<char>,
)
    requires
        is_entity_path(cfg, path),
        byte_len(compact(v)) <= cfg.array_item_inline_limit,
    ensures
        smart(cfg, stats, v, depth, path) == compact(v),
        numbers_plain(v) ==> one_line(smart(cfg, stats, v, depth, path)),
{
    if numbers_plain(v) {
        lemma_compact_is_one_line(v);
    }
}

/// An entity threshold of 0 turns automatic entity detection off.
pub proof fn lemma_zero_threshold_no_auto_entities(
    cfg: Config,
    stats: Option<Map<Seq<char>, NodeView>>,
    path: Seq<char>,
)
    requires
        cfg.entity_threshold == 0,
    ensures
        !is_auto_entity(cfg, stats, path),
{
}

/// An object of at least two members whose values all have one shape is
/// described as a map.
pub proof fn lemma_uniform_object_is_map(o: Seq<(Seq<char>, Json)>, ind: nat)
    requires
        o.len() >= 2,
        same_signature(o),
    ensures
        schema(Json::Object(o), ind) == "map[string]"@ + schema(o[0].1, ind + 1),
{
}

/// The first character and the length of a signature tell the kind of the
/// value.
proof fn lemma_signature_kind(v: Json)
    ensures
        signature(v).len() > 0,
        signature(v)[0] == match v {
            Json::Null => 'n',
            Json::Bool(_) => 'b',
            Json::Number(_) => 'n',
            Json::Str(_) => 's',
            Json::Array(_) => '[',
            Json::Object(_) => '{',
        },
        v is Null ==> signature(v).len() == 4,
        v is Number ==> signature(v).len() == 6,
{
    reveal_strlit("null");
    reveal_strlit("boolean");
    reveal_strlit("number");
    reveal_strlit("string");
    reveal_strlit("[]");
    reveal_strlit("[");
    reveal_strlit("{}");
    reveal_strlit("{");
}

/// Values of one signature are of one kind.
proof fn lemma_signature_base(a: Json, b: Json)
    requires
        signature(a) == signature(b),
    ensures
        base_name(a) == base_name(b),
{
    lemma_signature_kind(a);
    lemma_signature_kind(b);
}

/// An object of at least two members whose values are all of one kind
/// (null, boolean, number, string, array or object) is described as a map,
/// and any other object with members is listed key by key.
pub proof fn lemma_schema_map_iff_one_kind(o: Seq<(Seq<char>, Json)>, ind: nat)
    requires
        o.len() > 0,
    ensures
        starts_with(schema(Json::Object(o), ind), "map[string]"@) <==> (o.len() >= 2 && same_base(o)),
        !(o.len() >= 2 && same_base(o)) ==> starts_with(schema(Json::Object(o), ind), "{"@),
{
    reveal_strlit("map[string]");
    reveal_strlit("{");
    let m = "map[string]"@;
    let r = schema(Json::Object(o), ind);
    if o.len() >= 2 && same_signature(o) {
        assert forall|i: int| 0 <= i < o.len() implies base_name((#[trigger] o[i]).1) == base_name(o[0].1) by {
            lemma_signature_base(o[i].1, o[0].1);
        }
    }
    if o.len() >= 2 && all_objects(o) {
        assert forall|i: int| 0 <= i < o.len() implies base_name((#[trigger] o[i]).1) == base_name(o[0].1) by {
            assert(o[i].1 is Object);
            assert(o[0].1 is Object);
        }
    }
    if o.len() >= 2 && same_base(o) {
        assert(r.subrange(0, m.len() as int) =~= m);
    } else {
        assert(r[0] == '{');
        assert(r.subrange(0, 1) =~= "{"@);
        assert(m[0] == 'm');
        if r.len() >= m.len() {
            assert(r.subrange(0, m.len() as int)[0] == r[0]);
        }
    }
}

proof fn lemma_merge_into_props(acc: Seq<(Seq<char>, Json)>, m: Seq<(Seq<char>, Json)>)
    requires
        keys_distinct(acc),
    ensures
        keys_distinct(merge_into(acc, m)),
        merge_into(acc, m).len() >= acc.len(),
        forall|i: int| 0 <= i < acc.len() ==> #[trigger] merge_into(acc, m)[i] == acc[i],
        forall|j: int| 0 <= j < m.len() ==> has_key(merge_into(acc, m), #[trigger] m[j].0),
        forall|i: int|
            0 <= i < merge_into(acc, m).len() ==> has_key(acc, #[trigger] merge_into(acc, m)[i].0)
                || exists|j: int| 0 <= j < m.len() && m[j].0 == merge_into(acc, m)[i].0,
    decreases m.len(),
{
    if m.len() > 0 {
        let prev = m.drop_last();
        lemma_merge_into_props(acc, prev);
        let a = merge_into(acc, prev);
        let x = m.last();
        let r = merge_into(acc, m);
        assert forall|j: int| 0 <= j < m.len() implies has_key(r, #[trigger] m[j].0) by {
            if j < m.len() - 1 {
                assert(prev[j] == m[j]);
                assert(has_key(a, prev[j].0));
                let i = choose|i: int| 0 <= i < a.len() && #[trigger] a[i].0 == prev[j].0;
                assert(r[i] == a[i]);
            } else if !has_key(a, x.0) {
                assert(r[a.len() as int].0 == x.0);
            }
        }
        assert forall|i: int| 0 <= i < r.len() implies has_key(acc, #[trigger] r[i].0) || exists|j: int|
            0 <= j < m.len() && m[j].0 == r[i].0 by {
            if i < a.len() {
                assert(r[i] == a[i]);
                if !has_key(acc, a[i].0) {
                    let j = choose|j: int| 0 <= j < prev.len() && prev[j].0 == a[i].0;
                    assert(m[j] == prev[j]);
                }
            } else {
                assert(r[i] == x);
                assert(m[m.len() - 1] == x);
            }
        }
    }
}

/// No member before position `j` of object `i`, in that object or an
/// earlier one, has the key of member `j` of object `i`.
pub open spec fn first_with_key(objs: Seq<Seq<(Seq<char>, Json)>>, i: int, j: int) -> bool {
    forall|i2: int, j2: int|
        ((0 <= i2 < i && 0 <= j2 < objs[i2].len()) || (i2 == i && 0 <= j2 < j)) ==> #[trigger] objs[i2][j2].0
            != objs[i][j].0
}

proof fn lemma_merge_into_first(acc: Seq<(Seq<char>, Json)>, m: Seq<(Seq<char>, Json)>)
    requires
        keys_distinct(acc),
    ensures
        forall|q: int|
            #![trigger merge_into(acc, m)[q]]
            acc.len() <= q < merge_into(acc, m).len() ==> exists|j: int|
                0 <= j < m.len() && #[trigger] m[j] == merge_into(acc, m)[q] && !has_key(acc, m[j].0) && forall|j2: int|
                    0 <= j2 < j ==> #[trigger] m[j2].0 != m[j].0,
    decreases m.len(),
{
    lemma_merge_into_props(acc, m);
    if m.len() > 0 {
        let prev = m.drop_last();
        lemma_merge_into_first(acc, prev);
        lemma_merge_into_props(acc, prev);
        let a = merge_into(acc, prev);
        let x = m.last();
        let r = merge_into(acc, m);
        assert forall|q: int| #![trigger r[q]] acc.len() <= q < r.len() implies exists|j: int|
            0 <= j < m.len() && #[trigger] m[j] == r[q] && !has_key(acc, m[j].0) && forall|j2: int|
                0 <= j2 < j ==> #[trigger] m[j2].0 != m[j].0 by {
            if q < a.len() {
                assert(r[q] == a[q]);
                let j = choose|j: int|
                    0 <= j < prev.len() && #[trigger] prev[j] == a[q] && !has_key(acc, prev[j].0) && forall|j2: int|
                        0 <= j2 < j ==> #[trigger] prev[j2].0 != prev[j].0;
                assert(m[j] == prev[j]);
                assert forall|j2: int| 0 <= j2 < j implies #[trigger] m[j2].0 != m[j].0 by {
                    assert(m[j2] == prev[j2]);
                }
            } else {
                assert(!has_key(a, x.0));
                assert(r[q] == x);
                let j = m.len() - 1;
                assert(m[j] == x);
                if has_key(acc, x.0) {
                    let i = choose|i: int| 0 <= i < acc.len() && #[trigger] acc[i].0 == x.0;
                    assert(a[i] == acc[i]);
                }
                assert forall|j2: int| 0 <= j2 < j implies #[trigger] m[j2].0 != m[j].0 by {
                    assert(m[j2] == prev[j2]);
                    assert(has_key(a, prev[j2].0));
                }
            }
        }
    }
}

/// Merging keeps, for each key, the member where the key first occurs:
/// every merged member is a member of some object, and no earlier member of
/// that object or of an earlier object has its key.
pub proof fn lemma_merge_keeps_first_value(objs: Seq<Seq<(Seq<char>, Json)>>)
    ensures
        forall|k: int|
            #![trigger merge_all(objs)[k]]
            0 <= k < merge_all(objs).len() ==> exists|i: int, j: int|
                0 <= i < objs.len() && 0 <= j < objs[i].len() && #[trigger] objs[i][j] == merge_all(objs)[k]
                    && first_with_key(objs, i, j),
    decreases objs.len(),
{
    if objs.len() > 0 {
        let prev = objs.drop_last();
        lemma_merge_keeps_first_value(prev);
        lemma_merge_all_keys(prev);
        let a = merge_all(prev);
        let m = objs.last();
        let n = objs.len() - 1;
        assert(m == objs[n]);
        lemma_merge_into_props(a, m);
        lemma_merge_into_first(a, m);
        let r = merge_all(objs);
        assert forall|k: int| #![trigger r[k]] 0 <= k < r.len() implies exists|i: int, j: int|
            0 <= i < objs.len() && 0 <= j < objs[i].len() && #[trigger] objs[i][j] == r[k] && first_with_key(
                objs,
                i,
                j,
            ) by {
            if k < a.len() {
                assert(r[k] == a[k]);
                let (i, j) = choose|i: int, j: int|
                    0 <= i < prev.len() && 0 <= j < prev[i].len() && #[trigger] prev[i][j] == a[k] && first_with_key(
                        prev,
                        i,
                        j,
                    );
                assert(objs[i] == prev[i]);
                assert forall|i2: int, j2: int|
                    ((0 <= i2 < i && 0 <= j2 < objs[i2].len()) || (i2 == i && 0 <= j2 < j)) implies #[trigger] objs[i2][j2].0
                    != objs[i][j].0 by {
                    assert(objs[i2] == prev[i2]);
                    assert(prev[i2][j2] == objs[i2][j2]);
                }
            } else {
                let j = choose|j: int|
                    0 <= j < m.len() && #[trigger] m[j] == r[k] && !has_key(a, m[j].0) && forall|j2: int|
                        0 <= j2 < j ==> #[trigger] m[j2].0 != m[j].0;
                assert(objs[n][j] == r[k]);
                assert forall|i2: int, j2: int|
                    ((0 <= i2 < n && 0 <= j2 < objs[i2].len()) || (i2 == n && 0 <= j2 < j)) implies #[trigger] objs[i2][j2].0
                    != objs[n][j].0 by {
                    if i2 < n {
                        assert(objs[i2] == prev[i2]);
                        assert(has_key(a, prev[i2][j2].0));
                    } else {
                        assert(m[j2].0 != m[j].0);
                    }
                }
            }
        }
    }
}

/// Merged objects have each key once, and every key of every merged object.
pub proof fn lemma_merge_all_keys(objs: Seq<Seq<(Seq<char>, Json)>>)
    ensures
        keys_distinct(merge_all(objs)),
        forall|i: int, j: int|
            0 <= i < objs.len() && 0 <= j < objs[i].len() ==> has_key(merge_all(objs), #[trigger] objs[i][j].0),
        forall|k: int|
            #![trigger merge_all(objs)[k]]
            0 <= k < merge_all(objs).len() ==> exists|i: int, j: int|
                0 <= i < objs.len() && 0 <= j < objs[i].len() && #[trigger] objs[i][j].0 == merge_all(objs)[k].0,
    decreases objs.len(),
{
    if objs.len() > 0 {
        let prev = objs.drop_last();
        lemma_merge_all_keys(prev);
        let a = merge_all(prev);
        let m = objs.last();
        lemma_merge_into_props(a, m);
        let r = merge_all(objs);
        assert forall|i: int, j: int| 0 <= i < objs.len() && 0 <= j < objs[i].len() implies has_key(
            r,
            #[trigger] objs[i][j].0,
        ) by {
            if i < objs.len() - 1 {
                assert(prev[i] == objs[i]);
                assert(has_key(a, prev[i][j].0));
                let q = choose|q: int| 0 <= q < a.len() && #[trigger] a[q].0 == prev[i][j].0;
                assert(r[q] == a[q]);
            } else {
                assert(has_key(r, m[j].0));
            }
        }
        assert forall|k: int| #![trigger r[k]] 0 <= k < r.len() implies exists|i: int, j: int|
            0 <= i < objs.len() && 0 <= j < objs[i].len() && #[trigger] objs[i][j].0 == r[k].0 by {
            if has_key(a, r[k].0) {
                let q = choose|q: int| 0 <= q < a.len() && #[trigger] a[q].0 == r[k].0;
                let (i, j) = choose|i: int, j: int|
                    0 <= i < prev.len() && 0 <= j < prev[i].len() && #[trigger] prev[i][j].0 == a[q].0;
                assert(objs[i] == prev[i]);
            } else {
                let j = choose|j: int| 0 <= j < m.len() && m[j].0 == r[k].0;
                assert(objs[objs.len() - 1][j].0 == r[k].0);
            }
        }
    }
}

} // verus!
