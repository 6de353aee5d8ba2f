use vstd::prelude::*;
use crate::heuristics::{same_base, same_base_exec};
use crate::index::member_path;
use crate::sort::{
    key_before, keys_view, lemma_sort_order_permutation, lemma_sort_order_sorted, sort_order,
    sorted_order, strings_view,
};
use crate::table::{
    distinct_keys, find_entry, lemma_table_map_index, lemma_table_map_push,
    lemma_table_map_update, table_map,
};
use crate::text::{
    chars_of, contains_exec, has_substr, lemma_lex_lt_total, lex_lt, push_str, str_eq,
};
use crate::value::{
    byte_len, compact, cut_ok, cut_preview, json_items, json_members, lemma_json_items,
    lemma_json_members, preview, to_compact, Json, JsonValue,
};

verus! {

/// Lengths, first three previews, and whether the first value seen was an
/// object, for one path pattern.
pub type NodeView = (Seq<usize>, Seq<Seq<char>>, bool);

/// One visit of the walk: path pattern, compact length, preview, is object,
/// and whether the compact text can be cut at 50 bytes for the preview.
pub type StatEvent = (Seq<char>, usize, Seq<char>, bool, bool);

/// What the walk records when it visits `v` at `path`.
pub open spec fn stat_event(v: Json, path: Seq<char>) -> StatEvent {
    (path, byte_len(compact(v)), cut_preview(compact(v), 50), v is Object, cut_ok(compact(v), 50))
}

/// Path pattern of a member: `[*]` in place of the key when the object
/// reads as a map.
pub open spec fn pattern_path(path: Seq<char>, k: Seq<char>, is_map: bool) -> Seq<char> {
    if is_map {
        path + "[*]"@
    } else {
        member_path(path, k)
    }
}

/// The visits of a walk of `v` at `path`, in document order.
pub open spec fn stat_events(v: Json, path: Seq<char>) -> Seq<StatEvent>
    decreases v,
{
    seq![stat_event(v, path)] + match v {
        Json::Array(a) => stat_item_events(a, path + "[*]"@),
        Json::Object(o) => stat_member_events(o, path, o.len() >= 2 && same_base(o)),
        _ => Seq::empty(),
    }
}

pub open spec fn stat_item_events(a: Seq<Json>, path: Seq<char>) -> Seq<StatEvent>
    decreases a,
{
    if a.len() == 0 {
        Seq::empty()
    } else {
        stat_item_events(a.drop_last(), path) + stat_events(a.last(), path)
    }
}

pub open spec fn stat_member_events(o: Seq<(Seq<char>, Json)>, path: Seq<char>, is_map: bool) -> Seq<
    StatEvent,
>
    decreases o,
{
    if o.len() == 0 {
        Seq::empty()
    } else {
        stat_member_events(o.drop_last(), path, is_map) + stat_events(
            o.last().1,
            pattern_path(path, o.last().0, is_map),
        )
    }
}

/// The record of a path after one more visit.
pub open spec fn record_visit(m: Map<Seq<char>, NodeView>, e: StatEvent) -> Map<Seq<char>, NodeView> {
    if m.contains_key(e.0) {
        let n = m[e.0];
        m.insert(e.0, (n.0.push(e.1), if n.1.len() < 3 { n.1.push(e.2) } else { n.1 }, n.2))
    } else {
        m.insert(e.0, (seq![e.1], seq![e.2], e.3))
    }
}

pub open spec fn fold_visits(m: Map<Seq<char>, NodeView>, s: Seq<StatEvent>) -> Map<Seq<char>, NodeView>
    decreases s.len(),
{
    if s.len() == 0 {
        m
    } else {
        record_visit(fold_visits(m, s.drop_last()), s.last())
    }
}

pub proof fn lemma_fold_visits_append(m: Map<Seq<char>, NodeView>, s: Seq<StatEvent>, t: Seq<StatEvent>)
    ensures
        fold_visits(m, s + t) == fold_visits(fold_visits(m, s), t),
    decreases t.len(),
{
    if t.len() == 0 {
        assert(s + t =~= s);
    } else {
        lemma_fold_visits_append(m, s, t.drop_last());
        assert((s + t).drop_last() =~= s + t.drop_last());
        assert((s + t).last() == t.last());
    }
}

/// A visit needs no preview (its path already holds three samples), or its
/// preview cuts the compact text on a character boundary.
pub open spec fn visit_fits(m: Map<Seq<char>, NodeView>, e: StatEvent) -> bool {
    (m.contains_key(e.0) && m[e.0].1.len() >= 3) || e.4
}

/// Every visit of `s`, recorded from `m` on, fits.
pub open spec fn previews_fit_from(m: Map<Seq<char>, NodeView>, s: Seq<StatEvent>) -> bool
    decreases s.len(),
{
    if s.len() == 0 {
        true
    } else {
        previews_fit_from(m, s.drop_last()) && visit_fits(fold_visits(m, s.drop_last()), s.last())
    }
}

/// Every preview that the statistics of `v` take cuts on a character
/// boundary: only the first three visits of each path pattern are previewed.
pub open spec fn previews_fit(v: Json) -> bool {
    previews_fit_from(Map::empty(), stat_events(v, Seq::empty()))
}

pub proof fn lemma_previews_fit_append(m: Map<Seq<char>, NodeView>, s: Seq<StatEvent>, t: Seq<StatEvent>)
    ensures
        previews_fit_from(m, s + t) == (previews_fit_from(m, s) && previews_fit_from(fold_visits(m, s), t)),
    decreases t.len(),
{
    if t.len() == 0 {
        assert(s + t =~= s);
    } else {
        lemma_previews_fit_append(m, s, t.drop_last());
        assert((s + t).drop_last() =~= s + t.drop_last());
        assert((s + t).last() == t.last());
        lemma_fold_visits_append(m, s, t.drop_last());
    }
}

proof fn lemma_item_events_prefix(a: Seq<Json>, path: Seq<char>, k: int) -> (t: Seq<StatEvent>)
    requires
        0 <= k <= a.len(),
    ensures
        stat_item_events(a, path) == stat_item_events(a.take(k), path) + t,
    decreases a.len(),
{
    if k == a.len() {
        assert(a.take(k) =~= a);
        assert(stat_item_events(a, path) + Seq::<StatEvent>::empty() =~= stat_item_events(a, path));
        Seq::empty()
    } else {
        let t0 = lemma_item_events_prefix(a.drop_last(), path, k);
        assert(a.drop_last().take(k) =~= a.take(k));
        let t = t0 + stat_events(a.last(), path);
        assert(stat_item_events(a.take(k), path) + t0 + stat_events(a.last(), path) =~= stat_item_events(a.take(k), path) + t);
        t
    }
}

proof fn lemma_member_events_prefix(o: Seq<(Seq<char>, Json)>, path: Seq<char>, is_map: bool, k: int) -> (t: Seq<StatEvent>)
    requires
        0 <= k <= o.len(),
    ensures
        stat_member_events(o, path, is_map) == stat_member_events(o.take(k), path, is_map) + t,
    decreases o.len(),
{
    if k == o.len() {
        assert(o.take(k) =~= o);
        assert(stat_member_events(o, path, is_map) + Seq::<StatEvent>::empty() =~= stat_member_events(o, path, is_map));
        Seq::empty()
    } else {
        let t0 = lemma_member_events_prefix(o.drop_last(), path, is_map, k);
        assert(o.drop_last().take(k) =~= o.take(k));
        let t = t0 + stat_events(o.last().1, pattern_path(path, o.last().0, is_map));
        assert(stat_member_events(o.take(k), path, is_map) + t0 + stat_events(o.last().1, pattern_path(path, o.last().0, is_map))
            =~= stat_member_events(o.take(k), path, is_map) + t);
        t
    }
}

/// Per path pattern, what a walk of the document found there.
pub open spec fn stats_of(v: Json) -> Map<Seq<char>, NodeView> {
    fold_visits(Map::empty(), stat_events(v, Seq::empty()))
}

/// What the walk gathered at one path pattern.
pub struct SchemaNode {
    lengths: Vec<usize>,
    samples: Vec<String>,
    is_object: bool,
}

impl View for SchemaNode {
    type V = NodeView;

    closed spec fn view(&self) -> NodeView {
        (self.lengths@, strings_view(self.samples@), self.is_object)
    }
}

pub open spec fn nodes_view(e: Seq<(String, SchemaNode)>) -> Seq<(Seq<char>, NodeView)> {
    Seq::new(e.len(), |i: int| (e[i].0@, e[i].1@))
}

/// Statistics of a document per path pattern, array items and map values
/// sharing a `[*]` pattern.
pub struct SchemaStats {
    stats: Vec<(String, SchemaNode)>,
}

impl View for SchemaStats {
    type V = Map<Seq<char>, NodeView>;

    closed spec fn view(&self) -> Map<Seq<char>, NodeView> {
        table_map(nodes_view(self.stats@))
    }
}

/// The value at position `n * 9 / 10` of the lengths in ascending order (the
/// last one when there are few), or 0 when there are none.
pub open spec fn p90_of(lengths: Seq<usize>) -> usize {
    if lengths.len() == 0 {
        0
    } else {
        let n = lengths.len();
        let idx: int = if n * 9 / 10 < n - 1 { (n * 9 / 10) as int } else { n - 1 };
        sort_asc(lengths)[idx]
    }
}

/// Where `x` goes into the ascending `s`: before the first greater entry.
pub open spec fn asc_pos(s: Seq<usize>, x: usize) -> int
    decreases s.len(),
{
    if s.len() == 0 {
        0
    } else if x < s[0] {
        0
    } else {
        1 + asc_pos(s.drop_first(), x)
    }
}

/// The numbers in ascending order.
pub open spec fn sort_asc(s: Seq<usize>) -> Seq<usize>
    decreases s.len(),
{
    if s.len() == 0 {
        Seq::empty()
    } else {
        let r = sort_asc(s.drop_last());
        r.insert(asc_pos(r, s.last()), s.last())
    }
}

/// The 90th-percentile length recorded at a path, 0 where there is none.
pub open spec fn p90_at(m: Map<Seq<char>, NodeView>, path: Seq<char>) -> usize {
    if m.contains_key(path) {
        p90_of(m[path].0)
    } else {
        0
    }
}

proof fn lemma_asc_pos(s: Seq<usize>, x: usize, p: int)
    requires
        0 <= p <= s.len(),
        forall|q: int| 0 <= q < p ==> !(x < #[trigger] s[q]),
        p < s.len() ==> x < s[p],
    ensures
        asc_pos(s, x) == p,
    decreases s.len(),
{
    if s.len() > 0 && p > 0 {
        assert forall|q: int| 0 <= q < p - 1 implies !(x < #[trigger] s.drop_first()[q]) by {
            assert(s.drop_first()[q] == s[q + 1]);
        }
        if p - 1 < s.len() - 1 {
            assert(s.drop_first()[p - 1] == s[p]);
        }
        lemma_asc_pos(s.drop_first(), x, p - 1);
        assert(!(x < s[0]));
    }
}

proof fn lemma_sort_asc_len(s: Seq<usize>)
    ensures
        sort_asc(s).len() == s.len(),
    decreases s.len(),
{
    if s.len() > 0 {
        lemma_sort_asc_len(s.drop_last());
        lemma_asc_pos_range(sort_asc(s.drop_last()), s.last());
    }
}

proof fn lemma_asc_pos_props(s: Seq<usize>, x: usize)
    ensures
        forall|q: int| 0 <= q < asc_pos(s, x) ==> #[trigger] s[q] <= x,
        asc_pos(s, x) < s.len() ==> x < s[asc_pos(s, x)],
    decreases s.len(),
{
    lemma_asc_pos_range(s, x);
    if s.len() > 0 && !(x < s[0]) {
        let t = s.drop_first();
        lemma_asc_pos_props(t, x);
        lemma_asc_pos_range(t, x);
        let ip = asc_pos(s, x);
        assert forall|q: int| 0 <= q < ip implies #[trigger] s[q] <= x by {
            if q > 0 {
                assert(s[q] == t[q - 1]);
            }
        }
        if ip < s.len() {
            assert(s[ip] == t[ip - 1]);
        }
    }
}

/// `sort_asc` sorts: its result is ascending and holds the same numbers,
/// each as often.
pub proof fn lemma_sort_asc_sorts(s: Seq<usize>)
    ensures
        sort_asc(s).len() == s.len(),
        sort_asc(s).to_multiset() == s.to_multiset(),
        forall|p: int, q: int| 0 <= p < q < sort_asc(s).len() ==> #[trigger] sort_asc(s)[p] <= #[trigger] sort_asc(s)[q],
    decreases s.len(),
{
    broadcast use vstd::seq_lib::group_to_multiset_ensures;
    lemma_sort_asc_len(s);
    if s.len() == 0 {
    } else {
        let p0 = s.drop_last();
        let x = s.last();
        lemma_sort_asc_sorts(p0);
        let r = sort_asc(p0);
        lemma_sort_asc_len(p0);
        lemma_asc_pos_range(r, x);
        lemma_asc_pos_props(r, x);
        let ip = asc_pos(r, x);
        let out = r.insert(ip, x);
        assert(p0.push(x) =~= s);
        assert(out.to_multiset() == r.to_multiset().insert(x));
        assert forall|p: int, q: int| 0 <= p < q < out.len() implies #[trigger] out[p] <= #[trigger] out[q] by {
            if q < ip {
                assert(out[p] == r[p] && out[q] == r[q]);
            } else if q == ip {
                assert(out[p] == r[p]);
            } else if p < ip {
                assert(out[p] == r[p] && out[q] == r[q - 1]);
                assert(r[p] <= x);
                assert(x < r[ip]);
                if q - 1 > ip {
                    assert(r[ip] <= r[q - 1]);
                }
            } else if p == ip {
                assert(out[q] == r[q - 1]);
                if q - 1 > ip {
                    assert(r[ip] <= r[q - 1]);
                }
            } else {
                assert(out[p] == r[p - 1] && out[q] == r[q - 1]);
            }
        }
    }
}

proof fn lemma_asc_pos_range(s: Seq<usize>, x: usize)
    ensures
        0 <= asc_pos(s, x) <= s.len(),
    decreases s.len(),
{
    if s.len() > 0 {
        lemma_asc_pos_range(s.drop_first(), x);
    }
}

/// The lengths in ascending order.
fn sorted_lengths(v: &Vec<usize>) -> (r: Vec<usize>)
    ensures
        r@ == sort_asc(v@),
{
    let mut r: Vec<usize> = Vec::new();
    let mut j: usize = 0;
    while j < v.len()
        invariant
            j <= v.len(),
            r@ == sort_asc(v@.take(j as int)),
        decreases v.len() - j,
    {
        let x = v[j];
        proof {
            lemma_sort_asc_len(v@.take(j as int));
        }
        let mut p: usize = 0;
        while p < r.len() && !(x < r[p])
            invariant
                p <= r@.len(),
                forall|q: int| 0 <= q < p ==> !(x < #[trigger] r@[q]),
            decreases r.len() - p,
        {
            p = p + 1;
        }
        proof {
            lemma_asc_pos(r@, x, p as int);
            assert(v@.take(j + 1).drop_last() =~= v@.take(j as int));
            assert(v@.take(j + 1).last() == x);
        }
        r.insert(p, x);
        j = j + 1;
    }
    assert(v@.take(v.len() as int) =~= v@);
    r
}


/// Records one visit of `val` at `path`: the compact length, and the
/// preview while fewer than three are kept; a new path also records whether
/// the value is an object. Nothing is recorded, and `false` returned, where
/// a preview would cut the text inside a character.
fn record(stats: &mut Vec<(String, SchemaNode)>, path: &String, val: &JsonValue) -> (ok: bool)
    requires
        distinct_keys(nodes_view(old(stats)@)),
    ensures
        distinct_keys(nodes_view(final(stats)@)),
        ok == visit_fits(table_map(nodes_view(old(stats)@)), stat_event(val@, path@)),
        ok ==> table_map(nodes_view(final(stats)@)) == record_visit(
            table_map(nodes_view(old(stats)@)),
            stat_event(val@, path@),
        ),
{
    let ghost ev = nodes_view(stats@);
    let ghost e = stat_event(val@, path@);
    let text = to_compact(val);
    let len = text.as_str().len();
    let fits = !(len > 50 && !text.as_str().is_char_boundary(50));
    assert(fits == e.4);
    let is_object = val.is_object();
    match find_entry(stats, path) {
        Some(i) => {
            proof { lemma_table_map_index(ev, i as int); }
            let ghost old_node = stats@[i as int].1@;
            let need = stats[i].1.samples.len() < 3;
            if need && !fits {
                return false;
            }
            let mut lengths: Vec<usize> = Vec::new();
            let mut samples: Vec<String> = Vec::new();
            let obj = stats[i].1.is_object;
            std::mem::swap(&mut lengths, &mut stats[i].1.lengths);
            std::mem::swap(&mut samples, &mut stats[i].1.samples);
            assert(lengths@ == old_node.0);
            assert(strings_view(samples@) == old_node.1);
            lengths.push(len);
            if need {
                let prev = preview(val, 50);
                let ghost s0 = samples@;
                samples.push(prev);
                assert(strings_view(samples@) =~= strings_view(s0).push(prev@));
            }
            let node = SchemaNode { lengths, samples, is_object: obj };
            let key = stats[i].0.clone();
            proof { lemma_table_map_update(ev, i as int, node@); }
            assert(key@ == ev[i as int].0);
            stats.set(i, (key, node));
            assert(nodes_view(stats@) =~= ev.update(i as int, (ev[i as int].0, node@)));
            true
        },
        None => {
            if !fits {
                return false;
            }
            let prev = preview(val, 50);
            let mut samples: Vec<String> = Vec::new();
            samples.push(prev);
            let mut lengths: Vec<usize> = Vec::new();
            lengths.push(len);
            let node = SchemaNode { lengths, samples, is_object };
            assert(strings_view(node.samples@) =~= seq![prev@]);
            assert(node@.0 =~= seq![len]);
            proof { lemma_table_map_push(ev, path@, node@); }
            stats.push((path.clone(), node));
            assert(nodes_view(stats@) =~= ev.push((path@, node@)));
            true
        },
    }
}

impl SchemaStats {
    #[verifier::type_invariant]
    spec fn keys_unique(self) -> bool {
        distinct_keys(nodes_view(self.stats@))
    }

    /// Statistics of every path pattern of a document.
    pub fn analyze(value: &JsonValue) -> (r: SchemaStats)
        requires
            previews_fit(value@),
        ensures
            r@ == stats_of(value@),
    {
        match Self::try_analyze(value) {
            Some(r) => r,
            None => {
                assert(false);
                SchemaStats { stats: Vec::new() }
            },
        }
    }

    /// Statistics of every path pattern of a document, or `None` where one of
    /// the previews they take would cut a text inside a character.
    pub fn try_analyze(value: &JsonValue) -> (r: Option<SchemaStats>)
        ensures
            match r {
                Some(st) => previews_fit(value@) && st@ == stats_of(value@),
                None => !previews_fit(value@),
            },
    {
        let mut stats: Vec<(String, SchemaNode)> = Vec::new();
        assert(table_map(nodes_view(stats@)) =~= Map::<Seq<char>, NodeView>::empty());
        if Self::traverse(value, String::new(), &mut stats) {
            Some(SchemaStats { stats })
        } else {
            None
        }
    }

    #[verifier::loop_isolation(false)]
    fn traverse(val: &JsonValue, path: String, stats: &mut Vec<(String, SchemaNode)>) -> (ok: bool)
        requires
            distinct_keys(nodes_view(old(stats)@)),
        ensures
            distinct_keys(nodes_view(final(stats)@)),
            ok == previews_fit_from(table_map(nodes_view(old(stats)@)), stat_events(val@, path@)),
            ok ==> table_map(nodes_view(final(stats)@)) == fold_visits(
                table_map(nodes_view(old(stats)@)),
                stat_events(val@, path@),
            ),
        decreases val,
    {
        let ghost start = table_map(nodes_view(stats@));
        let ghost own = seq![stat_event(val@, path@)];
        let ghost all = stat_events(val@, path@);
        assert(own.drop_last() =~= Seq::<StatEvent>::empty());
        assert(own.last() == stat_event(val@, path@));
        assert(fold_visits(start, own.drop_last()) == start);
        assert(previews_fit_from(start, own.drop_last()));
        assert(previews_fit_from(start, own) == visit_fits(start, stat_event(val@, path@)));
        let fits = record(stats, &path, val);
        if !fits {
            proof {
                let rest = all.subrange(1, all.len() as int);
                assert(all =~= own + rest);
                lemma_previews_fit_append(start, own, rest);
            }
            return false;
        }
        assert(previews_fit_from(start, own));
        assert(table_map(nodes_view(stats@)) == fold_visits(start, own));
        match val {
            JsonValue::Object(obj) => {
                let ghost js = json_members(obj@);
                proof { lemma_json_members(obj@); }
                let is_map = obj.len() >= 2 && same_base_exec(obj);
                assert(all == own + stat_member_events(js, path@, is_map));
                let mut i: usize = 0;
                while i < obj.len()
                    invariant
                        i <= obj.len(),
                        js == json_members(obj@),
                        js.len() == obj.len(),
                        forall|k: int| 0 <= k < obj.len() ==> #[trigger] js[k] == (obj@[k].0@, obj@[k].1@),
                        is_map == (js.len() >= 2 && same_base(js)),
                        distinct_keys(nodes_view(stats@)),
                        all == own + stat_member_events(js, path@, is_map),
                        previews_fit_from(start, own + stat_member_events(js.take(i as int), path@, is_map)),
                        table_map(nodes_view(stats@)) == fold_visits(
                            start,
                            own + stat_member_events(js.take(i as int), path@, is_map),
                        ),
                    decreases obj.len() - i,
                {
                    let mut new_path: String;
                    if is_map {
                        new_path = path.clone();
                        push_str(&mut new_path, "[*]");
                    } else if path.as_str().is_empty() {
                        new_path = obj[i].0.clone();
                    } else {
                        new_path = path.clone();
                        push_str(&mut new_path, ".");
                        push_str(&mut new_path, obj[i].0.as_str());
                    }
                    assert(new_path@ == pattern_path(path@, js[i as int].0, is_map));
                    assert(decreases_to!(obj@ => obj@[i as int].1));
                    let ok = Self::traverse(&obj[i].1, new_path, stats);
                    let ghost prefix = own + stat_member_events(js.take(i as int), path@, is_map);
                    let ghost ev = stat_events(js[i as int].1, pattern_path(path@, js[i as int].0, is_map));
                    proof {
                        assert(js.take(i + 1).drop_last() =~= js.take(i as int));
                        assert(js.take(i + 1).last() == js[i as int]);
                        assert(own + stat_member_events(js.take(i + 1), path@, is_map) =~= prefix + ev);
                        lemma_fold_visits_append(start, prefix, ev);
                        lemma_previews_fit_append(start, prefix, ev);
                    }
                    if !ok {
                        proof {
                            let t = lemma_member_events_prefix(js, path@, is_map, i + 1);
                            assert(all =~= (prefix + ev) + t);
                            lemma_previews_fit_append(start, prefix + ev, t);
                        }
                        return false;
                    }
                    i = i + 1;
                }
                assert(js.take(obj.len() as int) =~= js);
                true
            },
            JsonValue::Array(arr) => {
                let ghost js = json_items(arr@);
                proof { lemma_json_items(arr@); }
                let mut item_path = path.clone();
                push_str(&mut item_path, "[*]");
                assert(all == own + stat_item_events(js, item_path@));
                let mut i: usize = 0;
                while i < arr.len()
                    invariant
                        i <= arr.len(),
                        js == json_items(arr@),
                        js.len() == arr.len(),
                        forall|k: int| 0 <= k < arr.len() ==> #[trigger] js[k] == arr@[k]@,
                        item_path@ == path@ + "[*]"@,
                        distinct_keys(nodes_view(stats@)),
                        all == own + stat_item_events(js, item_path@),
                        previews_fit_from(start, own + stat_item_events(js.take(i as int), item_path@)),
                        table_map(nodes_view(stats@)) == fold_visits(
                            start,
                            own + stat_item_events(js.take(i as int), item_path@),
                        ),
                    decreases arr.len() - i,
                {
                    assert(decreases_to!(arr@ => arr@[i as int]));
                    let ok = Self::traverse(&arr[i], item_path.clone(), stats);
                    let ghost prefix = own + stat_item_events(js.take(i as int), item_path@);
                    let ghost ev = stat_events(js[i as int], item_path@);
                    proof {
                        assert(js.take(i + 1).drop_last() =~= js.take(i as int));
                        assert(js.take(i + 1).last() == js[i as int]);
                        assert(own + stat_item_events(js.take(i + 1), item_path@) =~= prefix + ev);
                        lemma_fold_visits_append(start, prefix, ev);
                        lemma_previews_fit_append(start, prefix, ev);
                    }
                    if !ok {
                        proof {
                            let t = lemma_item_events_prefix(js, item_path@, i + 1);
                            assert(all =~= (prefix + ev) + t);
                            lemma_previews_fit_append(start, prefix + ev, t);
                        }
                        return false;
                    }
                    i = i + 1;
                }
                assert(js.take(arr.len() as int) =~= js);
                true
            },
            _ => {
                assert(stat_events(val@, path@) =~= own);
                true
            },
        }
    }

    /// The path patterns that contain `[*]` and whose first value was an
    /// object, with their sample previews, in ascending order of path.
    #[verifier::loop_isolation(false)]
    pub fn get_samples(&self) -> (r: Vec<(String, Vec<String>)>)
        ensures
            forall|p: int, q: int| 0 <= p < q < r@.len() ==> lex_lt(r@[p].0@, r@[q].0@),
            forall|p: int|
                0 <= p < r@.len() ==> {
                    let k = (#[trigger] r@[p]).0@;
                    &&& self@.contains_key(k)
                    &&& has_substr(k, "[*]"@)
                    &&& self@[k].2
                    &&& strings_view(r@[p].1@) == self@[k].1
                },
            forall|k: Seq<char>|
                self@.contains_key(k) && has_substr(k, "[*]"@) && self@[k].2 ==> exists|p: int|
                    0 <= p < r@.len() && #[trigger] r@[p].0@ == k,
    {
        proof { use_type_invariant(self); }
        let ghost ev = nodes_view(self.stats@);
        let pattern = chars_of("[*]");
        let mut sel: Vec<usize> = Vec::new();
        let mut keys: Vec<(i32, Vec<char>)> = Vec::new();
        let mut i: usize = 0;
        while i < self.stats.len()
            invariant
                i <= self.stats@.len(),
                pattern@ == "[*]"@,
                sel@.len() == keys@.len(),
                forall|q: int| 0 <= q < sel@.len() ==> #[trigger] sel@[q] < i,
                forall|q: int, w: int| 0 <= q < w < sel@.len() ==> #[trigger] sel@[q] < #[trigger] sel@[w],
                forall|q: int|
                    0 <= q < sel@.len() ==> (#[trigger] keys@[q]).0 == 0 && keys@[q].1@ == ev[sel@[q] as int].0,
                forall|q: int| 0 <= q < sel@.len() ==> has_substr(ev[#[trigger] sel@[q] as int].0, "[*]"@) && ev[sel@[q] as int].1.2,
                forall|j: int|
                    0 <= j < i && has_substr(ev[j].0, "[*]"@) && ev[j].1.2 ==> exists|q: int|
                        0 <= q < sel@.len() && #[trigger] sel@[q] == j,
            decreases self.stats.len() - i,
        {
            let name = chars_of(self.stats[i].0.as_str());
            let ghost old_sel = sel@;
            if contains_exec(&name, &pattern) && self.stats[i].1.is_object {
                sel.push(i);
                keys.push((0, name));
                assert(sel@[old_sel.len() as int] == i);
            }
            assert forall|j: int|
                0 <= j < i + 1 && has_substr(ev[j].0, "[*]"@) && ev[j].1.2 implies exists|q: int|
                    0 <= q < sel@.len() && #[trigger] sel@[q] == j by {
                if j < i {
                    let q = choose|q: int| 0 <= q < old_sel.len() && #[trigger] old_sel[q] == j;
                    assert(sel@[q] == j);
                } else {
                    assert(sel@[old_sel.len() as int] == i);
                }
            }
            i = i + 1;
        }
        let order = sorted_order(&keys);
        let ghost kv = keys_view(keys@);
        let ghost n = keys@.len() as nat;
        let ghost o = sort_order(kv, n);
        proof {
            lemma_sort_order_permutation(kv, n);
            lemma_sort_order_sorted(kv, n);
        }
        let mut r: Vec<(String, Vec<String>)> = Vec::new();
        let mut p: usize = 0;
        while p < order.len()
            invariant
                p <= order@.len(),
                order@.len() == n,
                o.len() == n,
                forall|q: int| 0 <= q < n ==> #[trigger] order@[q] as int == o[q],
                forall|q: int| 0 <= q < n ==> #[trigger] order@[q] < n,
                r@.len() == p,
                forall|q: int|
                    0 <= q < p ==> (#[trigger] r@[q]).0@ == ev[sel@[order@[q] as int] as int].0 && strings_view(
                        r@[q].1@,
                    ) == ev[sel@[order@[q] as int] as int].1.1,
            decreases order.len() - p,
        {
            let j = sel[order[p]];
            let src = &self.stats[j].1.samples;
            let mut copy: Vec<String> = Vec::new();
            let mut t: usize = 0;
            while t < src.len()
                invariant
                    t <= src@.len(),
                    copy@.len() == t,
                    forall|w: int| 0 <= w < t ==> #[trigger] copy@[w]@ == src@[w]@,
                decreases src.len() - t,
            {
                copy.push(src[t].clone());
                t = t + 1;
            }
            assert(strings_view(copy@) =~= strings_view(src@));
            r.push((self.stats[j].0.clone(), copy));
            p = p + 1;
        }
        proof {
            assert forall|p: int, q: int| 0 <= p < q < r@.len() implies lex_lt(r@[p].0@, r@[q].0@) by {
                assert(order@[p] as int == o[p]);
                assert(order@[q] as int == o[q]);
                let a = o[p];
                let b = o[q];
                assert(!key_before(kv[o[q]], kv[o[p]]));
                assert(a != b);
                if a < b {
                    assert(sel@[a] < sel@[b]);
                } else {
                    assert(sel@[b] < sel@[a]);
                }
                lemma_lex_lt_total(ev[sel@[a] as int].0, ev[sel@[b] as int].0);
            }
            assert forall|p: int| 0 <= p < r@.len() implies {
                let k = (#[trigger] r@[p]).0@;
                &&& self@.contains_key(k)
                &&& has_substr(k, "[*]"@)
                &&& self@[k].2
                &&& strings_view(r@[p].1@) == self@[k].1
            } by {
                assert(order@[p] as int == o[p]);
                lemma_table_map_index(ev, sel@[o[p]] as int);
            }
            assert forall|k: Seq<char>|
                self@.contains_key(k) && has_substr(k, "[*]"@) && self@[k].2 implies exists|p: int|
                0 <= p < r@.len() && #[trigger] r@[p].0@ == k by {
                let j = choose|j: int| 0 <= j < ev.len() && ev[j].0 == k;
                lemma_table_map_index(ev, j);
                let q = choose|q: int| 0 <= q < sel@.len() && #[trigger] sel@[q] == j;
                assert(o.contains(q));
                let p = choose|p: int| 0 <= p < o.len() && o[p] == q;
                assert(order@[p] as int == o[p]);
                assert(r@[p].0@ == k);
            }
        }
        r
    }

    /// The 90th-percentile compact length of the values at a path pattern,
    /// 0 where the pattern was not seen.
    pub fn get_p90_length(&self, path: &str) -> (r: usize)
        ensures
            r == p90_at(self@, path@),
    {
        proof { use_type_invariant(self); }
        let ghost ev = nodes_view(self.stats@);
        let mut i: usize = 0;
        while i < self.stats.len()
            invariant
                i <= self.stats@.len(),
                ev == nodes_view(self.stats@),
                distinct_keys(ev),
                forall|q: int| 0 <= q < i ==> (#[trigger] ev[q]).0 != path@,
            decreases self.stats.len() - i,
        {
            if str_eq(self.stats[i].0.as_str(), path) {
                proof { lemma_table_map_index(ev, i as int); }
                let lengths = &self.stats[i].1.lengths;
                if lengths.len() == 0 {
                    return 0;
                }
                let sorted = sorted_lengths(lengths);
                proof { lemma_sort_asc_len(lengths@); }
                let n = sorted.len();
                let scaled = n / 10 * 9 + n % 10 * 9 / 10;
                assert(scaled == n * 9 / 10) by (nonlinear_arith)
                    requires
                        scaled == n / 10 * 9 + n % 10 * 9 / 10,
                ;
                let idx = if scaled < n - 1 { scaled } else { n - 1 };
                return sorted[idx];
            }
            i = i + 1;
        }
        assert(!table_map(ev).contains_key(path@));
        0
    }
}

} // verus!
