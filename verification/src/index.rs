use vstd::prelude::*;
use crate::sort::{
    key_before, keys_view, lemma_sort_order_permutation, lemma_sort_order_range,
    lemma_sort_order_sorted, name_keys, sort_order, sorted_order,
};
use crate::formatter::{FormatterError, Result};
use crate::parse::{parsed, read_json};
use crate::table::{
    distinct_keys, find_entry, fold_pairs, lemma_fold_pairs_append, lemma_table_map_index,
    lemma_table_map_push, lemma_table_map_update, table_map,
};
use crate::text::{chars_of, decimal, lemma_lex_lt_total, lex_lt, push_decimal, push_str, str_eq};
use crate::value::{
    char_preview, char_preview_of, compact, json_items, json_members, lemma_json_items, lemma_json_members, Json,
    JsonValue,
};

verus! {

/// Kind of a JSON value.
#[derive(Debug, Clone, Copy, PartialEq, Eq, Structural)]
pub enum ValueType {
    Null,
    Boolean,
    Number,
    String,
    Array,
    Object,
}

pub open spec fn value_type_of(v: Json) -> ValueType {
    match v {
        Json::Null => ValueType::Null,
        Json::Bool(_) => ValueType::Boolean,
        Json::Number(_) => ValueType::Number,
        Json::Str(_) => ValueType::String,
        Json::Array(_) => ValueType::Array,
        Json::Object(_) => ValueType::Object,
    }
}

impl<'a> From<&'a JsonValue> for ValueType {
    fn from(v: &'a JsonValue) -> (r: ValueType) {
        match v {
            JsonValue::Null => ValueType::Null,
            JsonValue::Bool(_) => ValueType::Boolean,
            JsonValue::Number(_) => ValueType::Number,
            JsonValue::Str(_) => ValueType::String,
            JsonValue::Array(_) => ValueType::Array,
            JsonValue::Object(_) => ValueType::Object,
        }
    }
}

impl<'a> vstd::std_specs::convert::FromSpecImpl<&'a JsonValue> for ValueType {
    open spec fn obeys_from_spec() -> bool {
        true
    }

    open spec fn from_spec(v: &'a JsonValue) -> ValueType {
        value_type_of(v@)
    }
}

/// What the index records of the value at a path.
#[derive(Debug, Clone)]
pub struct PathInfo {
    pub value_type: ValueType,
    /// The first 100 characters of the compact text, `...` marking a cut.
    pub preview: String,
}

impl View for PathInfo {
    type V = (ValueType, Seq<char>);

    open spec fn view(&self) -> (ValueType, Seq<char>) {
        (self.value_type, self.preview@)
    }
}

/// Paths of a document mapped to what is found there.
#[derive(Debug)]
pub struct JsonIndex {
    path_map: Vec<(String, PathInfo)>,
}

pub open spec fn entries_view(e: Seq<(String, PathInfo)>) -> Seq<(Seq<char>, (ValueType, Seq<char>))> {
    Seq::new(e.len(), |i: int| (e[i].0@, e[i].1@))
}

/// Path of a member with key `k` below `path`.
pub open spec fn member_path(path: Seq<char>, k: Seq<char>) -> Seq<char> {
    if path.len() == 0 {
        k
    } else {
        path + "."@ + k
    }
}

/// Path of the item at position `i` below `path`.
pub open spec fn item_path(path: Seq<char>, i: nat) -> Seq<char> {
    path + "["@ + decimal(i) + "]"@
}

/// What the index records of a value.
pub open spec fn info_of(v: Json) -> (ValueType, Seq<char>) {
    (value_type_of(v), char_preview(compact(v), 100))
}

/// The records made while walking `v` at `path` in document order: the
/// value itself unless the path is empty, then what is inside it.
pub open spec fn index_events(v: Json, path: Seq<char>) -> Seq<(Seq<char>, (ValueType, Seq<char>))>
    decreases v,
{
    let own = if path.len() > 0 {
        seq![(path, info_of(v))]
    } else {
        Seq::empty()
    };
    own + match v {
        Json::Array(a) => item_events(a, path),
        Json::Object(o) => member_events(o, path),
        _ => Seq::empty(),
    }
}

pub open spec fn item_events(a: Seq<Json>, path: Seq<char>) -> Seq<(Seq<char>, (ValueType, Seq<char>))>
    decreases a,
{
    if a.len() == 0 {
        Seq::empty()
    } else {
        item_events(a.drop_last(), path) + index_events(a.last(), item_path(path, (a.len() - 1) as nat))
    }
}

pub open spec fn member_events(o: Seq<(Seq<char>, Json)>, path: Seq<char>) -> Seq<
    (Seq<char>, (ValueType, Seq<char>)),
>
    decreases o,
{
    if o.len() == 0 {
        Seq::empty()
    } else {
        member_events(o.drop_last(), path) + index_events(o.last().1, member_path(path, o.last().0))
    }
}

/// The index of a document: each path mapped to its last record.
pub open spec fn index_of(v: Json) -> Map<Seq<char>, (ValueType, Seq<char>)> {
    fold_pairs(Map::empty(), index_events(v, Seq::empty()))
}

impl View for JsonIndex {
    type V = Map<Seq<char>, (ValueType, Seq<char>)>;

    closed spec fn view(&self) -> Map<Seq<char>, (ValueType, Seq<char>)> {
        table_map(entries_view(self.path_map@))
    }
}

fn index_insert(map: &mut Vec<(String, PathInfo)>, key: String, info: PathInfo)
    requires
        distinct_keys(entries_view(old(map)@)),
    ensures
        distinct_keys(entries_view(final(map)@)),
        table_map(entries_view(final(map)@)) == table_map(entries_view(old(map)@)).insert(
            key@,
            info@,
        ),
{
    let ghost ev = entries_view(map@);
    match find_entry(map, &key) {
        Some(i) => {
            proof {
                lemma_table_map_update(ev, i as int, info@);
            }
            map.set(i, (key, info));
            assert(entries_view(map@) =~= ev.update(i as int, (ev[i as int].0, info@)));
        },
        None => {
            proof {
                lemma_table_map_push(ev, key@, info@);
            }
            map.push((key, info));
            assert(entries_view(map@) =~= ev.push((key@, info@)));
        },
    }
}

impl Default for JsonIndex {
    fn default() -> (r: Self)
        ensures
            r@ == Map::<Seq<char>, (ValueType, Seq<char>)>::empty(),
    {
        let r = JsonIndex { path_map: Vec::new() };
        assert(entries_view(r.path_map@) =~= Seq::empty());
        assert(table_map(entries_view(r.path_map@)) =~= Map::<Seq<char>, (ValueType, Seq<char>)>::empty());
        r
    }
}

impl Clone for JsonIndex {
    fn clone(&self) -> (r: Self)
        ensures
            r@ == self@,
    {
        proof { use_type_invariant(self); }
        let ghost ev = entries_view(self.path_map@);
        let mut entries: Vec<(String, PathInfo)> = Vec::new();
        let mut i: usize = 0;
        while i < self.path_map.len()
            invariant
                i <= self.path_map@.len(),
                ev == entries_view(self.path_map@),
                distinct_keys(ev),
                entries@.len() == i,
                entries_view(entries@) == ev.take(i as int),
            decreases self.path_map.len() - i,
        {
            let entry = &self.path_map[i];
            let key = entry.0.clone();
            let info = PathInfo { value_type: entry.1.value_type, preview: entry.1.preview.clone() };
            assert(key@ == ev[i as int].0);
            assert(info@ == ev[i as int].1);
            let ghost before = entries@;
            entries.push((key, info));
            assert forall|j: int| 0 <= j <= i implies #[trigger] entries_view(entries@)[j] == ev.take(i + 1)[j] by {
                if j < i {
                    assert(entries@[j] == before[j]);
                    assert(entries_view(before)[j] == ev.take(i as int)[j]);
                }
            }
            assert(entries_view(entries@) =~= ev.take(i + 1));
            i = i + 1;
        }
        assert(ev.take(ev.len() as int) =~= ev);
        JsonIndex { path_map: entries }
    }
}

impl JsonIndex {
    #[verifier::type_invariant]
    spec fn keys_unique(self) -> bool {
        distinct_keys(entries_view(self.path_map@))
    }

    /// The index of a JSON text.
    pub fn build(json: &str) -> (r: Result<JsonIndex>)
        ensures
            match parsed(json@) {
                None => r matches Err(FormatterError::ParseError(_)),
                Some(v) => r matches Ok(idx) && idx@ == index_of(v),
            },
    {
        let value = match read_json(json) {
            Ok(v) => v,
            Err(e) => {
                return Err(FormatterError::ParseError(e));
            },
        };
        Ok(Self::from_value(&value))
    }

    /// The index of a parsed document.
    pub fn from_value(value: &JsonValue) -> (r: JsonIndex)
        ensures
            r@ == index_of(value@),
    {
        let mut map: Vec<(String, PathInfo)> = Vec::new();
        assert(entries_view(map@) =~= Seq::empty());
        assert(table_map(entries_view(map@)) =~= Map::<Seq<char>, (ValueType, Seq<char>)>::empty());
        Self::traverse(value, String::new(), &mut map);
        JsonIndex { path_map: map }
    }

    #[verifier::loop_isolation(false)]
    fn traverse(val: &JsonValue, path: String, map: &mut Vec<(String, PathInfo)>)
        requires
            distinct_keys(entries_view(old(map)@)),
        ensures
            distinct_keys(entries_view(final(map)@)),
            table_map(entries_view(final(map)@)) == fold_pairs(
                table_map(entries_view(old(map)@)),
                index_events(val@, path@),
            ),
        decreases val,
    {
        let ghost start = table_map(entries_view(map@));
        let ghost own = if path@.len() > 0 {
            seq![(path@, info_of(val@))]
        } else {
            Seq::empty()
        };
        let info = PathInfo { value_type: ValueType::from(val), preview: char_preview_of(val, 100) };
        assert(info@ == info_of(val@));
        if !path.as_str().is_empty() {
            index_insert(map, path.clone(), info);
            assert(own.drop_last() =~= Seq::<(Seq<char>, (ValueType, Seq<char>))>::empty());
            assert(fold_pairs(start, own) == fold_pairs(start, own.drop_last()).insert(path@, info_of(val@)));
        } else {
            assert(own =~= Seq::<(Seq<char>, (ValueType, Seq<char>))>::empty());
        }
        match val {
            JsonValue::Object(obj) => {
                let ghost js = json_members(obj@);
                proof { lemma_json_members(obj@); }
                let mut i: usize = 0;
                while i < obj.len()
                    invariant
                        i <= obj.len(),
                        js == json_members(obj@),
                        js.len() == obj.len(),
                        forall|k: int| 0 <= k < obj.len() ==> #[trigger] js[k] == (obj@[k].0@, obj@[k].1@),
                        distinct_keys(entries_view(map@)),
                        table_map(entries_view(map@)) == fold_pairs(start, own + member_events(js.take(i as int), path@)),
                    decreases obj.len() - i,
                {
                    let mut new_path: String;
                    if path.as_str().is_empty() {
                        new_path = obj[i].0.clone();
                    } else {
                        new_path = path.clone();
                        push_str(&mut new_path, ".");
                        push_str(&mut new_path, obj[i].0.as_str());
                    }
                    assert(new_path@ == member_path(path@, js[i as int].0));
                    assert(decreases_to!(obj@ => obj@[i as int].1));
                    let ghost before = table_map(entries_view(map@));
                    Self::traverse(&obj[i].1, new_path, map);
                    proof {
                        assert(js.take(i + 1).drop_last() =~= js.take(i as int));
                        assert(js.take(i + 1).last() == js[i as int]);
                        let ev = index_events(js[i as int].1, member_path(path@, js[i as int].0));
                        assert(member_events(js.take(i + 1), path@) == member_events(js.take(i as int), path@) + ev);
                        assert(own + member_events(js.take(i + 1), path@) =~= (own + member_events(js.take(i as int), path@)) + ev);
                        lemma_fold_pairs_append(start, own + member_events(js.take(i as int), path@), ev);
                    }
                    i = i + 1;
                }
                assert(js.take(obj.len() as int) =~= js);
            },
            JsonValue::Array(arr) => {
                let ghost js = json_items(arr@);
                proof { lemma_json_items(arr@); }
                let mut i: usize = 0;
                while i < arr.len()
                    invariant
                        i <= arr.len(),
                        js == json_items(arr@),
                        js.len() == arr.len(),
                        forall|k: int| 0 <= k < arr.len() ==> #[trigger] js[k] == arr@[k]@,
                        distinct_keys(entries_view(map@)),
                        table_map(entries_view(map@)) == fold_pairs(start, own + item_events(js.take(i as int), path@)),
                    decreases arr.len() - i,
                {
                    let mut new_path = path.clone();
                    push_str(&mut new_path, "[");
                    push_decimal(&mut new_path, i);
                    push_str(&mut new_path, "]");
                    assert(new_path@ == item_path(path@, i as nat));
                    assert(decreases_to!(arr@ => arr@[i as int]));
                    Self::traverse(&arr[i], new_path, map);
                    proof {
                        assert(js.take(i + 1).drop_last() =~= js.take(i as int));
                        assert(js.take(i + 1).last() == js[i as int]);
                        let ev = index_events(js[i as int], item_path(path@, i as nat));
                        assert(item_events(js.take(i + 1), path@) == item_events(js.take(i as int), path@) + ev);
                        assert(own + item_events(js.take(i + 1), path@) =~= (own + item_events(js.take(i as int), path@)) + ev);
                        lemma_fold_pairs_append(start, own + item_events(js.take(i as int), path@), ev);
                    }
                    i = i + 1;
                }
                assert(js.take(arr.len() as int) =~= js);
            },
            _ => {
                assert(index_events(val@, path@) =~= own);
            },
        }
    }

    /// Every path of the index, once each, in ascending order.
    #[verifier::loop_isolation(false)]
    pub fn list_paths(&self) -> (r: Vec<&String>)
        ensures
            forall|p: int, q: int| 0 <= p < q < r@.len() ==> lex_lt(r@[p]@, r@[q]@),
            forall|p: int| 0 <= p < r@.len() ==> self@.contains_key(#[trigger] r@[p]@),
            forall|k: Seq<char>|
                self@.contains_key(k) ==> exists|p: int| 0 <= p < r@.len() && #[trigger] r@[p]@ == k,
    {
        proof { use_type_invariant(self); }
        let ghost ev = entries_view(self.path_map@);
        let mut keys: Vec<(i32, Vec<char>)> = Vec::new();
        let mut i: usize = 0;
        while i < self.path_map.len()
            invariant
                i <= self.path_map@.len(),
                keys@.len() == i,
                forall|q: int| 0 <= q < i ==> (#[trigger] keys@[q]).0 == 0 && keys@[q].1@ == self.path_map@[q].0@,
            decreases self.path_map.len() - i,
        {
            keys.push((0, chars_of(self.path_map[i].0.as_str())));
            i = i + 1;
        }
        let order = sorted_order(&keys);
        let ghost kv = keys_view(keys@);
        let ghost n = keys@.len() as nat;
        let ghost o = sort_order(kv, n);
        proof {
            lemma_sort_order_permutation(kv, n);
            lemma_sort_order_sorted(kv, n);
        }
        let mut r: Vec<&String> = Vec::new();
        let mut p: usize = 0;
        while p < order.len()
            invariant
                p <= order@.len(),
                order@.len() == n,
                n == self.path_map@.len(),
                o.len() == n,
                forall|q: int| 0 <= q < n ==> #[trigger] order@[q] as int == o[q],
                forall|q: int| 0 <= q < n ==> #[trigger] order@[q] < n,
                r@.len() == p,
                forall|q: int| 0 <= q < p ==> #[trigger] r@[q]@ == self.path_map@[order@[q] as int].0@,
            decreases order.len() - p,
        {
            r.push(&self.path_map[order[p]].0);
            p = p + 1;
        }
        proof {
            assert forall|p: int, q: int| 0 <= p < q < r@.len() implies lex_lt(r@[p]@, r@[q]@) by {
                assert(order@[p] as int == o[p]);
                assert(order@[q] as int == o[q]);
                let a = o[p];
                let b = o[q];
                assert(kv[a] == (0int, ev[a].0));
                assert(kv[b] == (0int, ev[b].0));
                assert(!key_before(kv[o[q]], kv[o[p]]));
                assert(a != b);
                if a < b {
                    assert(ev[a].0 != ev[b].0);
                } else {
                    assert(ev[b].0 != ev[a].0);
                }
                lemma_lex_lt_total(ev[a].0, ev[b].0);
            }
            assert forall|p: int| 0 <= p < r@.len() implies self@.contains_key(#[trigger] r@[p]@) by {
                assert(order@[p] as int == o[p]);
                lemma_table_map_index(ev, o[p]);
                assert(ev[o[p]].0 == r@[p]@);
            }
            assert forall|k: Seq<char>| self@.contains_key(k) implies exists|p: int|
                0 <= p < r@.len() && #[trigger] r@[p]@ == k by {
                let i = choose|i: int| 0 <= i < ev.len() && ev[i].0 == k;
                assert(o.contains(i));
                let p = choose|p: int| 0 <= p < o.len() && o[p] == i;
                assert(order@[p] as int == o[p]);
                assert(r@[p]@ == k);
            }
        }
        r
    }

    /// What is recorded at `path`, if the document has that path.
    pub fn search(&self, path: &str) -> (r: Option<&PathInfo>)
        ensures
            match r {
                Some(info) => self@.contains_key(path@) && self@[path@] == info@,
                None => !self@.contains_key(path@),
            },
    {
        proof { use_type_invariant(self); }
        let ghost ev = entries_view(self.path_map@);
        let mut i: usize = 0;
        while i < self.path_map.len()
            invariant
                i <= self.path_map@.len(),
                ev == entries_view(self.path_map@),
                distinct_keys(ev),
                forall|q: int| 0 <= q < i ==> (#[trigger] ev[q]).0 != path@,
            decreases self.path_map.len() - i,
        {
            if str_eq(self.path_map[i].0.as_str(), path) {
                proof { lemma_table_map_index(ev, i as int); }
                return Some(&self.path_map[i].1);
            }
            i = i + 1;
        }
        assert(!table_map(ev).contains_key(path@));
        None
    }
}

} // verus!
