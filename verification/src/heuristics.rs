use vstd::prelude::*;
use crate::sort::{name_keys, permuted, push_joined, sort_order, sorted_names, sorted_order, strings_view};
use crate::text::{chars_eq, chars_of, contains_exec, has_substr, join, push_str, starts_with, starts_with_exec, str_eq};
use crate::value::{
    base_name, json_members, json_items, lemma_json_items, lemma_json_members, Json, JsonValue,
};

verus! {

/// The shape of a value: scalar kinds by name, arrays by their first item,
/// objects by their `key:shape` entries sorted and joined with commas.
pub open spec fn signature(v: Json) -> Seq<char>
    decreases v,
{
    match v {
        Json::Null => "null"@,
        Json::Bool(_) => "boolean"@,
        Json::Number(_) => "number"@,
        Json::Str(_) => "string"@,
        Json::Array(a) => if a.len() == 0 {
            "[]"@
        } else {
            "["@ + signature(a[0]) + "]"@
        },
        Json::Object(o) => if o.len() == 0 {
            "{}"@
        } else {
            "{"@ + join(sorted_names(sig_entries(o)), ","@) + "}"@
        },
    }
}

/// `key:shape` for each member, in member order.
pub open spec fn sig_entries(o: Seq<(Seq<char>, Json)>) -> Seq<Seq<char>>
    decreases o,
{
    if o.len() == 0 {
        Seq::empty()
    } else {
        sig_entries(o.drop_last()).push(o.last().0 + ":"@ + signature(o.last().1))
    }
}

pub proof fn lemma_sig_entries_len(o: Seq<(Seq<char>, Json)>)
    ensures
        sig_entries(o).len() == o.len(),
    decreases o.len(),
{
    if o.len() > 0 {
        lemma_sig_entries_len(o.drop_last());
    }
}

/// The shape of a value as a string.
#[verifier::loop_isolation(false)]
pub fn type_signature(value: &JsonValue) -> (r: String)
    ensures
        r@ == signature(value@),
    decreases value,
{
    match value {
        JsonValue::Null => "null".to_owned(),
        JsonValue::Bool(_) => "boolean".to_owned(),
        JsonValue::Number(_) => "number".to_owned(),
        JsonValue::Str(_) => "string".to_owned(),
        JsonValue::Array(a) => {
            proof { lemma_json_items(a@); }
            if a.len() == 0 {
                "[]".to_owned()
            } else {
                let mut r = "[".to_owned();
                let inner = type_signature(&a[0]);
                push_str(&mut r, inner.as_str());
                push_str(&mut r, "]");
                r
            }
        },
        JsonValue::Object(m) => {
            let ghost js = json_members(m@);
            proof { lemma_json_members(m@); }
            if m.len() == 0 {
                return "{}".to_owned();
            }
            let mut entries: Vec<String> = Vec::new();
            let mut keys: Vec<(i32, Vec<char>)> = Vec::new();
            let mut i: usize = 0;
            while i < m.len()
                invariant
                    i <= m.len(),
                    js == json_members(m@),
                    js.len() == m.len(),
                    forall|k: int| 0 <= k < m.len() ==> #[trigger] js[k] == (m@[k].0@, m@[k].1@),
                    strings_view(entries@) == sig_entries(js.take(i as int)),
                    keys@.len() == entries@.len(),
                    entries@.len() == i,
                    forall|k: int| 0 <= k < keys@.len() ==> #[trigger] keys@[k].0 == 0 && keys@[k].1@ == entries@[k]@,
                decreases m.len() - i,
            {
                assert(decreases_to!(m@ => m@[i as int].1));
                let mut e = m[i].0.clone();
                push_str(&mut e, ":");
                let sig = type_signature(&m[i].1);
                push_str(&mut e, sig.as_str());
                let cs = chars_of(e.as_str());
                let ghost old_entries = entries@;
                entries.push(e);
                keys.push((0, cs));
                assert(js.take(i + 1).drop_last() =~= js.take(i as int));
                assert(js.take(i + 1).last() == js[i as int]);
                assert(strings_view(entries@) =~= strings_view(old_entries).push(entries@[i as int]@));
                i = i + 1;
            }
            assert(js.take(m.len() as int) =~= js);
            let order = sorted_order(&keys);
            proof {
                let es = sig_entries(js);
                lemma_sig_entries_len(js);
                crate::sort::lemma_sort_order_range(name_keys(es), es.len());
                assert(crate::sort::keys_view(keys@) =~= name_keys(es));
                assert(Seq::new(order@.len(), |p: int| order@[p] as int) =~= sort_order(name_keys(es), es.len()));
            }
            let mut r = "{".to_owned();
            push_joined(&mut r, &entries, &order, ",");
            push_str(&mut r, "}");
            r
        },
    }
}

/// Kind name of a value: `null`, `boolean`, `number`, `string`, `array` or
/// `object`.
pub fn get_base_type(value: &JsonValue) -> (r: &'static str)
    ensures
        r@ == base_name(value@),
{
    match value {
        JsonValue::Null => "null",
        JsonValue::Bool(_) => "boolean",
        JsonValue::Number(_) => "number",
        JsonValue::Str(_) => "string",
        JsonValue::Array(_) => "array",
        JsonValue::Object(_) => "object",
    }
}


/// `k` is the key of some member of `s`.
pub open spec fn has_key(s: Seq<(Seq<char>, Json)>, k: Seq<char>) -> bool {
    exists|i: int| 0 <= i < s.len() && #[trigger] s[i].0 == k
}

/// `acc` followed by each member of `m` whose key is not there yet, in order.
pub open spec fn merge_into(acc: Seq<(Seq<char>, Json)>, m: Seq<(Seq<char>, Json)>) -> Seq<
    (Seq<char>, Json),
>
    decreases m.len(),
{
    if m.len() == 0 {
        acc
    } else {
        let a = merge_into(acc, m.drop_last());
        if has_key(a, m.last().0) {
            a
        } else {
            a.push(m.last())
        }
    }
}

/// The members of all objects, the first occurrence of each key winning.
pub open spec fn merge_all(objs: Seq<Seq<(Seq<char>, Json)>>) -> Seq<(Seq<char>, Json)>
    decreases objs.len(),
{
    if objs.len() == 0 {
        Seq::empty()
    } else {
        merge_into(merge_all(objs.drop_last()), objs.last())
    }
}

pub open spec fn member_lists(objs: Seq<&Vec<(String, JsonValue)>>) -> Seq<Seq<(Seq<char>, Json)>> {
    Seq::new(objs.len(), |i: int| json_members(objs[i]@))
}

fn find_key(s: &Vec<(String, JsonValue)>, k: &String) -> (r: bool)
    ensures
        r == has_key(json_members(s@), k@),
{
    proof { lemma_json_members(s@); }
    let mut i: usize = 0;
    while i < s.len()
        invariant
            i <= s.len(),
            json_members(s@).len() == s.len(),
            forall|q: int| 0 <= q < s.len() ==> #[trigger] json_members(s@)[q] == (s@[q].0@, s@[q].1@),
            forall|q: int| 0 <= q < i ==> #[trigger] json_members(s@)[q].0 != k@,
        decreases s.len() - i,
    {
        if s[i].0 == *k {
            assert(json_members(s@)[i as int].0 == k@);
            return true;
        }
        i = i + 1;
    }
    false
}

/// Members of several objects merged into one: each key keeps the value of
/// its first occurrence, keys in order of first occurrence.
#[verifier::loop_isolation(false)]
pub fn merge_objects(objects: &Vec<&Vec<(String, JsonValue)>>) -> (r: Vec<(String, JsonValue)>)
    ensures
        json_members(r@) == merge_all(member_lists(objects@)),
{
    let ghost lists = member_lists(objects@);
    let mut merged: Vec<(String, JsonValue)> = Vec::new();
    let mut i: usize = 0;
    while i < objects.len()
        invariant
            i <= objects.len(),
            lists == member_lists(objects@),
            json_members(merged@) == merge_all(lists.take(i as int)),
        decreases objects.len() - i,
    {
        let obj: &Vec<(String, JsonValue)> = objects[i];
        let ghost base = merge_all(lists.take(i as int));
        let ghost ms = json_members(obj@);
        proof { lemma_json_members(obj@); }
        let mut j: usize = 0;
        while j < obj.len()
            invariant
                j <= obj.len(),
                ms == json_members(obj@),
                ms.len() == obj.len(),
                forall|q: int| 0 <= q < obj.len() ==> #[trigger] ms[q] == (obj@[q].0@, obj@[q].1@),
                json_members(merged@) == merge_into(base, ms.take(j as int)),
            decreases obj.len() - j,
        {
            assert(ms.take(j + 1).drop_last() =~= ms.take(j as int));
            assert(ms.take(j + 1).last() == ms[j as int]);
            if !find_key(&merged, &obj[j].0) {
                let k = obj[j].0.clone();
                let v = obj[j].1.deep_copy();
                let ghost old_m = merged@;
                merged.push((k, v));
                assert(merged@.drop_last() =~= old_m);
            }
            j = j + 1;
        }
        assert(ms.take(obj.len() as int) =~= ms);
        assert(lists.take(i + 1).drop_last() =~= lists.take(i as int));
        assert(lists.take(i + 1).last() == ms);
        i = i + 1;
    }
    assert(lists.take(objects.len() as int) =~= lists);
    merged
}

/// How an object reads as a map from strings to one kind of value.
#[derive(Debug, Clone, Copy, PartialEq, Eq)]
pub enum MapKind {
    /// Every value is of the named kind.
    Primitive(&'static str),
    /// Every value is an object; their fields can be merged.
    ObjectMerged,
}

/// All values of the members are objects.
pub open spec fn all_objects(o: Seq<(Seq<char>, Json)>) -> bool {
    forall|i: int| 0 <= i < o.len() ==> (#[trigger] o[i]).1 is Object
}

/// All values of the members are of the kind of the first.
pub open spec fn same_base(o: Seq<(Seq<char>, Json)>) -> bool {
    forall|i: int| 0 <= i < o.len() ==> base_name((#[trigger] o[i]).1) == base_name(o[0].1)
}

pub fn all_objects_exec(m: &Vec<(String, JsonValue)>) -> (r: bool)
    ensures
        r == all_objects(json_members(m@)),
{
    proof { lemma_json_members(m@); }
    let mut i: usize = 0;
    while i < m.len()
        invariant
            i <= m.len(),
            json_members(m@).len() == m.len(),
            forall|q: int| 0 <= q < m.len() ==> #[trigger] json_members(m@)[q] == (m@[q].0@, m@[q].1@),
            forall|q: int| 0 <= q < i ==> (#[trigger] json_members(m@)[q]).1 is Object,
        decreases m.len() - i,
    {
        if !m[i].1.is_object() {
            assert(!(json_members(m@)[i as int].1 is Object));
            return false;
        }
        i = i + 1;
    }
    true
}

/// Whether every member value is of the kind of the first.
pub fn same_base_exec(m: &Vec<(String, JsonValue)>) -> (r: bool)
    requires
        m@.len() > 0,
    ensures
        r == same_base(json_members(m@)),
{
    proof { lemma_json_members(m@); }
    let first = get_base_type(&m[0].1);
    let mut i: usize = 0;
    while i < m.len()
        invariant
            i <= m.len(),
            m@.len() > 0,
            first@ == base_name(m@[0].1@),
            json_members(m@).len() == m.len(),
            forall|q: int| 0 <= q < m.len() ==> #[trigger] json_members(m@)[q] == (m@[q].0@, m@[q].1@),
            forall|q: int| 0 <= q < i ==> base_name((#[trigger] json_members(m@)[q]).1) == base_name(
                json_members(m@)[0].1,
            ),
        decreases m.len() - i,
    {
        let b = get_base_type(&m[i].1);
        if !str_eq(b, first) {
            assert(base_name(json_members(m@)[i as int].1) != base_name(json_members(m@)[0].1));
            return false;
        }
        i = i + 1;
    }
    true
}

/// Whether an object reads as a map: at least two members, and all values
/// objects, or else all values of one kind.
pub fn is_map_like(obj: &Vec<(String, JsonValue)>) -> (r: Option<MapKind>)
    ensures
        ({
            let o = json_members(obj@);
            match r {
                None => o.len() < 2 || (!all_objects(o) && !same_base(o)),
                Some(MapKind::ObjectMerged) => o.len() >= 2 && all_objects(o),
                Some(MapKind::Primitive(t)) => o.len() >= 2 && !all_objects(o) && same_base(o) && t@
                    == base_name(o[0].1),
            }
        }),
{
    proof { lemma_json_members(obj@); }
    if obj.len() < 2 {
        return None;
    }
    if all_objects_exec(obj) {
        return Some(MapKind::ObjectMerged);
    }
    if same_base_exec(obj) {
        return Some(MapKind::Primitive(get_base_type(&obj[0].1)));
    }
    None
}

/// The keys that sort first under the smart order.
pub open spec fn is_priority_key(k: Seq<char>) -> bool {
    k == "id"@ || k == "name"@ || k == "type"@ || k == "status"@ || k == "title"@ || k == "key"@
        || k == "value"@
}

/// Importance of a key: 100 for the priority keys, less 50 for private or
/// internal keys, less 30 for debug or test keys.
pub open spec fn weight(k: Seq<char>) -> int {
    (if is_priority_key(k) { 100int } else { 0int }) + (if starts_with(k, "_"@) || has_substr(
        k,
        "internal"@,
    ) {
        -50int
    } else {
        0int
    }) + (if has_substr(k, "debug"@) || has_substr(k, "test"@) {
        -30int
    } else {
        0int
    })
}

fn is_literal(k: &Vec<char>, lit: &str) -> (r: bool)
    ensures
        r == (k@ == lit@),
{
    let l = chars_of(lit);
    chars_eq(k, &l)
}

fn has_literal(k: &Vec<char>, lit: &str) -> (r: bool)
    ensures
        r == has_substr(k@, lit@),
{
    let l = chars_of(lit);
    contains_exec(k, &l)
}

/// Importance of a key for the smart sort order.
pub fn key_weight(key: &str) -> (r: i32)
    ensures
        r as int == weight(key@),
{
    let k = chars_of(key);
    let mut w: i32 = 0;
    if is_literal(&k, "id") || is_literal(&k, "name") || is_literal(&k, "type") || is_literal(
        &k,
        "status",
    ) || is_literal(&k, "title") || is_literal(&k, "key") || is_literal(&k, "value") {
        w = w + 100;
    }
    let underscore = chars_of("_");
    if starts_with_exec(&k, &underscore) || has_literal(&k, "internal") {
        w = w - 50;
    }
    if has_literal(&k, "debug") || has_literal(&k, "test") {
        w = w - 30;
    }
    w
}

} // verus!
