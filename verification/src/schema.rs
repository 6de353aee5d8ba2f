use vstd::prelude::*;
use crate::formatter::{FormatterError, Result};
use crate::parse::{parsed, read_json};
use crate::heuristics::{
    all_objects, all_objects_exec, get_base_type, has_key, merge_all, merge_into, merge_objects, member_lists,
    same_base, same_base_exec, signature, type_signature,
};
use crate::sort::{name_keys, sort_order, sorted_order};
use crate::text::{chars_of, contains_exec, has_substr, push_indent, push_str, spaces};
use crate::value::{
    base_name, json_members, json_items, lemma_json_items, lemma_json_members,
    lemma_tally_items_depth, lemma_tally_members_depth, tally, tally_members, Json, JsonValue,
};

verus! {

/// All member values have the shape of the first.
pub open spec fn same_signature(o: Seq<(Seq<char>, Json)>) -> bool {
    forall|i: int| 0 <= i < o.len() ==> signature((#[trigger] o[i]).1) == signature(o[0].1)
}

/// The member lists of the member values that are objects (an empty list
/// for any other value).
pub open spec fn object_lists(o: Seq<(Seq<char>, Json)>) -> Seq<Seq<(Seq<char>, Json)>> {
    Seq::new(
        o.len(),
        |i: int|
            match o[i].1 {
                Json::Object(m) => m,
                _ => Seq::empty(),
            },
    )
}

pub open spec fn member_keys(o: Seq<(Seq<char>, Json)>) -> Seq<Seq<char>> {
    Seq::new(o.len(), |i: int| o[i].0)
}

/// The key order of an object written out member by member: ascending.
pub open spec fn key_order(o: Seq<(Seq<char>, Json)>) -> Seq<int> {
    sort_order(name_keys(member_keys(o)), o.len())
}

proof fn lemma_members_depth_bound(s: Seq<(Seq<char>, Json)>, b: nat)
    requires
        forall|j: int| 0 <= j < s.len() ==> tally((#[trigger] s[j]).1).depth <= b,
    ensures
        tally_members(s).depth <= b,
    decreases s.len(),
{
    if s.len() > 0 {
        lemma_members_depth_bound(s.drop_last(), b);
    }
}

proof fn lemma_merge_into_elems(acc: Seq<(Seq<char>, Json)>, m: Seq<(Seq<char>, Json)>)
    ensures
        forall|k: int|
            0 <= k < merge_into(acc, m).len() ==> acc.contains(#[trigger] merge_into(acc, m)[k])
                || m.contains(merge_into(acc, m)[k]),
    decreases m.len(),
{
    if m.len() > 0 {
        lemma_merge_into_elems(acc, m.drop_last());
        let a = merge_into(acc, m.drop_last());
        assert forall|k: int| 0 <= k < merge_into(acc, m).len() implies acc.contains(
            #[trigger] merge_into(acc, m)[k],
        ) || m.contains(merge_into(acc, m)[k]) by {
            let x = merge_into(acc, m)[k];
            if k < a.len() {
                assert(x == a[k]);
                if m.drop_last().contains(x) {
                    let j = choose|j: int| 0 <= j < m.drop_last().len() && m.drop_last()[j] == x;
                    assert(m[j] == x);
                }
            } else {
                assert(x == m[m.len() - 1]);
            }
        }
    }
}

proof fn lemma_merge_all_depth(objs: Seq<Seq<(Seq<char>, Json)>>, b: int)
    requires
        forall|i: int, j: int|
            0 <= i < objs.len() && 0 <= j < objs[i].len() ==> tally((#[trigger] objs[i][j]).1).depth
                <= b,
    ensures
        forall|k: int|
            0 <= k < merge_all(objs).len() ==> tally((#[trigger] merge_all(objs)[k]).1).depth <= b,
    decreases objs.len(),
{
    if objs.len() > 0 {
        let prev = merge_all(objs.drop_last());
        assert forall|i: int, j: int|
            0 <= i < objs.drop_last().len() && 0 <= j < objs.drop_last()[i].len() implies tally(
            (#[trigger] objs.drop_last()[i][j]).1,
        ).depth <= b by {
            assert(objs.drop_last()[i] == objs[i]);
        }
        lemma_merge_all_depth(objs.drop_last(), b);
        lemma_merge_into_elems(prev, objs.last());
        assert forall|k: int| 0 <= k < merge_all(objs).len() implies tally(
            (#[trigger] merge_all(objs)[k]).1,
        ).depth <= b by {
            let x = merge_all(objs)[k];
            if prev.contains(x) {
                let q = choose|q: int| 0 <= q < prev.len() && prev[q] == x;
                assert(tally(prev[q].1).depth <= b);
            } else {
                let q = choose|q: int| 0 <= q < objs.last().len() && objs.last()[q] == x;
                assert(objs[objs.len() - 1][q] == x);
            }
        }
    }
}

/// Merging the object values of an object yields an object nested less deep.
pub proof fn lemma_merged_shallower(o: Seq<(Seq<char>, Json)>)
    requires
        o.len() > 0,
        all_objects(o),
    ensures
        tally(Json::Object(merge_all(object_lists(o)))).depth < tally(Json::Object(o)).depth,
{
    let d = tally(Json::Object(o)).depth;
    let objs = object_lists(o);
    let merged = merge_all(objs);
    if merged.len() > 0 {
        assert forall|i: int, j: int|
            0 <= i < objs.len() && 0 <= j < objs[i].len() implies tally(
            (#[trigger] objs[i][j]).1,
        ).depth + 2 <= d by {
            lemma_tally_members_depth(o, i);
            let m = objs[i];
            assert(o[i].1 == Json::Object(m));
            lemma_tally_members_depth(m, j);
        }
        lemma_merge_all_depth(objs, d - 2);
        assert(tally(merged[0].1).depth <= d - 2);
        lemma_members_depth_bound(merged, (d - 2) as nat);
    }
}

/// The compact schema of a value, the object at nesting `ind`: kind names,
/// `[item]` for arrays by their first item, `map[string]...` for objects
/// that read as maps, else one line per key in key order.
pub open spec fn schema(v: Json, ind: nat) -> Seq<char>
    decreases tally(v).depth, 0nat,
{
    match v {
        Json::Array(a) => if a.len() == 0 {
            "[]"@
        } else {
            proof {
                lemma_tally_items_depth(a, 0);
            }
            let item = schema(a[0], ind + 1);
            if has_substr(item, "\n"@) {
                "[\n"@ + spaces(2 * (ind + 1)) + item + "\n"@ + spaces(2 * ind) + "]"@
            } else {
                "["@ + item + "]"@
            }
        },
        Json::Object(o) => if o.len() == 0 {
            "{}"@
        } else if o.len() >= 2 && same_signature(o) {
            proof {
                lemma_tally_members_depth(o, 0);
            }
            "map[string]"@ + schema(o[0].1, ind + 1)
        } else if o.len() >= 2 && all_objects(o) {
            proof {
                lemma_merged_shallower(o);
            }
            "map[string]"@ + schema(Json::Object(merge_all(object_lists(o))), ind + 1)
        } else if o.len() >= 2 && same_base(o) {
            "map[string]"@ + base_name(o[0].1)
        } else {
            "{"@ + schema_lines(o, key_order(o), ind) + "\n"@ + spaces(2 * ind) + "}"@
        },
        _ => base_name(v),
    }
}

/// One line per member, in the order `ord`, each preceded by a line break.
pub open spec fn schema_lines(o: Seq<(Seq<char>, Json)>, ord: Seq<int>, ind: nat) -> Seq<char>
    decreases tally_members(o).depth, ord.len() + 1,
{
    if ord.len() == 0 {
        Seq::empty()
    } else {
        let k = ord.last();
        let prev = schema_lines(o, ord.drop_last(), ind);
        if 0 <= k < o.len() {
            proof {
                lemma_tally_members_depth(o, k);
            }
            prev + "\n"@ + spaces(2 * (ind + 1)) + "\""@ + o[k].0 + "\": "@ + schema(o[k].1, ind + 1)
        } else {
            prev
        }
    }
}


fn same_signature_exec(m: &Vec<(String, JsonValue)>) -> (r: bool)
    requires
        m@.len() > 0,
    ensures
        r == same_signature(json_members(m@)),
{
    proof { lemma_json_members(m@); }
    let first = type_signature(&m[0].1);
    let mut i: usize = 0;
    while i < m.len()
        invariant
            i <= m.len(),
            m@.len() > 0,
            first@ == signature(m@[0].1@),
            json_members(m@).len() == m.len(),
            forall|q: int| 0 <= q < m.len() ==> #[trigger] json_members(m@)[q] == (m@[q].0@, m@[q].1@),
            forall|q: int| 0 <= q < i ==> signature((#[trigger] json_members(m@)[q]).1) == signature(
                json_members(m@)[0].1,
            ),
        decreases m.len() - i,
    {
        let sig = type_signature(&m[i].1);
        if sig != first {
            assert(signature(json_members(m@)[i as int].1) != signature(json_members(m@)[0].1));
            return false;
        }
        i = i + 1;
    }
    true
}

fn schema_array(a: &Vec<JsonValue>, indent: usize) -> (r: String)
    requires
        2 * (indent + tally(Json::Array(json_items(a@))).depth + 1) <= usize::MAX,
    ensures
        r@ == schema(Json::Array(json_items(a@)), indent as nat),
    decreases tally(Json::Array(json_items(a@))).depth, 0nat,
{
    proof { lemma_json_items(a@); }
    if a.len() == 0 {
        return "[]".to_owned();
    }
    proof { lemma_tally_items_depth(json_items(a@), 0); }
    let item = generate_schema(&a[0], indent + 1);
    let ic = chars_of(item.as_str());
    let nl = chars_of("\n");
    if contains_exec(&ic, &nl) {
        let mut r = "[\n".to_owned();
        push_indent(&mut r, indent + 1);
        push_str(&mut r, item.as_str());
        push_str(&mut r, "\n");
        push_indent(&mut r, indent);
        push_str(&mut r, "]");
        r
    } else {
        let mut r = "[".to_owned();
        push_str(&mut r, item.as_str());
        push_str(&mut r, "]");
        r
    }
}

#[verifier::loop_isolation(false)]
fn schema_merged(m: &Vec<(String, JsonValue)>, indent: usize) -> (r: String)
    requires
        m@.len() >= 2,
        all_objects(json_members(m@)),
        2 * (indent + tally(Json::Object(json_members(m@))).depth + 1) <= usize::MAX,
    ensures
        r@ == "map[string]"@ + schema(
            Json::Object(merge_all(object_lists(json_members(m@)))),
            indent as nat + 1,
        ),
    decreases tally(Json::Object(json_members(m@))).depth, 0nat,
{
    let ghost js = json_members(m@);
    proof { lemma_json_members(m@); }
    let mut lists: Vec<&Vec<(String, JsonValue)>> = Vec::new();
    let mut i: usize = 0;
    while i < m.len()
        invariant
            i <= m.len(),
            lists@.len() == i,
            forall|q: int| 0 <= q < i ==> json_members((#[trigger] lists@[q])@) == object_lists(js)[q],
        decreases m.len() - i,
    {
        assert(js[i as int].1 is Object);
        match &m[i].1 {
            JsonValue::Object(o) => {
                lists.push(o);
            },
            _ => {},
        }
        i = i + 1;
    }
    assert(member_lists(lists@) =~= object_lists(js));
    let merged = merge_objects(&lists);
    let mv = JsonValue::Object(merged);
    proof { lemma_merged_shallower(js); }
    let inner = generate_schema(&mv, indent + 1);
    let mut r = "map[string]".to_owned();
    push_str(&mut r, inner.as_str());
    r
}

#[verifier::loop_isolation(false)]
fn schema_keyed(m: &Vec<(String, JsonValue)>, indent: usize) -> (r: String)
    requires
        m@.len() > 0,
        2 * (indent + tally(Json::Object(json_members(m@))).depth + 1) <= usize::MAX,
    ensures
        r@ == "{"@ + schema_lines(json_members(m@), key_order(json_members(m@)), indent as nat)
            + "\n"@ + spaces(2 * indent as nat) + "}"@,
    decreases tally(Json::Object(json_members(m@))).depth, 0nat,
{
    let ghost js = json_members(m@);
    proof { lemma_json_members(m@); }
    let mut keys: Vec<(i32, Vec<char>)> = Vec::new();
    let mut i: usize = 0;
    while i < m.len()
        invariant
            i <= m.len(),
            keys@.len() == i,
            forall|q: int| 0 <= q < i ==> (#[trigger] keys@[q]).0 == 0 && keys@[q].1@ == js[q].0,
        decreases m.len() - i,
    {
        keys.push((0, chars_of(m[i].0.as_str())));
        i = i + 1;
    }
    let order = sorted_order(&keys);
    let ghost ord = key_order(js);
    proof {
        assert(crate::sort::keys_view(keys@) =~= name_keys(member_keys(js)));
        crate::sort::lemma_sort_order_range(name_keys(member_keys(js)), js.len());
    }
    let mut r = "{".to_owned();
    let mut p: usize = 0;
    while p < order.len()
        invariant
            p <= order@.len(),
            order@.len() == m.len(),
            ord.len() == m.len(),
            forall|q: int| 0 <= q < order@.len() ==> #[trigger] order@[q] as int == ord[q],
            forall|q: int| 0 <= q < order@.len() ==> #[trigger] order@[q] < m.len(),
            r@ == "{"@ + schema_lines(js, ord.take(p as int), indent as nat),
        decreases order.len() - p,
    {
        let k = order[p];
        proof { lemma_tally_members_depth(js, k as int); }
        let inner = generate_schema(&m[k].1, indent + 1);
        push_str(&mut r, "\n");
        push_indent(&mut r, indent + 1);
        push_str(&mut r, "\"");
        push_str(&mut r, m[k].0.as_str());
        push_str(&mut r, "\": ");
        push_str(&mut r, inner.as_str());
        assert(ord.take(p + 1).drop_last() =~= ord.take(p as int));
        assert(ord.take(p + 1).last() == k as int);
        assert(r@ =~= "{"@ + schema_lines(js, ord.take(p + 1), indent as nat));
        p = p + 1;
    }
    assert(ord.take(m.len() as int) =~= ord);
    push_str(&mut r, "\n");
    push_indent(&mut r, indent);
    push_str(&mut r, "}");
    r
}

fn schema_object(m: &Vec<(String, JsonValue)>, indent: usize) -> (r: String)
    requires
        2 * (indent + tally(Json::Object(json_members(m@))).depth + 1) <= usize::MAX,
    ensures
        r@ == schema(Json::Object(json_members(m@)), indent as nat),
    decreases tally(Json::Object(json_members(m@))).depth, 1nat,
{
    let ghost js = json_members(m@);
    proof { lemma_json_members(m@); }
    if m.len() == 0 {
        return "{}".to_owned();
    }
    if m.len() >= 2 && same_signature_exec(m) {
        proof { lemma_tally_members_depth(js, 0); }
        let inner = generate_schema(&m[0].1, indent + 1);
        let mut r = "map[string]".to_owned();
        push_str(&mut r, inner.as_str());
        return r;
    }
    if m.len() >= 2 && all_objects_exec(m) {
        return schema_merged(m, indent);
    }
    if m.len() >= 2 && same_base_exec(m) {
        let mut r = "map[string]".to_owned();
        push_str(&mut r, get_base_type(&m[0].1));
        return r;
    }
    schema_keyed(m, indent)
}

/// Compact type schema of a value, nested objects indented two spaces per
/// level starting at `indent`.
pub fn generate_schema(value: &JsonValue, indent: usize) -> (r: String)
    requires
        2 * (indent + tally(value@).depth + 1) <= usize::MAX,
    ensures
        r@ == schema(value@, indent as nat),
    decreases tally(value@).depth, 2nat,
{
    match value {
        JsonValue::Array(a) => schema_array(a, indent),
        JsonValue::Object(m) => schema_object(m, indent),
        JsonValue::Null => "null".to_owned(),
        JsonValue::Bool(_) => "boolean".to_owned(),
        JsonValue::Number(_) => "number".to_owned(),
        JsonValue::Str(_) => "string".to_owned(),
    }
}

/// The schema of a JSON text, or an error where the text is not JSON.
pub fn schema_of_json(json: &str) -> (r: Result<String>)
    ensures
        match parsed(json@) {
            None => r matches Err(FormatterError::ParseError(_)),
            Some(v) => r matches Ok(t) && t@ == schema(v, 0),
        },
{
    match read_json(json) {
        Ok(v) => Ok(generate_schema(&v, 0)),
        Err(e) => Err(FormatterError::ParseError(e)),
    }
}

} // verus!
