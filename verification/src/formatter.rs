use vstd::prelude::*;
use crate::heuristics::{key_weight, same_base, same_base_exec, weight};
use crate::parse::{parsed, read_json};
use crate::schema::{generate_schema, schema};
use crate::stats::{p90_at, pattern_path, previews_fit, stats_of, NodeView, SchemaStats};
use crate::sort::{keys_view, lemma_sort_order_range, sort_order, sorted_order};
use crate::text::{chars_of, ends_with, ends_with_exec, push_char, push_spaces, push_str, spaces, str_eq};
use crate::value::{
    byte_len, compact, count_nodes, json_items, pretty, write_pretty, json_members, lemma_json_items, lemma_json_members,
    push_escaped, quoted,
    lemma_tally_bounds, lemma_tally_items_parts, lemma_tally_members_parts, nat_max,
    tally, tally_items, tally_members, to_compact, Json, JsonValue, Tally,
};

verus! {

/// Errors of the formatter.
#[derive(Debug)]
pub enum FormatterError {
    /// The input is not a JSON document.
    ParseError(serde_json::Error),
    /// A path that the document does not have.
    InvalidPath(String),
    /// A preview would be cut inside a multi-byte character.
    CharBoundary,
    /// A count or an indentation width does not fit in a `usize`.
    Overflow,
}

pub type Result<T> = std::result::Result<T, FormatterError>;

/// Structure figures of a document.
#[derive(Debug, Clone, Copy, PartialEq, Eq, Structural)]
pub struct Metadata {
    pub byte_size: usize,
    pub depth: usize,
    pub array_count: usize,
    pub max_array_len: usize,
    pub object_count: usize,
    pub total_keys: usize,
}

/// Order of object keys.
#[derive(Debug, Clone, Copy, PartialEq, Eq, Structural)]
pub enum SortStrategy {
    /// Ascending by key.
    Alphabetic,
    /// Important keys first (see `key_weight`), then ascending by key.
    Smart,
}

impl Default for SortStrategy {
    fn default() -> (r: Self)
        ensures
            r == SortStrategy::Alphabetic,
    {
        SortStrategy::Alphabetic
    }
}

/// Layout of the output.
#[derive(Debug, Clone, Copy, PartialEq, Eq, Structural)]
pub enum FormatMode {
    /// Entities on one line, the structure around them expanded.
    Smart,
    /// One line, no spaces.
    Compact,
    /// Every value on its own line, two spaces per level.
    Pretty,
}

impl Default for FormatMode {
    fn default() -> (r: Self)
        ensures
            r == FormatMode::Smart,
    {
        FormatMode::Smart
    }
}

/// Settings of the formatter.
#[derive(Debug, Clone)]
pub struct Config {
    pub mode: FormatMode,
    pub sort_strategy: SortStrategy,
    /// Spaces per nesting level in Smart mode.
    pub indent: usize,
    /// Longest one-line text of a value that is not an entity.
    pub inline_limit: usize,
    /// Longest one-line text of an entity.
    pub array_item_inline_limit: usize,
    /// Largest 90th-percentile length of an array item pattern that makes
    /// it an entity.
    pub entity_threshold: usize,
    /// Path patterns that are always entities.
    pub entities: Vec<String>,
}

impl Default for Config {
    fn default() -> (r: Self)
        ensures
            r.mode == FormatMode::Smart,
            r.sort_strategy == SortStrategy::Alphabetic,
            r.indent == 2,
            r.inline_limit == 80,
            r.array_item_inline_limit == 2048,
            r.entity_threshold == 2000,
            r.entities@.len() == 0,
    {
        Config {
            mode: FormatMode::Smart,
            sort_strategy: SortStrategy::Alphabetic,
            indent: 2,
            inline_limit: 80,
            array_item_inline_limit: 2048,
            entity_threshold: 2000,
            entities: Vec::new(),
        }
    }
}

/// Sort keys of the members of an object under a strategy.
pub open spec fn member_sort_keys(o: Seq<(Seq<char>, Json)>, strat: SortStrategy) -> Seq<(int, Seq<char>)> {
    Seq::new(
        o.len(),
        |i: int| (if strat == SortStrategy::Smart { weight(o[i].0) } else { 0int }, o[i].0),
    )
}

/// The order in which the members of an object are written.
pub open spec fn member_order(o: Seq<(Seq<char>, Json)>, strat: SortStrategy) -> Seq<int> {
    sort_order(member_sort_keys(o, strat), o.len())
}

/// The members in the order of `ord`.
pub open spec fn reordered(o: Seq<(Seq<char>, Json)>, ord: Seq<int>) -> Seq<(Seq<char>, Json)> {
    Seq::new(ord.len(), |p: int| o[ord[p]])
}

/// The value with the keys of every object in it sorted.
pub open spec fn deep_sorted(v: Json, strat: SortStrategy) -> Json
    decreases v, 0nat,
{
    match v {
        Json::Array(a) => Json::Array(sorted_items(a, strat)),
        Json::Object(o) => Json::Object(sorted_members(o, member_order(o, strat), strat)),
        _ => v,
    }
}

pub open spec fn sorted_items(a: Seq<Json>, strat: SortStrategy) -> Seq<Json>
    decreases a, 0nat,
{
    if a.len() == 0 {
        Seq::empty()
    } else {
        sorted_items(a.drop_last(), strat).push(deep_sorted(a.last(), strat))
    }
}

pub open spec fn sorted_members(o: Seq<(Seq<char>, Json)>, ord: Seq<int>, strat: SortStrategy) -> Seq<
    (Seq<char>, Json),
>
    decreases o, ord.len(),
{
    if ord.len() == 0 {
        Seq::empty()
    } else {
        let k = ord.last();
        let prev = sorted_members(o, ord.drop_last(), strat);
        if 0 <= k < o.len() {
            prev.push((o[k].0, deep_sorted(o[k].1, strat)))
        } else {
            prev
        }
    }
}

/// The figures gathered so far after visiting a value with tally `t` at
/// nesting depth `d`, starting from `m`.
pub open spec fn visited(m: Metadata, d: nat, t: Tally) -> Metadata {
    Metadata {
        byte_size: m.byte_size,
        depth: nat_max(m.depth as nat, d + t.depth) as usize,
        array_count: (m.array_count + t.arrays) as usize,
        max_array_len: nat_max(m.max_array_len as nat, t.max_array_len) as usize,
        object_count: (m.object_count + t.objects) as usize,
        total_keys: (m.total_keys + t.keys) as usize,
    }
}

/// The counts of `m` leave room for those of a tally `t` at depth `d`.
pub open spec fn room_for(m: Metadata, d: nat, t: Tally) -> bool {
    &&& d + t.depth <= usize::MAX
    &&& m.array_count + t.arrays <= usize::MAX
    &&& m.object_count + t.objects <= usize::MAX
    &&& m.total_keys + t.keys <= usize::MAX
    &&& t.max_array_len <= usize::MAX
}

/// `path` is one of the configured entity patterns.
pub open spec fn is_entity_path(cfg: Config, path: Seq<char>) -> bool {
    exists|i: int| 0 <= i < cfg.entities@.len() && (#[trigger] cfg.entities@[i])@ == path
}

/// `path` is an array item pattern whose 90th-percentile length is at most
/// the entity threshold.
pub open spec fn is_auto_entity(cfg: Config, stats: Option<Map<Seq<char>, NodeView>>, path: Seq<char>) -> bool {
    match stats {
        Some(m) => ends_with(path, "[*]"@) && p90_at(m, path) > 0 && p90_at(m, path) <= cfg.entity_threshold,
        None => false,
    }
}

/// The longest one-line text allowed at `path`: the entity limit at a
/// configured or detected entity path, the inline limit elsewhere.
pub open spec fn line_limit(cfg: Config, stats: Option<Map<Seq<char>, NodeView>>, path: Seq<char>) -> usize {
    if is_entity_path(cfg, path) || is_auto_entity(cfg, stats, path) {
        cfg.array_item_inline_limit
    } else {
        cfg.inline_limit
    }
}

/// Smart layout of `v` at nesting `depth` and path pattern `path`: its
/// compact text where that fits the line limit, else arrays and objects
/// with one entry per line, indented `depth` steps of `cfg.indent` spaces.
pub open spec fn smart(cfg: Config, stats: Option<Map<Seq<char>, NodeView>>, v: Json, depth: nat, path: Seq<char>) -> Seq<char>
    decreases v, 0nat,
{
    let c = compact(v);
    if byte_len(c) <= line_limit(cfg, stats, path) {
        c
    } else {
        match v {
            Json::Array(a) => if a.len() == 0 {
                "[]"@
            } else {
                "[\n"@ + smart_items(cfg, stats, a, depth, path + "[*]"@) + "\n"@ + spaces((depth * cfg.indent) as nat) + "]"@
            },
            Json::Object(o) => if o.len() == 0 {
                "{}"@
            } else {
                "{\n"@ + smart_members(cfg, stats, o, depth, path, o.len() >= 2 && same_base(o)) + "\n"@
                    + spaces((depth * cfg.indent) as nat) + "}"@
            },
            _ => c,
        }
    }
}

pub open spec fn smart_items(cfg: Config, stats: Option<Map<Seq<char>, NodeView>>, a: Seq<Json>, depth: nat, path: Seq<char>) -> Seq<char>
    decreases a, 0nat,
{
    if a.len() == 0 {
        Seq::empty()
    } else {
        let line = spaces(((depth + 1) * cfg.indent) as nat) + smart(cfg, stats, a.last(), depth + 1, path);
        if a.len() == 1 {
            line
        } else {
            smart_items(cfg, stats, a.drop_last(), depth, path) + ",\n"@ + line
        }
    }
}

pub open spec fn smart_members(
    cfg: Config,
    stats: Option<Map<Seq<char>, NodeView>>,
    o: Seq<(Seq<char>, Json)>,
    depth: nat,
    path: Seq<char>,
    is_map: bool,
) -> Seq<char>
    decreases o, 0nat,
{
    if o.len() == 0 {
        Seq::empty()
    } else {
        let k = o.last().0;
        let line = spaces(((depth + 1) * cfg.indent) as nat) + quoted(k) + ": "@ + smart(
            cfg,
            stats,
            o.last().1,
            depth + 1,
            pattern_path(path, k, is_map),
        );
        if o.len() == 1 {
            line
        } else {
            smart_members(cfg, stats, o.drop_last(), depth, path, is_map) + ",\n"@ + line
        }
    }
}

/// The smart layout of `v` needs no indentation width beyond `usize`.
pub open spec fn smart_fits(cfg: Config, stats: Option<Map<Seq<char>, NodeView>>, v: Json, depth: nat, path: Seq<char>) -> bool
    decreases v, 0nat,
{
    if byte_len(compact(v)) <= line_limit(cfg, stats, path) {
        true
    } else {
        match v {
            Json::Array(a) => a.len() == 0 || (depth * cfg.indent <= usize::MAX && depth + 1 <= usize::MAX
                && (depth + 1) * cfg.indent <= usize::MAX && items_fit(cfg, stats, a, depth, path + "[*]"@)),
            Json::Object(o) => o.len() == 0 || (depth * cfg.indent <= usize::MAX && depth + 1 <= usize::MAX
                && (depth + 1) * cfg.indent <= usize::MAX && members_fit(cfg, stats, o, depth, path, o.len() >= 2 && same_base(o))),
            _ => true,
        }
    }
}

pub open spec fn items_fit(cfg: Config, stats: Option<Map<Seq<char>, NodeView>>, a: Seq<Json>, depth: nat, path: Seq<char>) -> bool
    decreases a, 0nat,
{
    if a.len() == 0 {
        true
    } else {
        items_fit(cfg, stats, a.drop_last(), depth, path) && smart_fits(cfg, stats, a.last(), depth + 1, path)
    }
}

pub open spec fn members_fit(
    cfg: Config,
    stats: Option<Map<Seq<char>, NodeView>>,
    o: Seq<(Seq<char>, Json)>,
    depth: nat,
    path: Seq<char>,
    is_map: bool,
) -> bool
    decreases o, 0nat,
{
    if o.len() == 0 {
        true
    } else {
        members_fit(cfg, stats, o.drop_last(), depth, path, is_map) && smart_fits(
            cfg,
            stats,
            o.last().1,
            depth + 1,
            pattern_path(path, o.last().0, is_map),
        )
    }
}

proof fn lemma_items_fit_prefix(
    cfg: Config,
    stats: Option<Map<Seq<char>, NodeView>>,
    a: Seq<Json>,
    depth: nat,
    path: Seq<char>,
    i: int,
)
    requires
        0 <= i <= a.len(),
        !items_fit(cfg, stats, a.take(i), depth, path),
    ensures
        !items_fit(cfg, stats, a, depth, path),
    decreases a.len(),
{
    if i < a.len() {
        assert(a.drop_last().take(i) =~= a.take(i));
        lemma_items_fit_prefix(cfg, stats, a.drop_last(), depth, path, i);
    } else {
        assert(a.take(i) =~= a);
    }
}

proof fn lemma_members_fit_prefix(
    cfg: Config,
    stats: Option<Map<Seq<char>, NodeView>>,
    o: Seq<(Seq<char>, Json)>,
    depth: nat,
    path: Seq<char>,
    is_map: bool,
    i: int,
)
    requires
        0 <= i <= o.len(),
        !members_fit(cfg, stats, o.take(i), depth, path, is_map),
    ensures
        !members_fit(cfg, stats, o, depth, path, is_map),
    decreases o.len(),
{
    if i < o.len() {
        assert(o.drop_last().take(i) =~= o.take(i));
        lemma_members_fit_prefix(cfg, stats, o.drop_last(), depth, path, is_map, i);
    } else {
        assert(o.take(i) =~= o);
    }
}

proof fn lemma_deep_sorted_depth(v: Json, strat: SortStrategy)
    ensures
        tally(deep_sorted(v, strat)).depth <= tally(v).depth,
    decreases v, 0nat,
{
    match v {
        Json::Array(a) => {
            lemma_sorted_items_depth(a, strat);
        },
        Json::Object(o) => {
            let ord = member_order(o, strat);
            lemma_sort_order_range(member_sort_keys(o, strat), o.len());
            if o.len() > 0 {
                assert forall|k: int| 0 <= k < o.len() implies tally((#[trigger] o[k]).1).depth <= tally_members(o).depth by {
                    crate::value::lemma_tally_members_depth(o, k);
                }
                lemma_sorted_members_depth(o, ord, strat, tally_members(o).depth);
            } else {
                assert(ord.len() == 0);
            }
        },
        _ => {},
    }
}

proof fn lemma_sorted_items_depth(a: Seq<Json>, strat: SortStrategy)
    ensures
        sorted_items(a, strat).len() == a.len(),
        tally_items(sorted_items(a, strat)).depth <= tally_items(a).depth,
    decreases a, 0nat,
{
    if a.len() > 0 {
        lemma_sorted_items_depth(a.drop_last(), strat);
        lemma_deep_sorted_depth(a.last(), strat);
        assert(sorted_items(a, strat).drop_last() =~= sorted_items(a.drop_last(), strat));
    }
}

proof fn lemma_sorted_members_depth(o: Seq<(Seq<char>, Json)>, ord: Seq<int>, strat: SortStrategy, b: nat)
    requires
        forall|k: int| 0 <= k < o.len() ==> tally((#[trigger] o[k]).1).depth <= b,
    ensures
        tally_members(sorted_members(o, ord, strat)).depth <= b,
        sorted_members(o, ord, strat).len() <= ord.len(),
    decreases o, ord.len(),
{
    if ord.len() > 0 {
        lemma_sorted_members_depth(o, ord.drop_last(), strat, b);
        let k = ord.last();
        if 0 <= k < o.len() {
            lemma_deep_sorted_depth(o[k].1, strat);
            let prev = sorted_members(o, ord.drop_last(), strat);
            let x = (o[k].0, deep_sorted(o[k].1, strat));
            assert(prev.push(x).drop_last() =~= prev);
        }
    }
}

/// The members in ascending order of path, each with its sample
/// previews: the path patterns of `m` that contain `[*]` and whose first
/// value was an object.
pub open spec fn sample_listing(m: Map<Seq<char>, NodeView>, list: Seq<(Seq<char>, Seq<Seq<char>>)>) -> bool {
    &&& forall|p: int, q: int| 0 <= p < q < list.len() ==> crate::text::lex_lt(list[p].0, list[q].0)
    &&& forall|p: int|
        0 <= p < list.len() ==> {
            let k = (#[trigger] list[p]).0;
            &&& m.contains_key(k)
            &&& crate::text::has_substr(k, "[*]"@)
            &&& m[k].2
            &&& list[p].1 == m[k].1
        }
    &&& forall|k: Seq<char>|
        m.contains_key(k) && crate::text::has_substr(k, "[*]"@) && m[k].2 ==> exists|p: int|
            0 <= p < list.len() && #[trigger] list[p].0 == k
}

pub open spec fn sample_lines(ss: Seq<Seq<char>>) -> Seq<char>
    decreases ss.len(),
{
    if ss.len() == 0 {
        Seq::empty()
    } else {
        sample_lines(ss.drop_last()) + "  - "@ + ss.last() + "\n"@
    }
}

pub open spec fn sample_blocks(list: Seq<(Seq<char>, Seq<Seq<char>>)>) -> Seq<char>
    decreases list.len(),
{
    if list.len() == 0 {
        Seq::empty()
    } else {
        sample_blocks(list.drop_last()) + "Path: "@ + list.last().0 + "\n"@ + "Samples:\n"@ + sample_lines(
            list.last().1,
        ) + "\n"@
    }
}

/// The prompt that asks a language model to name the entity paths.
pub open spec fn prompt_text(schema_text: Seq<char>, list: Seq<(Seq<char>, Seq<Seq<char>>)>) -> Seq<char> {
    "Analyze the JSON schema below and identify 'Business Entities' - array items that represent meaningful data records (e.g., user, order, product) suitable for single-line display.\n\n"@
        + "Schema:\n"@ + schema_text + "\n\n"@ + "Array paths and samples:\n\n"@ + sample_blocks(list)
        + "Output ONLY a JSON array of entity paths. No explanation, no markdown, no code blocks.\n"@
        + "Example output: [\"users[*]\",\"orders[*]\"]\n"@ + "If no entities found, output: []\n"@
}

/// What formatting the document `v` under `cfg` gives, and the statistics
/// it leaves (`after`, from `before`): the compact or indented text of the
/// sorted value, or in Smart mode the smart layout with the statistics of the
/// sorted value; an error where a preview would split a character or an
/// indentation width would not fit in `usize`.
pub open spec fn format_outcome(
    cfg: Config,
    before: Option<Map<Seq<char>, NodeView>>,
    after: Option<Map<Seq<char>, NodeView>>,
    v: Json,
    r: Result<String>,
) -> bool {
    let s = deep_sorted(v, cfg.sort_strategy);
    match cfg.mode {
        FormatMode::Compact => r matches Ok(t) && t@ == compact(s) && after == before,
        FormatMode::Pretty => r matches Ok(t) && t@ == pretty(s, 0) && after == before,
        FormatMode::Smart => if !previews_fit(s) {
            r matches Err(FormatterError::CharBoundary) && after == before
        } else {
            &&& after == Some(stats_of(s))
            &&& if smart_fits(cfg, Some(stats_of(s)), s, 0, Seq::empty()) {
                r matches Ok(t) && t@ == smart(cfg, Some(stats_of(s)), s, 0, Seq::empty())
            } else {
                r matches Err(FormatterError::Overflow)
            }
        },
    }
}

/// The prompt for the document `v`: its schema and the listing of its
/// object patterns with their samples; an error where a preview would split
/// a character.
pub open spec fn prompt_outcome(v: Json, r: Result<String>) -> bool {
    if !previews_fit(v) {
        r matches Err(FormatterError::CharBoundary)
    } else {
        r matches Ok(t) && exists|list: Seq<(Seq<char>, Seq<Seq<char>>)>|
            sample_listing(stats_of(v), list) && t@ == prompt_text(schema(v, 0), list)
    }
}

fn child_path(path: &String, key: &String, is_map: bool) -> (r: String)
    ensures
        r@ == pattern_path(path@, key@, is_map),
{
    if is_map {
        let mut p = path.clone();
        push_str(&mut p, "[*]");
        p
    } else if path.as_str().is_empty() {
        key.clone()
    } else {
        let mut p = path.clone();
        push_str(&mut p, ".");
        push_str(&mut p, key.as_str());
        p
    }
}

/// Turns a document into a formatted text.
pub struct LlmJsonFormatter {
    config: Config,
    schema_stats: Option<crate::stats::SchemaStats>,
}

impl LlmJsonFormatter {
    /// The settings.
    pub closed spec fn settings(&self) -> Config {
        self.config
    }

    /// Statistics of the last document formatted in Smart mode.
    pub closed spec fn last_stats(&self) -> Option<Map<Seq<char>, crate::stats::NodeView>> {
        match self.schema_stats {
            Some(s) => Some(s@),
            None => None,
        }
    }

    pub fn new(config: Config) -> (r: Self)
        ensures
            r.settings() == config,
            r.last_stats() is None,
    {
        LlmJsonFormatter { config, schema_stats: None }
    }

    /// Structure figures of a value: compact length in bytes, greatest
    /// nesting depth, arrays, longest array, objects and object keys.
    pub fn analyze(&self, value: &JsonValue) -> (r: Metadata)
        requires
            tally(value@).nodes <= usize::MAX,
        ensures
            r.byte_size == byte_len(compact(value@)),
            r.depth == tally(value@).depth,
            r.array_count == tally(value@).arrays,
            r.max_array_len == tally(value@).max_array_len,
            r.object_count == tally(value@).objects,
            r.total_keys == tally(value@).keys,
    {
        let text = to_compact(value);
        let byte_size = text.as_str().len();
        let mut m = Metadata {
            byte_size,
            depth: 0,
            array_count: 0,
            max_array_len: 0,
            object_count: 0,
            total_keys: 0,
        };
        proof { lemma_tally_bounds(value@); }
        Self::collect_stats(value, 0, &mut m);
        m
    }

    fn collect_stats(value: &JsonValue, current_depth: usize, m: &mut Metadata)
        requires
            room_for(*old(m), current_depth as nat, tally(value@)),
        ensures
            *final(m) == visited(*old(m), current_depth as nat, tally(value@)),
        decreases value, 1nat,
    {
        if m.depth < current_depth {
            m.depth = current_depth;
        }
        match value {
            JsonValue::Object(obj) => {
                proof { lemma_json_members(obj@); lemma_tally_members_parts(json_members(obj@), 0); }
                m.object_count = m.object_count + 1;
                m.total_keys = m.total_keys + obj.len();
                Self::collect_members(obj, current_depth, m);
            },
            JsonValue::Array(arr) => {
                proof { lemma_json_items(arr@); lemma_tally_items_parts(json_items(arr@), 0); }
                m.array_count = m.array_count + 1;
                if m.max_array_len < arr.len() {
                    m.max_array_len = arr.len();
                }
                Self::collect_items(arr, current_depth, m);
            },
            _ => {},
        }
    }

    fn collect_members(obj: &Vec<(String, JsonValue)>, d: usize, m: &mut Metadata)
        requires
            obj@.len() > 0 ==> d + 1 + tally_members(json_members(obj@)).depth <= usize::MAX,
            old(m).array_count + tally_members(json_members(obj@)).arrays <= usize::MAX,
            old(m).object_count + tally_members(json_members(obj@)).objects <= usize::MAX,
            old(m).total_keys + tally_members(json_members(obj@)).keys <= usize::MAX,
            tally_members(json_members(obj@)).max_array_len <= usize::MAX,
        ensures
            ({
                let c = tally_members(json_members(obj@));
                &&& final(m).byte_size == old(m).byte_size
                &&& final(m).depth == if obj@.len() == 0 { old(m).depth as nat } else { nat_max(old(m).depth as nat, (d + 1 + c.depth) as nat) }
                &&& final(m).array_count == old(m).array_count + c.arrays
                &&& final(m).max_array_len == nat_max(old(m).max_array_len as nat, c.max_array_len)
                &&& final(m).object_count == old(m).object_count + c.objects
                &&& final(m).total_keys == old(m).total_keys + c.keys
            }),
        decreases obj@, 0nat,
    {
        let ghost js = json_members(obj@);
        let ghost start = *m;
        proof { lemma_json_members(obj@); }
        let mut i: usize = 0;
        while i < obj.len()
            invariant
                i <= obj.len(),
                js == json_members(obj@),
                js.len() == obj.len(),
                forall|k: int| 0 <= k < obj.len() ==> #[trigger] js[k] == (obj@[k].0@, obj@[k].1@),
                obj.len() > 0 ==> d + 1 + tally_members(js).depth <= usize::MAX,
                start.array_count + tally_members(js).arrays <= usize::MAX,
                start.object_count + tally_members(js).objects <= usize::MAX,
                start.total_keys + tally_members(js).keys <= usize::MAX,
                tally_members(js).max_array_len <= usize::MAX,
                m.byte_size == start.byte_size,
                m.depth == if i == 0 { start.depth as nat } else { nat_max(start.depth as nat, (d + 1 + tally_members(js.take(i as int)).depth) as nat) },
                m.array_count == start.array_count + tally_members(js.take(i as int)).arrays,
                m.max_array_len == nat_max(start.max_array_len as nat, tally_members(js.take(i as int)).max_array_len),
                m.object_count == start.object_count + tally_members(js.take(i as int)).objects,
                m.total_keys == start.total_keys + tally_members(js.take(i as int)).keys,
            decreases obj.len() - i,
        {
            assert(decreases_to!(obj@ => obj@[i as int].1));
            assert(js.take(i + 1).drop_last() =~= js.take(i as int));
            assert(js.take(i + 1).last() == js[i as int]);
            proof {
                lemma_tally_members_parts(js, i + 1);
                if i == 0 {
                    assert(js.take(0) =~= Seq::<(Seq<char>, Json)>::empty());
                }
            }
            Self::collect_stats(&obj[i].1, d + 1, m);
            i = i + 1;
        }
        assert(js.take(obj.len() as int) =~= js);
    }

    fn collect_items(arr: &Vec<JsonValue>, d: usize, m: &mut Metadata)
        requires
            arr@.len() > 0 ==> d + 1 + tally_items(json_items(arr@)).depth <= usize::MAX,
            old(m).array_count + tally_items(json_items(arr@)).arrays <= usize::MAX,
            old(m).object_count + tally_items(json_items(arr@)).objects <= usize::MAX,
            old(m).total_keys + tally_items(json_items(arr@)).keys <= usize::MAX,
            tally_items(json_items(arr@)).max_array_len <= usize::MAX,
        ensures
            ({
                let c = tally_items(json_items(arr@));
                &&& final(m).byte_size == old(m).byte_size
                &&& final(m).depth == if arr@.len() == 0 { old(m).depth as nat } else { nat_max(old(m).depth as nat, (d + 1 + c.depth) as nat) }
                &&& final(m).array_count == old(m).array_count + c.arrays
                &&& final(m).max_array_len == nat_max(old(m).max_array_len as nat, c.max_array_len)
                &&& final(m).object_count == old(m).object_count + c.objects
                &&& final(m).total_keys == old(m).total_keys + c.keys
            }),
        decreases arr@, 0nat,
    {
        let ghost js = json_items(arr@);
        let ghost start = *m;
        proof { lemma_json_items(arr@); }
        let mut i: usize = 0;
        while i < arr.len()
            invariant
                i <= arr.len(),
                js == json_items(arr@),
                js.len() == arr.len(),
                forall|k: int| 0 <= k < arr.len() ==> #[trigger] js[k] == arr@[k]@,
                arr.len() > 0 ==> d + 1 + tally_items(js).depth <= usize::MAX,
                start.array_count + tally_items(js).arrays <= usize::MAX,
                start.object_count + tally_items(js).objects <= usize::MAX,
                start.total_keys + tally_items(js).keys <= usize::MAX,
                tally_items(js).max_array_len <= usize::MAX,
                m.byte_size == start.byte_size,
                m.depth == if i == 0 { start.depth as nat } else { nat_max(start.depth as nat, (d + 1 + tally_items(js.take(i as int)).depth) as nat) },
                m.array_count == start.array_count + tally_items(js.take(i as int)).arrays,
                m.max_array_len == nat_max(start.max_array_len as nat, tally_items(js.take(i as int)).max_array_len),
                m.object_count == start.object_count + tally_items(js.take(i as int)).objects,
                m.total_keys == start.total_keys + tally_items(js.take(i as int)).keys,
            decreases arr.len() - i,
        {
            assert(decreases_to!(arr@ => arr@[i as int]));
            assert(js.take(i + 1).drop_last() =~= js.take(i as int));
            assert(js.take(i + 1).last() == js[i as int]);
            proof {
                lemma_tally_items_parts(js, i + 1);
                if i == 0 {
                    assert(js.take(0) =~= Seq::<Json>::empty());
                }
            }
            Self::collect_stats(&arr[i], d + 1, m);
            i = i + 1;
        }
        assert(js.take(arr.len() as int) =~= js);
    }

    /// `depth` steps of indentation.
    fn indent(&self, depth: usize) -> (r: String)
        requires
            depth * self.config.indent <= usize::MAX,
        ensures
            r@ == spaces((depth * self.config.indent) as nat),
    {
        let mut r = String::new();
        push_spaces(&mut r, depth * self.config.indent);
        r
    }

    fn is_forced_entity(&self, path: &String) -> (r: bool)
        ensures
            r == is_entity_path(self.config, path@),
    {
        let mut i: usize = 0;
        while i < self.config.entities.len()
            invariant
                i <= self.config.entities@.len(),
                forall|q: int| 0 <= q < i ==> (#[trigger] self.config.entities@[q])@ != path@,
            decreases self.config.entities.len() - i,
        {
            if str_eq(self.config.entities[i].as_str(), path.as_str()) {
                return true;
            }
            i = i + 1;
        }
        false
    }

    fn limit_for(&self, path: &String) -> (r: usize)
        ensures
            r == line_limit(self.config, self.last_stats(), path@),
    {
        let forced = self.is_forced_entity(path);
        let auto = match &self.schema_stats {
            Some(stats) => {
                let p90 = stats.get_p90_length(path.as_str());
                let pc = chars_of(path.as_str());
                let star = chars_of("[*]");
                ends_with_exec(&pc, &star) && p90 > 0 && p90 <= self.config.entity_threshold
            },
            None => false,
        };
        if forced || auto {
            self.config.array_item_inline_limit
        } else {
            self.config.inline_limit
        }
    }

    fn smart_array(&self, arr: &Vec<JsonValue>, depth: usize, path: &String) -> (r: Option<String>)
        requires
            arr@.len() > 0,
        ensures
            ({
                let cfg = self.config;
                let st = self.last_stats();
                let a = json_items(arr@);
                let ok = depth * cfg.indent <= usize::MAX && depth + 1 <= usize::MAX && (depth + 1) * cfg.indent
                    <= usize::MAX && items_fit(cfg, st, a, depth as nat, path@ + "[*]"@);
                match r {
                    Some(s) => ok && s@ == "[\n"@ + smart_items(cfg, st, a, depth as nat, path@ + "[*]"@) + "\n"@
                        + spaces((depth * cfg.indent) as nat) + "]"@,
                    None => !ok,
                }
            }),
        decreases arr@, 1nat,
    {
        let ghost cfg = self.config;
        let ghost st = self.last_stats();
        let ghost js = json_items(arr@);
        proof { lemma_json_items(arr@); }
        if depth.checked_mul(self.config.indent).is_none() || depth == usize::MAX {
            return None;
        }
        let d1 = depth + 1;
        if d1.checked_mul(self.config.indent).is_none() {
            return None;
        }
        let mut item_path = path.clone();
        push_str(&mut item_path, "[*]");
        let mut s = "[\n".to_owned();
        let ghost start = s@;
        let mut i: usize = 0;
        while i < arr.len()
            invariant
                i <= arr.len(),
                js == json_items(arr@),
                js.len() == arr.len(),
                forall|k: int| 0 <= k < arr.len() ==> #[trigger] js[k] == arr@[k]@,
                d1 == depth + 1,
                d1 * self.config.indent <= usize::MAX,
                cfg == self.config,
                st == self.last_stats(),
                item_path@ == path@ + "[*]"@,
                items_fit(cfg, st, js.take(i as int), depth as nat, item_path@),
                s@ == start + smart_items(cfg, st, js.take(i as int), depth as nat, item_path@),
            decreases arr.len() - i,
        {
            assert(js.take(i + 1).drop_last() =~= js.take(i as int));
            assert(js.take(i + 1).last() == js[i as int]);
            if i > 0 {
                push_str(&mut s, ",\n");
            }
            let ind = self.indent(d1);
            push_str(&mut s, ind.as_str());
            assert(decreases_to!(arr@ => arr@[i as int]));
            match self.format_smart(&arr[i], d1, item_path.clone()) {
                Some(x) => {
                    push_str(&mut s, x.as_str());
                },
                None => {
                    proof { lemma_items_fit_prefix(cfg, st, js, depth as nat, item_path@, i + 1); }
                    return None;
                },
            }
            if i == 0 {
                assert(js.take(1).len() == 1);
            }
            i = i + 1;
        }
        assert(js.take(arr.len() as int) =~= js);
        push_str(&mut s, "\n");
        let ind = self.indent(depth);
        push_str(&mut s, ind.as_str());
        push_str(&mut s, "]");
        Some(s)
    }

    fn smart_object(&self, obj: &Vec<(String, JsonValue)>, depth: usize, path: &String) -> (r: Option<String>)
        requires
            obj@.len() > 0,
        ensures
            ({
                let cfg = self.config;
                let st = self.last_stats();
                let o = json_members(obj@);
                let is_map = o.len() >= 2 && same_base(o);
                let ok = depth * cfg.indent <= usize::MAX && depth + 1 <= usize::MAX && (depth + 1) * cfg.indent
                    <= usize::MAX && members_fit(cfg, st, o, depth as nat, path@, is_map);
                match r {
                    Some(s) => ok && s@ == "{\n"@ + smart_members(cfg, st, o, depth as nat, path@, is_map) + "\n"@
                        + spaces((depth * cfg.indent) as nat) + "}"@,
                    None => !ok,
                }
            }),
        decreases obj@, 1nat,
    {
        let ghost cfg = self.config;
        let ghost st = self.last_stats();
        let ghost js = json_members(obj@);
        proof { lemma_json_members(obj@); }
        if depth.checked_mul(self.config.indent).is_none() || depth == usize::MAX {
            return None;
        }
        let d1 = depth + 1;
        if d1.checked_mul(self.config.indent).is_none() {
            return None;
        }
        let is_map = obj.len() >= 2 && same_base_exec(obj);
        let mut s = "{\n".to_owned();
        let ghost start = s@;
        let mut i: usize = 0;
        while i < obj.len()
            invariant
                i <= obj.len(),
                js == json_members(obj@),
                js.len() == obj.len(),
                forall|k: int| 0 <= k < obj.len() ==> #[trigger] js[k] == (obj@[k].0@, obj@[k].1@),
                is_map == (js.len() >= 2 && same_base(js)),
                d1 == depth + 1,
                d1 * self.config.indent <= usize::MAX,
                cfg == self.config,
                st == self.last_stats(),
                members_fit(cfg, st, js.take(i as int), depth as nat, path@, is_map),
                s@ == start + smart_members(cfg, st, js.take(i as int), depth as nat, path@, is_map),
            decreases obj.len() - i,
        {
            assert(js.take(i + 1).drop_last() =~= js.take(i as int));
            assert(js.take(i + 1).last() == js[i as int]);
            let new_path = child_path(path, &obj[i].0, is_map);
            if i > 0 {
                push_str(&mut s, ",\n");
            }
            assert(decreases_to!(obj@ => obj@[i as int].1));
            match self.member_line(&obj[i].0, &obj[i].1, d1, new_path) {
                Some(x) => {
                    push_str(&mut s, x.as_str());
                },
                None => {
                    proof { lemma_members_fit_prefix(cfg, st, js, depth as nat, path@, is_map, i + 1); }
                    return None;
                },
            }
            i = i + 1;
        }
        assert(js.take(obj.len() as int) =~= js);
        push_str(&mut s, "\n");
        let ind = self.indent(depth);
        push_str(&mut s, ind.as_str());
        push_str(&mut s, "}");
        Some(s)
    }

    fn member_line(&self, key: &String, value: &JsonValue, d1: usize, new_path: String) -> (r: Option<String>)
        requires
            d1 * self.config.indent <= usize::MAX,
        ensures
            match r {
                Some(x) => smart_fits(self.config, self.last_stats(), value@, d1 as nat, new_path@) && x@ == spaces(
                    (d1 * self.config.indent) as nat,
                ) + quoted(key@) + ": "@ + smart(self.config, self.last_stats(), value@, d1 as nat, new_path@),
                None => !smart_fits(self.config, self.last_stats(), value@, d1 as nat, new_path@),
            },
        decreases value, 3nat,
    {
        let mut s = self.indent(d1);
        push_char(&mut s, '"');
        push_escaped(key.as_str(), &mut s);
        push_char(&mut s, '"');
        push_str(&mut s, ": ");
        match self.format_smart(value, d1, new_path) {
            Some(x) => {
                push_str(&mut s, x.as_str());
                Some(s)
            },
            None => None,
        }
    }

    /// The smart layout of a value at nesting `depth` and path pattern
    /// `path`, or `None` where an indentation width would not fit in a
    /// `usize`.
    fn format_smart(&self, value: &JsonValue, depth: usize, path: String) -> (r: Option<String>)
        ensures
            match r {
                Some(s) => smart_fits(self.config, self.last_stats(), value@, depth as nat, path@) && s@ == smart(
                    self.config,
                    self.last_stats(),
                    value@,
                    depth as nat,
                    path@,
                ),
                None => !smart_fits(self.config, self.last_stats(), value@, depth as nat, path@),
            },
        decreases value, 2nat,
    {
        let limit = self.limit_for(&path);
        let compact = to_compact(value);
        if compact.as_str().len() <= limit {
            return Some(compact);
        }
        match value {
            JsonValue::Array(arr) => {
                proof { lemma_json_items(arr@); }
                if arr.len() == 0 {
                    return Some("[]".to_owned());
                }
                self.smart_array(arr, depth, &path)
            },
            JsonValue::Object(obj) => {
                proof { lemma_json_members(obj@); }
                if obj.len() == 0 {
                    return Some("{}".to_owned());
                }
                self.smart_object(obj, depth, &path)
            },
            _ => Some(compact),
        }
    }

    /// Formats a JSON text: keys sorted by the sort strategy, then laid out
    /// by the mode.
    pub fn format(&mut self, json: &str) -> (r: Result<String>)
        ensures
            final(self).settings() == old(self).settings(),
            match parsed(json@) {
                None => r matches Err(FormatterError::ParseError(_)) && final(self).last_stats() == old(self).last_stats(),
                Some(v) => format_outcome(old(self).settings(), old(self).last_stats(), final(self).last_stats(), v, r),
            },
    {
        let value = match read_json(json) {
            Ok(v) => v,
            Err(e) => {
                return Err(FormatterError::ParseError(e));
            },
        };
        self.format_value(&value)
    }

    /// Formats a parsed document: keys sorted by the sort strategy, then
    /// laid out by the mode.
    pub fn format_value(&mut self, value: &JsonValue) -> (r: Result<String>)
        requires
            tally(value@).depth <= usize::MAX,
        ensures
            final(self).settings() == old(self).settings(),
            format_outcome(old(self).settings(), old(self).last_stats(), final(self).last_stats(), value@, r),
    {
        let sorted_value = self.deep_sort_keys(value);
        match self.config.mode {
            FormatMode::Compact => Ok(to_compact(&sorted_value)),
            FormatMode::Pretty => {
                proof { lemma_deep_sorted_depth(value@, self.config.sort_strategy); }
                let mut out = String::new();
                write_pretty(&sorted_value, 0, &mut out);
                assert(out@ =~= pretty(sorted_value@, 0));
                Ok(out)
            },
            FormatMode::Smart => {
                match SchemaStats::try_analyze(&sorted_value) {
                    Some(st) => {
                        self.schema_stats = Some(st);
                    },
                    None => {
                        return Err(FormatterError::CharBoundary);
                    },
                }
                match self.format_smart(&sorted_value, 0, String::new()) {
                    Some(t) => Ok(t),
                    None => Err(FormatterError::Overflow),
                }
            },
        }
    }

    /// A prompt asking a language model to name the entity paths of a JSON
    /// text, with its schema and sample previews of its object patterns.
    pub fn generate_prompt(&mut self, json: &str) -> (r: Result<String>)
        ensures
            final(self).settings() == old(self).settings(),
            final(self).last_stats() == old(self).last_stats(),
            match parsed(json@) {
                None => r matches Err(FormatterError::ParseError(_)),
                Some(v) => prompt_outcome(v, r),
            },
    {
        let value = match read_json(json) {
            Ok(v) => v,
            Err(e) => {
                return Err(FormatterError::ParseError(e));
            },
        };
        self.prompt_for_value(&value)
    }

    /// The prompt for a parsed document: its schema and the sample previews
    /// of its object patterns.
    pub fn prompt_for_value(&self, value: &JsonValue) -> (r: Result<String>)
        requires
            2 * (tally(value@).depth + 1) <= usize::MAX,
        ensures
            prompt_outcome(value@, r),
    {
        let stats = match SchemaStats::try_analyze(&value) {
            Some(st) => st,
            None => {
                return Err(FormatterError::CharBoundary);
            },
        };
        let samples = stats.get_samples();
        let ghost list = Seq::new(samples@.len(), |p: int| (samples@[p].0@, crate::sort::strings_view(samples@[p].1@)));
        proof {
            let m = stats_of(value@);
            assert forall|p: int, q: int| 0 <= p < q < list.len() implies crate::text::lex_lt(list[p].0, list[q].0) by {
                assert(list[p].0 == samples@[p].0@);
                assert(list[q].0 == samples@[q].0@);
            }
            assert forall|p: int| 0 <= p < list.len() implies {
                let k = (#[trigger] list[p]).0;
                &&& m.contains_key(k)
                &&& crate::text::has_substr(k, "[*]"@)
                &&& m[k].2
                &&& list[p].1 == m[k].1
            } by {
                assert(list[p].0 == samples@[p].0@);
            }
            assert forall|k: Seq<char>|
                m.contains_key(k) && crate::text::has_substr(k, "[*]"@) && m[k].2 implies exists|p: int|
                    0 <= p < list.len() && #[trigger] list[p].0 == k by {
                let p = choose|p: int| 0 <= p < samples@.len() && #[trigger] samples@[p].0@ == k;
                assert(list[p].0 == k);
            }
            assert(sample_listing(m, list));
        }
        let mut prompt = String::new();
        push_str(&mut prompt, "Analyze the JSON schema below and identify 'Business Entities' - array items that represent meaningful data records (e.g., user, order, product) suitable for single-line display.\n\n");
        push_str(&mut prompt, "Schema:\n");
        let schema_text = generate_schema(&value, 0);
        push_str(&mut prompt, schema_text.as_str());
        push_str(&mut prompt, "\n\n");
        push_str(&mut prompt, "Array paths and samples:\n\n");
        let ghost head = prompt@;
        let mut p: usize = 0;
        while p < samples.len()
            invariant
                p <= samples@.len(),
                list == Seq::new(samples@.len(), |q: int| (samples@[q].0@, crate::sort::strings_view(samples@[q].1@))),
                prompt@ == head + sample_blocks(list.take(p as int)),
            decreases samples.len() - p,
        {
            push_str(&mut prompt, "Path: ");
            push_str(&mut prompt, samples[p].0.as_str());
            push_str(&mut prompt, "\n");
            push_str(&mut prompt, "Samples:\n");
            let ghost before_lines = prompt@;
            let ss = &samples[p].1;
            let ghost sv = crate::sort::strings_view(ss@);
            let mut t: usize = 0;
            while t < ss.len()
                invariant
                    t <= ss@.len(),
                    sv == crate::sort::strings_view(ss@),
                    prompt@ == before_lines + sample_lines(sv.take(t as int)),
                decreases ss.len() - t,
            {
                push_str(&mut prompt, "  - ");
                push_str(&mut prompt, ss[t].as_str());
                push_str(&mut prompt, "\n");
                assert(sv.take(t + 1).drop_last() =~= sv.take(t as int));
                assert(sv.take(t + 1).last() == ss@[t as int]@);
                assert(prompt@ =~= before_lines + sample_lines(sv.take(t + 1)));
                t = t + 1;
            }
            assert(sv.take(ss.len() as int) =~= sv);
            push_str(&mut prompt, "\n");
            assert(list.take(p + 1).drop_last() =~= list.take(p as int));
            assert(list.take(p + 1).last() == list[p as int]);
            assert(prompt@ =~= head + sample_blocks(list.take(p + 1)));
            p = p + 1;
        }
        assert(list.take(samples.len() as int) =~= list);
        push_str(&mut prompt, "Output ONLY a JSON array of entity paths. No explanation, no markdown, no code blocks.\n");
        push_str(&mut prompt, "Example output: [\"users[*]\",\"orders[*]\"]\n");
        push_str(&mut prompt, "If no entities found, output: []\n");
        assert(prompt@ =~= prompt_text(schema(value@, 0), list));
        assert(sample_listing(stats_of(value@), list) && prompt@ == prompt_text(schema(value@, 0), list));
        Ok(prompt)
    }

    /// Structure figures of a JSON text.
    pub fn get_metadata(&self, json: &str) -> (r: Result<Metadata>)
        ensures
            match parsed(json@) {
                None => r matches Err(FormatterError::ParseError(_)),
                Some(v) => if tally(v).nodes > usize::MAX {
                    r matches Err(FormatterError::Overflow)
                } else {
                    r matches Ok(m) && m.byte_size == byte_len(compact(v)) && m.depth == tally(v).depth
                        && m.array_count == tally(v).arrays && m.max_array_len == tally(v).max_array_len
                        && m.object_count == tally(v).objects && m.total_keys == tally(v).keys
                },
            },
    {
        let value = match read_json(json) {
            Ok(v) => v,
            Err(e) => {
                return Err(FormatterError::ParseError(e));
            },
        };
        match count_nodes(&value) {
            Some(_) => Ok(self.analyze(&value)),
            None => Err(FormatterError::Overflow),
        }
    }

    /// Importance of a key for the smart order.
    pub fn calculate_weight(key: &str) -> (r: i32)
        ensures
            r as int == weight(key@),
    {
        key_weight(key)
    }

    /// The members of an object, copied, in the order of the sort strategy.
    fn sort_keys(&self, obj: &Vec<(String, JsonValue)>) -> (r: Vec<(String, JsonValue)>)
        ensures
            json_members(r@) == reordered(
                json_members(obj@),
                member_order(json_members(obj@), self.config.sort_strategy),
            ),
    {
        let ghost js = json_members(obj@);
        proof { lemma_json_members(obj@); }
        let smart = match self.config.sort_strategy {
            SortStrategy::Smart => true,
            SortStrategy::Alphabetic => false,
        };
        let mut keys: Vec<(i32, Vec<char>)> = Vec::new();
        let mut i: usize = 0;
        while i < obj.len()
            invariant
                i <= obj.len(),
                js == json_members(obj@),
                js.len() == obj.len(),
                forall|k: int| 0 <= k < obj.len() ==> #[trigger] js[k] == (obj@[k].0@, obj@[k].1@),
                smart == (self.config.sort_strategy == SortStrategy::Smart),
                keys@.len() == i,
                forall|q: int|
                    0 <= q < i ==> (#[trigger] keys@[q]).1@ == js[q].0 && keys@[q].0 as int == member_sort_keys(
                        js,
                        self.config.sort_strategy,
                    )[q].0,
            decreases obj.len() - i,
        {
            let w: i32 = if smart {
                Self::calculate_weight(obj[i].0.as_str())
            } else {
                0
            };
            keys.push((w, chars_of(obj[i].0.as_str())));
            i = i + 1;
        }
        let order = sorted_order(&keys);
        let ghost kv = keys_view(keys@);
        proof {
            assert(kv =~= member_sort_keys(js, self.config.sort_strategy));
            lemma_sort_order_range(kv, js.len());
        }
        let ghost ord = member_order(js, self.config.sort_strategy);
        let mut r: Vec<(String, JsonValue)> = Vec::new();
        let mut p: usize = 0;
        while p < order.len()
            invariant
                p <= order@.len(),
                order@.len() == obj.len(),
                ord.len() == obj.len(),
                js == json_members(obj@),
                js.len() == obj.len(),
                forall|k: int| 0 <= k < obj.len() ==> #[trigger] js[k] == (obj@[k].0@, obj@[k].1@),
                forall|q: int| 0 <= q < order@.len() ==> #[trigger] order@[q] as int == ord[q],
                forall|q: int| 0 <= q < order@.len() ==> #[trigger] order@[q] < obj.len(),
                json_members(r@) == reordered(js, ord.take(p as int)),
            decreases order.len() - p,
        {
            let k = order[p];
            let key = obj[k].0.clone();
            let val = obj[k].1.deep_copy();
            let ghost old_r = r@;
            r.push((key, val));
            assert(r@.drop_last() =~= old_r);
            assert(reordered(js, ord.take(p + 1)) =~= reordered(js, ord.take(p as int)).push(js[k as int]));
            p = p + 1;
        }
        assert(ord.take(obj.len() as int) =~= ord);
        r
    }

    /// The value with the keys of every object in it in the order of the
    /// sort strategy.
    #[verifier::loop_isolation(false)]
    fn deep_sort_keys(&self, value: &JsonValue) -> (r: JsonValue)
        ensures
            r@ == deep_sorted(value@, self.config.sort_strategy),
        decreases tally(value@).nodes,
    {
        let strat = self.config.sort_strategy;
        match value {
            JsonValue::Object(obj) => {
                let sorted = self.sort_keys(obj);
                let ghost js = json_members(obj@);
                let ghost ord = member_order(js, strat);
                let ghost ss = json_members(sorted@);
                proof {
                    lemma_json_members(obj@);
                    lemma_json_members(sorted@);
                    lemma_sort_order_range(member_sort_keys(js, strat), js.len());
                }
                let mut r: Vec<(String, JsonValue)> = Vec::new();
                let mut i: usize = 0;
                while i < sorted.len()
                    invariant
                        i <= sorted.len(),
                        ss == json_members(sorted@),
                        ss.len() == sorted.len(),
                        ord.len() == sorted.len(),
                        forall|k: int| 0 <= k < sorted.len() ==> #[trigger] ss[k] == (sorted@[k].0@, sorted@[k].1@),
                        ss == reordered(js, ord),
                        forall|q: int| 0 <= q < ord.len() ==> 0 <= #[trigger] ord[q] < js.len(),
                        json_members(r@) == sorted_members(js, ord.take(i as int), strat),
                    decreases sorted.len() - i,
                {
                    let ghost k = ord[i as int];
                    assert(ss[i as int] == js[k]);
                    assert(obj@[k].1@ == sorted@[i as int].1@);
                    proof { lemma_tally_members_parts(js, k); }
                    let v = self.deep_sort_keys(&sorted[i].1);
                    let key = sorted[i].0.clone();
                    let ghost old_r = r@;
                    r.push((key, v));
                    assert(r@.drop_last() =~= old_r);
                    assert(ord.take(i + 1).drop_last() =~= ord.take(i as int));
                    assert(ord.take(i + 1).last() == k);
                    i = i + 1;
                }
                assert(ord.take(sorted.len() as int) =~= ord);
                JsonValue::Object(r)
            },
            JsonValue::Array(arr) => {
                let mut r: Vec<JsonValue> = Vec::new();
                let mut i: usize = 0;
                while i < arr.len()
                    invariant
                        i <= arr.len(),
                        json_items(r@) == sorted_items(json_items(arr@.take(i as int)), strat),
                    decreases arr.len() - i,
                {
                    proof {
                        lemma_json_items(arr@);
                        lemma_tally_items_parts(json_items(arr@), i as int);
                    }
                    let v = self.deep_sort_keys(&arr[i]);
                    let ghost old_r = r@;
                    r.push(v);
                    assert(r@.drop_last() =~= old_r);
                    assert(arr@.take(i + 1).drop_last() =~= arr@.take(i as int));
                    let ghost jt = json_items(arr@.take(i + 1));
                    assert(jt == json_items(arr@.take(i as int)).push(arr@[i as int]@));
                    assert(jt.drop_last() =~= json_items(arr@.take(i as int)));
                    i = i + 1;
                }
                assert(arr@.take(arr.len() as int) =~= arr@);
                JsonValue::Array(r)
            },
            _ => value.deep_copy(),
        }
    }
}

} // verus!
