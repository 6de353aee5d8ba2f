use vstd::prelude::*;

verus! {

/// `m` after inserting each pair of `s` in turn, a later pair replacing an
/// earlier one with the same key.
pub open spec fn fold_pairs<T>(m: Map<Seq<char>, T>, s: Seq<(Seq<char>, T)>) -> Map<Seq<char>, T>
    decreases s.len(),
{
    if s.len() == 0 {
        m
    } else {
        fold_pairs(m, s.drop_last()).insert(s.last().0, s.last().1)
    }
}

pub proof fn lemma_fold_pairs_append<T>(
    m: Map<Seq<char>, T>,
    s: Seq<(Seq<char>, T)>,
    t: Seq<(Seq<char>, T)>,
)
    ensures
        fold_pairs(m, s + t) == fold_pairs(fold_pairs(m, s), t),
    decreases t.len(),
{
    if t.len() == 0 {
        assert(s + t =~= s);
    } else {
        lemma_fold_pairs_append(m, s, t.drop_last());
        assert((s + t).drop_last() =~= s + t.drop_last());
        assert((s + t).last() == t.last());
    }
}

/// No key occurs twice.
pub open spec fn distinct_keys<T>(e: Seq<(Seq<char>, T)>) -> bool {
    forall|i: int, j: int| 0 <= i < j < e.len() ==> e[i].0 != e[j].0
}

/// The map that a table of pairs with distinct keys stands for.
pub open spec fn table_map<T>(e: Seq<(Seq<char>, T)>) -> Map<Seq<char>, T> {
    Map::new(
        |k: Seq<char>| exists|i: int| 0 <= i < e.len() && e[i].0 == k,
        |k: Seq<char>| e[choose|i: int| 0 <= i < e.len() && e[i].0 == k].1,
    )
}

pub proof fn lemma_table_map_index<T>(e: Seq<(Seq<char>, T)>, i: int)
    requires
        distinct_keys(e),
        0 <= i < e.len(),
    ensures
        table_map(e).contains_key(e[i].0),
        table_map(e)[e[i].0] == e[i].1,
{
    let k = e[i].0;
    assert(exists|j: int| 0 <= j < e.len() && e[j].0 == k);
    let j = choose|j: int| 0 <= j < e.len() && e[j].0 == k;
    assert(j == i);
}

pub proof fn lemma_table_map_push<T>(e: Seq<(Seq<char>, T)>, k: Seq<char>, x: T)
    requires
        distinct_keys(e),
        forall|i: int| 0 <= i < e.len() ==> e[i].0 != k,
    ensures
        distinct_keys(e.push((k, x))),
        table_map(e.push((k, x))) == table_map(e).insert(k, x),
{
    let f = e.push((k, x));
    assert forall|q: Seq<char>| #[trigger] table_map(f).contains_key(q) == table_map(e).insert(
        k,
        x,
    ).contains_key(q) by {
        if table_map(e).contains_key(q) {
            let j = choose|j: int| 0 <= j < e.len() && e[j].0 == q;
            assert(f[j].0 == q);
        }
        if table_map(f).contains_key(q) && q != k {
            let j = choose|j: int| 0 <= j < f.len() && f[j].0 == q;
            assert(e[j].0 == q);
        }
        if q == k {
            assert(f[e.len() as int].0 == q);
        }
    }
    assert forall|q: Seq<char>| table_map(f).contains_key(q) implies #[trigger] table_map(f)[q]
        == table_map(e).insert(k, x)[q] by {
        if q == k {
            lemma_table_map_index(f, e.len() as int);
        } else {
            let j = choose|j: int| 0 <= j < f.len() && f[j].0 == q;
            lemma_table_map_index(f, j);
            lemma_table_map_index(e, j);
        }
    }
    assert(table_map(f) =~= table_map(e).insert(k, x));
}

pub proof fn lemma_table_map_update<T>(e: Seq<(Seq<char>, T)>, i: int, x: T)
    requires
        distinct_keys(e),
        0 <= i < e.len(),
    ensures
        distinct_keys(e.update(i, (e[i].0, x))),
        table_map(e.update(i, (e[i].0, x))) == table_map(e).insert(e[i].0, x),
{
    let k = e[i].0;
    let f = e.update(i, (k, x));
    assert forall|q: Seq<char>| #[trigger] table_map(f).contains_key(q) == table_map(e).insert(
        k,
        x,
    ).contains_key(q) by {
        if table_map(e).contains_key(q) {
            let j = choose|j: int| 0 <= j < e.len() && e[j].0 == q;
            assert(f[j].0 == q);
        }
        if table_map(f).contains_key(q) {
            let j = choose|j: int| 0 <= j < f.len() && f[j].0 == q;
            assert(e[j].0 == q);
        }
        if q == k {
            assert(f[i].0 == q);
        }
    }
    assert forall|q: Seq<char>| table_map(f).contains_key(q) implies #[trigger] table_map(f)[q]
        == table_map(e).insert(k, x)[q] by {
        let j = choose|j: int| 0 <= j < f.len() && f[j].0 == q;
        lemma_table_map_index(f, j);
        if q != k {
            lemma_table_map_index(e, j);
        }
    }
    assert(table_map(f) =~= table_map(e).insert(k, x));
}

/// Position of the entry with key `k`, if any.
pub fn find_entry<X>(e: &Vec<(String, X)>, k: &String) -> (r: Option<usize>)
    ensures
        match r {
            Some(i) => i < e@.len() && e@[i as int].0@ == k@,
            None => forall|i: int| 0 <= i < e@.len() ==> (#[trigger] e@[i]).0@ != k@,
        },
{
    let mut i: usize = 0;
    while i < e.len()
        invariant
            i <= e@.len(),
            forall|q: int| 0 <= q < i ==> (#[trigger] e@[q]).0@ != k@,
        decreases e.len() - i,
    {
        if e[i].0 == *k {
            return Some(i);
        }
        i = i + 1;
    }
    None
}

} // verus!
