use vstd::prelude::*;
use crate::text::{
    chars_lt, join, lemma_lex_lt_asymmetric, lemma_lex_lt_irreflexive, lemma_lex_lt_total,
    lemma_lex_lt_transitive, lex_lt, push_str,
};

verus! {

/// `a` is placed strictly before `b`: a greater weight first, then by name.
pub open spec fn key_before(a: (int, Seq<char>), b: (int, Seq<char>)) -> bool {
    a.0 > b.0 || (a.0 == b.0 && lex_lt(a.1, b.1))
}

/// Where index `j` goes into `order`: before the first entry whose key comes
/// strictly after the key of `j`.
pub open spec fn insert_pos(keys: Seq<(int, Seq<char>)>, order: Seq<int>, j: int) -> int
    decreases order.len(),
{
    if order.len() == 0 {
        0
    } else if key_before(keys[j], keys[order[0]]) {
        0
    } else {
        1 + insert_pos(keys, order.drop_first(), j)
    }
}

/// The indices `0..n` of `keys` in the order of a stable sort by `key_before`.
pub open spec fn sort_order(keys: Seq<(int, Seq<char>)>, n: nat) -> Seq<int>
    decreases n,
{
    if n == 0 {
        Seq::empty()
    } else {
        let o = sort_order(keys, (n - 1) as nat);
        o.insert(insert_pos(keys, o, n - 1), n - 1)
    }
}

/// The mathematical form of exec sort keys.
pub open spec fn keys_view(keys: Seq<(i32, Vec<char>)>) -> Seq<(int, Seq<char>)> {
    Seq::new(keys.len(), |i: int| (keys[i].0 as int, keys[i].1@))
}

proof fn lemma_insert_pos(keys: Seq<(int, Seq<char>)>, order: Seq<int>, j: int, p: int)
    requires
        0 <= p <= order.len(),
        forall|q: int| 0 <= q < p ==> !key_before(keys[j], #[trigger] keys[order[q]]),
        p < order.len() ==> key_before(keys[j], keys[order[p]]),
    ensures
        insert_pos(keys, order, j) == p,
    decreases order.len(),
{
    if order.len() > 0 && p > 0 {
        assert forall|q: int| 0 <= q < p - 1 implies !key_before(
            keys[j],
            #[trigger] keys[order.drop_first()[q]],
        ) by {
            assert(order.drop_first()[q] == order[q + 1]);
        }
        if p - 1 < order.len() - 1 {
            assert(order.drop_first()[p - 1] == order[p]);
        }
        lemma_insert_pos(keys, order.drop_first(), j, p - 1);
        assert(!key_before(keys[j], keys[order[0]]));
    }
}

pub proof fn lemma_sort_order_range(keys: Seq<(int, Seq<char>)>, n: nat)
    ensures
        sort_order(keys, n).len() == n,
        forall|p: int| 0 <= p < n ==> 0 <= #[trigger] sort_order(keys, n)[p] < n,
    decreases n,
{
    if n > 0 {
        let o = sort_order(keys, (n - 1) as nat);
        lemma_sort_order_range(keys, (n - 1) as nat);
        lemma_insert_pos_range(keys, o, n - 1);
        let r = o.insert(insert_pos(keys, o, n - 1), n - 1);
        assert forall|p: int| 0 <= p < n implies 0 <= #[trigger] r[p] < n by {
            let ip = insert_pos(keys, o, n - 1);
            if p < ip {
                assert(r[p] == o[p]);
            } else if p > ip {
                assert(r[p] == o[p - 1]);
            }
        }
    }
}

/// Keys already in order keep their order: the sort returns `0..n`.
pub proof fn lemma_sort_order_of_sorted(keys: Seq<(int, Seq<char>)>, n: nat)
    requires
        n <= keys.len(),
        forall|p: int, q: int| 0 <= p < q < n ==> !key_before(#[trigger] keys[q], #[trigger] keys[p]),
    ensures
        sort_order(keys, n) == Seq::new(n, |i: int| i),
    decreases n,
{
    if n > 0 {
        let m = (n - 1) as nat;
        lemma_sort_order_of_sorted(keys, m);
        let o = sort_order(keys, m);
        assert(o == Seq::new(m, |i: int| i));
        assert forall|q: int| 0 <= q < m implies !key_before(keys[n - 1], #[trigger] keys[o[q]]) by {
            assert(o[q] == q);
        }
        lemma_insert_pos(keys, o, n - 1, m as int);
        assert(o.insert(m as int, n - 1) =~= Seq::new(n, |i: int| i));
    }
}

proof fn lemma_insert_pos_range(keys: Seq<(int, Seq<char>)>, order: Seq<int>, j: int)
    ensures
        0 <= insert_pos(keys, order, j) <= order.len(),
    decreases order.len(),
{
    if order.len() > 0 {
        lemma_insert_pos_range(keys, order.drop_first(), j);
    }
}

pub proof fn lemma_key_before_order(x: (int, Seq<char>), y: (int, Seq<char>), z: (int, Seq<char>))
    ensures
        !key_before(x, x),
        !(key_before(x, y) && key_before(y, x)),
        key_before(x, y) && key_before(y, z) ==> key_before(x, z),
        !key_before(x, y) && !key_before(y, x) ==> x == y,
{
    lemma_lex_lt_irreflexive(x.1);
    lemma_lex_lt_asymmetric(x.1, y.1);
    if key_before(x, y) && key_before(y, z) && x.0 == y.0 && y.0 == z.0 {
        lemma_lex_lt_transitive(x.1, y.1, z.1);
    }
    if !key_before(x, y) && !key_before(y, x) && x.1 != y.1 {
        lemma_lex_lt_total(x.1, y.1);
    }
}

proof fn lemma_insert_pos_props(keys: Seq<(int, Seq<char>)>, order: Seq<int>, j: int)
    ensures
        forall|q: int| 0 <= q < insert_pos(keys, order, j) ==> !key_before(keys[j], #[trigger] keys[order[q]]),
        insert_pos(keys, order, j) < order.len() ==> key_before(keys[j], keys[order[insert_pos(keys, order, j)]]),
    decreases order.len(),
{
    lemma_insert_pos_range(keys, order, j);
    if order.len() > 0 && !key_before(keys[j], keys[order[0]]) {
        lemma_insert_pos_props(keys, order.drop_first(), j);
        lemma_insert_pos_range(keys, order.drop_first(), j);
        let ip = insert_pos(keys, order, j);
        assert(ip == 1 + insert_pos(keys, order.drop_first(), j));
        assert forall|q: int| 0 <= q < ip implies !key_before(keys[j], #[trigger] keys[order[q]]) by {
            if q > 0 {
                assert(order[q] == order.drop_first()[q - 1]);
            }
        }
        if ip < order.len() {
            assert(order[ip] == order.drop_first()[ip - 1]);
        }
    }
}

/// The sort order lists each of the positions `0..n` exactly once.
pub proof fn lemma_sort_order_permutation(keys: Seq<(int, Seq<char>)>, n: nat)
    ensures
        sort_order(keys, n).len() == n,
        forall|p: int, q: int|
            0 <= p < q < n ==> #[trigger] sort_order(keys, n)[p] != #[trigger] sort_order(keys, n)[q],
        forall|j: int| 0 <= j < n ==> #[trigger] sort_order(keys, n).contains(j),
    decreases n,
{
    lemma_sort_order_range(keys, n);
    if n > 0 {
        let o = sort_order(keys, (n - 1) as nat);
        lemma_sort_order_permutation(keys, (n - 1) as nat);
        lemma_sort_order_range(keys, (n - 1) as nat);
        lemma_insert_pos_range(keys, o, n - 1);
        let ip = insert_pos(keys, o, n - 1);
        let r = o.insert(ip, n - 1);
        assert forall|p: int, q: int| 0 <= p < q < n implies #[trigger] r[p] != #[trigger] r[q] by {
            if p < ip && q < ip {
            } else if p < ip && q == ip {
            } else if p < ip {
                assert(r[q] == o[q - 1]);
            } else if p == ip {
                assert(r[q] == o[q - 1]);
            } else {
                assert(r[p] == o[p - 1]);
                assert(r[q] == o[q - 1]);
            }
        }
        assert forall|j: int| 0 <= j < n implies #[trigger] r.contains(j) by {
            if j == n - 1 {
                assert(r[ip] == j);
            } else {
                assert(o.contains(j));
                let p = choose|p: int| 0 <= p < o.len() && o[p] == j;
                if p < ip {
                    assert(r[p] == j);
                } else {
                    assert(r[p + 1] == j);
                }
            }
        }
    }
}

/// No position listed later has a key that belongs strictly before the key
/// of a position listed earlier.
pub proof fn lemma_sort_order_sorted(keys: Seq<(int, Seq<char>)>, n: nat)
    ensures
        forall|p: int, q: int|
            0 <= p < q < n ==> !key_before(
                keys[#[trigger] sort_order(keys, n)[q]],
                keys[#[trigger] sort_order(keys, n)[p]],
            ),
    decreases n,
{
    if n > 0 {
        let j = n - 1;
        let o = sort_order(keys, (n - 1) as nat);
        lemma_sort_order_sorted(keys, (n - 1) as nat);
        lemma_sort_order_range(keys, (n - 1) as nat);
        lemma_insert_pos_range(keys, o, j);
        lemma_insert_pos_props(keys, o, j);
        let ip = insert_pos(keys, o, j);
        let r = o.insert(ip, j);
        assert forall|p: int, q: int| 0 <= p < q < n implies !key_before(
            keys[#[trigger] r[q]],
            keys[#[trigger] r[p]],
        ) by {
            if q < ip {
            } else if q == ip {
                assert(r[p] == o[p]);
            } else if p == ip {
                assert(r[q] == o[q - 1]);
                lemma_key_before_order(keys[o[q - 1]], keys[j], keys[o[ip]]);
                if q - 1 > ip {
                    assert(!key_before(keys[o[q - 1]], keys[o[ip]]));
                }
            } else if p < ip {
                assert(r[p] == o[p]);
                assert(r[q] == o[q - 1]);
            } else {
                assert(r[p] == o[p - 1]);
                assert(r[q] == o[q - 1]);
            }
        }
    }
}

fn key_before_exec(a: &(i32, Vec<char>), b: &(i32, Vec<char>)) -> (r: bool)
    ensures
        r == key_before((a.0 as int, a.1@), (b.0 as int, b.1@)),
{
    if a.0 != b.0 {
        a.0 > b.0
    } else {
        chars_lt(&a.1, &b.1)
    }
}

/// The positions of `keys` in the order of a stable sort: greater weight
/// first, equal weights by name.
pub fn sorted_order(keys: &Vec<(i32, Vec<char>)>) -> (order: Vec<usize>)
    ensures
        order@.len() == keys@.len(),
        forall|p: int| 0 <= p < order@.len() ==> #[trigger] order@[p] as int == sort_order(
            keys_view(keys@),
            keys@.len() as nat,
        )[p],
        forall|p: int| 0 <= p < order@.len() ==> #[trigger] order@[p] < keys@.len(),
{
    let ghost kv = keys_view(keys@);
    let mut order: Vec<usize> = Vec::new();
    let mut j: usize = 0;
    while j < keys.len()
        invariant
            j <= keys.len(),
            kv == keys_view(keys@),
            order@.len() == j,
            forall|p: int| 0 <= p < j ==> #[trigger] order@[p] as int == sort_order(kv, j as nat)[p],
            forall|p: int| 0 <= p < j ==> #[trigger] order@[p] < j,
        decreases keys.len() - j,
    {
        let ghost o = sort_order(kv, j as nat);
        proof {
            lemma_sort_order_range(kv, j as nat);
        }
        let mut p: usize = 0;
        while p < order.len() && !key_before_exec(&keys[j], &keys[order[p]])
            invariant
                p <= order.len(),
                j < keys.len(),
                order@.len() == j,
                o.len() == j,
                kv == keys_view(keys@),
                forall|q: int| 0 <= q < j ==> #[trigger] order@[q] as int == o[q],
                forall|q: int| 0 <= q < j ==> #[trigger] order@[q] < j,
                forall|q: int| 0 <= q < p ==> !key_before(kv[j as int], #[trigger] kv[o[q]]),
            decreases order.len() - p,
        {
            assert(kv[j as int] == (keys@[j as int].0 as int, keys@[j as int].1@));
            assert(kv[o[p as int]] == (keys@[order@[p as int] as int].0 as int, keys@[order@[p as int] as int].1@));
            p = p + 1;
        }
        proof {
            if p < order.len() {
                assert(kv[j as int] == (keys@[j as int].0 as int, keys@[j as int].1@));
                assert(kv[o[p as int]] == (keys@[order@[p as int] as int].0 as int, keys@[order@[p as int] as int].1@));
            }
            lemma_insert_pos(kv, o, j as int, p as int);
        }
        let ghost old_order = order@;
        order.insert(p, j);
        j = j + 1;
        proof {
            let r = sort_order(kv, j as nat);
            assert(r == o.insert(p as int, j - 1));
            assert forall|q: int| 0 <= q < j implies #[trigger] order@[q] as int == r[q] by {
                if q < p {
                    assert(order@[q] == old_order[q]);
                } else if q > p {
                    assert(order@[q] == old_order[q - 1]);
                }
            }
            assert forall|q: int| 0 <= q < j implies #[trigger] order@[q] < j by {
                if q < p {
                    assert(order@[q] == old_order[q]);
                } else if q > p {
                    assert(order@[q] == old_order[q - 1]);
                }
            }
        }
    }
    order
}


/// The entries of `parts` taken in the order given by `order`.
pub open spec fn permuted(parts: Seq<Seq<char>>, order: Seq<int>) -> Seq<Seq<char>> {
    Seq::new(order.len(), |p: int| parts[order[p]])
}

/// Sort keys that order names alone.
pub open spec fn name_keys(names: Seq<Seq<char>>) -> Seq<(int, Seq<char>)> {
    Seq::new(names.len(), |i: int| (0int, names[i]))
}

/// The names in ascending lexicographic order (a stable sort).
pub open spec fn sorted_names(names: Seq<Seq<char>>) -> Seq<Seq<char>> {
    permuted(names, sort_order(name_keys(names), names.len()))
}

proof fn lemma_sorted_prefix_multiset(names: Seq<Seq<char>>, n: nat)
    requires
        n <= names.len(),
    ensures
        permuted(names, sort_order(name_keys(names), n)).to_multiset() == names.take(n as int).to_multiset(),
    decreases n,
{
    broadcast use vstd::seq_lib::group_to_multiset_ensures;
    let keys = name_keys(names);
    if n == 0 {
        assert(permuted(names, sort_order(keys, 0)) =~= names.take(0));
    } else {
        let m = (n - 1) as nat;
        lemma_sorted_prefix_multiset(names, m);
        let o = sort_order(keys, m);
        lemma_sort_order_range(keys, m);
        lemma_insert_pos_range(keys, o, n - 1);
        let ip = insert_pos(keys, o, n - 1);
        let pr = permuted(names, o);
        assert(permuted(names, o.insert(ip, n - 1)) =~= pr.insert(ip, names[n - 1]));
        assert(names.take(n as int) =~= names.take(m as int).push(names[n - 1]));
    }
}

/// `sorted_names` sorts: it holds the same names, each as often, in
/// ascending order.
pub proof fn lemma_sorted_names_sorts(names: Seq<Seq<char>>)
    ensures
        sorted_names(names).to_multiset() == names.to_multiset(),
        forall|p: int, q: int|
            0 <= p < q < sorted_names(names).len() ==> !lex_lt(
                #[trigger] sorted_names(names)[q],
                #[trigger] sorted_names(names)[p],
            ),
{
    let keys = name_keys(names);
    let n = names.len();
    lemma_sorted_prefix_multiset(names, n);
    assert(names.take(n as int) =~= names);
    lemma_sort_order_range(keys, n);
    lemma_sort_order_sorted(keys, n);
    let o = sort_order(keys, n);
    assert forall|p: int, q: int| 0 <= p < q < sorted_names(names).len() implies !lex_lt(
        #[trigger] sorted_names(names)[q],
        #[trigger] sorted_names(names)[p],
    ) by {
        assert(!key_before(keys[o[q]], keys[o[p]]));
        assert(keys[o[q]] == (0int, names[o[q]]));
        assert(keys[o[p]] == (0int, names[o[p]]));
    }
}

pub open spec fn strings_view(v: Seq<String>) -> Seq<Seq<char>> {
    Seq::new(v.len(), |i: int| v[i]@)
}

/// Appends the entries of `parts` in the order `order`, with `sep` between
/// neighbours.
pub fn push_joined(out: &mut String, parts: &Vec<String>, order: &Vec<usize>, sep: &str)
    requires
        forall|p: int| 0 <= p < order@.len() ==> #[trigger] order@[p] < parts@.len(),
    ensures
        final(out)@ == old(out)@ + join(
            permuted(strings_view(parts@), Seq::new(order@.len(), |p: int| order@[p] as int)),
            sep@,
        ),
{
    let ghost start = out@;
    let ghost full = permuted(strings_view(parts@), Seq::new(order@.len(), |p: int| order@[p] as int));
    let mut p: usize = 0;
    while p < order.len()
        invariant
            p <= order@.len(),
            full == permuted(strings_view(parts@), Seq::new(order@.len(), |q: int| order@[q] as int)),
            forall|q: int| 0 <= q < order@.len() ==> #[trigger] order@[q] < parts@.len(),
            out@ == start + join(full.take(p as int), sep@),
        decreases order.len() - p,
    {
        if p > 0 {
            push_str(out, sep);
        }
        push_str(out, parts[order[p]].as_str());
        assert(full.take(p + 1).drop_last() =~= full.take(p as int));
        assert(full.take(p + 1).last() == parts@[order@[p as int] as int]@);
        assert(out@ =~= start + join(full.take(p + 1), sep@));
        p = p + 1;
    }
    assert(full.take(order@.len() as int) =~= full);
}

} // verus!
