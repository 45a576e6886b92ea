//! Name-keyed tables kept as vectors of entries, with the semantics of a hash map into which
//! the entries were inserted in order: a later entry for a name replaces an earlier one.
use vstd::prelude::*;

verus! {

/// The map that the entries `e` make when inserted in order.
pub open spec fn table_view<V>(e: Seq<(String, V)>) -> Map<Seq<char>, V>
    decreases e.len(),
{
    if e.len() == 0 {
        Map::empty()
    } else {
        table_view(e.drop_last()).insert(e.last().0@, e.last().1)
    }
}

/// No name occurs in two entries.
pub open spec fn distinct_names<V>(e: Seq<(String, V)>) -> bool {
    forall|i: int, j: int| 0 <= i < j < e.len() ==> e[i].0@ != e[j].0@
}

/// With distinct names, each entry is what the map holds for its name, and the map holds
/// nothing else.
pub proof fn lemma_table_entries<V>(e: Seq<(String, V)>)
    requires
        distinct_names(e),
    ensures
        forall|i: int| 0 <= i < e.len() ==> #[trigger] table_view(e).contains_key(e[i].0@)
            && table_view(e)[e[i].0@] == e[i].1,
        forall|k: Seq<char>| #[trigger] table_view(e).contains_key(k) ==> exists|i: int|
            0 <= i < e.len() && e[i].0@ == k,
    decreases e.len(),
{
    if e.len() > 0 {
        let d = e.drop_last();
        assert(distinct_names(d));
        lemma_table_entries(d);
        assert forall|i: int| 0 <= i < e.len() implies #[trigger] table_view(e).contains_key(e[i].0@)
            && table_view(e)[e[i].0@] == e[i].1 by {
            if i < e.len() - 1 {
                assert(d[i] == e[i]);
                assert(table_view(d).contains_key(d[i].0@));
            }
        }
        assert forall|k: Seq<char>| #[trigger] table_view(e).contains_key(k) implies exists|i: int|
            0 <= i < e.len() && e[i].0@ == k by {
            if k != e.last().0@ {
                assert(table_view(d).contains_key(k));
                let i = choose|i: int| 0 <= i < d.len() && d[i].0@ == k;
                assert(e[i] == d[i]);
            }
        }
    }
}

proof fn lemma_table_update<V>(e: Seq<(String, V)>, i: int, k: String, v: V)
    requires
        distinct_names(e),
        0 <= i < e.len(),
        e[i].0@ == k@,
    ensures
        table_view(e.update(i, (k, v))) == table_view(e).insert(k@, v),
    decreases e.len(),
{
    let u = e.update(i, (k, v));
    if i == e.len() - 1 {
        assert(u.drop_last() =~= e.drop_last());
        assert(table_view(u) =~= table_view(e).insert(k@, v));
    } else {
        let d = e.drop_last();
        assert(u.drop_last() =~= d.update(i, (k, v)));
        lemma_table_update(d, i, k, v);
        assert(e.last().0@ != k@);
        assert(table_view(u) =~= table_view(e).insert(k@, v));
    }
}

/// Index of the entry for `k`, if there is one; it is the last such entry.
pub fn table_find<V>(e: &Vec<(String, V)>, k: &String) -> (r: Option<usize>)
    ensures
        match r {
            Some(i) => i < e@.len() && e@[i as int].0@ == k@ && table_view(e@).contains_key(k@)
                && table_view(e@)[k@] == e@[i as int].1,
            None => !table_view(e@).contains_key(k@),
        },
{
    let mut j = e.len();
    assert(e@.take(j as int) =~= e@);
    while j > 0
        invariant
            j <= e@.len(),
            forall|m: int| j <= m < e@.len() ==> e@[m].0@ != k@,
            table_view(e@).contains_key(k@) == table_view(e@.take(j as int)).contains_key(k@),
            table_view(e@).contains_key(k@) ==> table_view(e@)[k@] == table_view(e@.take(j as int))[k@],
        decreases j,
    {
        let ghost t = e@.take(j as int);
        assert(t.drop_last() =~= e@.take(j - 1));
        if e[j - 1].0 == *k {
            return Some(j - 1);
        }
        j = j - 1;
    }
    None
}

/// Inserts `v` under `k`, replacing the entry for `k` if there is one.
pub fn table_insert<V>(e: &mut Vec<(String, V)>, k: String, v: V)
    requires
        distinct_names(old(e)@),
    ensures
        distinct_names(final(e)@),
        table_view(final(e)@) == table_view(old(e)@).insert(k@, v),
{
    match table_find(e, &k) {
        Some(i) => {
            proof { lemma_table_update(e@, i as int, k, v); }
            e.set(i, (k, v));
        },
        None => {
            proof {
                lemma_table_entries(e@);
            }
            e.push((k, v));
            assert(e@.drop_last() =~= old(e)@);
        },
    }
}

} // verus!
