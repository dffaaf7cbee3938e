//! Facts about the building blocks of the model: looking up a node, walking and changing the
//! edge list, and counting the switches that are down.
use crate::graph::{newest_edge, outgoing_of, put_edge, Edge};
use crate::state::{count_in, first_named};
use crate::switch::{same_switches, Switch};
use vstd::prelude::*;

verus! {

/// `first_named` finds the first list that names the same switches, and finds none only where
/// there is none.
pub proof fn lemma_first_named(keys: Seq<Seq<Switch>>, key: Seq<Switch>)
    ensures
        match first_named(keys, key) {
            Some(i) => 0 <= i < keys.len() && same_switches(keys[i], key) && forall|j: int|
                0 <= j < i ==> !same_switches(#[trigger] keys[j], key),
            None => forall|j: int| 0 <= j < keys.len() ==> !same_switches(#[trigger] keys[j], key),
        },
    decreases keys.len(),
{
    if keys.len() > 0 {
        lemma_first_named(keys.drop_last(), key);
        assert forall|j: int| 0 <= j < keys.len() - 1 implies keys.drop_last()[j] == keys[j] by {}
    }
}

/// A position that names the same switches, with none before it that does, is what
/// `first_named` finds.
pub proof fn lemma_first_named_is(keys: Seq<Seq<Switch>>, key: Seq<Switch>, i: int)
    requires
        0 <= i < keys.len(),
        same_switches(keys[i], key),
        forall|j: int| 0 <= j < i ==> !same_switches(#[trigger] keys[j], key),
    ensures
        first_named(keys, key) == Some(i),
{
    lemma_first_named(keys, key);
}

/// A list added at the end changes no lookup that found a node, and is found itself where
/// nothing was found before.
pub proof fn lemma_first_named_push(keys: Seq<Seq<Switch>>, added: Seq<Switch>, key: Seq<Switch>)
    ensures
        first_named(keys, key) is Some ==> first_named(keys.push(added), key) == first_named(
            keys,
            key,
        ),
        first_named(keys, key) is None ==> first_named(keys.push(added), key) == (if same_switches(
            added,
            key,
        ) {
            Some(keys.len() as int)
        } else {
            None
        }),
{
    assert(keys.push(added).drop_last() =~= keys);
}

/// A list of one switch names the same switches as another list without repetitions only if
/// that list is the same.
pub proof fn lemma_single(key: Seq<Switch>, s: Switch)
    requires
        key.no_duplicates(),
        same_switches(key, seq![s]),
    ensures
        key == seq![s],
{
    assert(seq![s][0] == s);
    assert(seq![s].contains(s));
    assert(key.contains(s));
    assert forall|i: int| 0 <= i < key.len() implies key[i] == s by {
        assert(key.contains(key[i]));
        assert(seq![s].contains(key[i]));
    }
    if key.len() >= 2 {
        assert(key[0] == key[1]);
    }
    assert(key =~= seq![s]);
}

/// `newest_edge` finds the last position that holds an edge from `a` to `b`.
pub proof fn lemma_newest_edge(edges: Seq<(usize, usize, Edge)>, a: usize, b: usize)
    ensures
        match newest_edge(edges, a, b) {
            Some(k) => 0 <= k < edges.len() && edges[k].0 == a && edges[k].1 == b && forall|m: int|
                k < m < edges.len() ==> !((#[trigger] edges[m]).0 == a && edges[m].1 == b),
            None => forall|m: int|
                0 <= m < edges.len() ==> !((#[trigger] edges[m]).0 == a && edges[m].1 == b),
        },
    decreases edges.len(),
{
    if edges.len() > 0 {
        lemma_newest_edge(edges.drop_last(), a, b);
        assert forall|j: int| 0 <= j < edges.len() - 1 implies edges.drop_last()[j] == edges[j] by {}
    }
}

/// What `put_edge` leaves and what it sets: the ends of every edge stay, an edge with other
/// ends keeps its weight, and an edge from `a` to `b` with the new weight is there.
pub proof fn lemma_put_edge(edges: Seq<(usize, usize, Edge)>, a: usize, b: usize, weight: Edge)
    ensures
        put_edge(edges, a, b, weight).len() >= edges.len(),
        put_edge(edges, a, b, weight).len() <= edges.len() + 1,
        forall|k: int|
            0 <= k < edges.len() ==> (#[trigger] put_edge(edges, a, b, weight)[k]).0 == edges[k].0
                && put_edge(edges, a, b, weight)[k].1 == edges[k].1,
        forall|k: int|
            0 <= k < edges.len() && !(edges[k].0 == a && edges[k].1 == b) ==> (#[trigger] put_edge(
                edges,
                a,
                b,
                weight,
            )[k]) == edges[k],
        forall|k: int|
            0 <= k < put_edge(edges, a, b, weight).len() && (#[trigger] put_edge(
                edges,
                a,
                b,
                weight,
            )[k]).0 == a && put_edge(edges, a, b, weight)[k].1 == b && (forall|i: int, j: int|
                0 <= i < j < edges.len() ==> !((#[trigger] edges[i]).0 == (#[trigger] edges[j]).0
                    && edges[i].1 == edges[j].1)) ==> put_edge(edges, a, b, weight)[k].2 == weight,
        forall|k: int|
            edges.len() <= k < put_edge(edges, a, b, weight).len() ==> (#[trigger] put_edge(
                edges,
                a,
                b,
                weight,
            )[k]) == (a, b, weight) && newest_edge(edges, a, b) is None,
        put_edge(edges, a, b, weight).contains((a, b, weight)),
{
    lemma_newest_edge(edges, a, b);
    let after = put_edge(edges, a, b, weight);
    match newest_edge(edges, a, b) {
        Some(k) => {
            assert(after[k] == (a, b, weight));
        },
        None => {
            assert(after[edges.len() as int] == (a, b, weight));
        },
    }
}

/// `put_edge` keeps the edge list free of two edges between the same ends.
pub proof fn lemma_put_edge_single(
    edges: Seq<(usize, usize, Edge)>,
    a: usize,
    b: usize,
    weight: Edge,
)
    requires
        forall|i: int, j: int|
            0 <= i < j < edges.len() ==> !((#[trigger] edges[i]).0 == (#[trigger] edges[j]).0
                && edges[i].1 == edges[j].1),
    ensures
        forall|i: int, j: int|
            0 <= i < j < put_edge(edges, a, b, weight).len() ==> !((#[trigger] put_edge(
                edges,
                a,
                b,
                weight,
            )[i]).0 == (#[trigger] put_edge(edges, a, b, weight)[j]).0 && put_edge(
                edges,
                a,
                b,
                weight,
            )[i].1 == put_edge(edges, a, b, weight)[j].1),
{
    lemma_newest_edge(edges, a, b);
    lemma_put_edge(edges, a, b, weight);
    let after = put_edge(edges, a, b, weight);
    assert forall|i: int, j: int| 0 <= i < j < after.len() implies !((#[trigger] after[i]).0 == (
    #[trigger] after[j]).0 && after[i].1 == after[j].1) by {
        if j < edges.len() {
            assert(after[i].0 == edges[i].0 && after[i].1 == edges[i].1);
            assert(after[j].0 == edges[j].0 && after[j].1 == edges[j].1);
        } else {
            assert(after[i].0 == edges[i].0 && after[i].1 == edges[i].1);
        }
    }
}

/// The walk out of `a` holds exactly the edges that leave `a`.
pub proof fn lemma_outgoing(edges: Seq<(usize, usize, Edge)>, a: usize)
    ensures
        forall|p: int|
            0 <= p < outgoing_of(edges, a).len() ==> edges.contains(
                (a, (#[trigger] outgoing_of(edges, a)[p]).0, outgoing_of(edges, a)[p].1),
            ),
        forall|k: int|
            0 <= k < edges.len() && (#[trigger] edges[k]).0 == a ==> outgoing_of(edges, a).contains(
                (edges[k].1, edges[k].2),
            ),
    decreases edges.len(),
{
    if edges.len() > 0 {
        let front = edges.drop_last();
        lemma_outgoing(front, a);
        let out = outgoing_of(edges, a);
        let older = outgoing_of(front, a);
        assert forall|p: int| 0 <= p < out.len() implies edges.contains(
            (a, (#[trigger] out[p]).0, out[p].1),
        ) by {
            if edges.last().0 == a {
                if p == 0 {
                    assert(edges[edges.len() - 1] == (a, out[p].0, out[p].1));
                } else {
                    assert(out[p] == older[p - 1]);
                    let k = choose|k: int|
                        0 <= k < front.len() && front[k] == (a, older[p - 1].0, older[p - 1].1);
                    assert(edges[k] == front[k]);
                }
            } else {
                let k = choose|k: int| 0 <= k < front.len() && front[k] == (a, older[p].0, older[p].1);
                assert(edges[k] == front[k]);
            }
        }
        assert forall|k: int| 0 <= k < edges.len() && (#[trigger] edges[k]).0 == a implies out.contains(
            (edges[k].1, edges[k].2),
        ) by {
            if k < edges.len() - 1 {
                assert(front[k] == edges[k]);
                let p = choose|p: int| 0 <= p < older.len() && older[p] == (edges[k].1, edges[k].2);
                if edges.last().0 == a {
                    assert(out[p + 1] == older[p]);
                } else {
                    assert(out[p] == older[p]);
                }
            } else {
                assert(out[0] == (edges[k].1, edges[k].2));
            }
        }
    }
}

/// Where no two edges have the same ends, no two entries of a walk have the same target.
pub proof fn lemma_outgoing_targets(edges: Seq<(usize, usize, Edge)>, a: usize)
    requires
        forall|i: int, j: int|
            0 <= i < j < edges.len() ==> !((#[trigger] edges[i]).0 == (#[trigger] edges[j]).0
                && edges[i].1 == edges[j].1),
    ensures
        forall|p: int, q: int|
            0 <= p < q < outgoing_of(edges, a).len() ==> (#[trigger] outgoing_of(edges, a)[p]).0 != (
            #[trigger] outgoing_of(edges, a)[q]).0,
    decreases edges.len(),
{
    if edges.len() > 0 {
        let front = edges.drop_last();
        assert forall|i: int, j: int| 0 <= i < j < front.len() implies !((#[trigger] front[i]).0 == (
        #[trigger] front[j]).0 && front[i].1 == front[j].1) by {
            assert(front[i] == edges[i] && front[j] == edges[j]);
        }
        lemma_outgoing_targets(front, a);
        lemma_outgoing(front, a);
        let out = outgoing_of(edges, a);
        let older = outgoing_of(front, a);
        assert forall|p: int, q: int| 0 <= p < q < out.len() implies (#[trigger] out[p]).0 != (
        #[trigger] out[q]).0 by {
            if edges.last().0 == a {
                if p == 0 {
                    assert(out[q] == older[q - 1]);
                    let k = choose|k: int|
                        0 <= k < front.len() && front[k] == (a, older[q - 1].0, older[q - 1].1);
                    assert(edges[k] == front[k]);
                    assert(edges[edges.len() - 1].0 == a);
                } else {
                    assert(out[p] == older[p - 1] && out[q] == older[q - 1]);
                }
            }
        }
    }
}

/// One more switch down raises the count of a list without repetitions by one if the list
/// holds the switch, and leaves it otherwise. No count exceeds the length of its list.
pub proof fn lemma_count_insert(key: Seq<Switch>, down: Set<Switch>, s: Switch)
    requires
        key.no_duplicates(),
        !down.contains(s),
    ensures
        count_in(key, down.insert(s)) == count_in(key, down) + if key.contains(s) {
            1nat
        } else {
            0nat
        },
        count_in(key, down.insert(s)) <= key.len(),
    decreases key.len(),
{
    if key.len() > 0 {
        let front = key.drop_last();
        lemma_count_insert(front, down, s);
        if front.contains(s) {
            let i = choose|i: int| 0 <= i < front.len() && front[i] == s;
            assert(key[i] == s);
            assert(key.contains(s));
            assert(key.last() != s);
        } else if key.last() == s {
            assert(key[key.len() - 1] == s);
        } else {
            if key.contains(s) {
                let i = choose|i: int| 0 <= i < key.len() && key[i] == s;
                assert(front[i] == s);
            }
        }
    }
}

/// One switch fewer down lowers the count of a list without repetitions by one if the list
/// holds the switch, and leaves it otherwise.
pub proof fn lemma_count_remove(key: Seq<Switch>, down: Set<Switch>, s: Switch)
    requires
        key.no_duplicates(),
        down.contains(s),
    ensures
        count_in(key, down) == count_in(key, down.remove(s)) + if key.contains(s) {
            1nat
        } else {
            0nat
        },
        count_in(key, down) <= key.len(),
{
    lemma_count_insert(key, down.remove(s), s);
    assert(down.remove(s).insert(s) =~= down);
}

/// A count reaches the length of its list exactly where every switch of the list is down.
pub proof fn lemma_count_full(key: Seq<Switch>, down: Set<Switch>)
    ensures
        count_in(key, down) <= key.len(),
        count_in(key, down) == key.len() <==> forall|x: Switch| key.contains(x) ==> down.contains(x),
    decreases key.len(),
{
    if key.len() > 0 {
        let front = key.drop_last();
        lemma_count_full(front, down);
        assert(key[key.len() - 1] == key.last());
        if forall|x: Switch| key.contains(x) ==> down.contains(x) {
            assert(key.contains(key.last()));
            assert forall|x: Switch| front.contains(x) implies down.contains(x) by {
                let i = choose|i: int| 0 <= i < front.len() && front[i] == x;
                assert(key[i] == x);
                assert(key.contains(x));
            }
        }
        if count_in(key, down) == key.len() {
            assert forall|x: Switch| key.contains(x) implies down.contains(x) by {
                let i = choose|i: int| 0 <= i < key.len() && key[i] == x;
                if i < key.len() - 1 {
                    assert(front[i] == x);
                    assert(front.contains(x));
                }
            }
        }
    }
}

/// No count exceeds the length of its list.
pub proof fn lemma_count_bound(key: Seq<Switch>, down: Set<Switch>)
    ensures
        count_in(key, down) <= key.len(),
    decreases key.len(),
{
    if key.len() > 0 {
        lemma_count_bound(key.drop_last(), down);
    }
}

} // verus!
