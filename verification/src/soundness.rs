//! The invariant of the binding graph, and that each step of the operations keeps it.
use crate::graph::{outgoing_of, Edge};
use crate::lemmas::{
    lemma_count_bound, lemma_count_insert, lemma_count_remove, lemma_first_named,
    lemma_first_named_push, lemma_outgoing, lemma_put_edge, lemma_put_edge_single, lemma_single,
};
use crate::keymap::AnyKey;
use crate::state::{count_in, Bindings};
use crate::switch::{distinct, lemma_distinct, same_switches, Switch};
use vstd::prelude::*;

verus! {

/// Two graphs with the same keys and counters count the same switches as down.
pub proof fn lemma_down_frame(g: Bindings, r: Bindings)
    requires
        g.keys == r.keys,
        g.nodes == r.nodes,
    ensures
        g.down() == r.down(),
{
    assert forall|x: Switch| g.is_down(x) == r.is_down(x) by {}
    assert(g.down() =~= r.down());
}

/// What a lookup finds is a node, named by the switches asked for, and the first such.
pub proof fn lemma_node_of(g: Bindings, key: Seq<Switch>)
    requires
        g.keys.len() <= usize::MAX,
    ensures
        match g.node_of(key) {
            Some(i) => i < g.keys.len() && same_switches(g.keys[i as int], key) && forall|j: int|
                0 <= j < i ==> !same_switches(#[trigger] g.keys[j], key),
            None => forall|j: int| 0 <= j < g.keys.len() ==> !same_switches(#[trigger] g.keys[j], key),
        },
{
    lemma_first_named(g.keys, key);
}

/// The node of a single switch is named by that switch alone.
pub proof fn lemma_switch_node(g: Bindings, s: Switch)
    requires
        g.shaped(),
    ensures
        match g.node_of(seq![s]) {
            Some(i) => i < g.keys.len() && g.keys[i as int] == seq![s],
            None => forall|j: int| 0 <= j < g.keys.len() ==> #[trigger] g.keys[j] != seq![s],
        },
{
    lemma_node_of(g, seq![s]);
    match g.node_of(seq![s]) {
        Some(i) => {
            lemma_single(g.keys[i as int], s);
        },
        None => {
            assert forall|j: int| 0 <= j < g.keys.len() implies #[trigger] g.keys[j] != seq![s] by {
                if g.keys[j] == seq![s] {
                    assert(same_switches(g.keys[j], seq![s]));
                }
            }
        },
    }
}

/// Two nodes whose keys name the same switches are one node.
pub proof fn lemma_same_node(g: Bindings, i: int, j: int)
    requires
        g.shaped(),
        0 <= i < g.keys.len(),
        0 <= j < g.keys.len(),
        same_switches(g.keys[i], g.keys[j]),
    ensures
        i == j,
{
    if i < j {
        assert(!same_switches(g.keys[i], g.keys[j]));
    } else if j < i {
        assert(!same_switches(g.keys[j], g.keys[i]));
    }
}

/// Get or create keeps the graph sound, the edges, every node that was there, and the set of
/// switches that are down; the node asked for is there afterwards.
pub proof fn lemma_with_node(g: Bindings, key: Seq<Switch>)
    requires
        g.sound(),
        key.no_duplicates(),
        key.len() <= usize::MAX,
        g.with_node(key).keys.len() <= usize::MAX,
    ensures
        g.with_node(key).sound(),
        g.with_node(key).down() == g.down(),
        g.with_node(key).edges == g.edges,
        g.with_node(key).node_of(key) is Some,
        g.node_of(key) is None ==> g.with_node(key).node_of(key) == Some(g.keys.len() as usize)
            && g.with_node(key).keys == g.keys.push(key),
        g.keys.len() <= g.with_node(key).keys.len() <= g.keys.len() + 1,
        forall|i: int|
            0 <= i < g.keys.len() ==> (#[trigger] g.with_node(key).keys[i]) == g.keys[i]
                && g.with_node(key).nodes[i] == g.nodes[i],
        forall|k: Seq<Switch>|
            g.node_of(k) is Some ==> #[trigger] g.with_node(key).node_of(k) == g.node_of(k),
        forall|i: usize, s: Switch| #[trigger] g.linked(i, s) ==> g.with_node(key).linked(i, s),
{
    let r = g.with_node(key);
    lemma_node_of(g, key);
    if g.node_of(key) is None {
        let n = g.keys.len() as int;
        lemma_first_named_push(g.keys, key, key);
        assert(same_switches(key, key));
        lemma_count_bound(key, g.down());
        assert forall|k: Seq<Switch>| g.node_of(k) is Some implies #[trigger] r.node_of(k)
            == g.node_of(k) by {
            lemma_first_named_push(g.keys, key, k);
        }
        assert forall|x: Switch| r.is_down(x) == g.is_down(x) by {
            lemma_first_named_push(g.keys, key, seq![x]);
            lemma_node_of(g, seq![x]);
            if g.node_of(seq![x]) is None {
                if same_switches(key, seq![x]) {
                    lemma_single(key, x);
                    assert(key.drop_last() =~= Seq::<Switch>::empty());
                    assert(count_in(key.drop_last(), g.down()) == 0);
                    assert(key.last() == x);
                    assert(!g.down().contains(x));
                    assert(count_in(key, g.down()) == 0);
                    assert(r.nodes[n].active == 0);
                }
            }
        }
        assert(r.down() =~= g.down());
        assert forall|i: int| 0 <= i < r.nodes.len() implies (#[trigger] r.nodes[i]).active
            == count_in(r.keys[i], r.down()) by {
            if i < n {
                assert(r.nodes[i] == g.nodes[i]);
                assert(r.keys[i] == g.keys[i]);
            }
        }
        assert forall|i: int, j: int| 0 <= i < j < r.keys.len() implies !same_switches(
            #[trigger] r.keys[i],
            #[trigger] r.keys[j],
        ) by {
            if j < n {
                assert(r.keys[i] == g.keys[i] && r.keys[j] == g.keys[j]);
            } else {
                assert(r.keys[i] == g.keys[i]);
                assert(!same_switches(g.keys[i], key));
            }
        }
        assert forall|i: int| 0 <= i < r.keys.len() implies (#[trigger] r.keys[i]).no_duplicates()
            && r.nodes[i].threshold == r.keys[i].len() by {
            if i < n {
                assert(r.keys[i] == g.keys[i]);
            }
        }
        assert forall|k: int| 0 <= k < r.edges.len() implies {
            &&& (#[trigger] r.edges[k]).0 < r.keys.len()
            &&& r.edges[k].1 < r.keys.len()
            &&& r.keys[r.edges[k].0 as int].len() == 1
        } by {
            assert(r.edges[k] == g.edges[k]);
            assert(r.keys[g.edges[k].0 as int] == g.keys[g.edges[k].0 as int]);
        }
        assert forall|k: int|
            0 <= k < r.edges.len() && (#[trigger] r.edges[k]).2 == Edge::Layer implies {
            &&& r.keys[r.edges[k].1 as int].len() >= 2
            &&& r.keys[r.edges[k].1 as int].contains(r.keys[r.edges[k].0 as int][0])
        } by {
            assert(r.edges[k] == g.edges[k]);
            assert(r.keys[g.edges[k].0 as int] == g.keys[g.edges[k].0 as int]);
            assert(r.keys[g.edges[k].1 as int] == g.keys[g.edges[k].1 as int]);
        }
        assert(r.shaped());
        assert forall|i: usize, s: Switch| #[trigger] g.linked(i, s) implies r.linked(i, s) by {
            assert(r.node_of(seq![s]) == g.node_of(seq![s]));
        }
    }
}

/// Add or update keeps the graph sound, its nodes, and every edge between other ends; the
/// edge asked for is there afterwards.
pub proof fn lemma_with_edge(g: Bindings, a: usize, b: usize, weight: Edge)
    requires
        g.sound(),
        a < g.keys.len(),
        b < g.keys.len(),
        g.keys[a as int].len() == 1,
        weight == Edge::Layer ==> g.keys[b as int].len() >= 2 && g.keys[b as int].contains(
            g.keys[a as int][0],
        ),
    ensures
        g.with_edge(a, b, weight).sound(),
        g.with_edge(a, b, weight).down() == g.down(),
        g.with_edge(a, b, weight).keys == g.keys,
        g.with_edge(a, b, weight).nodes == g.nodes,
        g.with_edge(a, b, weight).edges.contains((a, b, weight)),
        forall|e: (usize, usize, Edge)|
            g.edges.contains(e) && !(e.0 == a && e.1 == b) ==> #[trigger] g.with_edge(
                a,
                b,
                weight,
            ).edges.contains(e),
        forall|i: usize, s: Switch|
            i != b && #[trigger] g.linked(i, s) ==> g.with_edge(a, b, weight).linked(i, s),
{
    let r = g.with_edge(a, b, weight);
    lemma_down_frame(g, r);
    lemma_put_edge(g.edges, a, b, weight);
    lemma_put_edge_single(g.edges, a, b, weight);
    assert forall|k: int| 0 <= k < r.edges.len() implies {
        &&& (#[trigger] r.edges[k]).0 < r.keys.len()
        &&& r.edges[k].1 < r.keys.len()
        &&& r.keys[r.edges[k].0 as int].len() == 1
    } by {
        if k < g.edges.len() {
            assert(r.edges[k].0 == g.edges[k].0 && r.edges[k].1 == g.edges[k].1);
        }
    }
    assert forall|k: int|
        0 <= k < r.edges.len() && (#[trigger] r.edges[k]).2 == Edge::Layer implies {
        &&& r.keys[r.edges[k].1 as int].len() >= 2
        &&& r.keys[r.edges[k].1 as int].contains(r.keys[r.edges[k].0 as int][0])
    } by {
        if k < g.edges.len() {
            assert(r.edges[k].0 == g.edges[k].0 && r.edges[k].1 == g.edges[k].1);
            if !(g.edges[k].0 == a && g.edges[k].1 == b) {
                assert(r.edges[k] == g.edges[k]);
            }
        }
    }
    assert forall|i: int| 0 <= i < r.nodes.len() implies (#[trigger] r.nodes[i]).active == count_in(
        r.keys[i],
        r.down(),
    ) by {
        assert(r.nodes[i] == g.nodes[i]);
    }
    assert forall|e: (usize, usize, Edge)|
        g.edges.contains(e) && !(e.0 == a && e.1 == b) implies #[trigger] r.edges.contains(e) by {
        let k = choose|k: int| 0 <= k < g.edges.len() && g.edges[k] == e;
        assert(r.edges[k] == e);
    }
    assert forall|i: usize, s: Switch| i != b && #[trigger] g.linked(i, s) implies r.linked(
        i,
        s,
    ) by {
        let x = g.node_of(seq![s]).unwrap();
        assert(g.edges.contains((x, i, Edge::Layer)));
        assert(r.edges.contains((x, i, Edge::Layer)));
    }
}

/// An entry of the walk out of `i` that is a layer edge to `j` is an edge of the graph, and
/// the other way round.
pub proof fn lemma_feeds(g: Bindings, i: usize, j: usize)
    ensures
        g.feeds(i, j) <==> g.edges.contains((i, j, Edge::Layer)),
{
    lemma_outgoing(g.edges, i);
    let out = outgoing_of(g.edges, i);
    if g.feeds(i, j) {
        let p = choose|p: int| 0 <= p < out.len() && out[p] == (j, Edge::Layer);
        assert(g.edges.contains((i, out[p].0, out[p].1)));
    }
    if g.edges.contains((i, j, Edge::Layer)) {
        let k = choose|k: int| 0 <= k < g.edges.len() && g.edges[k] == (i, j, Edge::Layer);
        assert(g.edges[k].0 == i);
    }
}

/// In a graph that meets the invariant, the nodes whose counter a switch moves are the nodes
/// whose key holds the switch.
pub proof fn lemma_moved(g: Bindings, s: Switch, j: usize)
    requires
        g.inv(),
        g.node_of(seq![s]) is Some,
        j < g.keys.len(),
    ensures
        (j == g.node_of(seq![s]).unwrap() || g.feeds(g.node_of(seq![s]).unwrap(), j))
            <==> g.keys[j as int].contains(s),
{
    let i = g.node_of(seq![s]).unwrap();
    lemma_switch_node(g, s);
    lemma_feeds(g, i, j);
    assert(g.keys[i as int][0] == s);
    if j == i {
        assert(g.keys[j as int].contains(s));
    }
    if g.feeds(i, j) {
        let k = choose|k: int| 0 <= k < g.edges.len() && g.edges[k] == (i, j, Edge::Layer);
        assert(g.edges[k].2 == Edge::Layer);
        assert(g.keys[j as int].contains(s));
    }
    if g.keys[j as int].contains(s) && j != i {
        if g.keys[j as int].len() >= 2 {
            assert(g.linked(j, s));
        } else {
            let m = choose|m: int| 0 <= m < g.keys[j as int].len() && g.keys[j as int][m] == s;
            assert(g.keys[j as int] =~= seq![s]);
            assert(same_switches(g.keys[i as int], g.keys[j as int]));
            lemma_same_node(g, i as int, j as int);
        }
    }
}

/// A switch that moves the counters changes, of the switches that are down, only itself.
proof fn lemma_counted_down_set(g: Bindings, s: Switch, by: int)
    requires
        g.inv(),
        g.node_of(seq![s]) is Some,
        by == 1 || by == -1,
        by == 1 ==> g.nodes[g.node_of(seq![s]).unwrap() as int].active == 0,
        by == -1 ==> g.nodes[g.node_of(seq![s]).unwrap() as int].active != 0,
    ensures
        g.nodes[g.node_of(seq![s]).unwrap() as int].active <= 1,
        by == 1 ==> g.counted(g.node_of(seq![s]).unwrap(), by).down() == g.down().insert(s),
        by == -1 ==> g.counted(g.node_of(seq![s]).unwrap(), by).down() == g.down().remove(s),
{
    let i = g.node_of(seq![s]).unwrap();
    let r = g.counted(i, by);
    lemma_switch_node(g, s);
    // the counter of a switch node is 0 or 1
    assert(g.nodes[i as int].active == count_in(g.keys[i as int], g.down()));
    lemma_count_bound(g.keys[i as int], g.down());
    assert forall|x: Switch| r.is_down(x) == (if x == s {
        by == 1
    } else {
        g.is_down(x)
    }) by {
        lemma_switch_node(g, x);
        match g.node_of(seq![x]) {
            Some(ix) => {
                if ix == i {
                    assert(seq![x][0] == seq![s][0]);
                } else {
                    if x == s {
                        assert(seq![x] =~= seq![s]);
                    }
                    lemma_feeds(g, i, ix);
                    if g.feeds(i, ix) {
                        let k = choose|k: int|
                            0 <= k < g.edges.len() && g.edges[k] == (i, ix, Edge::Layer);
                        assert(g.edges[k].2 == Edge::Layer);
                    }
                    assert(r.nodes[ix as int] == g.nodes[ix as int]);
                }
            },
            None => {
                if x == s {
                    assert(seq![x] =~= seq![s]);
                }
            },
        }
    }
    if by == 1 {
        assert(r.down() =~= g.down().insert(s));
    } else {
        assert(r.down() =~= g.down().remove(s));
    }
}

/// A switch that goes down keeps the invariant: every counter that it raises stays within
/// what its node needs, and afterwards the switch counts as down.
pub proof fn lemma_counted_up(g: Bindings, s: Switch)
    requires
        g.inv(),
        g.node_of(seq![s]) is Some,
        g.nodes[g.node_of(seq![s]).unwrap() as int].active == 0,
    ensures
        g.counted(g.node_of(seq![s]).unwrap(), 1).inv(),
        g.counted(g.node_of(seq![s]).unwrap(), 1).down() == g.down().insert(s),
        forall|j: usize|
            j < g.nodes.len() && (j == g.node_of(seq![s]).unwrap() || g.feeds(
                g.node_of(seq![s]).unwrap(),
                j,
            )) ==> (#[trigger] g.nodes[j as int]).active < g.nodes[j as int].threshold,
{
    let i = g.node_of(seq![s]).unwrap();
    let r = g.counted(i, 1);
    lemma_counted_down_set(g, s, 1);
    assert(!g.down().contains(s));
    assert forall|j: int| 0 <= j < g.nodes.len() implies (#[trigger] r.nodes[j]).active == count_in(
        r.keys[j],
        r.down(),
    ) && ((j == i || g.feeds(i, j as usize)) ==> g.nodes[j].active < g.nodes[j].threshold) by {
        lemma_moved(g, s, j as usize);
        lemma_count_insert(g.keys[j], g.down(), s);
        assert(g.nodes[j].active == count_in(g.keys[j], g.down()));
        assert(g.nodes[j].threshold == g.keys[j].len());
    }
    assert(r.shaped());
    assert forall|j: usize, x: Switch|
        j < r.keys.len() && r.keys[j as int].len() >= 2 && (#[trigger] r.keys[j as int]).contains(
            x,
        ) implies #[trigger] r.linked(j, x) by {
        assert(g.linked(j, x));
    }
    assert forall|j: usize|
        j < g.nodes.len() && (j == i || g.feeds(i, j)) implies (#[trigger] g.nodes[j as int]).active
            < g.nodes[j as int].threshold by {
        assert(r.nodes[j as int].active == count_in(r.keys[j as int], r.down()));
    }
}

/// A switch that goes up keeps the invariant: every counter that it lowers was above zero,
/// and afterwards the switch does not count as down.
pub proof fn lemma_counted_back(g: Bindings, s: Switch)
    requires
        g.inv(),
        g.node_of(seq![s]) is Some,
        g.nodes[g.node_of(seq![s]).unwrap() as int].active != 0,
    ensures
        g.counted(g.node_of(seq![s]).unwrap(), -1).inv(),
        g.counted(g.node_of(seq![s]).unwrap(), -1).down() == g.down().remove(s),
        g.nodes[g.node_of(seq![s]).unwrap() as int].active == 1,
        forall|j: usize|
            j < g.nodes.len() && (j == g.node_of(seq![s]).unwrap() || g.feeds(
                g.node_of(seq![s]).unwrap(),
                j,
            )) ==> (#[trigger] g.nodes[j as int]).active >= 1,
{
    let i = g.node_of(seq![s]).unwrap();
    let r = g.counted(i, -1);
    lemma_counted_down_set(g, s, -1);
    lemma_node_of(g, seq![s]);
    assert(g.down().contains(s)) by {
        assert(g.is_down(s));
    }
    assert forall|j: int| 0 <= j < g.nodes.len() implies (#[trigger] r.nodes[j]).active == count_in(
        r.keys[j],
        r.down(),
    ) && ((j == i || g.feeds(i, j as usize)) ==> g.nodes[j].active >= 1) by {
        lemma_moved(g, s, j as usize);
        lemma_count_remove(g.keys[j], g.down(), s);
        assert(g.nodes[j].active == count_in(g.keys[j], g.down()));
    }
    assert(r.shaped());
    assert forall|j: usize, x: Switch|
        j < r.keys.len() && r.keys[j as int].len() >= 2 && (#[trigger] r.keys[j as int]).contains(
            x,
        ) implies #[trigger] r.linked(j, x) by {
        assert(g.linked(j, x));
    }
    assert forall|j: usize|
        j < g.nodes.len() && (j == i || g.feeds(i, j)) implies (#[trigger] g.nodes[j as int]).active
            >= 1 by {
        assert(r.nodes[j as int].active == count_in(r.keys[j as int], r.down()));
    }
}

/// Linking members to a layer adds nodes and never takes one away.
pub proof fn lemma_with_members_grows(h: Bindings, members: Seq<Switch>, layer: usize)
    ensures
        h.keys.len() <= h.with_members(members, layer).keys.len(),
    decreases members.len(),
{
    if members.len() > 0 {
        lemma_with_members_grows(h, members.drop_last(), layer);
    }
}

/// Linking switches of a layer to it keeps the graph sound and everything that was there;
/// the nodes that it adds are nodes of one switch, and afterwards each of the switches is
/// linked to the layer.
pub proof fn lemma_with_members(h: Bindings, members: Seq<Switch>, layer: usize)
    requires
        h.sound(),
        layer < h.keys.len(),
        h.keys[layer as int].len() >= 2,
        forall|x: Switch| members.contains(x) ==> h.keys[layer as int].contains(x),
        h.with_members(members, layer).keys.len() <= usize::MAX,
    ensures
        h.with_members(members, layer).sound(),
        h.with_members(members, layer).down() == h.down(),
        h.keys.len() <= h.with_members(members, layer).keys.len(),
        forall|i: int|
            0 <= i < h.keys.len() ==> (#[trigger] h.with_members(members, layer).keys[i])
                == h.keys[i] && h.with_members(members, layer).nodes[i] == h.nodes[i],
        forall|i: int|
            h.keys.len() <= i < h.with_members(members, layer).keys.len() ==> (#[trigger] h.with_members(
                members,
                layer,
            ).keys[i]).len() == 1,
        forall|k: Seq<Switch>|
            h.node_of(k) is Some ==> #[trigger] h.with_members(members, layer).node_of(k)
                == h.node_of(k),
        forall|x: Switch|
            members.contains(x) ==> #[trigger] h.with_members(members, layer).linked(layer, x),
        forall|i: usize, s: Switch|
            i != layer && #[trigger] h.linked(i, s) ==> h.with_members(members, layer).linked(i, s),
        forall|e: (usize, usize, Edge)|
            h.edges.contains(e) && !members.contains(h.keys[e.0 as int][0]) ==> #[trigger] h.with_members(
                members,
                layer,
            ).edges.contains(e),
    decreases members.len(),
{
    if members.len() > 0 {
        let front = members.drop_last();
        let x = members.last();
        let r0 = h.with_members(front, layer);
        let r1 = r0.with_node(seq![x]);
        let n = r1.node_of(seq![x]).unwrap();
        let r = r1.with_edge(n, layer, Edge::Layer);
        assert(r == h.with_members(members, layer));
        assert(members[members.len() - 1] == x);
        assert(members.contains(x));
        assert forall|y: Switch| front.contains(y) implies h.keys[layer as int].contains(y) by {
            let i = choose|i: int| 0 <= i < front.len() && front[i] == y;
            assert(members[i] == y);
            assert(members.contains(y));
        }
        lemma_with_members(h, front, layer);
        assert(seq![x].no_duplicates());
        lemma_with_node(r0, seq![x]);
        lemma_switch_node(r1, x);
        assert(r1.keys[layer as int] == h.keys[layer as int]);
        assert(r1.keys[n as int][0] == x);
        lemma_with_edge(r1, n, layer, Edge::Layer);
        assert forall|i: int| 0 <= i < h.keys.len() implies (#[trigger] r.keys[i]) == h.keys[i]
            && r.nodes[i] == h.nodes[i] by {
            assert(r0.keys[i] == h.keys[i]);
            assert(r1.keys[i] == r0.keys[i]);
        }
        assert forall|i: int| h.keys.len() <= i < r.keys.len() implies (#[trigger] r.keys[i]).len()
            == 1 by {
            if i < r0.keys.len() {
                assert(r0.keys[i].len() == 1);
                assert(r1.keys[i] == r0.keys[i]);
            } else {
                lemma_node_of(r0, seq![x]);
            }
        }
        assert forall|k: Seq<Switch>| h.node_of(k) is Some implies #[trigger] r.node_of(k)
            == h.node_of(k) by {
            assert(r0.node_of(k) == h.node_of(k));
            assert(r1.node_of(k) == r0.node_of(k));
        }
        assert forall|y: Switch| members.contains(y) implies #[trigger] r.linked(layer, y) by {
            if y == x {
                assert(r.node_of(seq![x]) == Some(n));
            } else {
                let i = choose|i: int| 0 <= i < members.len() && members[i] == y;
                assert(front[i] == y);
                assert(front.contains(y));
                assert(r0.linked(layer, y));
                assert(r1.linked(layer, y));
                let ny = r1.node_of(seq![y]).unwrap();
                assert(r1.edges.contains((ny, layer, Edge::Layer)));
                if ny == n {
                    assert(r.edges.contains((n, layer, Edge::Layer)));
                } else {
                    assert(r.edges.contains((ny, layer, Edge::Layer)));
                }
            }
        }
        assert forall|i: usize, s: Switch| i != layer && #[trigger] h.linked(i, s) implies r.linked(
            i,
            s,
        ) by {
            assert(r0.linked(i, s));
            assert(r1.linked(i, s));
        }
        assert forall|e: (usize, usize, Edge)|
            h.edges.contains(e) && !members.contains(h.keys[e.0 as int][0]) implies #[trigger] r.edges.contains(
            e,
        ) by {
            let k = choose|k: int| 0 <= k < h.edges.len() && h.edges[k] == e;
            assert(h.edges[k].0 < h.keys.len());
            if front.contains(h.keys[e.0 as int][0]) {
                let i = choose|i: int| 0 <= i < front.len() && front[i] == h.keys[e.0 as int][0];
                assert(members[i] == front[i]);
            }
            assert(r0.edges.contains(e));
            assert(r1.keys[e.0 as int] == h.keys[e.0 as int]);
            if e.0 == n {
                assert(h.keys[e.0 as int][0] == x);
            }
        }
    }
}

/// Binding a chord keeps the invariant of the graph.
pub proof fn lemma_bound_inv(g: Bindings, chord: Seq<Switch>, action: AnyKey)
    requires
        g.inv(),
        0 < chord.len() <= usize::MAX,
        g.bound(chord, action).keys.len() <= usize::MAX,
    ensures
        g.bound(chord, action).inv(),
        g.bound(chord, action).down() == g.down(),
{
    let t = chord.last();
    let layer = distinct(chord.drop_last());
    lemma_distinct(chord.drop_last());
    let s1 = g.with_node(seq![t]);
    let s2 = s1.with_node(layer);
    let tn = s2.node_of(seq![t]).unwrap();
    let ln = s2.node_of(layer).unwrap();
    let h = s2.with_edge(tn, ln, Edge::Action(action));
    let r = g.bound(chord, action);
    if h.keys[ln as int].len() > 1 {
        lemma_with_members_grows(h, h.keys[ln as int], ln);
    }
    assert(seq![t].no_duplicates());
    lemma_with_node(g, seq![t]);
    lemma_with_node(s1, layer);
    lemma_switch_node(s2, t);
    lemma_node_of(s2, layer);
    lemma_with_edge(s2, tn, ln, Edge::Action(action));
    // every node that is new so far is the one of the terminal or the one of the layer
    assert forall|i: usize, s: Switch|
        i < h.keys.len() && i != ln && h.keys[i as int].len() >= 2 && (
        #[trigger] h.keys[i as int]).contains(s) implies #[trigger] h.linked(i, s) by {
        if i >= g.keys.len() {
            lemma_node_of(g, seq![t]);
            lemma_node_of(s1, layer);
            if g.node_of(seq![t]) is None && i == g.keys.len() {
                assert(h.keys[i as int] == seq![t]);
            } else {
                assert(s1.node_of(layer) is None);
                assert(i == ln);
            }
        } else {
            assert(s1.keys[i as int] == g.keys[i as int]);
            assert(s2.keys[i as int] == s1.keys[i as int]);
            assert(g.linked(i, s));
            assert(s1.linked(i, s));
            assert(s2.linked(i, s));
        }
    }
    if h.keys[ln as int].len() > 1 {
        let members = h.keys[ln as int];
        lemma_with_members(h, members, ln);
        assert forall|i: usize, s: Switch|
            i < r.keys.len() && r.keys[i as int].len() >= 2 && (#[trigger] r.keys[i as int]).contains(
                s,
            ) implies #[trigger] r.linked(i, s) by {
            if i < h.keys.len() {
                assert(r.keys[i as int] == h.keys[i as int]);
                if i != ln {
                    assert(h.linked(i, s));
                }
            }
        }
    } else {
        assert forall|i: usize, s: Switch|
            i < r.keys.len() && r.keys[i as int].len() >= 2 && (#[trigger] r.keys[i as int]).contains(
                s,
            ) implies #[trigger] r.linked(i, s) by {
            assert(h.linked(i, s));
        }
    }
}

} // verus!
