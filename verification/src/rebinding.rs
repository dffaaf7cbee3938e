//! Binding a chord again: the graph that results is the one that binding the last action
//! alone would have made.
use crate::graph::{newest_edge, put_edge, Edge};
use crate::keymap::AnyKey;
use crate::laws::law_bind_replaces;
use crate::lemmas::lemma_newest_edge;
use crate::soundness::{
    lemma_bound_inv, lemma_down_frame, lemma_node_of, lemma_switch_node, lemma_with_edge,
    lemma_with_members, lemma_with_members_grows, lemma_with_node,
};
use crate::state::Bindings;
use crate::switch::{distinct, lemma_distinct, Switch};
use vstd::prelude::*;

verus! {

/// No two edges of `edges` have the same ends.
pub open spec fn single_edges(edges: Seq<(usize, usize, Edge)>) -> bool {
    forall|i: int, j: int|
        0 <= i < j < edges.len() ==> !((#[trigger] edges[i]).0 == (#[trigger] edges[j]).0
            && edges[i].1 == edges[j].1)
}

/// `e` and `f` are the same edges but, at most, for what the edges from `a` to `b` carry.
pub open spec fn edges_same_but(
    e: Seq<(usize, usize, Edge)>,
    f: Seq<(usize, usize, Edge)>,
    a: usize,
    b: usize,
) -> bool {
    &&& e.len() == f.len()
    &&& forall|k: int|
        0 <= k < e.len() ==> (#[trigger] e[k]).0 == f[k].0 && e[k].1 == f[k].1 && (e[k].2 == f[k].2
            || (e[k].0 == a && e[k].1 == b))
}

/// `x` and `y` are the same graph but, at most, for what the edges from `a` to `b` carry.
pub open spec fn same_but(x: Bindings, y: Bindings, a: usize, b: usize) -> bool {
    &&& x.keys == y.keys
    &&& x.nodes == y.nodes
    &&& edges_same_but(x.edges, y.edges, a, b)
}

/// The search for an edge looks at the ends alone.
proof fn lemma_newest_by_ends(
    e: Seq<(usize, usize, Edge)>,
    f: Seq<(usize, usize, Edge)>,
    c: usize,
    d: usize,
)
    requires
        e.len() == f.len(),
        forall|k: int| 0 <= k < e.len() ==> (#[trigger] e[k]).0 == f[k].0 && e[k].1 == f[k].1,
    ensures
        newest_edge(e, c, d) == newest_edge(f, c, d),
    decreases e.len(),
{
    if e.len() > 0 {
        assert(e[e.len() - 1].0 == f[e.len() - 1].0);
        assert forall|k: int| 0 <= k < e.drop_last().len() implies (#[trigger] e.drop_last()[k]).0
            == f.drop_last()[k].0 && e.drop_last()[k].1 == f.drop_last()[k].1 by {
            assert(e[k].0 == f[k].0);
        }
        lemma_newest_by_ends(e.drop_last(), f.drop_last(), c, d);
    }
}

/// The same edge put into two lists that differ at most in what the edges from `a` to `b`
/// carry leaves two such lists; where the edge put is one from `a` to `b`, it leaves one.
proof fn lemma_put_both(
    e: Seq<(usize, usize, Edge)>,
    f: Seq<(usize, usize, Edge)>,
    a: usize,
    b: usize,
    c: usize,
    d: usize,
    weight: Edge,
)
    requires
        edges_same_but(e, f, a, b),
        single_edges(e),
    ensures
        edges_same_but(put_edge(e, c, d, weight), put_edge(f, c, d, weight), a, b),
        c == a && d == b ==> put_edge(e, c, d, weight) == put_edge(f, c, d, weight),
{
    lemma_newest_by_ends(e, f, c, d);
    lemma_newest_edge(e, c, d);
    let pe = put_edge(e, c, d, weight);
    let pf = put_edge(f, c, d, weight);
    if c == a && d == b {
        assert forall|k: int| 0 <= k < pe.len() implies pe[k] == pf[k] by {
            match newest_edge(e, c, d) {
                Some(m) => {
                    if k != m {
                        if k < m {
                            assert(!(e[k].0 == e[m].0 && e[k].1 == e[m].1));
                        } else {
                            assert(!(e[m].0 == e[k].0 && e[m].1 == e[k].1));
                        }
                        assert(e[k].2 == f[k].2);
                    }
                },
                None => {
                    if k < e.len() {
                        assert(!(e[k].0 == c && e[k].1 == d));
                        assert(e[k].2 == f[k].2);
                    }
                },
            }
        }
        assert(pe =~= pf);
    }
}

/// Two weights put on the same edge of one list leave two lists that differ at most in what
/// that edge carries.
proof fn lemma_put_two(
    e: Seq<(usize, usize, Edge)>,
    a: usize,
    b: usize,
    first: Edge,
    second: Edge,
)
    ensures
        edges_same_but(put_edge(e, a, b, first), put_edge(e, a, b, second), a, b),
{
    lemma_newest_edge(e, a, b);
}

/// A weight put on an edge that is there leaves a list that differs from the old one at
/// most in what that edge carries.
proof fn lemma_put_existing(e: Seq<(usize, usize, Edge)>, a: usize, b: usize, weight: Edge)
    requires
        exists|k: int| 0 <= k < e.len() && (#[trigger] e[k]).0 == a && e[k].1 == b,
    ensures
        edges_same_but(put_edge(e, a, b, weight), e, a, b),
{
    lemma_newest_edge(e, a, b);
}

/// Two lists without double edges that differ at most in what the edges from `a` to `b`
/// carry, and agree in that too, are one list.
proof fn lemma_same_edges(
    e: Seq<(usize, usize, Edge)>,
    f: Seq<(usize, usize, Edge)>,
    a: usize,
    b: usize,
    weight: Edge,
)
    requires
        edges_same_but(e, f, a, b),
        forall|k: int| 0 <= k < e.len() && (#[trigger] e[k]).0 == a && e[k].1 == b ==> e[k].2 == weight,
        forall|k: int| 0 <= k < f.len() && (#[trigger] f[k]).0 == a && f[k].1 == b ==> f[k].2 == weight,
    ensures
        e == f,
{
    assert forall|k: int| 0 <= k < e.len() implies e[k] == f[k] by {
        assert(e[k].0 == f[k].0 && e[k].1 == f[k].1);
    }
    assert(e =~= f);
}

/// Get or create does the same to two graphs that differ at most in what an edge carries.
proof fn lemma_with_node_both(x: Bindings, y: Bindings, a: usize, b: usize, key: Seq<Switch>)
    requires
        same_but(x, y, a, b),
    ensures
        same_but(x.with_node(key), y.with_node(key), a, b),
{
    lemma_down_frame(x, y);
}

/// Linking the same switches to a layer does the same to two graphs that differ at most in
/// what an edge carries.
proof fn lemma_with_members_both(
    x: Bindings,
    y: Bindings,
    a: usize,
    b: usize,
    members: Seq<Switch>,
    layer: usize,
)
    requires
        same_but(x, y, a, b),
        x.sound(),
        layer < x.keys.len(),
        x.keys[layer as int].len() >= 2,
        forall|s: Switch| members.contains(s) ==> x.keys[layer as int].contains(s),
        x.with_members(members, layer).keys.len() <= usize::MAX,
    ensures
        same_but(x.with_members(members, layer), y.with_members(members, layer), a, b),
    decreases members.len(),
{
    if members.len() > 0 {
        let front = members.drop_last();
        let last = members.last();
        let x0 = x.with_members(front, layer);
        let y0 = y.with_members(front, layer);
        let x1 = x0.with_node(seq![last]);
        let y1 = y0.with_node(seq![last]);
        assert forall|s: Switch| front.contains(s) implies x.keys[layer as int].contains(s) by {
            let i = choose|i: int| 0 <= i < front.len() && front[i] == s;
            assert(members[i] == s);
            assert(members.contains(s));
        }
        lemma_with_members(x, front, layer);
        lemma_with_members_both(x, y, a, b, front, layer);
        lemma_with_node_both(x0, y0, a, b, seq![last]);
        assert(seq![last].no_duplicates());
        lemma_with_node(x0, seq![last]);
        let n = x1.node_of(seq![last]).unwrap();
        assert(y1.node_of(seq![last]) == Some(n));
        lemma_put_both(x1.edges, y1.edges, a, b, n, layer, Edge::Layer);
    }
}

/// Linking switches that are linked already changes nothing.
proof fn lemma_with_members_again(g: Bindings, members: Seq<Switch>, layer: usize)
    requires
        g.sound(),
        forall|s: Switch| members.contains(s) ==> #[trigger] g.linked(layer, s),
    ensures
        g.with_members(members, layer) == g,
    decreases members.len(),
{
    if members.len() > 0 {
        let front = members.drop_last();
        let last = members.last();
        assert forall|s: Switch| front.contains(s) implies #[trigger] g.linked(layer, s) by {
            let i = choose|i: int| 0 <= i < front.len() && front[i] == s;
            assert(members[i] == s);
            assert(members.contains(s));
        }
        lemma_with_members_again(g, front, layer);
        assert(members[members.len() - 1] == last);
        assert(members.contains(last));
        assert(g.linked(layer, last));
        let n = g.node_of(seq![last]).unwrap();
        assert(g.with_node(seq![last]) == g);
        let k = choose|k: int| 0 <= k < g.edges.len() && g.edges[k] == (n, layer, Edge::Layer);
        lemma_newest_edge(g.edges, n, layer);
        let m = newest_edge(g.edges, n, layer).unwrap();
        if m < k {
            assert(!(g.edges[m].0 == g.edges[k].0 && g.edges[m].1 == g.edges[k].1));
        } else if k < m {
            assert(!(g.edges[k].0 == g.edges[m].0 && g.edges[k].1 == g.edges[m].1));
        }
        assert(put_edge(g.edges, n, layer, Edge::Layer) =~= g.edges);
    }
}

/// Rebinding: binding a chord to one action and then to another leaves the graph that
/// binding it to the second alone leaves. Nothing of the first binding stays.
pub proof fn law_rebind(g: Bindings, chord: Seq<Switch>, first: AnyKey, second: AnyKey)
    requires
        g.inv(),
        0 < chord.len() <= usize::MAX,
        g.bound(chord, first).keys.len() <= usize::MAX,
    ensures
        g.bound(chord, first).bound(chord, second) == g.bound(chord, second),
{
    let last = chord.last();
    let layer = distinct(chord.drop_last());
    lemma_distinct(chord.drop_last());
    let one = g.with_node(seq![last]);
    let both = one.with_node(layer);
    let t = both.node_of(seq![last]).unwrap();
    let l = both.node_of(layer).unwrap();
    let y1 = both.with_edge(t, l, Edge::Action(first));
    let y2 = both.with_edge(t, l, Edge::Action(second));
    let members = both.keys[l as int];
    let g1 = g.bound(chord, first);
    let z2 = g.bound(chord, second);
    if members.len() > 1 {
        lemma_with_members_grows(y1, members, l);
    }
    assert(seq![last].no_duplicates());
    lemma_with_node(g, seq![last]);
    lemma_with_node(one, layer);
    lemma_switch_node(both, last);
    lemma_node_of(both, layer);
    lemma_with_edge(both, t, l, Edge::Action(first));
    lemma_with_edge(both, t, l, Edge::Action(second));
    // the two first bindings differ at most in what the chord's edge carries
    lemma_put_two(both.edges, t, l, Edge::Action(first), Edge::Action(second));
    assert(same_but(y1, y2, t, l));
    if members.len() > 1 {
        lemma_with_members(y1, members, l);
        lemma_with_members_both(y1, y2, t, l, members, l);
    }
    assert(same_but(g1, z2, t, l));
    lemma_bound_inv(g, chord, first);
    lemma_bound_inv(g, chord, second);
    law_bind_replaces(g, chord, first);
    law_bind_replaces(g, chord, second);
    // the second binding finds every node in place
    assert(g1.node_of(seq![last]) == Some(t));
    assert(g1.node_of(layer) == Some(l));
    assert(g1.with_node(seq![last]).with_node(layer) == g1);
    let h1 = g1.with_edge(t, l, Edge::Action(second));
    let h2 = z2.with_edge(t, l, Edge::Action(second));
    lemma_put_both(g1.edges, z2.edges, t, l, t, l, Edge::Action(second));
    assert(h1 == h2);
    assert(exists|k: int| 0 <= k < z2.edges.len() && (#[trigger] z2.edges[k]).0 == t && z2.edges[k].1 == l) by {
        let weight = if z2.keys[l as int].len() >= 2 && z2.keys[l as int].contains(last) {
            Edge::Layer
        } else {
            Edge::Action(second)
        };
        let k = choose|k: int| 0 <= k < z2.edges.len() && z2.edges[k] == (t, l, weight);
        assert(z2.edges[k].0 == t && z2.edges[k].1 == l);
    }
    lemma_put_existing(z2.edges, t, l, Edge::Action(second));
    assert(same_but(h2, z2, t, l));
    let again = g1.bound(chord, second);
    assert(z2.keys[l as int] == members);
    assert(h2.keys[l as int] == members);
    if members.len() > 1 {
        lemma_with_edge(z2, t, l, Edge::Action(second));
        assert(again == h2.with_members(members, l));
        lemma_with_members_grows(h2, members, l);
        assert(h2.with_members(members, l).keys.len() <= usize::MAX) by {
            lemma_with_members_both_keys(h2, z2, t, l, members, l);
            lemma_with_members_again_linked(z2, members, l);
        }
        lemma_with_members_both(h2, z2, t, l, members, l);
        lemma_with_members_again_linked(z2, members, l);
        assert(same_but(again, z2, t, l));
    } else {
        assert(again == h2);
    }
    law_bind_replaces(g1, chord, second);
    let weight = if z2.keys[l as int].len() >= 2 && z2.keys[l as int].contains(last) {
        Edge::Layer
    } else {
        Edge::Action(second)
    };
    assert(again.keys == z2.keys);
    assert(again.node_of(seq![last]) == Some(t));
    assert(again.node_of(layer) == Some(l));
    lemma_same_edges(again.edges, z2.edges, t, l, weight);
}

/// In a graph that meets the invariant, linking the switches of a layer again changes
/// nothing.
proof fn lemma_with_members_again_linked(g: Bindings, members: Seq<Switch>, layer: usize)
    requires
        g.inv(),
        layer < g.keys.len(),
        g.keys[layer as int].len() >= 2,
        members == g.keys[layer as int],
    ensures
        g.with_members(members, layer) == g,
{
    assert forall|s: Switch| members.contains(s) implies #[trigger] g.linked(layer, s) by {}
    lemma_with_members_again(g, members, layer);
}

/// Linking the same switches to a layer gives two graphs with the same keys the same keys.
proof fn lemma_with_members_both_keys(
    x: Bindings,
    y: Bindings,
    a: usize,
    b: usize,
    members: Seq<Switch>,
    layer: usize,
)
    requires
        x.keys == y.keys,
        x.nodes == y.nodes,
    ensures
        x.with_members(members, layer).keys == y.with_members(members, layer).keys,
        x.with_members(members, layer).nodes == y.with_members(members, layer).nodes,
    decreases members.len(),
{
    if members.len() > 0 {
        let front = members.drop_last();
        lemma_with_members_both_keys(x, y, a, b, front, layer);
        lemma_down_frame(x.with_members(front, layer), y.with_members(front, layer));
    }
}

} // verus!
