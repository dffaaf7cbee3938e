//! What holds of the resolver whatever is bound and whatever is pressed.
use crate::graph::{newest_edge, outgoing_of, Edge};
use crate::keymap::AnyKey;
use crate::lemmas::{
    lemma_count_full, lemma_first_named, lemma_first_named_is, lemma_outgoing,
    lemma_outgoing_targets,
};
use crate::soundness::{
    lemma_bound_inv, lemma_counted_back, lemma_counted_up, lemma_node_of, lemma_switch_node,
    lemma_with_edge, lemma_with_members, lemma_with_members_grows, lemma_with_node,
};
use crate::state::{first_named, Bindings, State};
use crate::switch::{distinct, lemma_distinct, same_switches, Switch};
use vstd::prelude::*;

verus! {

/// The state after the switches of `keys` went down one after the other.
pub open spec fn pressed_all(s: State, keys: Seq<Switch>) -> State
    decreases keys.len(),
{
    if keys.len() == 0 {
        s
    } else {
        pressed_all(s, keys.drop_last()).press(keys.last())
    }
}

/// The graph without bindings meets the invariant.
pub proof fn law_empty_meets_invariant()
    ensures
        State::empty().graph.inv(),
{
}

/// A press keeps the invariant of the graph, changes neither its keys nor its edges, and
/// leaves down what was down, and the pressed switch too if it has a node.
pub proof fn law_press_keeps_invariant(s: State, key: Switch)
    requires
        s.graph.inv(),
    ensures
        s.press(key).graph.inv(),
        s.press(key).graph.keys == s.graph.keys,
        s.press(key).graph.edges == s.graph.edges,
        s.press(key).graph.down() == (if s.graph.node_of(seq![key]) is Some {
            s.graph.down().insert(key)
        } else {
            s.graph.down()
        }),
{
    lemma_switch_node(s.graph, key);
    match s.graph.node_of(seq![key]) {
        None => {},
        Some(i) => {
            if s.graph.nodes[i as int].active == 0 {
                lemma_counted_up(s.graph, key);
            } else {
                assert(s.graph.is_down(key));
                assert(s.graph.down().insert(key) =~= s.graph.down());
            }
        },
    }
}

/// A release keeps the invariant of the graph, changes neither its keys nor its edges, and
/// leaves down what was down but the released switch.
pub proof fn law_release_keeps_invariant(s: State, key: Switch)
    requires
        s.graph.inv(),
    ensures
        s.release(key).graph.inv(),
        s.release(key).graph.keys == s.graph.keys,
        s.release(key).graph.edges == s.graph.edges,
        s.release(key).graph.down() == s.graph.down().remove(key),
{
    lemma_switch_node(s.graph, key);
    match s.graph.node_of(seq![key]) {
        None => {
            assert(!s.graph.is_down(key));
            assert(s.graph.down().remove(key) =~= s.graph.down());
        },
        Some(i) => {
            if s.graph.nodes[i as int].active != 0 {
                lemma_counted_back(s.graph, key);
            } else {
                assert(!s.graph.is_down(key));
                assert(s.graph.down().remove(key) =~= s.graph.down());
            }
        },
    }
}

/// The start of a frame keeps the invariant of the graph.
pub proof fn law_update_keeps_invariant(s: State)
    requires
        s.graph.inv(),
    ensures
        s.update().graph.inv(),
{
    law_release_keeps_invariant(s.cleared(), Switch::MouseMotion);
    law_release_keeps_invariant(s.cleared().release(Switch::MouseMotion), Switch::MouseScroll);
}

/// Binding a chord keeps the invariant of the graph, as long as the nodes can still be
/// numbered. It presses and releases nothing, and neither starts nor ends an action.
pub proof fn law_bind_keeps_invariant(
    s: State,
    chord: Seq<Switch>,
    action: AnyKey,
    label: Seq<char>,
)
    requires
        s.graph.inv(),
        0 < chord.len() <= usize::MAX,
        s.bind(chord, action, label).graph.keys.len() <= usize::MAX,
    ensures
        s.bind(chord, action, label).graph.inv(),
        s.bind(chord, action, label).graph.down() == s.graph.down(),
        s.bind(chord, action, label).active == s.active,
        s.bind(chord, action, label).just_activated == s.just_activated,
        s.bind(chord, action, label).just_deactivated == s.just_deactivated,
{
    lemma_bound_inv(s.graph, chord, action);
}

/// Pressing a switch twice, with no release between, is pressing it once.
pub proof fn law_press_idempotent(s: State, key: Switch)
    requires
        s.graph.inv(),
    ensures
        s.press(key).press(key) == s.press(key),
{
    lemma_switch_node(s.graph, key);
    match s.graph.node_of(seq![key]) {
        None => {},
        Some(i) => {
            if s.graph.nodes[i as int].active == 0 {
                let once = s.press(key);
                assert(once.graph == s.graph.counted(i, 1));
                assert(once.graph.nodes[i as int].active == 1);
            }
        },
    }
}

/// Releasing a switch twice, with no press between, is releasing it once.
pub proof fn law_release_idempotent(s: State, key: Switch)
    requires
        s.graph.inv(),
    ensures
        s.release(key).release(key) == s.release(key),
{
    lemma_switch_node(s.graph, key);
    match s.graph.node_of(seq![key]) {
        None => {},
        Some(i) => {
            if s.graph.nodes[i as int].active != 0 {
                lemma_counted_back(s.graph, key);
                let once = s.release(key);
                assert(once.graph.nodes[i as int].active == 0);
            }
        },
    }
}

/// A press of a switch that no binding names, and a release of one, change nothing.
pub proof fn law_unknown_switch_ignored(s: State, key: Switch)
    requires
        s.graph.node_of(seq![key]) is None,
    ensures
        s.press(key) == s,
        s.release(key) == s,
{
}

/// A press activates at most one action, and only one that an action edge out of the
/// pressed switch carries; it ends none.
pub proof fn law_press_fires_carried(s: State, key: Switch)
    requires
        s.graph.inv(),
    ensures
        s.active.subset_of(s.press(key).active),
        s.press(key).just_deactivated == s.just_deactivated,
        forall|a: AnyKey| #[trigger]
            s.press(key).active.contains(a) && !s.active.contains(a) ==> s.graph.node_of(
                seq![key],
            ) is Some && s.graph.carried(s.graph.node_of(seq![key]).unwrap()).contains(a)
                && s.press(key).just_activated.contains(a),
        forall|a: AnyKey, b: AnyKey|
            s.press(key).active.contains(a) && !s.active.contains(a) && s.press(
                key,
            ).active.contains(b) && !s.active.contains(b) ==> a == b,
{
    match s.graph.node_of(seq![key]) {
        None => {},
        Some(i) => {
            if s.graph.nodes[i as int].active == 0 {
                let up = s.graph.counted(i, 1);
                let out = outgoing_of(up.edges, i);
                match up.choice(i) {
                    None => {},
                    Some(a) => {
                        let p = choose|p: int| up.wins(out, p);
                        assert(out[p].1 == Edge::Action(a));
                        assert(s.graph.carried(i).contains(a));
                    },
                }
            }
        },
    }
}

/// The start of a frame leaves no action marked as just activated and no delta, and marks
/// as just deactivated exactly the actions that it ended: those that were active and hung
/// on one of the two pseudo-switches.
pub proof fn law_update_wipes_marks(s: State)
    ensures
        s.update().just_activated == Set::<AnyKey>::empty(),
        s.update().motion == (0i64, 0i64),
        s.update().scroll == 0,
        s.update().active.subset_of(s.active),
        s.update().just_deactivated == s.active.difference(s.update().active),
        s.update().labels == s.labels,
{
    let c = s.cleared();
    let m = c.release(Switch::MouseMotion);
    let r = m.release(Switch::MouseScroll);
    assert(m.just_deactivated =~= s.active.difference(m.active));
    assert(r.just_deactivated =~= s.active.difference(r.active));
}

/// Per-frame transience: while neither pseudo-switch is down, the start of a frame wipes
/// the marks and the deltas and leaves the active actions and the graph untouched.
pub proof fn law_update_keeps_active(s: State)
    requires
        s.graph.inv(),
        !s.graph.is_down(Switch::MouseMotion),
        !s.graph.is_down(Switch::MouseScroll),
    ensures
        s.update() == s.cleared(),
        s.update().active == s.active,
        s.update().graph == s.graph,
        s.update().just_activated == Set::<AnyKey>::empty(),
        s.update().just_deactivated == Set::<AnyKey>::empty(),
{
}

/// Whatever was pressed, the two pseudo-switches are up after the start of a frame.
pub proof fn law_update_releases_pseudo_switches(s: State)
    requires
        s.graph.inv(),
    ensures
        !s.update().graph.is_down(Switch::MouseMotion),
        !s.update().graph.is_down(Switch::MouseScroll),
{
    let c = s.cleared();
    let m = c.release(Switch::MouseMotion);
    law_release_keeps_invariant(c, Switch::MouseMotion);
    law_release_keeps_invariant(m, Switch::MouseScroll);
    let r = m.release(Switch::MouseScroll);
    assert(!r.graph.down().contains(Switch::MouseScroll));
    assert(!m.graph.down().contains(Switch::MouseMotion));
    assert(!r.graph.down().contains(Switch::MouseMotion));
}

/// Two graphs that meet the invariant and agree in keys, edges and the switches that are
/// down are the same graph: the counters follow from the rest.
pub proof fn law_counters_determined(g: Bindings, h: Bindings)
    requires
        g.inv(),
        h.inv(),
        g.keys == h.keys,
        g.edges == h.edges,
        g.down() == h.down(),
    ensures
        g == h,
{
    assert forall|i: int| 0 <= i < g.nodes.len() implies g.nodes[i] == h.nodes[i] by {
        assert(g.nodes[i].active == h.nodes[i].active);
        assert(g.keys[i].no_duplicates());
        assert(h.keys[i].no_duplicates());
    }
    assert(g.nodes =~= h.nodes);
}

/// After a run of presses the graph keeps its keys and edges and meets the invariant, and
/// down are the switches that were down and those of the run that have a node.
pub proof fn lemma_pressed_all(s: State, keys: Seq<Switch>)
    requires
        s.graph.inv(),
    ensures
        pressed_all(s, keys).graph.inv(),
        pressed_all(s, keys).graph.keys == s.graph.keys,
        pressed_all(s, keys).graph.edges == s.graph.edges,
        pressed_all(s, keys).graph.down() == s.graph.down().union(
            Set::new(|x: Switch| keys.contains(x) && s.graph.node_of(seq![x]) is Some),
        ),
    decreases keys.len(),
{
    let known = Set::new(|x: Switch| keys.contains(x) && s.graph.node_of(seq![x]) is Some);
    if keys.len() == 0 {
        assert(s.graph.down().union(known) =~= s.graph.down());
    } else {
        let front = keys.drop_last();
        let before = pressed_all(s, front);
        lemma_pressed_all(s, front);
        law_press_keeps_invariant(before, keys.last());
        let known_front = Set::new(
            |x: Switch| front.contains(x) && s.graph.node_of(seq![x]) is Some,
        );
        assert forall|x: Switch| keys.contains(x) == (front.contains(x) || x == keys.last()) by {
            if keys.contains(x) {
                let i = choose|i: int| 0 <= i < keys.len() && keys[i] == x;
                if i < keys.len() - 1 {
                    assert(front[i] == x);
                }
            }
            if front.contains(x) {
                let i = choose|i: int| 0 <= i < front.len() && front[i] == x;
                assert(keys[i] == x);
            }
            assert(keys[keys.len() - 1] == keys.last());
        }
        assert(before.graph.node_of(seq![keys.last()]) == s.graph.node_of(seq![keys.last()]));
        assert(pressed_all(s, keys).graph.down() =~= s.graph.down().union(known));
    }
}

/// Order independence of the counters: two runs of presses that name the same switches, in
/// whatever order and however often, leave the same graph. What a further press sets off
/// is therefore the same after both.
pub proof fn law_press_order_independent(s: State, first: Seq<Switch>, second: Seq<Switch>)
    requires
        s.graph.inv(),
        same_switches(first, second),
    ensures
        pressed_all(s, first).graph == pressed_all(s, second).graph,
        forall|key: Switch|
            pressed_all(s, first).press(key).graph == pressed_all(s, second).press(key).graph,
{
    lemma_pressed_all(s, first);
    lemma_pressed_all(s, second);
    let a = pressed_all(s, first).graph;
    let b = pressed_all(s, second).graph;
    assert(a.down() =~= b.down());
    law_counters_determined(a, b);
}

/// A press and the release that follows it leave the graph as it was, if the switch was up
/// before: no counter keeps a trace of the pair.
pub proof fn law_press_release_restores_graph(s: State, key: Switch)
    requires
        s.graph.inv(),
        !s.graph.is_down(key),
    ensures
        s.press(key).release(key).graph == s.graph,
{
    law_press_keeps_invariant(s, key);
    law_release_keeps_invariant(s.press(key), key);
    let back = s.press(key).release(key).graph;
    assert(!s.graph.down().contains(key));
    assert(back.down() =~= s.graph.down());
    law_counters_determined(back, s.graph);
}

/// A node is satisfied exactly while every switch of its key is down.
pub proof fn law_satisfied_when_all_down(g: Bindings, i: usize)
    requires
        g.inv(),
        i < g.keys.len(),
    ensures
        g.satisfied(i) <==> forall|x: Switch| g.keys[i as int].contains(x) ==> g.is_down(x),
{
    lemma_count_full(g.keys[i as int], g.down());
    assert(g.nodes[i as int].active == crate::state::count_in(g.keys[i as int], g.down()));
    assert(g.keys[i as int].no_duplicates());
    assert forall|x: Switch| g.down().contains(x) == g.is_down(x) by {}
}

/// Rebinding: after a chord is bound, the one edge from the node of its last switch to the
/// node of its layer carries the action bound last, whatever it carried before. The one
/// exception is a chord whose last switch is also among two or more others: its edge is the
/// layer edge of that switch, and the chord sets off nothing.
pub proof fn law_bind_replaces(g: Bindings, chord: Seq<Switch>, action: AnyKey)
    requires
        g.inv(),
        0 < chord.len() <= usize::MAX,
        g.bound(chord, action).keys.len() <= usize::MAX,
    ensures
        g.bound(chord, action).node_of(seq![chord.last()]) is Some,
        g.bound(chord, action).node_of(distinct(chord.drop_last())) is Some,
        ({
            let z = g.bound(chord, action);
            let t = z.node_of(seq![chord.last()]).unwrap();
            let l = z.node_of(distinct(chord.drop_last())).unwrap();
            let weight = if z.keys[l as int].len() >= 2 && z.keys[l as int].contains(chord.last()) {
                Edge::Layer
            } else {
                Edge::Action(action)
            };
            &&& z.edges.contains((t, l, weight))
            &&& forall|k: int|
                0 <= k < z.edges.len() && (#[trigger] z.edges[k]).0 == t && z.edges[k].1 == l
                    ==> z.edges[k].2 == weight
        }),
{
    let last = chord.last();
    let layer = distinct(chord.drop_last());
    lemma_distinct(chord.drop_last());
    let s1 = g.with_node(seq![last]);
    let s2 = s1.with_node(layer);
    let tn = s2.node_of(seq![last]).unwrap();
    let ln = s2.node_of(layer).unwrap();
    let h = s2.with_edge(tn, ln, Edge::Action(action));
    let z = g.bound(chord, action);
    if h.keys[ln as int].len() > 1 {
        lemma_with_members_grows(h, h.keys[ln as int], ln);
    }
    assert(seq![last].no_duplicates());
    lemma_with_node(g, seq![last]);
    lemma_with_node(s1, layer);
    lemma_switch_node(s2, last);
    lemma_node_of(s2, layer);
    lemma_with_edge(s2, tn, ln, Edge::Action(action));
    lemma_bound_inv(g, chord, action);
    assert(h.node_of(seq![last]) == Some(tn));
    assert(h.node_of(layer) == Some(ln));
    let weight = if z.keys[ln as int].len() >= 2 && z.keys[ln as int].contains(last) {
        Edge::Layer
    } else {
        Edge::Action(action)
    };
    if h.keys[ln as int].len() > 1 {
        let members = h.keys[ln as int];
        lemma_with_members(h, members, ln);
        assert(z.node_of(seq![last]) == Some(tn));
        assert(z.node_of(layer) == Some(ln));
        assert(z.keys[ln as int] == members);
        if members.contains(last) {
            assert(z.linked(ln, last));
        } else {
            assert(h.keys[tn as int][0] == last);
            assert(z.edges.contains((tn, ln, Edge::Action(action))));
        }
    }
    assert(z.edges.contains((tn, ln, weight)));
    assert forall|k: int|
        0 <= k < z.edges.len() && (#[trigger] z.edges[k]).0 == tn && z.edges[k].1
            == ln implies z.edges[k].2 == weight by {
        let m = choose|m: int| 0 <= m < z.edges.len() && z.edges[m] == (tn, ln, weight);
        if k < m {
            assert(!(z.edges[k].0 == z.edges[m].0 && z.edges[k].1 == z.edges[m].1));
        } else if m < k {
            assert(!(z.edges[m].0 == z.edges[k].0 && z.edges[m].1 == z.edges[k].1));
        }
    }
}

/// Chord precedence: a press of the last switch of a bound chord, made while the chord's
/// other switches are down, sets off the chord's action, unless another chord on the same
/// last switch is complete too and has as many switches or more.
pub proof fn law_chord_fires(s: State, last: Switch, layer: usize, action: AnyKey)
    requires
        s.graph.inv(),
        s.graph.node_of(seq![last]) is Some,
        !s.graph.is_down(last),
        s.graph.edges.contains((s.graph.node_of(seq![last]).unwrap(), layer, Edge::Action(action))),
        forall|x: Switch|
            s.graph.keys[layer as int].contains(x) ==> x == last || s.graph.is_down(x),
        forall|j: usize, b: AnyKey|
            j != layer && #[trigger] s.graph.edges.contains(
                (s.graph.node_of(seq![last]).unwrap(), j, Edge::Action(b)),
            ) ==> s.graph.keys[j as int].len() < s.graph.keys[layer as int].len() || exists|
                x: Switch,
            |
                s.graph.keys[j as int].contains(x) && x != last && !s.graph.is_down(x),
    ensures
        s.press(last).active.contains(action),
        !s.active.contains(action) ==> s.press(last).just_activated.contains(action),
        s.press(last).graph.satisfied(layer),
{
    let g = s.graph;
    let t = g.node_of(seq![last]).unwrap();
    lemma_switch_node(g, last);
    assert(g.nodes[t as int].active == 0);
    lemma_counted_up(g, last);
    let up = g.counted(t, 1);
    let out = outgoing_of(g.edges, t);
    lemma_outgoing(g.edges, t);
    lemma_outgoing_targets(g.edges, t);
    let k = choose|k: int| 0 <= k < g.edges.len() && g.edges[k] == (t, layer, Edge::Action(action));
    assert(g.edges[k].0 == t && g.edges[k].1 < g.keys.len());
    assert(out.contains((layer, Edge::Action(action))));
    let p = choose|p: int| 0 <= p < out.len() && out[p] == (layer, Edge::Action(action));
    assert forall|x: Switch| up.down().contains(x) == (x == last || g.is_down(x)) by {
        assert(g.down().contains(x) == g.is_down(x));
    }
    assert forall|x: Switch| up.is_down(x) == up.down().contains(x) by {}
    law_satisfied_when_all_down(up, layer);
    assert(up.satisfied(layer));
    assert(up.candidate(out, p));
    assert forall|q: int| #[trigger] up.candidate(out, q) implies {
        ||| up.nodes[out[q].0 as int].threshold < up.nodes[out[p].0 as int].threshold
        ||| (up.nodes[out[q].0 as int].threshold == up.nodes[out[p].0 as int].threshold && p <= q)
    } by {
        let j = out[q].0;
        if j != layer {
            assert(g.edges.contains((t, out[q].0, out[q].1)));
            let b = match out[q].1 {
                Edge::Action(b) => b,
                Edge::Layer => action,
            };
            assert(out[q].1 == Edge::Action(b));
            assert(g.edges.contains((t, j, Edge::Action(b))));
            law_satisfied_when_all_down(up, j);
            assert(g.keys[j as int].len() < g.keys[layer as int].len());
        } else {
            if q < p {
                assert(out[q].0 != out[p].0);
            }
        }
    }
    assert(up.wins(out, p));
    let c = choose|c: int| up.wins(out, c);
    assert(up.candidate(out, c));
    assert(up.candidate(out, p));
    assert(c == p);
    assert(up.choice(t) == Some(action));
}

/// Order independence for the other switches of a chord: a run of presses that names the
/// switches of a bound chord's layer, in whatever order, followed by a press of the chord's
/// last switch, sets off the chord's action, unless another chord on the same last switch
/// is complete too and has as many switches or more.
pub proof fn law_chord_any_order(
    s: State,
    run: Seq<Switch>,
    last: Switch,
    layer: usize,
    action: AnyKey,
)
    requires
        s.graph.inv(),
        s.graph.node_of(seq![last]) is Some,
        layer < s.graph.keys.len(),
        !s.graph.is_down(last),
        !run.contains(last),
        s.graph.edges.contains((s.graph.node_of(seq![last]).unwrap(), layer, Edge::Action(action))),
        forall|x: Switch|
            s.graph.keys[layer as int].contains(x) ==> x == last || s.graph.is_down(x)
                || run.contains(x),
        forall|j: usize, b: AnyKey|
            j != layer && #[trigger] s.graph.edges.contains(
                (s.graph.node_of(seq![last]).unwrap(), j, Edge::Action(b)),
            ) ==> s.graph.keys[j as int].len() < s.graph.keys[layer as int].len() || exists|
                x: Switch,
            |
                s.graph.keys[j as int].contains(x) && x != last && !s.graph.is_down(x)
                    && !run.contains(x),
    ensures
        pressed_all(s, run).press(last).active.contains(action),
{
    let g = s.graph;
    let r = pressed_all(s, run);
    let t = g.node_of(seq![last]).unwrap();
    lemma_pressed_all(s, run);
    lemma_switch_node(g, last);
    let known = Set::new(|x: Switch| run.contains(x) && g.node_of(seq![x]) is Some);
    assert forall|x: Switch| r.graph.is_down(x) == (g.is_down(x) || (run.contains(x) && g.node_of(
        seq![x],
    ) is Some)) by {
        assert(r.graph.down().contains(x) == r.graph.is_down(x));
        assert(g.down().contains(x) == g.is_down(x));
        assert(known.contains(x) == (run.contains(x) && g.node_of(seq![x]) is Some));
    }
    assert(r.graph.node_of(seq![last]) == Some(t));
    assert forall|x: Switch| r.graph.keys[layer as int].contains(x) implies x == last
        || r.graph.is_down(x) by {
        if x != last && !g.is_down(x) {
            assert(run.contains(x));
            if g.keys[layer as int].len() >= 2 {
                assert(g.linked(layer, x));
            } else {
                let i = choose|i: int|
                    0 <= i < g.keys[layer as int].len() && g.keys[layer as int][i] == x;
                assert(g.keys[layer as int] =~= seq![x]);
                assert(same_switches(g.keys[layer as int], seq![x]));
                lemma_node_of(g, seq![x]);
            }
        }
    }
    assert forall|j: usize, b: AnyKey|
        j != layer && #[trigger] r.graph.edges.contains((t, j, Edge::Action(b))) implies r.graph.keys[j as int].len()
            < r.graph.keys[layer as int].len() || exists|x: Switch|
        r.graph.keys[j as int].contains(x) && x != last && !r.graph.is_down(x) by {
        assert(g.edges.contains((t, j, Edge::Action(b))));
        if !(g.keys[j as int].len() < g.keys[layer as int].len()) {
            let x = choose|x: Switch|
                g.keys[j as int].contains(x) && x != last && !g.is_down(x) && !run.contains(x);
            assert(r.graph.keys[j as int].contains(x) && x != last && !r.graph.is_down(x));
        }
    }
    law_chord_fires(r, last, layer, action);
}

/// Single-switch round trip: on a resolver that holds nothing but the binding of one
/// ordinary switch to an action, a press of the switch makes the action active and just
/// activated until the next frame starts; it then stays active; a release makes it inactive
/// and just deactivated until the next frame starts.
pub proof fn law_single_switch_round_trip(key: Switch, action: AnyKey, label: Seq<char>)
    requires
        key != Switch::MouseMotion,
        key != Switch::MouseScroll,
    ensures
        ({
            let bound = State::empty().bind(seq![key], action, label);
            let pressed = bound.update().press(key);
            let held = pressed.update();
            let released = held.release(key);
            let after = released.update();
            &&& !bound.active.contains(action)
            &&& pressed.active.contains(action) && pressed.just_activated.contains(action)
            &&& held.active.contains(action) && !held.just_activated.contains(action)
            &&& !released.active.contains(action) && released.just_deactivated.contains(action)
            &&& !after.active.contains(action) && !after.just_deactivated.contains(action)
        }),
{
    let chord = seq![key];
    let bound = State::empty().bind(chord, action, label);
    let g = bound.graph;
    assert(chord.last() == key);
    assert(chord.drop_last() =~= Seq::<Switch>::empty());
    assert(distinct(chord.drop_last()) =~= Seq::<Switch>::empty());
    let layer = Seq::<Switch>::empty();
    // the graph of the one binding: the node of the switch, the root, and one edge
    let none = Bindings::empty();
    assert(chord[0] == key);
    assert(chord.contains(key));
    assert(!same_switches(chord, layer));
    assert(same_switches(layer, layer));
    assert(first_named(none.keys, chord) is None);
    let one = none.with_node(chord);
    assert(one.keys =~= seq![chord]);
    assert(one.keys[0] == chord);
    lemma_first_named(one.keys, layer);
    assert(first_named(one.keys, layer) is None);
    let two = one.with_node(layer);
    assert(two.keys =~= seq![chord, layer]);
    lemma_first_named_is(two.keys, chord, 0);
    lemma_first_named_is(two.keys, layer, 1);
    let t = 0usize;
    let l = 1usize;
    assert(two.node_of(chord) == Some(t));
    assert(two.node_of(layer) == Some(l));
    assert(newest_edge(two.edges, t, l) is None);
    let three = two.with_edge(t, l, Edge::Action(action));
    assert(three.edges =~= seq![(t, l, Edge::Action(action))]);
    assert(three.keys[l as int].len() == 0);
    assert(g == three);
    lemma_bound_inv(none, chord, action);
    assert(g.edges[0] == (t, l, Edge::Action(action)));
    assert(g.edges.contains((t, l, Edge::Action(action))));
    assert forall|x: Switch| !g.is_down(x) by {
        assert(!Bindings::empty().is_down(x));
        assert(g.down().contains(x) == g.is_down(x));
        assert(Bindings::empty().down().contains(x) == Bindings::empty().is_down(x));
    }
    // the frame starts, the switch goes down
    law_update_keeps_active(bound);
    let started = bound.update();
    law_chord_fires(started, key, l, action);
    let pressed = started.press(key);
    law_press_keeps_invariant(started, key);
    assert forall|x: Switch| pressed.graph.is_down(x) == (x == key) by {
        assert(pressed.graph.down().contains(x) == pressed.graph.is_down(x));
        assert(g.down().contains(x) == g.is_down(x));
    }
    // the next frame starts, the switch goes up
    law_update_keeps_active(pressed);
    let held = pressed.update();
    lemma_outgoing(g.edges, t);
    assert(held.graph.carried(t).contains(action)) by {
        let out = outgoing_of(g.edges, t);
        assert(g.edges[0] == (t, l, Edge::Action(action)));
        assert(out.contains((l, Edge::Action(action))));
        let p = choose|p: int| 0 <= p < out.len() && out[p] == (l, Edge::Action(action));
        assert(out[p].1 == Edge::Action(action));
    }
    let released = held.release(key);
    law_release_keeps_invariant(held, key);
    assert forall|x: Switch| !released.graph.is_down(x) by {
        assert(released.graph.down().contains(x) == released.graph.is_down(x));
        assert(held.graph.down().contains(x) == held.graph.is_down(x));
    }
    law_update_keeps_active(released);
}

/// A release ends exactly the active actions on the edges out of the released switch, and
/// starts none. An action whose edge leaves another switch stays, also where the released
/// switch is one of the other switches of its chord.
pub proof fn law_release_ends_carried(s: State, key: Switch)
    ensures
        s.release(key).active.subset_of(s.active),
        s.release(key).just_activated == s.just_activated,
        forall|a: AnyKey| #[trigger]
            s.active.contains(a) && !s.release(key).active.contains(a) ==> s.graph.node_of(
                seq![key],
            ) is Some && s.graph.carried(s.graph.node_of(seq![key]).unwrap()).contains(a)
                && s.release(key).just_deactivated.contains(a),
        forall|a: AnyKey| #[trigger]
            s.release(key).just_deactivated.contains(a) ==> s.just_deactivated.contains(a) || (
            s.active.contains(a) && !s.release(key).active.contains(a)),
{
}

/// Motion gating: on a resolver that holds nothing but the binding of an ordinary switch
/// and the motion pseudo-switch to an action, the motion of a frame is handed out for the
/// action while the switch is down, and is gone, with the action, when the next frame
/// starts.
pub proof fn law_motion_gating(
    button: Switch,
    action: AnyKey,
    label: Seq<char>,
    dx: i64,
    dy: i64,
)
    requires
        button != Switch::MouseMotion,
        button != Switch::MouseScroll,
        dx != 0 || dy != 0,
    ensures
        ({
            let bound = State::empty().bind(seq![button, Switch::MouseMotion], action, label);
            let held = bound.update().press(button);
            let moved = held.move_mouse(dx, dy);
            let next = moved.update();
            &&& bound.update().move_mouse(dx, dy).motion_of(action) is None
            &&& held.motion_of(action) is None
            &&& moved.motion_of(action) == Some((dx, dy))
            &&& moved.just_activated.contains(action)
            &&& next.motion_of(action) is None
            &&& next.just_deactivated.contains(action)
        }),
{
    let motion = Switch::MouseMotion;
    let chord = seq![button, motion];
    let bound = State::empty().bind(chord, action, label);
    let g = bound.graph;
    let single = seq![motion];
    let layer = seq![button];
    assert(chord.last() == motion);
    assert(chord.drop_last() =~= layer);
    assert(layer.drop_last() =~= Seq::<Switch>::empty());
    assert(distinct(layer.drop_last()) =~= Seq::<Switch>::empty());
    assert(distinct(layer) =~= layer);
    // the graph of the one binding: the node of the motion, the node of the switch, one edge
    let none = Bindings::empty();
    assert(single[0] == motion && layer[0] == button);
    assert(single.contains(motion) && layer.contains(button));
    assert(!same_switches(single, layer)) by {
        if same_switches(single, layer) {
            assert(layer.contains(motion));
        }
    }
    assert(same_switches(layer, layer));
    assert(first_named(none.keys, single) is None);
    let one = none.with_node(single);
    assert(one.keys =~= seq![single]);
    assert(one.keys[0] == single);
    lemma_first_named(one.keys, layer);
    assert(first_named(one.keys, layer) is None);
    let two = one.with_node(layer);
    assert(two.keys =~= seq![single, layer]);
    lemma_first_named_is(two.keys, single, 0);
    lemma_first_named_is(two.keys, layer, 1);
    let t = 0usize;
    let l = 1usize;
    assert(newest_edge(two.edges, t, l) is None);
    let three = two.with_edge(t, l, Edge::Action(action));
    assert(three.edges =~= seq![(t, l, Edge::Action(action))]);
    assert(three.keys[l as int].len() == 1);
    assert(g == three);
    lemma_bound_inv(none, chord, action);
    assert(g.edges[0] == (t, l, Edge::Action(action)));
    assert forall|x: Switch| !g.is_down(x) by {
        assert(!none.is_down(x));
        assert(g.down().contains(x) == g.is_down(x));
        assert(none.down().contains(x) == none.is_down(x));
    }
    lemma_outgoing(g.edges, t);
    lemma_outgoing(g.edges, l);
    assert(g.node_of(single) == Some(t));
    assert(g.node_of(layer) == Some(l));
    let out_t = outgoing_of(g.edges, t);
    let out_l = outgoing_of(g.edges, l);
    assert(out_l.len() == 0) by {
        if out_l.len() > 0 {
            assert(g.edges.contains((l, out_l[0].0, out_l[0].1)));
        }
    }
    assert(g.carried(t).contains(action)) by {
        assert(out_t.contains((l, Edge::Action(action))));
        let p = choose|p: int| 0 <= p < out_t.len() && out_t[p] == (l, Edge::Action(action));
        assert(out_t[p].1 == Edge::Action(action));
    }
    // motion without the switch sets off nothing
    law_update_keeps_active(bound);
    let started = bound.update();
    let early = started.move_mouse(dx, dy);
    assert(early.active =~= Set::<AnyKey>::empty()) by {
        law_press_fires_carried(started, motion);
        lemma_switch_node(g, motion);
        let up = g.counted(t, 1);
        lemma_counted_up(g, motion);
        law_satisfied_when_all_down(up, l);
        assert(up.keys[l as int].contains(button));
        assert(!up.is_down(button)) by {
            assert(up.down().contains(button) == up.is_down(button));
            assert(g.down().contains(button) == g.is_down(button));
        }
        assert(!up.satisfied(l));
        assert forall|p: int| !up.wins(out_t, p) by {
            if up.candidate(out_t, p) {
                assert(g.edges.contains((t, out_t[p].0, out_t[p].1)));
            }
        }
        assert(up.choice(t) is None);
    }
    // the switch goes down: no action hangs on it
    let held = started.press(button);
    law_press_keeps_invariant(started, button);
    assert(held.active =~= Set::<AnyKey>::empty()) by {
        let up = g.counted(l, 1);
        assert forall|p: int| !up.wins(out_l, p) by {}
        assert(up.choice(l) is None);
    }
    assert forall|x: Switch| held.graph.is_down(x) == (x == button) by {
        assert(held.graph.down().contains(x) == held.graph.is_down(x));
        assert(g.down().contains(x) == g.is_down(x));
    }
    // the mouse moves
    assert forall|j: usize, b: AnyKey|
        j != l && #[trigger] held.graph.edges.contains((t, j, Edge::Action(b))) implies false by {
        let k = choose|k: int|
            0 <= k < held.graph.edges.len() && held.graph.edges[k] == (t, j, Edge::Action(b));
        assert(k == 0);
    }
    assert forall|x: Switch| held.graph.keys[l as int].contains(x) implies x == motion
        || held.graph.is_down(x) by {
        let i = choose|i: int| 0 <= i < layer.len() && layer[i] == x;
        assert(x == button);
    }
    law_chord_fires(held, motion, l, action);
    let moved = held.move_mouse(dx, dy);
    law_press_keeps_invariant(held, motion);
    // the next frame starts
    let pressed = held.press(motion);
    assert(pressed.graph.is_down(motion)) by {
        assert(pressed.graph.down().contains(motion) == pressed.graph.is_down(motion));
    }
    assert(pressed.graph.carried(t).contains(action)) by {
        assert(out_t.contains((l, Edge::Action(action))));
        let p = choose|p: int| 0 <= p < out_t.len() && out_t[p] == (l, Edge::Action(action));
        assert(out_t[p].1 == Edge::Action(action));
    }
    let wiped = moved.cleared();
    let let_go = wiped.release(motion);
    assert(!let_go.active.contains(action));
    assert(let_go.just_deactivated.contains(action));
    law_release_ends_carried(let_go, Switch::MouseScroll);
}

} // verus!
