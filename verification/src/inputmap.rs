//! The resolver itself: a graph of bindings, the actions that are active, and the marks and
//! deltas of the current frame.
//!
//! A switch is one kind of user input: a key, a mouse button, or, more loosely, some motion of
//! the mouse. A binding maps a chord of switches to an action. Binding the chord `[A]` gives
//! the node of `A` an action edge to the root node, which needs no switch. Binding
//! `[LAlt, A]` gives the node of `A` an action edge to the node of `LAlt`. Binding
//! `[LAlt, LCtrl, A]` makes a layer node for `LAlt` and `LCtrl`, a layer edge from each of the
//! two to it, and an action edge from the node of `A` to it.
use crate::graph::{
    add_node, new_graph, node_weight, outgoing, outgoing_of, set_node_weight, update_edge, Edge,
    Node,
};
use crate::graph::{graph_edges, graph_nodes};
use crate::keymap::{lemma_code_injective, AnyKey};
use crate::lemmas::{lemma_first_named, lemma_outgoing, lemma_outgoing_targets};
use crate::soundness::{
    lemma_bound_inv, lemma_counted_back, lemma_counted_up, lemma_node_of, lemma_switch_node,
    lemma_with_edge, lemma_with_node,
};
use crate::state::{clamped_sum, count_in, Bindings, State};
use crate::switch::{dedup, distinct, lemma_distinct, same_set, same_switches, Switch};
use petgraph::graph::Graph;
use petgraph::Directed;
use std::collections::HashMap;
use std::collections::HashSet;
use vstd::prelude::*;
use vstd::slice::{slice_subrange, slice_to_vec};
use vstd::std_specs::hash::*;

verus! {

broadcast use vstd::std_specs::hash::group_hash_axioms;

/// Why a chord was not bound.
#[derive(Clone, Copy, Debug, PartialEq, Eq, Structural)]
pub enum BindError {
    /// The chord holds no switch.
    EmptyChord,
}

/// The input resolver: bindings from chords of switches to actions, and the state that
/// presses and releases leave.
#[derive(Debug)]
pub struct MappedInput {
    bindings: Graph<Node, Edge, Directed, usize>,
    nodes: Vec<Vec<Switch>>,
    active: HashSet<u64>,
    just_activated: HashSet<u64>,
    just_deactivated: HashSet<u64>,
    mouse_motion: (i64, i64),
    mouse_scroll: i64,
    labels: HashMap<u64, String>,
}

/// The identifiers whose codes are in `codes`.
pub open spec fn decoded(codes: Set<u64>) -> Set<AnyKey> {
    Set::new(|a: AnyKey| codes.contains(a.code()))
}

/// Adding a code adds its identifier.
proof fn lemma_decoded_insert(codes: Set<u64>, a: AnyKey)
    ensures
        decoded(codes.insert(a.code())) == decoded(codes).insert(a),
{
    assert forall|b: AnyKey| decoded(codes.insert(a.code())).contains(b) == decoded(codes).insert(
        a,
    ).contains(b) by {
        lemma_code_injective(a, b);
    }
    assert(decoded(codes.insert(a.code())) =~= decoded(codes).insert(a));
}

/// Removing a code removes its identifier.
proof fn lemma_decoded_remove(codes: Set<u64>, a: AnyKey)
    ensures
        decoded(codes.remove(a.code())) == decoded(codes).remove(a),
{
    assert forall|b: AnyKey| decoded(codes.remove(a.code())).contains(b) == decoded(codes).remove(
        a,
    ).contains(b) by {
        lemma_code_injective(a, b);
    }
    assert(decoded(codes.remove(a.code())) =~= decoded(codes).remove(a));
}

/// The actions on the first `p` entries of the walk `out`.
pub open spec fn ended(out: Seq<(usize, Edge)>, p: int) -> Set<AnyKey> {
    Set::new(|a: AnyKey| exists|q: int| 0 <= q < p && (#[trigger] out[q]).1 == Edge::Action(a))
}

/// The sum of two deltas, held at the bounds of `i64`.
pub fn clamp_add(a: i64, b: i64) -> (sum: i64)
    ensures
        sum == clamped_sum(a, b),
{
    match a.checked_add(b) {
        Some(sum) => sum,
        None => if b > 0 {
            i64::MAX
        } else {
            i64::MIN
        },
    }
}

impl View for MappedInput {
    type V = State;

    closed spec fn view(&self) -> State {
        State {
            graph: Bindings {
                keys: Seq::new(self.nodes@.len(), |i: int| self.nodes@[i]@),
                nodes: graph_nodes(self.bindings),
                edges: graph_edges(self.bindings),
            },
            active: decoded(self.active@),
            just_activated: decoded(self.just_activated@),
            just_deactivated: decoded(self.just_deactivated@),
            motion: self.mouse_motion,
            scroll: self.mouse_scroll,
            labels: Map::new(
                |a: AnyKey| self.labels@.contains_key(a.code()),
                |a: AnyKey| self.labels@[a.code()]@,
            ),
        }
    }
}

impl Default for MappedInput {
    fn default() -> (inputs: MappedInput)
        ensures
            inputs.wf(),
            inputs@ == State::empty(),
    {
        MappedInput::new()
    }
}

impl MappedInput {
    /// Whether the resolver is in a state that the operations can have left: its graph meets
    /// the invariant of the model.
    pub open spec fn wf(&self) -> bool {
        self@.graph.inv()
    }

    /// A resolver without bindings.
    pub fn new() -> (inputs: MappedInput)
        ensures
            inputs.wf(),
            inputs@ == State::empty(),
    {
        let inputs = MappedInput {
            bindings: new_graph(),
            nodes: Vec::new(),
            active: HashSet::new(),
            just_activated: HashSet::new(),
            just_deactivated: HashSet::new(),
            mouse_motion: (0, 0),
            mouse_scroll: 0,
            labels: HashMap::new(),
        };
        proof {
            assert(inputs@.graph.keys =~= Seq::<Seq<Switch>>::empty());
            assert(inputs@.active =~= Set::<AnyKey>::empty());
            assert(inputs@.just_activated =~= Set::<AnyKey>::empty());
            assert(inputs@.just_deactivated =~= Set::<AnyKey>::empty());
            assert(inputs@.labels =~= Map::<AnyKey, Seq<char>>::empty());
        }
        inputs
    }

    /// The node that stands for the switches of `keys`, if there is one.
    fn find(&self, keys: &[Switch]) -> (found: Option<usize>)
        ensures
            found == self@.graph.node_of(keys@),
            found is Some ==> found.unwrap() < self.nodes@.len(),
    {
        let mut i: usize = 0;
        while i < self.nodes.len()
            invariant
                i <= self.nodes@.len(),
                forall|j: int| 0 <= j < i ==> !same_switches(#[trigger] self@.graph.keys[j], keys@),
            decreases self.nodes@.len() - i,
        {
            assert(self@.graph.keys[i as int] == self.nodes@[i as int]@);
            if same_set(self.nodes[i].as_slice(), keys) {
                proof {
                    lemma_first_named(self@.graph.keys, keys@);
                }
                return Some(i);
            }
            i += 1;
        }
        proof {
            lemma_first_named(self@.graph.keys, keys@);
        }
        None
    }

    /// How many switches of `keys` the graph counts as down.
    fn count_down(&self, keys: &[Switch]) -> (count: usize)
        requires
            self@.graph.shaped(),
        ensures
            count == count_in(keys@, self@.graph.down()),
    {
        let mut count: usize = 0;
        let mut m: usize = 0;
        while m < keys.len()
            invariant
                m <= keys.len(),
                count <= m,
                self@.graph.shaped(),
                count == count_in(keys@.take(m as int), self@.graph.down()),
            decreases keys.len() - m,
        {
            let one = vec![keys[m]];
            proof {
                assert(one@ =~= seq![keys@[m as int]]);
                assert(keys@.take(m + 1).drop_last() =~= keys@.take(m as int));
                assert(keys@.take(m + 1).last() == keys@[m as int]);
                lemma_switch_node(self@.graph, keys@[m as int]);
            }
            match self.find(one.as_slice()) {
                Some(x) => {
                    if node_weight(&self.bindings, x).active != 0 {
                        count += 1;
                    }
                },
                None => {},
            }
            m += 1;
        }
        proof {
            assert(keys@.take(keys@.len() as int) =~= keys@);
        }
        count
    }

    /// The node that stands for the switches of `keys`; it is made where there is none yet.
    fn get_or_create_node(&mut self, keys: &[Switch]) -> (index: usize)
        requires
            old(self)@.graph.sound(),
            keys@.no_duplicates(),
        ensures
            final(self)@ == (State { graph: old(self)@.graph.with_node(keys@), ..old(self)@ }),
            final(self)@.graph.sound(),
            final(self)@.graph.node_of(keys@) == Some(index),
            index < final(self)@.graph.keys.len(),
            final(self)@.graph.keys.len() <= usize::MAX,
    {
        let ghost before = self@;
        proof {
            lemma_node_of(before.graph, keys@);
            assert(keys@.len() == keys.len());
        }
        if let Some(index) = self.find(keys) {
            proof {
                lemma_with_node(before.graph, keys@);
            }
            return index;
        }
        let active = self.count_down(keys);
        let index = add_node(&mut self.bindings, Node { active, threshold: keys.len() });
        self.nodes.push(slice_to_vec(keys));
        proof {
            assert(self.nodes@.len() == self.nodes.len());
            assert(self@.graph.keys =~= before.graph.keys.push(keys@));
            assert(self@.graph == before.graph.with_node(keys@));
            lemma_with_node(before.graph, keys@);
        }
        index
    }

    /// Adds an edge from `a` to `b` that carries `weight`, or gives the one that is there
    /// the new weight.
    fn add_edge(&mut self, a: usize, b: usize, weight: Edge)
        requires
            old(self)@.graph.sound(),
            a < old(self)@.graph.keys.len(),
            b < old(self)@.graph.keys.len(),
            old(self)@.graph.keys[a as int].len() == 1,
            weight == Edge::Layer ==> old(self)@.graph.keys[b as int].len() >= 2,
            weight == Edge::Layer ==> old(self)@.graph.keys[b as int].contains(
                old(self)@.graph.keys[a as int][0],
            ),
        ensures
            final(self)@ == (State {
                graph: old(self)@.graph.with_edge(a, b, weight),
                ..old(self)@
            }),
            final(self)@.graph.sound(),
    {
        let ghost before = self@;
        update_edge(&mut self.bindings, a, b, weight);
        proof {
            assert(self@.graph.keys =~= before.graph.keys);
            assert(self@.graph == before.graph.with_edge(a, b, weight));
            lemma_with_edge(before.graph, a, b, weight);
        }
    }

    /// Binds `keys` to `action` and files `label` under the action. The last switch of
    /// `keys` sets the action off while all the others are down. An empty chord is refused
    /// and changes nothing.
    pub fn bind(&mut self, keys: &[Switch], action: AnyKey, label: &str) -> (done: Result<
        (),
        BindError,
    >)
        requires
            old(self).wf(),
        ensures
            final(self).wf(),
            keys@.len() == 0 ==> done == Err::<(), BindError>(BindError::EmptyChord),
            keys@.len() == 0 ==> final(self)@ == old(self)@,
            keys@.len() > 0 ==> done == Ok::<(), BindError>(()),
            keys@.len() > 0 ==> final(self)@ == old(self)@.bind(keys@, action, label@),
    {
        if keys.len() == 0 {
            return Err(BindError::EmptyChord);
        }
        let ghost before = self@;
        let last = keys.len() - 1;
        let terminator = keys[last];
        let layer = dedup(slice_subrange(keys, 0, last));
        let single = vec![terminator];
        proof {
            lemma_distinct(keys@.drop_last());
            assert(single@ =~= seq![keys@.last()]);
            assert(layer@ == distinct(keys@.drop_last()));
        }
        let terminator_node = self.get_or_create_node(single.as_slice());
        let ghost first = self@.graph;
        let layer_node = self.get_or_create_node(layer.as_slice());
        let ghost both = self@.graph;
        proof {
            lemma_with_node(first, layer@);
            lemma_switch_node(first, keys@.last());
            assert(both.node_of(single@) == Some(terminator_node));
        }
        self.add_edge(terminator_node, layer_node, Edge::Action(action));
        let ghost edged = self@.graph;
        let size = self.nodes[layer_node].len();
        let ghost members = edged.keys[layer_node as int];
        if size > 1 {
            let mut m: usize = 0;
            while m < size
                invariant
                    m <= size,
                    size == members.len(),
                    size > 1,
                    layer_node < edged.keys.len(),
                    members == edged.keys[layer_node as int],
                    layer_node < self@.graph.keys.len(),
                    self@.graph.keys[layer_node as int] == members,
                    self@.graph.sound(),
                    self@ == (State {
                        graph: edged.with_members(members.take(m as int), layer_node),
                        ..before
                    }),
                decreases size - m,
            {
                let switch = self.nodes[layer_node][m];
                let one = vec![switch];
                let ghost reached = self@.graph;
                proof {
                    assert(one@ =~= seq![members[m as int]]);
                    assert(members.take(m + 1).drop_last() =~= members.take(m as int));
                    assert(members.take(m + 1).last() == members[m as int]);
                }
                let switch_node = self.get_or_create_node(one.as_slice());
                proof {
                    lemma_with_node(reached, one@);
                    lemma_switch_node(self@.graph, switch);
                    assert(self@.graph.keys[layer_node as int] == members);
                    assert(members.contains(members[m as int]));
                }
                self.add_edge(switch_node, layer_node, Edge::Layer);
                m += 1;
            }
            proof {
                assert(members.take(size as int) =~= members);
            }
        }
        let ghost linked = self@;
        let code = action.to_code();
        self.labels.insert(code, label.to_owned());
        proof {
            assert(self@.graph.keys =~= linked.graph.keys);
            assert(self@.labels =~= linked.labels.insert(action, label@)) by {
                assert forall|a: AnyKey| #[trigger]
                    self@.labels.dom().contains(a) == linked.labels.insert(
                        action,
                        label@,
                    ).dom().contains(a) by {
                    lemma_code_injective(action, a);
                }
                assert forall|a: AnyKey| #[trigger]
                    self@.labels.dom().contains(a) implies self@.labels[a] == linked.labels.insert(
                    action,
                    label@,
                )[a] by {
                    lemma_code_injective(action, a);
                }
            }
            assert(self@.graph == before.graph.bound(keys@, action));
            assert(self@ == before.bind(keys@, action, label@));
            lemma_bound_inv(before.graph, keys@, action);
        }
        Ok(())
    }

    /// What a press of `switch` sets off. The counter of the switch's node and those of the
    /// layers it feeds rise. Of the action edges out of the node whose target is satisfied,
    /// the one whose target needs the most switches is taken, the first on the walk among
    /// equals; its action becomes active.
    fn activate(&mut self, switch: Switch)
        requires
            old(self).wf(),
        ensures
            final(self).wf(),
            final(self)@ == old(self)@.press(switch),
    {
        let key = vec![switch];
        assert(key@ =~= seq![switch]);
        let index = match self.find(key.as_slice()) {
            None => {
                return ;
            },
            Some(i) => i,
        };
        let ghost before = self@;
        proof {
            lemma_switch_node(before.graph, switch);
        }
        let node = node_weight(&self.bindings, index);
        if node.active != 0 {
            return ;
        }
        let ghost up = before.graph.counted(index, 1);
        proof {
            lemma_counted_up(before.graph, switch);
        }
        set_node_weight(
            &mut self.bindings,
            index,
            Node { active: node.active + 1, threshold: node.threshold },
        );
        let out = outgoing(&self.bindings, index);
        let mut best: Option<(usize, AnyKey)> = None;
        let ghost mut at: int = -1;
        let mut p: usize = 0;
        while p < out.len()
            invariant
                p <= out.len(),
                before.graph.inv(),
                before.graph.node_of(seq![switch]) == Some(index),
                before.graph.nodes[index as int].active == 0,
                index < before.graph.nodes.len(),
                up == before.graph.counted(index, 1),
                out@ == outgoing_of(before.graph.edges, index),
                graph_edges(self.bindings) == before.graph.edges,
                graph_nodes(self.bindings).len() == before.graph.nodes.len(),
                forall|j: int|
                    0 <= j < before.graph.nodes.len() ==> #[trigger] graph_nodes(self.bindings)[j]
                        == (if j == index || out@.take(p as int).contains(
                        (j as usize, Edge::Layer),
                    ) {
                        up.nodes[j]
                    } else {
                        before.graph.nodes[j]
                    }),
                match best {
                    None => at == -1 && forall|q: int|
                        0 <= q < p ==> !#[trigger] up.candidate(out@, q),
                    Some((most, action)) => 0 <= at < p && up.candidate(out@, at) && most
                        == up.nodes[out@[at].0 as int].threshold && out@[at].1 == Edge::Action(
                        action,
                    ) && forall|q: int|
                        0 <= q < p && #[trigger] up.candidate(out@, q) ==> up.nodes[out@[q].0 as int].threshold
                            < most || (up.nodes[out@[q].0 as int].threshold == most && at <= q),
                },
                self.nodes == old(self).nodes,
                self.active == old(self).active,
                self.just_activated == old(self).just_activated,
                self.just_deactivated == old(self).just_deactivated,
                self.mouse_motion == old(self).mouse_motion,
                self.mouse_scroll == old(self).mouse_scroll,
                self.labels == old(self).labels,
            decreases out.len() - p,
        {
            let target = out[p].0;
            let weight = out[p].1;
            proof {
                lemma_outgoing(before.graph.edges, index);
                lemma_outgoing_targets(before.graph.edges, index);
                assert(before.graph.edges.contains((index, out@[p as int].0, out@[p as int].1)));
                let k = choose|k: int|
                    0 <= k < before.graph.edges.len() && before.graph.edges[k] == (
                        index,
                        target,
                        weight,
                    );
                assert(before.graph.edges[k].1 < before.graph.keys.len());
                let walked = out@.take(p as int);
                assert(!walked.contains((target, Edge::Layer))) by {
                    if walked.contains((target, Edge::Layer)) {
                        let q = choose|q: int|
                            0 <= q < walked.len() && walked[q] == (target, Edge::Layer);
                        assert(out@[q].0 == out@[p as int].0);
                    }
                }
                let seen = out@.take(p as int);
                let next = out@.take(p + 1);
                assert forall|e: (usize, Edge)| #[trigger]
                    next.contains(e) == (seen.contains(e) || out@[p as int] == e) by {
                    if next.contains(e) {
                        let q = choose|q: int| 0 <= q < next.len() && next[q] == e;
                        if q < p {
                            assert(seen[q] == e);
                        }
                    }
                    if seen.contains(e) {
                        let q = choose|q: int| 0 <= q < seen.len() && seen[q] == e;
                        assert(next[q] == e);
                    }
                    if out@[p as int] == e {
                        assert(next[p as int] == e);
                    }
                }
            }
            match weight {
                Edge::Layer => {
                    proof {
                        let k = choose|k: int|
                            0 <= k < before.graph.edges.len() && before.graph.edges[k] == (
                                index,
                                target,
                                weight,
                            );
                        assert(before.graph.edges[k].2 == Edge::Layer);
                        assert(target != index);
                        assert(before.graph.feeds(index, target)) by {
                            assert(out@[p as int] == (target, Edge::Layer));
                        }
                    }
                    let layer = node_weight(&self.bindings, target);
                    proof {
                        lemma_counted_up(before.graph, switch);
                        assert(layer == before.graph.nodes[target as int]);
                    }
                    set_node_weight(
                        &mut self.bindings,
                        target,
                        Node { active: layer.active + 1, threshold: layer.threshold },
                    );
                },
                Edge::Action(action) => {
                    let end = node_weight(&self.bindings, target);
                    proof {
                        if target != index {
                            assert(!before.graph.feeds(index, target)) by {
                                if before.graph.feeds(index, target) {
                                    let q = choose|q: int|
                                        0 <= q < out@.len() && out@[q] == (target, Edge::Layer);
                                    if q < p {
                                        assert(out@[q].0 == out@[p as int].0);
                                    } else if q > p {
                                        assert(out@[p as int].0 == out@[q].0);
                                    }
                                }
                            }
                        }
                        assert(end == up.nodes[target as int]);
                    }
                    if end.active >= end.threshold {
                        let better = match best {
                            None => true,
                            Some((most, _)) => end.threshold > most,
                        };
                        if better {
                            best = Some((end.threshold, action));
                            proof {
                                at = p as int;
                            }
                        }
                    }
                },
            }
            p += 1;
        }
        proof {
            assert(out@.take(out@.len() as int) =~= out@);
            assert(graph_nodes(self.bindings) =~= up.nodes);
            assert(self@.graph.keys =~= before.graph.keys);
            assert(self@.graph == up);
            match best {
                None => {
                    assert(up.choice(index) is None);
                },
                Some((most, action)) => {
                    assert(up.wins(out@, at));
                    let c = choose|c: int| up.wins(out@, c);
                    assert(up.candidate(out@, c));
                    assert(up.candidate(out@, at));
                    assert(c == at);
                    assert(up.choice(index) == Some(action));
                },
            }
        }
        if let Some((_, action)) = best {
            let code = action.to_code();
            proof {
                lemma_decoded_insert(self.active@, action);
                lemma_decoded_insert(self.just_activated@, action);
            }
            if self.active.insert(code) {
                self.just_activated.insert(code);
            }
            proof {
                let shifted = State { graph: up, ..before };
                if before.active.contains(action) {
                    assert(self@.active =~= before.active);
                }
                assert(self@.graph.keys =~= before.graph.keys);
                assert(self@ == shifted.fired(action));
            }
        }
    }

    /// A switch went down.
    pub fn press(&mut self, key: Switch)
        requires
            old(self).wf(),
        ensures
            final(self).wf(),
            final(self)@ == old(self)@.press(key),
    {
        self.activate(key);
    }

    /// What a release of `switch` sets off. The counter of the switch's node and those of
    /// the layers it feeds fall, and every active action on an edge out of the node ends.
    fn deactivate(&mut self, switch: Switch)
        requires
            old(self).wf(),
        ensures
            final(self).wf(),
            final(self)@ == old(self)@.release(switch),
    {
        let key = vec![switch];
        assert(key@ =~= seq![switch]);
        let index = match self.find(key.as_slice()) {
            None => {
                return ;
            },
            Some(i) => i,
        };
        let ghost before = self@;
        proof {
            lemma_switch_node(before.graph, switch);
        }
        let node = node_weight(&self.bindings, index);
        if node.active == 0 {
            // already inactive
            return ;
        }
        let ghost low = before.graph.counted(index, -1);
        proof {
            lemma_counted_back(before.graph, switch);
        }
        set_node_weight(
            &mut self.bindings,
            index,
            Node { active: node.active - 1, threshold: node.threshold },
        );
        let out = outgoing(&self.bindings, index);
        let mut p: usize = 0;
        proof {
            assert(ended(out@, 0) =~= Set::<AnyKey>::empty());
            assert(self@.active =~= before.active.difference(ended(out@, 0)));
            assert(self@.just_deactivated =~= before.just_deactivated.union(
                before.active.intersect(ended(out@, 0)),
            ));
        }
        while p < out.len()
            invariant
                p <= out.len(),
                before.graph.inv(),
                before.graph.node_of(seq![switch]) == Some(index),
                before.graph.nodes[index as int].active != 0,
                index < before.graph.nodes.len(),
                low == before.graph.counted(index, -1),
                out@ == outgoing_of(before.graph.edges, index),
                graph_edges(self.bindings) == before.graph.edges,
                graph_nodes(self.bindings).len() == before.graph.nodes.len(),
                forall|j: int|
                    0 <= j < before.graph.nodes.len() ==> #[trigger] graph_nodes(self.bindings)[j]
                        == (if j == index || out@.take(p as int).contains(
                        (j as usize, Edge::Layer),
                    ) {
                        low.nodes[j]
                    } else {
                        before.graph.nodes[j]
                    }),
                decoded(self.active@) == before.active.difference(ended(out@, p as int)),
                decoded(self.just_deactivated@) == before.just_deactivated.union(
                    before.active.intersect(ended(out@, p as int)),
                ),
                self.nodes == old(self).nodes,
                self.just_activated == old(self).just_activated,
                self.mouse_motion == old(self).mouse_motion,
                self.mouse_scroll == old(self).mouse_scroll,
                self.labels == old(self).labels,
            decreases out.len() - p,
        {
            let target = out[p].0;
            let weight = out[p].1;
            proof {
                lemma_outgoing(before.graph.edges, index);
                lemma_outgoing_targets(before.graph.edges, index);
                assert(before.graph.edges.contains((index, out@[p as int].0, out@[p as int].1)));
                let k = choose|k: int|
                    0 <= k < before.graph.edges.len() && before.graph.edges[k] == (
                        index,
                        target,
                        weight,
                    );
                assert(before.graph.edges[k].1 < before.graph.keys.len());
                let seen = out@.take(p as int);
                let next = out@.take(p + 1);
                assert(!seen.contains((target, Edge::Layer))) by {
                    if seen.contains((target, Edge::Layer)) {
                        let q = choose|q: int| 0 <= q < seen.len() && seen[q] == (target, Edge::Layer);
                        assert(out@[q].0 == out@[p as int].0);
                    }
                }
                assert forall|e: (usize, Edge)| #[trigger]
                    next.contains(e) == (seen.contains(e) || out@[p as int] == e) by {
                    if next.contains(e) {
                        let q = choose|q: int| 0 <= q < next.len() && next[q] == e;
                        if q < p {
                            assert(seen[q] == e);
                        }
                    }
                    if seen.contains(e) {
                        let q = choose|q: int| 0 <= q < seen.len() && seen[q] == e;
                        assert(next[q] == e);
                    }
                    if out@[p as int] == e {
                        assert(next[p as int] == e);
                    }
                }
            }
            match weight {
                Edge::Layer => {
                    let layer = node_weight(&self.bindings, target);
                    proof {
                        let k = choose|k: int|
                            0 <= k < before.graph.edges.len() && before.graph.edges[k] == (
                                index,
                                target,
                                weight,
                            );
                        assert(before.graph.edges[k].2 == Edge::Layer);
                        assert(target != index);
                        assert(before.graph.feeds(index, target)) by {
                            assert(out@[p as int] == (target, Edge::Layer));
                        }
                        lemma_counted_back(before.graph, switch);
                        assert(layer == before.graph.nodes[target as int]);
                        assert(ended(out@, p + 1) =~= ended(out@, p as int)) by {
                            assert forall|a: AnyKey| ended(out@, p + 1).contains(a) implies ended(
                                out@,
                                p as int,
                            ).contains(a) by {
                                let q = choose|q: int|
                                    0 <= q < p + 1 && (#[trigger] out@[q]).1 == Edge::Action(a);
                                assert(q < p);
                            }
                        }
                    }
                    set_node_weight(
                        &mut self.bindings,
                        target,
                        Node { active: layer.active - 1, threshold: layer.threshold },
                    );
                },
                Edge::Action(action) => {
                    let code = action.to_code();
                    proof {
                        lemma_decoded_remove(self.active@, action);
                        lemma_decoded_insert(self.just_deactivated@, action);
                        assert(ended(out@, p + 1) =~= ended(out@, p as int).insert(action)) by {
                            assert forall|a: AnyKey| ended(out@, p + 1).contains(a) implies ended(
                                out@,
                                p as int,
                            ).insert(action).contains(a) by {
                                let q = choose|q: int|
                                    0 <= q < p + 1 && (#[trigger] out@[q]).1 == Edge::Action(a);
                                if q < p {
                                    assert(ended(out@, p as int).contains(a));
                                }
                            }
                            assert(out@[p as int].1 == Edge::Action(action));
                            assert(ended(out@, p + 1).contains(action));
                            assert forall|a: AnyKey| ended(out@, p as int).contains(a) implies ended(
                                out@,
                                p + 1,
                            ).contains(a) by {
                                let q = choose|q: int|
                                    0 <= q < p && (#[trigger] out@[q]).1 == Edge::Action(a);
                                assert(q < p + 1);
                            }
                        }
                    }
                    let ghost was_active = decoded(self.active@);
                    let ghost was_ended = decoded(self.just_deactivated@);
                    let removed = self.active.remove(&code);
                    if removed {
                        self.just_deactivated.insert(code);
                    }
                    proof {
                        assert(removed == was_active.contains(action));
                        assert(decoded(self.active@) == was_active.remove(action));
                        assert(decoded(self.active@) =~= before.active.difference(
                            ended(out@, p + 1),
                        ));
                        if removed {
                            assert(before.active.contains(action));
                            assert(decoded(self.just_deactivated@) == was_ended.insert(action));
                        } else {
                            assert(!before.active.contains(action) || ended(out@, p as int).contains(
                                action,
                            ));
                        }
                        assert(decoded(self.just_deactivated@) =~= before.just_deactivated.union(
                            before.active.intersect(ended(out@, p + 1)),
                        ));
                    }
                },
            }
            p += 1;
        }
        proof {
            assert(out@.take(out@.len() as int) =~= out@);
            assert(graph_nodes(self.bindings) =~= low.nodes);
            assert(self@.graph.keys =~= before.graph.keys);
            assert(self@.graph == low);
            assert(ended(out@, out@.len() as int) =~= before.graph.carried(index));
        }
    }

    /// A switch went up.
    pub fn release(&mut self, key: Switch)
        requires
            old(self).wf(),
        ensures
            final(self).wf(),
            final(self)@ == old(self)@.release(key),
    {
        self.deactivate(key);
    }

    /// Starts a frame: wipes the marks and deltas of the last one and lets the two
    /// pseudo-switches go up.
    pub fn update(&mut self)
        requires
            old(self).wf(),
        ensures
            final(self).wf(),
            final(self)@ == old(self)@.update(),
    {
        self.just_activated.clear();
        self.just_deactivated.clear();
        self.mouse_motion = (0, 0);
        self.mouse_scroll = 0;
        proof {
            assert(self@.just_activated =~= Set::<AnyKey>::empty());
            assert(self@.just_deactivated =~= Set::<AnyKey>::empty());
            assert(self@.graph.keys =~= old(self)@.graph.keys);
            assert(self@ == old(self)@.cleared());
        }
        self.deactivate(Switch::MouseMotion);
        self.deactivate(Switch::MouseScroll);
    }

    /// The mouse moved by (`dx`, `dy`).
    pub fn move_mouse(&mut self, dx: i64, dy: i64)
        requires
            old(self).wf(),
        ensures
            final(self).wf(),
            final(self)@ == old(self)@.move_mouse(dx, dy),
    {
        if dx == 0 && dy == 0 {
            return ;
        }
        self.activate(Switch::MouseMotion);
        let ghost pressed = self@;
        self.mouse_motion = (clamp_add(self.mouse_motion.0, dx), clamp_add(self.mouse_motion.1, dy));
        proof {
            assert(self@.graph.keys =~= pressed.graph.keys);
        }
    }

    /// The wheel turned by `dy`.
    pub fn scroll_mouse(&mut self, dy: i64)
        requires
            old(self).wf(),
        ensures
            final(self).wf(),
            final(self)@ == old(self)@.scroll_mouse(dy),
    {
        if dy == 0 {
            return ;
        }
        self.activate(Switch::MouseScroll);
        let ghost pressed = self@;
        self.mouse_scroll = clamp_add(self.mouse_scroll, dy);
        proof {
            assert(self@.graph.keys =~= pressed.graph.keys);
        }
    }

    /// Whether `key` is active.
    pub fn active(&self, key: AnyKey) -> (on: bool)
        ensures
            on == self@.active.contains(key),
    {
        let code = key.to_code();
        self.active.contains(&code)
    }

    /// Whether `key` became active in this frame.
    pub fn just_activated(&self, key: AnyKey) -> (on: bool)
        ensures
            on == self@.just_activated.contains(key),
    {
        let code = key.to_code();
        self.just_activated.contains(&code)
    }

    /// Whether `key` stopped being active in this frame.
    pub fn just_deactivated(&self, key: AnyKey) -> (on: bool)
        ensures
            on == self@.just_deactivated.contains(key),
    {
        let code = key.to_code();
        self.just_deactivated.contains(&code)
    }

    /// How many nodes the binding graph has.
    pub fn node_count(&self) -> (count: usize)
        ensures
            count == self@.graph.keys.len(),
    {
        self.nodes.len()
    }

    /// The switches that name node `index`, if there is such a node.
    pub fn node_key(&self, index: usize) -> (key: Option<&Vec<Switch>>)
        ensures
            match key {
                Some(switches) => index < self@.graph.keys.len() && switches@
                    == self@.graph.keys[index as int],
                None => index >= self@.graph.keys.len(),
            },
    {
        if index < self.nodes.len() {
            Some(&self.nodes[index])
        } else {
            None
        }
    }

    /// The counters of node `index`, if there is such a node.
    pub fn node(&self, index: usize) -> (node: Option<Node>)
        requires
            self.wf(),
        ensures
            node == (if index < self@.graph.nodes.len() {
                Some(self@.graph.nodes[index as int])
            } else {
                None
            }),
    {
        if index < self.nodes.len() {
            Some(node_weight(&self.bindings, index))
        } else {
            None
        }
    }

    /// The edges that leave node `index`, each as its target and what it carries, the one
    /// added last first. A node that is none has none.
    pub fn edges_from(&self, index: usize) -> (out: Vec<(usize, Edge)>)
        requires
            self.wf(),
        ensures
            out@ == (if index < self@.graph.nodes.len() {
                outgoing_of(self@.graph.edges, index)
            } else {
                Seq::empty()
            }),
    {
        if index < self.nodes.len() {
            outgoing(&self.bindings, index)
        } else {
            Vec::new()
        }
    }

    /// The label that the registry files under `key`, if an action with this identifier was
    /// ever bound.
    pub fn label(&self, key: AnyKey) -> (label: Option<&String>)
        ensures
            match label {
                Some(text) => self@.labels.contains_key(key) && text@ == self@.labels[key],
                None => !self@.labels.contains_key(key),
            },
    {
        let code = key.to_code();
        self.labels.get(&code)
    }

    /// The mouse motion of this frame, if `key` is active.
    pub fn motion(&self, key: AnyKey) -> (delta: Option<(i64, i64)>)
        ensures
            delta == self@.motion_of(key),
    {
        if self.active(key) {
            Some(self.mouse_motion)
        } else {
            None
        }
    }

    /// The scroll of this frame, if `key` is active.
    pub fn scroll(&self, key: AnyKey) -> (delta: Option<i64>)
        ensures
            delta == self@.scroll_of(key),
    {
        if self.active(key) {
            Some(self.mouse_scroll)
        } else {
            None
        }
    }
}

} // verus!
