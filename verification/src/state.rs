//! The mathematical model of the resolver: the binding graph with its counters, the three
//! sets of actions, the two buffered deltas and the registry of action labels, and what each
//! operation makes of them.
use crate::graph::{outgoing_of, put_edge, Edge, Node};
use crate::keymap::AnyKey;
use crate::switch::{distinct, same_switches, Switch};
use vstd::prelude::*;

verus! {

/// The binding graph as a value. Node `i` is named by the switch list `keys[i]` and carries
/// the counters `nodes[i]`; `edges` holds the edges in the order in which they were added.
pub struct Bindings {
    pub keys: Seq<Seq<Switch>>,
    pub nodes: Seq<Node>,
    pub edges: Seq<(usize, usize, Edge)>,
}

/// The resolver as a value: the binding graph, the three sets of actions, the deltas
/// buffered in this frame, and the registry of action labels.
pub struct State {
    pub graph: Bindings,
    pub active: Set<AnyKey>,
    pub just_activated: Set<AnyKey>,
    pub just_deactivated: Set<AnyKey>,
    pub motion: (i64, i64),
    pub scroll: i64,
    pub labels: Map<AnyKey, Seq<char>>,
}

/// The first position in `keys` whose list names the same switches as `key`.
pub open spec fn first_named(keys: Seq<Seq<Switch>>, key: Seq<Switch>) -> Option<int>
    decreases keys.len(),
{
    if keys.len() == 0 {
        None
    } else {
        match first_named(keys.drop_last(), key) {
            Some(i) => Some(i),
            None => if same_switches(keys.last(), key) {
                Some(keys.len() - 1)
            } else {
                None
            },
        }
    }
}

/// How many switches of `key` are in `down`, counted by position.
pub open spec fn count_in(key: Seq<Switch>, down: Set<Switch>) -> nat
    decreases key.len(),
{
    if key.len() == 0 {
        0
    } else {
        count_in(key.drop_last(), down) + if down.contains(key.last()) {
            1nat
        } else {
            0nat
        }
    }
}

/// `a + b`, held at the bounds of `i64`.
pub open spec fn clamped_sum(a: i64, b: i64) -> i64 {
    if a + b > i64::MAX {
        i64::MAX
    } else if a + b < i64::MIN {
        i64::MIN
    } else {
        (a + b) as i64
    }
}

/// The action that an edge carries, if it carries one.
pub open spec fn action_of(weight: Edge) -> Option<AnyKey> {
    match weight {
        Edge::Action(a) => Some(a),
        Edge::Layer => None,
    }
}

impl Bindings {
    /// The graph without nodes and edges.
    pub open spec fn empty() -> Bindings {
        Bindings { keys: Seq::empty(), nodes: Seq::empty(), edges: Seq::empty() }
    }

    /// The node that stands for the set of switches in `key`.
    pub open spec fn node_of(self, key: Seq<Switch>) -> Option<usize> {
        match first_named(self.keys, key) {
            Some(i) => Some(i as usize),
            None => None,
        }
    }

    /// Whether the graph counts `s` as held down: it has a node, and that node's counter is
    /// not zero.
    pub open spec fn is_down(self, s: Switch) -> bool {
        match self.node_of(seq![s]) {
            Some(i) => self.nodes[i as int].active != 0,
            None => false,
        }
    }

    /// The switches that the graph counts as held down.
    pub open spec fn down(self) -> Set<Switch> {
        Set::new(|s: Switch| self.is_down(s))
    }

    /// Whether enough switches of node `i` are down.
    pub open spec fn satisfied(self, i: usize) -> bool {
        self.nodes[i as int].active >= self.nodes[i as int].threshold
    }

    /// Whether a layer edge leads from node `i` to node `j`.
    pub open spec fn feeds(self, i: usize, j: usize) -> bool {
        outgoing_of(self.edges, i).contains((j, Edge::Layer))
    }

    // ----- binding -----
    /// Get or create: the graph with a node for `key`. A new node needs as many switches as
    /// `key` holds and counts those of them that are down now.
    pub open spec fn with_node(self, key: Seq<Switch>) -> Bindings {
        match self.node_of(key) {
            Some(_) => self,
            None => Bindings {
                keys: self.keys.push(key),
                nodes: self.nodes.push(
                    Node {
                        active: count_in(key, self.down()) as usize,
                        threshold: key.len() as usize,
                    },
                ),
                edges: self.edges,
            },
        }
    }

    /// Add or update: the graph with an edge from `a` to `b` that carries `weight`.
    pub open spec fn with_edge(self, a: usize, b: usize, weight: Edge) -> Bindings {
        Bindings { edges: put_edge(self.edges, a, b, weight), ..self }
    }

    /// The graph in which each switch of `members` has a node and a layer edge to `layer`,
    /// made in the order of `members`.
    pub open spec fn with_members(self, members: Seq<Switch>, layer: usize) -> Bindings
        decreases members.len(),
    {
        if members.len() == 0 {
            self
        } else {
            let before = self.with_members(members.drop_last(), layer).with_node(
                seq![members.last()],
            );
            before.with_edge(before.node_of(seq![members.last()]).unwrap(), layer, Edge::Layer)
        }
    }

    /// The graph after `chord` is bound to `action`. The last switch of the chord is its
    /// terminal, the others, each once, are its layer. Terminal and layer get their nodes,
    /// an action edge leads from the terminal to the layer, and the switches of a layer of
    /// two or more get their layer edges.
    pub open spec fn bound(self, chord: Seq<Switch>, action: AnyKey) -> Bindings
        recommends
            chord.len() > 0,
    {
        let layer = distinct(chord.drop_last());
        let g = self.with_node(seq![chord.last()]).with_node(layer);
        let t = g.node_of(seq![chord.last()]).unwrap();
        let l = g.node_of(layer).unwrap();
        let h = g.with_edge(t, l, Edge::Action(action));
        if h.keys[l as int].len() > 1 {
            h.with_members(h.keys[l as int], l)
        } else {
            h
        }
    }

    // ----- pressing and releasing -----
    /// The graph after the switch of node `i` went down (`by` is 1) or up (`by` is -1): the
    /// counter of `i` itself and that of every layer that `i` feeds change by one.
    pub open spec fn counted(self, i: usize, by: int) -> Bindings {
        Bindings {
            nodes: Seq::new(
                self.nodes.len(),
                |j: int|
                    if j == i || self.feeds(i, j as usize) {
                        Node {
                            active: (self.nodes[j].active + by) as usize,
                            threshold: self.nodes[j].threshold,
                        }
                    } else {
                        self.nodes[j]
                    },
            ),
            ..self
        }
    }

    /// Whether entry `p` of the walk `out` is an action edge to a satisfied node.
    pub open spec fn candidate(self, out: Seq<(usize, Edge)>, p: int) -> bool {
        &&& 0 <= p < out.len()
        &&& out[p].1 is Action
        &&& out[p].0 < self.nodes.len()
        &&& self.satisfied(out[p].0)
    }

    /// Whether entry `p` of the walk `out` is the candidate that is taken: no candidate needs
    /// more switches, and of those that need as many it comes first in `out`.
    pub open spec fn wins(self, out: Seq<(usize, Edge)>, p: int) -> bool {
        &&& self.candidate(out, p)
        &&& forall|q: int| #[trigger]
            self.candidate(out, q) ==> {
                ||| self.nodes[out[q].0 as int].threshold < self.nodes[out[p].0 as int].threshold
                ||| (self.nodes[out[q].0 as int].threshold
                    == self.nodes[out[p].0 as int].threshold && p <= q)
            }
    }

    /// The action that the switch of node `i` sets off in this graph: that of the action
    /// edge out of `i` whose target is satisfied and needs the most switches; among several
    /// such, that of the edge added last.
    pub open spec fn choice(self, i: usize) -> Option<AnyKey> {
        let out = outgoing_of(self.edges, i);
        if exists|p: int| self.wins(out, p) {
            action_of(out[choose|p: int| self.wins(out, p)].1)
        } else {
            None
        }
    }

    /// The actions that the action edges out of node `i` carry.
    pub open spec fn carried(self, i: usize) -> Set<AnyKey> {
        Set::new(
            |a: AnyKey|
                exists|p: int|
                    0 <= p < outgoing_of(self.edges, i).len() && (#[trigger] outgoing_of(
                        self.edges,
                        i,
                    )[p]).1 == Edge::Action(a),
        )
    }

    // ----- what always holds -----
    /// The shape of the graph: a key and two counters for each node, no key twice, no switch
    /// twice in a key, each node needing as many switches as its key holds; every edge
    /// between two nodes, leaving a node of one switch, and the only one between its ends; a
    /// layer edge leading from a switch to a node of two or more switches that holds it.
    pub open spec fn shaped(self) -> bool {
        &&& self.keys.len() == self.nodes.len()
        &&& self.keys.len() <= usize::MAX
        &&& forall|i: int|
            0 <= i < self.keys.len() ==> (#[trigger] self.keys[i]).no_duplicates()
                && self.nodes[i].threshold == self.keys[i].len()
        &&& forall|i: int, j: int|
            0 <= i < j < self.keys.len() ==> !same_switches(
                #[trigger] self.keys[i],
                #[trigger] self.keys[j],
            )
        &&& forall|k: int|
            0 <= k < self.edges.len() ==> {
                &&& (#[trigger] self.edges[k]).0 < self.keys.len()
                &&& self.edges[k].1 < self.keys.len()
                &&& self.keys[self.edges[k].0 as int].len() == 1
            }
        &&& forall|k: int, m: int|
            0 <= k < m < self.edges.len() ==> !((#[trigger] self.edges[k]).0 == (
            #[trigger] self.edges[m]).0 && self.edges[k].1 == self.edges[m].1)
        &&& forall|k: int|
            0 <= k < self.edges.len() && (#[trigger] self.edges[k]).2 == Edge::Layer ==> {
                &&& self.keys[self.edges[k].1 as int].len() >= 2
                &&& self.keys[self.edges[k].1 as int].contains(
                    self.keys[self.edges[k].0 as int][0],
                )
            }
    }

    /// Whether switch `s` of layer `i` has its node and its layer edge to `i`.
    pub open spec fn linked(self, i: usize, s: Switch) -> bool {
        match self.node_of(seq![s]) {
            Some(x) => self.edges.contains((x, i, Edge::Layer)),
            None => false,
        }
    }

    /// Every switch of every node of two or more switches is linked to it.
    pub open spec fn all_linked(self) -> bool {
        forall|i: usize, s: Switch|
            i < self.keys.len() && self.keys[i as int].len() >= 2 && (
            #[trigger] self.keys[i as int]).contains(s) ==> #[trigger] self.linked(i, s)
    }

    /// Every counter is right: it is the number of the node's switches that are down.
    pub open spec fn counters_right(self) -> bool {
        forall|i: int|
            0 <= i < self.nodes.len() ==> (#[trigger] self.nodes[i]).active == count_in(
                self.keys[i],
                self.down(),
            )
    }

    /// What holds of the graph while it is being built: its shape and its counters.
    pub open spec fn sound(self) -> bool {
        &&& self.shaped()
        &&& self.counters_right()
    }

    /// What holds of every graph that the operations reach from the empty one.
    pub open spec fn inv(self) -> bool {
        &&& self.shaped()
        &&& self.all_linked()
        &&& self.counters_right()
    }
}

impl State {
    /// The resolver with no binding: no node, no edge, nothing active, nothing buffered.
    pub open spec fn empty() -> State {
        State {
            graph: Bindings::empty(),
            active: Set::empty(),
            just_activated: Set::empty(),
            just_deactivated: Set::empty(),
            motion: (0i64, 0i64),
            scroll: 0i64,
            labels: Map::empty(),
        }
    }

    /// The state after `chord` is bound to `action` under `label`: the graph holds the
    /// binding, and the registry files `label` under `action`.
    pub open spec fn bind(self, chord: Seq<Switch>, action: AnyKey, label: Seq<char>) -> State
        recommends
            chord.len() > 0,
    {
        State {
            graph: self.graph.bound(chord, action),
            labels: self.labels.insert(action, label),
            ..self
        }
    }

    /// The state with `action` active; it is just activated if it was not active before.
    pub open spec fn fired(self, action: AnyKey) -> State {
        if self.active.contains(action) {
            self
        } else {
            State {
                active: self.active.insert(action),
                just_activated: self.just_activated.insert(action),
                ..self
            }
        }
    }

    /// The state after switch `s` went down. A switch without a node, or one that is down
    /// already, changes nothing. Otherwise the counters rise, and the action that the switch
    /// sets off, if there is one, becomes active.
    pub open spec fn press(self, s: Switch) -> State {
        match self.graph.node_of(seq![s]) {
            None => self,
            Some(i) => if self.graph.nodes[i as int].active != 0 {
                self
            } else {
                let up = State { graph: self.graph.counted(i, 1), ..self };
                match up.graph.choice(i) {
                    Some(a) => up.fired(a),
                    None => up,
                }
            },
        }
    }

    /// The state after switch `s` went up. A switch without a node, or one that is not down,
    /// changes nothing. Otherwise the counters fall, and every active action on an edge out
    /// of its node ends.
    pub open spec fn release(self, s: Switch) -> State {
        match self.graph.node_of(seq![s]) {
            None => self,
            Some(i) => if self.graph.nodes[i as int].active == 0 {
                self
            } else {
                State {
                    graph: self.graph.counted(i, -1),
                    active: self.active.difference(self.graph.carried(i)),
                    just_deactivated: self.just_deactivated.union(
                        self.active.intersect(self.graph.carried(i)),
                    ),
                    ..self
                }
            },
        }
    }

    /// The state with the marks and deltas of the last frame wiped.
    pub open spec fn cleared(self) -> State {
        State {
            just_activated: Set::empty(),
            just_deactivated: Set::empty(),
            motion: (0i64, 0i64),
            scroll: 0i64,
            ..self
        }
    }

    /// The state at the start of a frame: the last frame's marks and deltas are wiped, then
    /// the two pseudo-switches go up.
    pub open spec fn update(self) -> State {
        self.cleared().release(Switch::MouseMotion).release(Switch::MouseScroll)
    }

    /// The state after the mouse moved by (`dx`, `dy`): the motion pseudo-switch goes down
    /// and the delta is added to the frame's, each axis held at the bounds of `i64`. A delta
    /// of nothing is no motion.
    pub open spec fn move_mouse(self, dx: i64, dy: i64) -> State {
        if dx == 0 && dy == 0 {
            self
        } else {
            let s = self.press(Switch::MouseMotion);
            State { motion: (clamped_sum(s.motion.0, dx), clamped_sum(s.motion.1, dy)), ..s }
        }
    }

    /// The state after the wheel turned by `dy`: the scroll pseudo-switch goes down and the
    /// delta is added to the frame's, held at the bounds of `i64`. A delta of nothing is no
    /// scroll.
    pub open spec fn scroll_mouse(self, dy: i64) -> State {
        if dy == 0 {
            self
        } else {
            let s = self.press(Switch::MouseScroll);
            State { scroll: clamped_sum(s.scroll, dy), ..s }
        }
    }

    /// The frame's motion delta, for an action that is active.
    pub open spec fn motion_of(self, action: AnyKey) -> Option<(i64, i64)> {
        if self.active.contains(action) {
            Some(self.motion)
        } else {
            None
        }
    }

    /// The frame's scroll delta, for an action that is active.
    pub open spec fn scroll_of(self, action: AnyKey) -> Option<i64> {
        if self.active.contains(action) {
            Some(self.scroll)
        } else {
            None
        }
    }
}

} // verus!
