//! Hardware switches and the switch lists that name the nodes of the binding graph.
use vstd::prelude::*;

verus! {

/// A button of the mouse.
#[derive(Clone, Copy, Debug, PartialEq, Eq, Structural, Hash)]
pub enum MouseButton {
    Left,
    Right,
    Middle,
    Back,
    Forward,
    /// Any further button, by the number the host gives it.
    Other(u16),
}

/// An atomic hardware input: a key (by its key code), a mouse button, or one of the two
/// pseudo-switches that stand for "the mouse moved" and "the wheel turned".
#[derive(Clone, Copy, Debug, PartialEq, Eq, Structural, Hash)]
pub enum Switch {
    Key(u32),
    Mouse(MouseButton),
    MouseMotion,
    MouseScroll,
}

impl From<MouseButton> for Switch {
    fn from(button: MouseButton) -> (switch: Switch) {
        Switch::Mouse(button)
    }
}

impl vstd::std_specs::convert::FromSpecImpl<MouseButton> for Switch {
    open spec fn obeys_from_spec() -> bool {
        true
    }

    open spec fn from_spec(button: MouseButton) -> Switch {
        Switch::Mouse(button)
    }
}

/// `a` and `b` name the same set of switches, whatever the order and the repetitions.
pub open spec fn same_switches(a: Seq<Switch>, b: Seq<Switch>) -> bool {
    forall|s: Switch| a.contains(s) <==> b.contains(s)
}

/// `s` without repetitions: of each switch the first occurrence stays, in the order of `s`.
pub open spec fn distinct(s: Seq<Switch>) -> Seq<Switch>
    decreases s.len(),
{
    if s.len() == 0 {
        Seq::empty()
    } else {
        let d = distinct(s.drop_last());
        if d.contains(s.last()) {
            d
        } else {
            d.push(s.last())
        }
    }
}

/// `distinct` keeps the set of switches and leaves no switch twice.
pub proof fn lemma_distinct(s: Seq<Switch>)
    ensures
        distinct(s).no_duplicates(),
        same_switches(distinct(s), s),
        distinct(s).len() <= s.len(),
    decreases s.len(),
{
    if s.len() > 0 {
        let front = s.drop_last();
        lemma_distinct(front);
        let d = distinct(front);
        assert forall|x: Switch| distinct(s).contains(x) <==> s.contains(x) by {
            if s.contains(x) {
                let i = choose|i: int| 0 <= i < s.len() && s[i] == x;
                if i < s.len() - 1 {
                    assert(front[i] == x);
                    assert(d.contains(x));
                    if !d.contains(s.last()) {
                        let j = choose|j: int| 0 <= j < d.len() && d[j] == x;
                        assert(d.push(s.last())[j] == x);
                    }
                } else {
                    if !d.contains(s.last()) {
                        assert(d.push(s.last())[d.len() as int] == x);
                    }
                }
            }
            if distinct(s).contains(x) {
                let j = choose|j: int| 0 <= j < distinct(s).len() && distinct(s)[j] == x;
                if j < d.len() {
                    assert(d[j] == x);
                    assert(d.contains(x));
                    let i = choose|i: int| 0 <= i < front.len() && front[i] == x;
                    assert(s[i] == x);
                } else {
                    assert(x == s.last());
                    assert(s[s.len() - 1] == x);
                }
            }
        }
    }
}

/// Whether `s` occurs in `keys`.
pub fn holds(keys: &[Switch], s: Switch) -> (found: bool)
    ensures
        found == keys@.contains(s),
{
    let mut i: usize = 0;
    while i < keys.len()
        invariant
            i <= keys.len(),
            forall|j: int| 0 <= j < i ==> keys@[j] != s,
        decreases keys.len() - i,
    {
        if keys[i] == s {
            return true;
        }
        i += 1;
    }
    false
}

/// Whether every switch of `a` occurs in `b`.
fn covered(a: &[Switch], b: &[Switch]) -> (all: bool)
    ensures
        all == (forall|s: Switch| a@.contains(s) ==> b@.contains(s)),
{
    let mut i: usize = 0;
    while i < a.len()
        invariant
            i <= a.len(),
            forall|j: int| 0 <= j < i ==> b@.contains(#[trigger] a@[j]),
        decreases a.len() - i,
    {
        if !holds(b, a[i]) {
            assert(a@.contains(a@[i as int]));
            return false;
        }
        i += 1;
    }
    true
}

/// Whether `a` and `b` name the same set of switches.
pub fn same_set(a: &[Switch], b: &[Switch]) -> (same: bool)
    ensures
        same == same_switches(a@, b@),
{
    covered(a, b) && covered(b, a)
}

/// The switches of `keys`, each once, in the order of their first occurrence.
pub fn dedup(keys: &[Switch]) -> (out: Vec<Switch>)
    ensures
        out@ == distinct(keys@),
{
    let mut out: Vec<Switch> = Vec::new();
    let mut i: usize = 0;
    while i < keys.len()
        invariant
            i <= keys.len(),
            out@ == distinct(keys@.take(i as int)),
        decreases keys.len() - i,
    {
        proof {
            assert(keys@.take(i + 1).drop_last() =~= keys@.take(i as int));
            assert(keys@.take(i + 1).last() == keys@[i as int]);
        }
        if !holds(out.as_slice(), keys[i]) {
            out.push(keys[i]);
        }
        i += 1;
    }
    proof {
        assert(keys@.take(keys.len() as int) =~= keys@);
    }
    out
}

} // verus!
