//! Behaviour trees and finite state machines for entities: a node store
//! with indices for the tree, and a transition table keyed by state and
//! trigger for the machine.

use vstd::prelude::*;

verus! {

/// One node of a behaviour tree; children are indices into the tree's node
/// store.
pub enum BehaviorNode {
    Success,
    Failure,
    Action { name: String },
    Sequence { children: Vec<usize> },
    Selector { children: Vec<usize> },
    Condition { check: String, true_child: usize, false_child: usize },
}

/// A behaviour tree: a named node store and the index of its root.
pub struct BehaviorTree {
    pub name: String,
    pub nodes: Vec<BehaviorNode>,
    pub root_id: usize,
}

impl BehaviorTree {
    /// An empty tree with the given name, rooted at index zero.
    pub fn new(name: String) -> (r: Self)
        ensures
            r.name@ == name@,
            r.nodes@.len() == 0,
            r.root_id == 0,
    {
        Self { name, nodes: Vec::new(), root_id: 0 }
    }

    /// Appends a node and returns its index.
    pub fn add_node(&mut self, node: BehaviorNode) -> (id: usize)
        ensures
            final(self).nodes@ == old(self).nodes@.push(node),
            id == old(self).nodes@.len(),
            final(self).name == old(self).name,
            final(self).root_id == old(self).root_id,
    {
        let id = self.nodes.len();
        self.nodes.push(node);
        id
    }

    /// Makes `id` the root.
    pub fn set_root(&mut self, id: usize)
        ensures
            final(self).root_id == id,
            final(self).nodes@ == old(self).nodes@,
            final(self).name == old(self).name,
    {
        self.root_id = id;
    }
}

/// A state an entity can be in; `Custom` carries a free-form name.
#[derive(Debug, Clone)]
pub enum EntityState {
    Idle,
    Moving,
    Attacking,
    TakingDamage,
    Dead,
    Custom(String),
}

/// The mathematical shape of a state.
pub enum StateView {
    Idle,
    Moving,
    Attacking,
    TakingDamage,
    Dead,
    Custom(Seq<char>),
}

pub open spec fn state_view(s: EntityState) -> StateView {
    match s {
        EntityState::Idle => StateView::Idle,
        EntityState::Moving => StateView::Moving,
        EntityState::Attacking => StateView::Attacking,
        EntityState::TakingDamage => StateView::TakingDamage,
        EntityState::Dead => StateView::Dead,
        EntityState::Custom(n) => StateView::Custom(n@),
    }
}

impl PartialEq for EntityState {
    fn eq(&self, o: &EntityState) -> (r: bool) {
        match (self, o) {
            (EntityState::Idle, EntityState::Idle) => true,
            (EntityState::Moving, EntityState::Moving) => true,
            (EntityState::Attacking, EntityState::Attacking) => true,
            (EntityState::TakingDamage, EntityState::TakingDamage) => true,
            (EntityState::Dead, EntityState::Dead) => true,
            (EntityState::Custom(a), EntityState::Custom(b)) => *a == *b,
            _ => false,
        }
    }
}

impl vstd::std_specs::cmp::PartialEqSpecImpl for EntityState {
    open spec fn obeys_eq_spec() -> bool {
        true
    }

    open spec fn eq_spec(&self, o: &EntityState) -> bool {
        state_view(*self) == state_view(*o)
    }
}

/// Structure-preserving copy of a state.
pub fn clone_state(s: &EntityState) -> (r: EntityState)
    ensures
        state_view(r) == state_view(*s),
{
    match s {
        EntityState::Idle => EntityState::Idle,
        EntityState::Moving => EntityState::Moving,
        EntityState::Attacking => EntityState::Attacking,
        EntityState::TakingDamage => EntityState::TakingDamage,
        EntityState::Dead => EntityState::Dead,
        EntityState::Custom(n) => EntityState::Custom(n.clone()),
    }
}

/// The mathematical shape of a transition table.
pub open spec fn trans_view(t: Seq<(EntityState, String, EntityState)>) -> Seq<
    (StateView, Seq<char>, StateView),
>
    decreases t,
{
    if t.len() == 0 {
        Seq::empty()
    } else {
        seq![(state_view(t[0].0), t[0].1@, state_view(t[0].2))] + trans_view(t.drop_first())
    }
}

pub broadcast proof fn lemma_trans_view_len(t: Seq<(EntityState, String, EntityState)>)
    ensures
        #[trigger] trans_view(t).len() == t.len(),
    decreases t.len(),
{
    if t.len() > 0 {
        lemma_trans_view_len(t.drop_first());
    }
}

pub broadcast proof fn lemma_trans_view_index(t: Seq<(EntityState, String, EntityState)>, i: int)
    requires
        0 <= i < t.len(),
    ensures
        #[trigger] trans_view(t)[i] == (state_view(t[i].0), t[i].1@, state_view(t[i].2)),
    decreases t.len(),
{
    broadcast use lemma_trans_view_len;

    if i > 0 {
        lemma_trans_view_index(t.drop_first(), i - 1);
    }
}

pub broadcast proof fn lemma_trans_view_push(
    t: Seq<(EntityState, String, EntityState)>,
    x: (EntityState, String, EntityState),
)
    ensures
        #[trigger] trans_view(t.push(x)) == trans_view(t).push(
            (state_view(x.0), x.1@, state_view(x.2)),
        ),
{
    broadcast use lemma_trans_view_len, lemma_trans_view_index;

    assert forall|i: int| 0 <= i < t.len() + 1 implies trans_view(t.push(x))[i] == trans_view(
        t,
    ).push((state_view(x.0), x.1@, state_view(x.2)))[i] by {
        lemma_trans_view_index(t.push(x), i);
        if i < t.len() {
            lemma_trans_view_index(t, i);
        }
    }
    assert(trans_view(t.push(x)) =~= trans_view(t).push((state_view(x.0), x.1@, state_view(x.2))));
}

/// The state the table sends `(from, trig)` to: the first matching row.
pub open spec fn spec_transition(
    t: Seq<(StateView, Seq<char>, StateView)>,
    from: StateView,
    trig: Seq<char>,
) -> Option<StateView>
    decreases t.len(),
{
    if t.len() == 0 {
        None
    } else if t[0].0 == from && t[0].1 == trig {
        Some(t[0].2)
    } else {
        spec_transition(t.drop_first(), from, trig)
    }
}

/// The table with the row for `(from, trig)` replaced by one sending it to
/// `to`, or appended when absent.
pub open spec fn spec_add_transition(
    t: Seq<(StateView, Seq<char>, StateView)>,
    from: StateView,
    trig: Seq<char>,
    to: StateView,
) -> Seq<(StateView, Seq<char>, StateView)>
    decreases t.len(),
{
    if t.len() == 0 {
        seq![(from, trig, to)]
    } else if t[0].0 == from && t[0].1 == trig {
        seq![(from, trig, to)] + t.drop_first()
    } else {
        seq![t[0]] + spec_add_transition(t.drop_first(), from, trig, to)
    }
}

/// A finite state machine: the current state and a transition table from
/// state and trigger to next state.
pub struct StateMachine {
    pub current_state: EntityState,
    pub transitions: Vec<(EntityState, String, EntityState)>,
}

impl StateMachine {
    /// A machine at `Idle` with no transitions.
    pub fn new() -> (r: Self)
        ensures
            state_view(r.current_state) == StateView::Idle,
            r.transitions@.len() == 0,
    {
        Self { current_state: EntityState::Idle, transitions: Vec::new() }
    }

    /// Records that `trigger` sends `from` to `to`, replacing any earlier
    /// rule for the same state and trigger.
    pub fn add_transition(&mut self, from: EntityState, trigger: String, to: EntityState)
        ensures
            trans_view(final(self).transitions@) == spec_add_transition(
                trans_view(old(self).transitions@),
                state_view(from),
                trigger@,
                state_view(to),
            ),
            final(self).current_state == old(self).current_state,
    {
        broadcast use lemma_trans_view_len;

        let ghost t0 = trans_view(self.transitions@);
        let ghost target = spec_add_transition(t0, state_view(from), trigger@, state_view(to));
        let mut out: Vec<(EntityState, String, EntityState)> = Vec::new();
        let mut done = false;
        let mut i: usize = 0;
        proof {
            assert(t0.subrange(0, t0.len() as int) =~= t0);
            assert(trans_view(out@) + target =~= target);
        }
        while i < self.transitions.len()
            invariant
                0 <= i <= self.transitions.len(),
                t0 == trans_view(self.transitions@),
                t0.len() == self.transitions@.len(),
                target == spec_add_transition(t0, state_view(from), trigger@, state_view(to)),
                if done {
                    target == trans_view(out@) + t0.subrange(i as int, t0.len() as int)
                } else {
                    target == trans_view(out@) + spec_add_transition(
                        t0.subrange(i as int, t0.len() as int),
                        state_view(from),
                        trigger@,
                        state_view(to),
                    )
                },
            decreases self.transitions.len() - i,
        {
            broadcast use lemma_trans_view_len;

            let ghost rem = t0.subrange(i as int, t0.len() as int);
            let ghost out0 = out@;
            proof {
                lemma_trans_view_index(self.transitions@, i as int);
                assert(rem[0] == t0[i as int]);
                assert(rem.drop_first() =~= t0.subrange(i + 1, t0.len() as int));
            }
            let row_state_match = self.transitions[i].0 == from;
            let row_trig_match = self.transitions[i].1 == trigger;
            if !done && row_state_match && row_trig_match {
                let f2 = clone_state(&from);
                let tr2 = trigger.clone();
                let to2 = clone_state(&to);
                let ghost gx = (f2, tr2, to2);
                out.push((f2, tr2, to2));
                done = true;
                proof {
                    lemma_trans_view_push(out0, gx);
                    assert(out@ == out0.push(gx));
                    assert(trans_view(out@) + t0.subrange(i + 1, t0.len() as int) =~= target);
                }
            } else {
                let f2 = clone_state(&self.transitions[i].0);
                let tr2 = self.transitions[i].1.clone();
                let to2 = clone_state(&self.transitions[i].2);
                let ghost gx = (f2, tr2, to2);
                out.push((f2, tr2, to2));
                proof {
                    lemma_trans_view_push(out0, gx);
                    assert(out@ == out0.push(gx));
                    if done {
                        assert(trans_view(out@) + t0.subrange(i + 1, t0.len() as int) =~= target);
                    } else {
                        assert(trans_view(out@) + spec_add_transition(
                            t0.subrange(i + 1, t0.len() as int),
                            state_view(from),
                            trigger@,
                            state_view(to),
                        ) =~= target);
                    }
                }
            }
            i = i + 1;
        }
        proof {
            assert(t0.subrange(i as int, t0.len() as int) =~= Seq::<
                (StateView, Seq<char>, StateView),
            >::empty());
        }
        if !done {
            let ghost out0 = out@;
            let ghost gx = (from, trigger, to);
            out.push((from, trigger, to));
            proof {
                lemma_trans_view_push(out0, gx);
                assert(out@ == out0.push(gx));
                assert(trans_view(out@) =~= target);
            }
        } else {
            proof {
                assert(trans_view(out@) =~= target);
            }
        }
        self.transitions = out;
    }

    /// Fires `trigger`: moves to the recorded next state and reports `true`,
    /// or leaves the machine unchanged and reports `false` when no rule
    /// matches the current state and trigger.
    pub fn on_event(&mut self, trigger: &str) -> (r: bool)
        ensures
            final(self).transitions@ == old(self).transitions@,
            match spec_transition(
                trans_view(old(self).transitions@),
                state_view(old(self).current_state),
                trigger@,
            ) {
                Some(ns) => r && state_view(final(self).current_state) == ns,
                None => !r && final(self).current_state == old(self).current_state,
            },
    {
        broadcast use lemma_trans_view_len;

        let ghost t0 = trans_view(self.transitions@);
        let ghost cur = state_view(self.current_state);
        let key = trigger.to_owned();
        let mut i: usize = 0;
        proof {
            assert(t0.subrange(0, t0.len() as int) =~= t0);
        }
        while i < self.transitions.len()
            invariant
                0 <= i <= self.transitions.len(),
                self.transitions@ == old(self).transitions@,
                self.current_state == old(self).current_state,
                t0 == trans_view(self.transitions@),
                t0.len() == self.transitions@.len(),
                key@ == trigger@,
                cur == state_view(self.current_state),
                spec_transition(t0, cur, trigger@) == spec_transition(
                    t0.subrange(i as int, t0.len() as int),
                    cur,
                    trigger@,
                ),
            decreases self.transitions.len() - i,
        {
            broadcast use lemma_trans_view_len;

            let ghost rem = t0.subrange(i as int, t0.len() as int);
            proof {
                lemma_trans_view_index(self.transitions@, i as int);
                assert(rem[0] == t0[i as int]);
                assert(rem.drop_first() =~= t0.subrange(i + 1, t0.len() as int));
            }
            let state_match = self.transitions[i].0 == self.current_state;
            let trig_match = self.transitions[i].1 == key;
            if state_match && trig_match {
                self.current_state = clone_state(&self.transitions[i].2);
                return true;
            }
            i = i + 1;
        }
        proof {
            assert(t0.subrange(i as int, t0.len() as int) =~= Seq::<
                (StateView, Seq<char>, StateView),
            >::empty());
        }
        false
    }

    /// Whether the machine is in `state`.
    pub fn is_in_state(&self, state: &EntityState) -> (r: bool)
        ensures
            r == (state_view(self.current_state) == state_view(*state)),
    {
        self.current_state == *state
    }
}

impl Default for StateMachine {
    fn default() -> (r: Self)
        ensures
            state_view(r.current_state) == StateView::Idle,
            r.transitions@.len() == 0,
    {
        Self::new()
    }
}

} // verus!
