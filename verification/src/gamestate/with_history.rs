//! The history of a game: the state it started with and, for every attack that
//! was resolved, the state after it. Stepping back moves a pointer; nothing
//! that was recorded is ever removed.

use crate::actions::attack::{AttackOutcome, OutcomeView};
use crate::gamestate::teams::{LedgerView, TeamsByName};
use vstd::prelude::*;

verus! {

/// Why a step through the history cannot be taken.
#[derive(Copy, Clone, Debug, PartialEq, Eq, Structural)]
pub enum HistoryNavigationErr {
    UndoFromInitialState,
}

/// The model of one recorded step: the outcome, and the index of the step that
/// was current when it was recorded, if any was.
pub struct NodeView {
    pub outcome: OutcomeView,
    pub previous: Option<int>,
}

/// The model of a [`GameHistory`].
pub struct HistoryView {
    pub initial: LedgerView,
    pub nodes: Seq<NodeView>,
    pub current: Option<int>,
}

impl HistoryView {
    /// The history of a game that starts in the state `initial`.
    pub open spec fn starting_with(initial: LedgerView) -> HistoryView {
        HistoryView { initial, nodes: Seq::empty(), current: None }
    }

    /// The current step, if there is one, has been recorded, and every step
    /// points back to a step recorded before it.
    pub open spec fn wf(self) -> bool {
        &&& self.current matches Some(c) ==> 0 <= c < self.nodes.len()
        &&& forall|k: int|
            0 <= k < self.nodes.len() ==> ((#[trigger] self.nodes[k]).previous matches Some(p)
                ==> 0 <= p < k)
    }

    /// The state that the game is in: the initial state where no step is
    /// current, else the state after the current step.
    pub open spec fn current_state(self) -> LedgerView {
        match self.current {
            Some(c) => self.nodes[c].outcome.new_state,
            None => self.initial,
        }
    }

    /// The history after `outcome` is recorded: it becomes the current step,
    /// and points back to the step that was current.
    pub open spec fn apply(self, outcome: OutcomeView) -> HistoryView {
        HistoryView {
            nodes: self.nodes.push(NodeView { outcome, previous: self.current }),
            current: Some(self.nodes.len() as int),
            ..self
        }
    }

    /// The history after one step back from a current step.
    pub open spec fn undo(self) -> HistoryView {
        HistoryView { current: self.nodes[self.current->0].previous, ..self }
    }

    /// The history with `state` in place of the current state.
    pub open spec fn with_current_state(self, state: LedgerView) -> HistoryView {
        match self.current {
            Some(c) => HistoryView {
                nodes: self.nodes.update(
                    c,
                    NodeView {
                        outcome: OutcomeView { new_state: state, ..self.nodes[c].outcome },
                        ..self.nodes[c]
                    },
                ),
                ..self
            },
            None => HistoryView { initial: state, ..self },
        }
    }

    /// The history after the outcomes `outcomes` are recorded one after another.
    pub open spec fn apply_all(self, outcomes: Seq<OutcomeView>) -> HistoryView
        decreases outcomes.len(),
    {
        if outcomes.len() == 0 {
            self
        } else {
            self.apply_all(outcomes.drop_last()).apply(outcomes.last())
        }
    }

    /// The history after `n` attempts to step back: an attempt with no current
    /// step changes nothing.
    pub open spec fn undo_times(self, n: nat) -> HistoryView
        decreases n,
    {
        if n == 0 || self.current is None {
            self
        } else {
            self.undo().undo_times((n - 1) as nat)
        }
    }

    /// Whether every state of the history is a well-formed ledger.
    pub open spec fn states_wf(self) -> bool {
        &&& self.initial.wf()
        &&& forall|k: int|
            0 <= k < self.nodes.len() ==> (#[trigger] self.nodes[k]).outcome.new_state.wf()
    }

    /// Whether `other` has recorded all that `self` has, in the same order, and
    /// stands at the same step.
    pub open spec fn continued_by(self, other: HistoryView) -> bool {
        &&& self.initial == other.initial
        &&& self.current == other.current
        &&& self.nodes.len() <= other.nodes.len()
        &&& forall|k: int| 0 <= k < self.nodes.len() ==> #[trigger] self.nodes[k] == other.nodes[k]
    }
}

/// Recording an outcome and stepping back returns to where the game was: the
/// same step is current, and the game is in the same state.
pub proof fn lemma_undo_reverts_apply(history: HistoryView, outcome: OutcomeView)
    requires
        history.wf(),
    ensures
        history.apply(outcome).wf(),
        history.apply(outcome).current_state() == outcome.new_state,
        history.apply(outcome).undo().wf(),
        history.apply(outcome).undo().current == history.current,
        history.apply(outcome).undo().current_state() == history.current_state(),
        history.continued_by(history.apply(outcome).undo()),
{
}

/// Stepping back does not look at what was recorded after the current step.
pub proof fn lemma_undo_times_of_continuation(first: HistoryView, second: HistoryView, n: nat)
    requires
        first.wf(),
        second.wf(),
        first.continued_by(second),
    ensures
        first.undo_times(n).wf(),
        second.undo_times(n).wf(),
        first.undo_times(n).continued_by(second.undo_times(n)),
        first.undo_times(n).current_state() == second.undo_times(n).current_state(),
    decreases n,
{
    if n == 0 || first.current is None {
    } else {
        lemma_undo_times_of_continuation(first.undo(), second.undo(), (n - 1) as nat);
    }
}

/// Recording keeps a history well formed.
pub proof fn lemma_apply_all_wf(history: HistoryView, outcomes: Seq<OutcomeView>)
    requires
        history.wf(),
    ensures
        history.apply_all(outcomes).wf(),
    decreases outcomes.len(),
{
    if outcomes.len() > 0 {
        lemma_apply_all_wf(history, outcomes.drop_last());
    }
}

/// As many steps back as outcomes were recorded return to where the game was:
/// the same step is current, and the game is in the same state.
pub proof fn lemma_undo_all_reverts_apply_all(history: HistoryView, outcomes: Seq<OutcomeView>)
    requires
        history.wf(),
    ensures
        history.apply_all(outcomes).undo_times(outcomes.len()).current == history.current,
        history.apply_all(outcomes).undo_times(outcomes.len()).current_state()
            == history.current_state(),
        history.continued_by(history.apply_all(outcomes).undo_times(outcomes.len())),
    decreases outcomes.len(),
{
    if outcomes.len() > 0 {
        let rest = outcomes.drop_last();
        let before = history.apply_all(rest);
        let stepped = before.apply(outcomes.last()).undo();
        lemma_apply_all_wf(history, rest);
        lemma_undo_reverts_apply(before, outcomes.last());
        lemma_undo_all_reverts_apply_all(history, rest);
        lemma_undo_times_of_continuation(before, stepped, rest.len());
        assert(history.apply_all(outcomes).undo_times(outcomes.len()) == stepped.undo_times(
            rest.len(),
        ));
    }
}

/// After `n` outcomes recorded on a new game, `n` steps back return to the
/// initial state, and no further step back can be taken: no step is current.
pub proof fn lemma_undo_all_returns_to_start(initial: LedgerView, outcomes: Seq<OutcomeView>)
    ensures
        ({
            let recorded = HistoryView::starting_with(initial).apply_all(outcomes);
            &&& recorded.undo_times(outcomes.len()).current_state() == initial
            &&& recorded.undo_times(outcomes.len()).current is None
            &&& recorded.undo_times(outcomes.len() + 1) == recorded.undo_times(outcomes.len())
        }),
{
    let start = HistoryView::starting_with(initial);
    lemma_undo_all_reverts_apply_all(start, outcomes);
    lemma_undo_times_split(start.apply_all(outcomes), outcomes.len(), 1);
}

/// Steps back can be taken in two runs.
pub proof fn lemma_undo_times_split(history: HistoryView, n: nat, m: nat)
    ensures
        history.undo_times(n + m) == history.undo_times(n).undo_times(m),
    decreases n,
{
    if n == 0 {
    } else if history.current is None {
        lemma_undo_times_none(history, m);
        lemma_undo_times_none(history, n + m);
    } else {
        lemma_undo_times_split(history.undo(), (n - 1) as nat, m);
    }
}

/// No step back can be taken from the initial state.
pub proof fn lemma_undo_times_none(history: HistoryView, n: nat)
    requires
        history.current is None,
    ensures
        history.undo_times(n) == history,
{
}

/// One recorded step.
#[derive(Debug)]
struct GameStateNode {
    data: AttackOutcome,
    previous: Option<usize>,
}

impl GameStateNode {
    spec fn model(self) -> NodeView {
        NodeView {
            outcome: self.data@,
            previous: match self.previous {
                Some(p) => Some(p as int),
                None => None,
            },
        }
    }
}

/// The history of a game.
#[derive(Debug)]
pub struct GameHistory {
    initial_state: TeamsByName,
    states: Vec<GameStateNode>,
    current: Option<usize>,
}

impl View for GameHistory {
    type V = HistoryView;

    closed spec fn view(&self) -> HistoryView {
        HistoryView {
            initial: self.initial_state@,
            nodes: self.states@.map_values(|node: GameStateNode| node.model()),
            current: match self.current {
                Some(c) => Some(c as int),
                None => None,
            },
        }
    }
}

impl GameHistory {
    /// The current step, if there is one, has been recorded, and every step
    /// points back to a step recorded before it.
    pub open spec fn wf(&self) -> bool {
        self@.wf()
    }

    /// The history of a game that starts in the state `initial_state`.
    pub fn starting_with(initial_state: TeamsByName) -> (history: GameHistory)
        ensures
            history@ == HistoryView::starting_with(initial_state@),
            history.wf(),
    {
        let history = GameHistory { initial_state, states: Vec::new(), current: None };
        assert(history@.nodes =~= Seq::empty());
        history
    }

    /// The state that the game is in.
    pub fn current_state(&self) -> (state: &TeamsByName)
        requires
            self.wf(),
        ensures
            state@ == self@.current_state(),
    {
        match self.current {
            Some(index) => self.node(index).data.new_state(),
            None => &self.initial_state,
        }
    }

    /// The state that the game is in, to be changed in place. The history
    /// afterwards holds the state as the caller left it.
    pub fn current_mut(&mut self) -> (state: &mut TeamsByName)
        requires
            old(self).wf(),
        ensures
            state@ == old(self)@.current_state(),
            final(self)@ == old(self)@.with_current_state(final(state)@),
    {
        match self.current {
            Some(index) => {
                let ghost before = self@;
                let state = self.states[index].data.new_state_mut();
                proof {
                    assert(after_borrow(self.states)@.map_values(
                        |node: GameStateNode| node.model(),
                    ) =~= before.with_current_state(final(state)@).nodes);
                }
                state
            },
            None => &mut self.initial_state,
        }
    }

    /// Records `attack`, which becomes the current step.
    pub fn apply_attack(&mut self, attack: AttackOutcome)
        requires
            old(self).wf(),
        ensures
            final(self)@ == old(self)@.apply(attack@),
            final(self).wf(),
    {
        self.states.push(GameStateNode { data: attack, previous: self.current });
        self.current = Some(self.states.len() - 1);
        assert(self@.nodes =~= old(self)@.apply(attack@).nodes);
    }

    /// Steps back to the step that was current when the current step was
    /// recorded. From the initial state no step back can be taken.
    pub fn undo_last_attack(&mut self) -> (undone: Result<(), HistoryNavigationErr>)
        requires
            old(self).wf(),
        ensures
            final(self).wf(),
            match undone {
                Ok(()) => old(self)@.current is Some && final(self)@ == old(self)@.undo(),
                Err(e) => {
                    &&& e == HistoryNavigationErr::UndoFromInitialState
                    &&& old(self)@.current is None
                    &&& final(self)@ == old(self)@
                },
            },
            final(self)@ == old(self)@.undo_times(1),
    {
        proof {
            reveal_with_fuel(HistoryView::undo_times, 2);
        }
        let previous = match self.current {
            Some(index) => self.node(index).previous,
            None => {
                return Err(HistoryNavigationErr::UndoFromInitialState);
            },
        };
        self.current = previous;
        Ok(())
    }

    /// How many steps have been recorded.
    pub fn recorded(&self) -> (n: usize)
        ensures
            n == self@.nodes.len(),
    {
        self.states.len()
    }

    /// Whether the game is in its initial state.
    pub fn at_start(&self) -> (at_start: bool)
        ensures
            at_start == (self@.current is None),
    {
        self.current.is_none()
    }

    fn node(&self, index: usize) -> (node: &GameStateNode)
        requires
            index < self.states@.len(),
        ensures
            *node == self.states@[index as int],
    {
        &self.states[index]
    }

    fn node_mut(&mut self, index: usize) -> (node: &mut GameStateNode)
        requires
            index < old(self).states@.len(),
        ensures
            *node == old(self).states@[index as int],
            final(self).states@ == old(self).states@.update(index as int, *final(node)),
            final(self).initial_state == old(self).initial_state,
            final(self).current == old(self).current,
    {
        &mut self.states[index]
    }
}

} // verus!
