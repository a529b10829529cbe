use crate::probability::{Distribution, RATE_ONE};
use vstd::prelude::*;

verus! {


/// The reward of one transition, in a unit the caller chooses.
#[derive(Debug, Clone, Copy, PartialEq, Eq, Structural)]
pub struct Reward(pub i64);

impl Reward {
    pub fn new(val: i64) -> (r: Reward)
        ensures
            r.0 == val,
    {
        Reward(val)
    }

    pub fn value(&self) -> (r: i64)
        ensures
            r == self.0,
    {
        self.0
    }
}

impl std::ops::Deref for Reward {
    type Target = i64;

    fn deref(&self) -> (r: &i64)
        ensures
            *r == self.0,
    {
        &self.0
    }
}

/// Why a model query failed.
#[derive(Debug, Clone, Copy, PartialEq, Eq, Structural)]
pub enum ModelError {
    /// No state has this identity.
    StateNotFound,
    /// The state has no action of this index.
    ActionDoesNotExist,
}

/// One action slot: a sampler over (successor, reward) outcomes.
pub type Transition = Distribution<(usize, Reward)>;

/// A finite Markov decision process: an arena of states, each holding one
/// sampler per action, in the order the actions were added, and a discount
/// factor `gamma` in `(0, RATE_ONE)`.
pub struct MDP {
    states: Vec<Vec<Transition>>,
    gamma: u64,
}

impl MDP {
    pub closed spec fn spec_num_states(&self) -> int {
        self.states@.len() as int
    }

    /// Number of actions of state `s`.
    pub closed spec fn spec_num_actions(&self, s: int) -> int {
        self.states@[s]@.len() as int
    }

    /// The sampler of action `a` at state `s`.
    pub closed spec fn slot(&self, s: int, a: int) -> Transition {
        self.states@[s]@[a]
    }

    pub closed spec fn spec_gamma(&self) -> u64 {
        self.gamma
    }

    pub open spec fn has_action(&self, s: int, a: int) -> bool {
        0 <= s < self.spec_num_states() && 0 <= a < self.spec_num_actions(s)
    }

    pub open spec fn wf(&self) -> bool {
        &&& 0 < self.spec_gamma() < RATE_ONE
        &&& forall|s: int, a: int| #[trigger]
            self.has_action(s, a) ==> self.slot(s, a).wf()
    }

    /// `o` is a possible outcome of taking action `a` at state `s`.
    pub open spec fn admits(&self, s: int, a: int, o: (usize, Reward)) -> bool {
        self.has_action(s, a) && self.slot(s, a).items().contains(o)
    }

    /// Every outcome leads to a state of the model.
    pub open spec fn is_closed(&self) -> bool {
        &&& self.wf()
        &&& forall|s: int, a: int, i: int| #[trigger]
            self.has_action(s, a) && 0 <= i < self.slot(s, a).items().len()
                ==> (#[trigger] self.slot(
                s,
                a,
            ).items()[i]).0 < self.spec_num_states()
    }

    /// Every action of every state has exactly one outcome.
    pub open spec fn is_deterministic(&self) -> bool {
        forall|s: int, a: int| #[trigger]
            self.has_action(s, a) ==> self.slot(s, a).items().len() == 1
    }

    /// A model without states; `gamma` must lie strictly between 0 and
    /// `RATE_ONE`.
    pub fn new(gamma: u64) -> (r: MDP)
        requires
            0 < gamma < RATE_ONE,
        ensures
            r.wf(),
            r.is_closed(),
            r.spec_num_states() == 0,
            r.spec_gamma() == gamma,
    {
        MDP { states: Vec::new(), gamma }
    }

    pub fn gamma(&self) -> (r: u64)
        ensures
            r == self.spec_gamma(),
    {
        self.gamma
    }

    pub fn num_states(&self) -> (r: usize)
        ensures
            r == self.spec_num_states(),
    {
        self.states.len()
    }

    /// Adds a state without actions and returns its identity.
    pub fn add_state(&mut self) -> (id: usize)
        requires
            old(self).wf(),
            old(self).spec_num_states() < usize::MAX,
        ensures
            final(self).wf(),
            id == old(self).spec_num_states(),
            final(self).spec_num_states() == old(self).spec_num_states() + 1,
            final(self).spec_num_actions(id as int) == 0,
            final(self).spec_gamma() == old(self).spec_gamma(),
            forall|s: int|
                0 <= s < old(self).spec_num_states() ==> final(self).spec_num_actions(s)
                    == old(self).spec_num_actions(s),
            forall|s: int, a: int|
                old(self).has_action(s, a)
                    ==> #[trigger] final(self).slot(s, a) == old(self).slot(s, a),
    {
        let id = self.states.len();
        self.states.push(Vec::new());
        proof {
            assert forall|s: int, a: int| #[trigger] final(self).has_action(s, a)
                implies final(self).slot(s, a).wf() by {
                assert(old(self).has_action(s, a));
            }
        }
        id
    }

    /// Number of actions of `state`.
    pub fn num_actions(&self, state: usize) -> (r: Result<usize, ModelError>)
        ensures
            state >= self.spec_num_states() ==> r == Err::<usize, _>(ModelError::StateNotFound),
            state < self.spec_num_states() ==> (r matches Ok(m) && m as int
                == self.spec_num_actions(state as int)),
    {
        if state >= self.states.len() {
            return Err(ModelError::StateNotFound);
        }
        Ok(self.states[state].len())
    }

    /// Appends a new action to `state`, with the given outcomes; its index is
    /// the number of actions the state had before.
    pub fn add_transition(&mut self, state: usize, target_distribution: Transition) -> (r: Result<
        usize,
        ModelError,
    >)
        requires
            old(self).wf(),
            target_distribution.wf(),
        ensures
            final(self).wf(),
            final(self).spec_num_states() == old(self).spec_num_states(),
            final(self).spec_gamma() == old(self).spec_gamma(),
            state >= old(self).spec_num_states() ==> r == Err::<usize, _>(
                ModelError::StateNotFound,
            ) && *final(self) == *old(self),
            state < old(self).spec_num_states()
                ==> (r matches Ok(a) && a as int == old(self).spec_num_actions(state as int)),
            r matches Ok(a) ==> final(self).spec_num_actions(state as int) == a + 1
                && final(self).slot(state as int, a as int) == target_distribution,
            forall|s: int|
                0 <= s < old(self).spec_num_states() && s != state ==> final(self).spec_num_actions(
                    s,
                ) == old(self).spec_num_actions(s),
            forall|s: int, a: int|
                old(self).has_action(s, a)
                    ==> #[trigger] final(self).slot(s, a) == old(self).slot(s, a),
    {
        if state >= self.states.len() {
            return Err(ModelError::StateNotFound);
        }
        let a = self.states[state].len();
        self.states[state].push(target_distribution);
        proof {
            assert forall|s: int, b: int| #[trigger] final(self).has_action(s, b)
                implies final(self).slot(s, b).wf() by {
                if s != state || b != a {
                    assert(old(self).has_action(s, b));
                }
            }
            assert forall|s: int, b: int| old(self).has_action(s, b)
                implies #[trigger] final(self).slot(s, b) == old(self).slot(s, b) by {}
        }
        Ok(a)
    }

    /// Replaces the outcomes of an existing action.
    pub fn set_transition(
        &mut self,
        state: usize,
        action: usize,
        target_distribution: Transition,
    ) -> (r: Result<(), ModelError>)
        requires
            old(self).wf(),
            target_distribution.wf(),
        ensures
            final(self).wf(),
            final(self).spec_num_states() == old(self).spec_num_states(),
            final(self).spec_gamma() == old(self).spec_gamma(),
            state >= old(self).spec_num_states() ==> r == Err::<(), _>(ModelError::StateNotFound),
            state < old(self).spec_num_states() && action >= old(self).spec_num_actions(
                state as int,
            ) ==> r == Err::<(), _>(ModelError::ActionDoesNotExist),
            r is Err ==> *final(self) == *old(self),
            old(self).has_action(state as int, action as int) ==> r is Ok,
            forall|s: int|
                0 <= s < old(self).spec_num_states()
                    ==> final(self).spec_num_actions(s) == old(self).spec_num_actions(s),
            forall|s: int, a: int|
                old(self).has_action(s, a) ==> #[trigger] final(self).slot(s, a) == if r is Ok
                    && s == state && a == action {
                    target_distribution
                } else {
                    old(self).slot(s, a)
                },
    {
        if state >= self.states.len() {
            return Err(ModelError::StateNotFound);
        }
        if action >= self.states[state].len() {
            return Err(ModelError::ActionDoesNotExist);
        }
        self.states[state].set(action, target_distribution);
        proof {
            assert forall|s: int, b: int| #[trigger] final(self).has_action(s, b)
                implies final(self).slot(s, b).wf() by {
                assert(old(self).has_action(s, b));
            }
        }
        Ok(())
    }

    /// Draws one outcome of taking `action` at `state`. The model is not
    /// changed.
    pub fn sample_transition(&self, state: usize, action: usize) -> (r: Result<
        (usize, Reward),
        ModelError,
    >)
        requires
            self.wf(),
        ensures
            state >= self.spec_num_states() ==> r == Err::<(usize, Reward), _>(
                ModelError::StateNotFound,
            ),
            state < self.spec_num_states() && action >= self.spec_num_actions(state as int) ==> r
                == Err::<(usize, Reward), _>(ModelError::ActionDoesNotExist),
            self.has_action(state as int, action as int) ==> r is Ok,
            r matches Ok(o) ==> self.admits(state as int, action as int, o),
    {
        if state >= self.states.len() {
            return Err(ModelError::StateNotFound);
        }
        if action >= self.states[state].len() {
            return Err(ModelError::ActionDoesNotExist);
        }
        assert(self.has_action(state as int, action as int));
        let o = self.states[state][action].sample();
        proof {
            let d = self.slot(state as int, action as int);
            let (u, i) = choose|u: int, i: int|
                0 <= u < d.total() && 0 <= i < d.items().len() && crate::probability::selects(
                    d.weights(),
                    u,
                    i,
                ) && o == d.items()[i];
            assert(d.items()[i] == o);
        }
        Ok(o)
    }
}

impl MDP {
    /// Whether every outcome leads to a state of the model.
    pub fn successors_in_range(&self) -> (b: bool)
        requires
            self.wf(),
        ensures
            b == self.is_closed(),
    {
        let n = self.states.len();
        let mut s: usize = 0;
        while s < n
            invariant
                self.wf(),
                n == self.spec_num_states(),
                s <= n,
                forall|t: int, a: int, i: int| #[trigger]
                    self.has_action(t, a) && t < s && 0 <= i < self.slot(t, a).items().len() ==> (
                    #[trigger] self.slot(t, a).items()[i]).0 < n,
            decreases n - s,
        {
            let row = &self.states[s];
            let mut a: usize = 0;
            while a < row.len()
                invariant
                    self.wf(),
                    n == self.spec_num_states(),
                    s < n,
                    *row == self.states@[s as int],
                    a <= row@.len(),
                    forall|t: int, b: int, i: int| #[trigger]
                        self.has_action(t, b) && (t < s || (t == s && b < a)) && 0 <= i
                            < self.slot(t, b).items().len() ==> (#[trigger] self.slot(
                            t,
                            b,
                        ).items()[i]).0 < n,
                decreases row@.len() - a,
            {
                assert(self.has_action(s as int, a as int));
                let d = &row[a];
                proof {
                    d.lemma_wf();
                }
                let m = d.num_items();
                let mut i: usize = 0;
                while i < m
                    invariant
                        self.wf(),
                        n == self.spec_num_states(),
                        s < n,
                        *row == self.states@[s as int],
                        a < row@.len(),
                        *d == self.slot(s as int, a as int),
                        m == d.items().len(),
                        i <= m,
                        forall|t: int, b: int, j: int| #[trigger]
                            self.has_action(t, b) && (t < s || (t == s && b < a) || (t == s && b
                                == a && j < i)) && 0 <= j < self.slot(t, b).items().len() ==> (
                            #[trigger] self.slot(t, b).items()[j]).0 < n,
                    decreases m - i,
                {
                    if d.item(i).0 >= n {
                        assert(self.has_action(s as int, a as int));
                        assert(self.slot(s as int, a as int).items()[i as int].0 >= n);
                        return false;
                    }
                    i = i + 1;
                }
                a = a + 1;
            }
            s = s + 1;
        }
        true
    }
}

/// `outs` is a possible sequence of outcomes when the actions `acts` are
/// taken one after the other from state `start`.
pub open spec fn admits_run(
    m: MDP,
    start: int,
    acts: Seq<usize>,
    outs: Seq<(usize, Reward)>,
) -> bool {
    &&& outs.len() == acts.len()
    &&& forall|k: int|
        0 <= k < acts.len() ==> m.admits(
            if k == 0 {
                start
            } else {
                outs[k - 1].0 as int
            },
            acts[k] as int,
            #[trigger] outs[k],
        )
}

/// In a model where every action has one outcome, starting again from the same
/// state and taking the same actions gives the same states and rewards.
pub proof fn lemma_deterministic_replay(
    m: MDP,
    start: int,
    acts: Seq<usize>,
    outs1: Seq<(usize, Reward)>,
    outs2: Seq<(usize, Reward)>,
)
    requires
        m.wf(),
        m.is_deterministic(),
        admits_run(m, start, acts, outs1),
        admits_run(m, start, acts, outs2),
    ensures
        outs1 == outs2,
{
    assert forall|k: int| 0 <= k < acts.len() implies outs1[k] == outs2[k] by {
        lemma_replay_prefix(m, start, acts, outs1, outs2, k);
    }
    assert(outs1 =~= outs2);
}

proof fn lemma_replay_prefix(
    m: MDP,
    start: int,
    acts: Seq<usize>,
    outs1: Seq<(usize, Reward)>,
    outs2: Seq<(usize, Reward)>,
    k: int,
)
    requires
        m.wf(),
        m.is_deterministic(),
        admits_run(m, start, acts, outs1),
        admits_run(m, start, acts, outs2),
        0 <= k < acts.len(),
    ensures
        outs1[k] == outs2[k],
    decreases k,
{
    if k > 0 {
        lemma_replay_prefix(m, start, acts, outs1, outs2, k - 1);
    }
    let s = if k == 0 {
        start
    } else {
        outs1[k - 1].0 as int
    };
    assert(m.admits(s, acts[k] as int, outs1[k]));
    assert(m.admits(s, acts[k] as int, outs2[k]));
    let d = m.slot(s, acts[k] as int);
    let i1 = choose|i: int| 0 <= i < d.items().len() && d.items()[i] == outs1[k];
    let i2 = choose|i: int| 0 <= i < d.items().len() && d.items()[i] == outs2[k];
}

/// A simulation of a model: a current state that actions move.
pub struct MDPEnvironment<'a> {
    mdp: &'a MDP,
    cur_state: usize,
}

impl<'a> MDPEnvironment<'a> {
    pub closed spec fn model(&self) -> MDP {
        *self.mdp
    }

    pub closed spec fn state(&self) -> int {
        self.cur_state as int
    }

    pub open spec fn wf(&self) -> bool {
        &&& self.model().is_closed()
        &&& 0 <= self.state() < self.model().spec_num_states()
    }

    pub fn new(mdp: &'a MDP, starting_state: usize) -> (r: Self)
        requires
            mdp.is_closed(),
            starting_state < mdp.spec_num_states(),
        ensures
            r.wf(),
            r.model() == *mdp,
            r.state() == starting_state,
    {
        MDPEnvironment { mdp, cur_state: starting_state }
    }

    /// Moves the simulation to `starting_state`; the model is untouched.
    pub fn reset(&mut self, starting_state: usize)
        requires
            old(self).wf(),
            starting_state < old(self).model().spec_num_states(),
        ensures
            final(self).wf(),
            final(self).model() == old(self).model(),
            final(self).state() == starting_state,
    {
        self.cur_state = starting_state;
    }

    pub fn cur_state(&self) -> (r: usize)
        ensures
            r == self.state(),
    {
        self.cur_state
    }

    pub fn model_ref(&self) -> (r: &'a MDP)
        ensures
            *r == self.model(),
    {
        self.mdp
    }

    /// Takes `action` at the current state: draws an outcome, moves to its
    /// successor and returns its reward.
    pub fn perform_action(&mut self, action: usize) -> (r: Reward)
        requires
            old(self).wf(),
            old(self).model().has_action(old(self).state(), action as int),
        ensures
            final(self).wf(),
            final(self).model() == old(self).model(),
            old(self).model().admits(
                old(self).state(),
                action as int,
                (final(self).state() as usize, r),
            ),
    {
        let (new_state, reward) = self.mdp.sample_transition(self.cur_state, action).unwrap();
        proof {
            let m = self.model();
            let d = m.slot(self.state(), action as int);
            let i = choose|i: int| 0 <= i < d.items().len() && d.items()[i] == (new_state, reward);
            assert(m.has_action(self.state(), action as int));
        }
        self.cur_state = new_state;
        reward
    }
}

} // verus!
