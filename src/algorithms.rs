use crate::markov::{MDPEnvironment, ModelError, Reward, MDP};
use crate::miscellaneous::{is_first_max, is_first_min, ArgOrd};
use crate::probability::{prefix_sum, throw_coin, Distribution, RATE_ONE};
use vstd::prelude::*;

verus! {

/// Estimates are fixed-point numbers in the reward's unit. With a discount
/// factor `gamma`, every estimate `v` keeps
/// `|v| * (RATE_ONE - gamma) <= VALUE_BOUND * RATE_ONE`, which every reward
/// of an `i64` respects and every update preserves.
pub const VALUE_BOUND: i128 = 18_446_744_073_709_551_616;

/// The bootstrapped target of one step: `reward + gamma * next_value`, rounded
/// down.
pub open spec fn td_target(reward: int, gamma: int, next_value: int) -> int {
    reward + (gamma * next_value) / (RATE_ONE as int)
}

/// `current` moved towards `target` by `rate`:
/// `current + rate * (target - current)`, rounded down.
pub open spec fn blend(current: int, target: int, rate: int) -> int {
    current + (rate * (target - current)) / (RATE_ONE as int)
}

/// `|v| * (RATE_ONE - gamma) <= b * RATE_ONE`: `v` is at most
/// `b / (1 - gamma)` in size.
pub open spec fn within(v: int, gamma: int, b: int) -> bool {
    -(b * RATE_ONE) <= v * (RATE_ONE - gamma) <= b * RATE_ONE
}

pub open spec fn bounded(v: int, gamma: int) -> bool {
    within(v, gamma, VALUE_BOUND as int)
}

pub open spec fn all_bounded(vs: Seq<i128>, gamma: int) -> bool {
    forall|i: int| 0 <= i < vs.len() ==> bounded(#[trigger] vs[i] as int, gamma)
}

pub open spec fn table_bounded(q: Seq<Vec<i128>>, gamma: int) -> bool {
    forall|s: int| 0 <= s < q.len() ==> all_bounded(#[trigger] q[s]@, gamma)
}

proof fn lemma_bounded_range(v: int, gamma: int)
    requires
        0 < gamma < RATE_ONE,
        bounded(v, gamma),
    ensures
        -(VALUE_BOUND * RATE_ONE) <= v <= VALUE_BOUND * RATE_ONE,
{
    let c = RATE_ONE - gamma;
    assert(c >= 1);
    if v > 0 {
        assert(v * c >= v) by (nonlinear_arith)
            requires
                c >= 1,
                v > 0,
        ;
    } else {
        assert(v * c <= v) by (nonlinear_arith)
            requires
                c >= 1,
                v <= 0,
        ;
    }
}

/// With rewards below `b` in size, a target built on a value within `b`
/// is within `b` too; one unit of `b` absorbs the rounding.
proof fn lemma_target_within(reward: int, gamma: int, next_value: int, b: int)
    requires
        0 < gamma < RATE_ONE,
        b >= 1,
        -(b - 1) <= reward <= b - 1,
        within(next_value, gamma, b),
    ensures
        within(td_target(reward, gamma, next_value), gamma, b),
{
    let d = RATE_ONE as int;
    let c = d - gamma;
    let x = b * d;
    let p = gamma * next_value;
    let q = p / d;
    let t = reward + q;
    assert(q * d <= p < q * d + d) by (nonlinear_arith)
        requires
            d > 0,
            q == p / d,
    ;
    assert(p * c == gamma * (next_value * c)) by (nonlinear_arith)
        requires
            p == gamma * next_value,
    ;
    assert(-(gamma * x) <= gamma * (next_value * c) <= gamma * x) by (nonlinear_arith)
        requires
            gamma > 0,
            -x <= next_value * c <= x,
    ;
    let m = c * d;
    assert(m > 0) by (nonlinear_arith)
        requires
            c > 0,
            d > 0,
            m == c * d,
    ;
    assert(t * c * d == reward * m + (q * d) * c) by (nonlinear_arith)
        requires
            t == reward + q,
            m == c * d,
    ;
    assert(x * d == b * m + gamma * x) by (nonlinear_arith)
        requires
            d == c + gamma,
            x == b * d,
            m == c * d,
    ;
    assert((q * d) * c <= p * c) by (nonlinear_arith)
        requires
            q * d <= p,
            c > 0,
    ;
    assert((q * d) * c >= p * c - m) by (nonlinear_arith)
        requires
            p < q * d + d,
            c > 0,
            m == c * d,
    ;
    assert(-((b - 1) * m) <= reward * m <= (b - 1) * m) by (nonlinear_arith)
        requires
            -(b - 1) <= reward <= b - 1,
            m > 0,
    ;
    assert((b - 1) * m + m == b * m) by (nonlinear_arith);
    assert(t * c * d <= x * d);
    assert(-(x * d) <= t * c * d);
    assert(-x <= t * c <= x) by (nonlinear_arith)
        requires
            d > 0,
            t * c * d <= x * d,
            -(x * d) <= t * c * d,
    ;
}

proof fn lemma_target_bounded(reward: int, gamma: int, next_value: int)
    requires
        0 < gamma < RATE_ONE,
        i64::MIN <= reward <= i64::MAX,
        bounded(next_value, gamma),
    ensures
        bounded(td_target(reward, gamma, next_value), gamma),
{
    lemma_target_within(reward, gamma, next_value, VALUE_BOUND as int);
}

/// With rewards and the next value not negative, the target is not negative.
proof fn lemma_target_nonneg(reward: int, gamma: int, next_value: int)
    requires
        0 < gamma < RATE_ONE,
        reward >= 0,
        next_value >= 0,
    ensures
        td_target(reward, gamma, next_value) >= 0,
{
    let p = gamma * next_value;
    assert(p >= 0) by (nonlinear_arith)
        requires
            gamma > 0,
            next_value >= 0,
            p == gamma * next_value,
    ;
    assert(p / (RATE_ONE as int) >= 0) by (nonlinear_arith)
        requires
            p >= 0,
    ;
}

proof fn lemma_blend_between(current: int, target: int, rate: int)
    requires
        0 <= rate <= RATE_ONE,
    ensures
        current <= target ==> current <= blend(current, target, rate) <= target,
        target <= current ==> target <= blend(current, target, rate) <= current,
{
    let d = RATE_ONE as int;
    let e = target - current;
    let k = rate * e;
    let q = k / d;
    assert(q * d <= k < q * d + d) by (nonlinear_arith)
        requires
            d > 0,
            q == k / d,
    ;
    if e >= 0 {
        assert(0 <= k <= d * e) by (nonlinear_arith)
            requires
                0 <= rate <= d,
                e >= 0,
                k == rate * e,
        ;
        assert(0 <= q <= e) by (nonlinear_arith)
            requires
                q * d <= k < q * d + d,
                0 <= k <= d * e,
                d > 0,
        ;
    } else {
        assert(d * e <= k <= 0) by (nonlinear_arith)
            requires
                0 <= rate <= d,
                e < 0,
                k == rate * e,
        ;
        assert(e <= q <= 0) by (nonlinear_arith)
            requires
                q * d <= k < q * d + d,
                d * e <= k <= 0,
                d > 0,
        ;
    }
}

proof fn lemma_between_bounded(x: int, a: int, b: int, gamma: int)
    requires
        0 < gamma < RATE_ONE,
        bounded(a, gamma),
        bounded(b, gamma),
        (a <= x <= b) || (b <= x <= a),
    ensures
        bounded(x, gamma),
{
    lemma_between_within(x, a, b, gamma, VALUE_BOUND as int);
}

proof fn lemma_between_within(x: int, a: int, b: int, gamma: int, bound: int)
    requires
        0 < gamma < RATE_ONE,
        within(a, gamma, bound),
        within(b, gamma, bound),
        (a <= x <= b) || (b <= x <= a),
    ensures
        within(x, gamma, bound),
{
    let c = RATE_ONE - gamma;
    assert(c > 0);
    if a <= x <= b {
        assert(a * c <= x * c <= b * c) by (nonlinear_arith)
            requires
                a <= x <= b,
                c > 0,
        ;
    } else {
        assert(b * c <= x * c <= a * c) by (nonlinear_arith)
            requires
                b <= x <= a,
                c > 0,
        ;
    }
}

/// The closed-form value of a state that loops back to a state of the same
/// value with a constant reward, `v = reward / (1 - gamma)`, is a fixed point
/// of the TD(0) step: its target is `v` again and no rate moves it.
pub proof fn lemma_closed_form_is_fixed_point(reward: int, gamma: int, v: int, rate: int)
    requires
        0 < gamma < RATE_ONE,
        0 <= rate <= RATE_ONE,
        v * (RATE_ONE - gamma) == reward * RATE_ONE,
    ensures
        td_target(reward, gamma, v) == v,
        blend(v, td_target(reward, gamma, v), rate) == v,
{
    let d = RATE_ONE as int;
    assert(gamma * v == (v - reward) * d) by (nonlinear_arith)
        requires
            v * (d - gamma) == reward * d,
    ;
    assert((gamma * v) / d == v - reward) by (nonlinear_arith)
        requires
            gamma * v == (v - reward) * d,
            d > 0,
    ;
    assert(rate * (v - v) == 0);
}

/// A drawn outcome of an action: the successor and the reward.
pub type Outcome = (usize, Reward);

/// The learning rate after one more update under harmonic decay.
pub open spec fn decayed(rate: u64) -> u64 {
    ((rate as int * RATE_ONE as int) / (RATE_ONE as int + rate as int)) as u64
}

/// Every reward of the model is at most `b` in size.
pub open spec fn rewards_within(m: MDP, b: int) -> bool {
    forall|s: int, a: int, i: int|
        m.has_action(s, a) && 0 <= i < m.slot(s, a).items().len() ==> -b <= (
        #[trigger] m.slot(s, a).items()[i]).1.0 <= b
}

/// No reward of the model is negative.
pub open spec fn rewards_nonneg(m: MDP) -> bool {
    forall|s: int, a: int, i: int|
        m.has_action(s, a) && 0 <= i < m.slot(s, a).items().len() ==> (#[trigger] m.slot(
            s,
            a,
        ).items()[i]).1.0 >= 0
}

pub open spec fn all_within(vs: Seq<i128>, gamma: int, b: int) -> bool {
    forall|i: int| 0 <= i < vs.len() ==> within(#[trigger] vs[i] as int, gamma, b)
}

pub open spec fn all_nonneg(vs: Seq<i128>) -> bool {
    forall|i: int| 0 <= i < vs.len() ==> #[trigger] vs[i] >= 0
}

/// `trace` holds `epoch` entries for each of `n` start states.
pub open spec fn trace_shape<T>(trace: Seq<Seq<T>>, n: int, epoch: int) -> bool {
    &&& trace.len() == n
    &&& forall|t: int| 0 <= t < n ==> #[trigger] trace[t].len() == epoch
}

/// Each state's action under `policy` has a single outcome.
pub open spec fn policy_deterministic(m: MDP, policy: Seq<usize>) -> bool {
    forall|s: int|
        0 <= s < policy.len() && m.has_action(s, policy[s] as int) ==> #[trigger] m.slot(
            s,
            policy[s] as int,
        ).items().len() == 1
}

/// One TD(0) step from state `cur` whose drawn outcome is `o`: the values,
/// the per-state rates and the state after it.
pub open spec fn td_step(
    m: MDP,
    values: Seq<i128>,
    rates: Seq<u64>,
    cur: int,
    o: Outcome,
    decay: bool,
) -> (Seq<i128>, Seq<u64>, int) {
    let target = td_target(o.1.0 as int, m.spec_gamma() as int, values[o.0 as int] as int);
    let v = blend(values[cur] as int, target, rates[cur] as int);
    (
        values.update(cur, v as i128),
        if decay {
            rates.update(cur, decayed(rates[cur]))
        } else {
            rates
        },
        o.0 as int,
    )
}

/// TD(0) steps from state `cur` under `policy`, with the drawn outcomes
/// `outs`; the flag says whether the model allows each of them.
pub open spec fn td_walk(
    m: MDP,
    policy: Seq<usize>,
    values: Seq<i128>,
    rates: Seq<u64>,
    cur: int,
    outs: Seq<Outcome>,
    decay: bool,
) -> (Seq<i128>, Seq<u64>, int, bool)
    decreases outs.len(),
{
    if outs.len() == 0 {
        (values, rates, cur, true)
    } else {
        let w = td_walk(m, policy, values, rates, cur, outs.drop_last(), decay);
        let e = td_step(m, w.0, w.1, w.2, outs.last(), decay);
        (e.0, e.1, e.2, w.3 && m.admits(w.2, policy[w.2] as int, outs.last()))
    }
}

/// TD(0) from each state `t` in turn, with the drawn outcomes `trace[t]`;
/// the flag says whether the model allows all of them.
pub open spec fn td_sweep(
    m: MDP,
    policy: Seq<usize>,
    values: Seq<i128>,
    rates: Seq<u64>,
    trace: Seq<Seq<Outcome>>,
    decay: bool,
) -> (Seq<i128>, Seq<u64>, bool)
    decreases trace.len(),
{
    if trace.len() == 0 {
        (values, rates, true)
    } else {
        let w = td_sweep(m, policy, values, rates, trace.drop_last(), decay);
        let e = td_walk(m, policy, w.0, w.1, trace.len() - 1, trace.last(), decay);
        (e.0, e.1, w.2 && e.3)
    }
}

/// `v` is what TD(0) yields, starting from zero values and the rate `rate`
/// everywhere, for some outcomes that the model allows: `epoch` steps from
/// each state in turn.
pub open spec fn td_result(
    m: MDP,
    policy: Seq<usize>,
    epoch: nat,
    rate: u64,
    decay: bool,
    v: Seq<i128>,
) -> bool {
    exists|trace: Seq<Seq<Outcome>>|
        #[trigger] trace_shape(trace, m.spec_num_states(), epoch as int) && td_sweep(
            m,
            policy,
            Seq::new(m.spec_num_states() as nat, |i: int| 0i128),
            Seq::new(m.spec_num_states() as nat, |i: int| rate),
            trace,
            decay,
        ).2 && v == td_sweep(
            m,
            policy,
            Seq::new(m.spec_num_states() as nat, |i: int| 0i128),
            Seq::new(m.spec_num_states() as nat, |i: int| rate),
            trace,
            decay,
        ).0
}

proof fn lemma_one_outcome(m: MDP, s: int, a: int, o1: Outcome, o2: Outcome)
    requires
        m.admits(s, a, o1),
        m.admits(s, a, o2),
        m.slot(s, a).items().len() == 1,
    ensures
        o1 == o2,
{
    let d = m.slot(s, a);
    let i1 = choose|i: int| 0 <= i < d.items().len() && d.items()[i] == o1;
    let i2 = choose|i: int| 0 <= i < d.items().len() && d.items()[i] == o2;
}

proof fn lemma_td_walk_determined(
    m: MDP,
    policy: Seq<usize>,
    values: Seq<i128>,
    rates: Seq<u64>,
    cur: int,
    outs1: Seq<Outcome>,
    outs2: Seq<Outcome>,
    decay: bool,
)
    requires
        policy_deterministic(m, policy),
        policy.len() == m.spec_num_states(),
        outs1.len() == outs2.len(),
        td_walk(m, policy, values, rates, cur, outs1, decay).3,
        td_walk(m, policy, values, rates, cur, outs2, decay).3,
    ensures
        td_walk(m, policy, values, rates, cur, outs1, decay) == td_walk(
            m,
            policy,
            values,
            rates,
            cur,
            outs2,
            decay,
        ),
    decreases outs1.len(),
{
    if outs1.len() > 0 {
        lemma_td_walk_determined(
            m,
            policy,
            values,
            rates,
            cur,
            outs1.drop_last(),
            outs2.drop_last(),
            decay,
        );
        let w = td_walk(m, policy, values, rates, cur, outs1.drop_last(), decay);
        assert(m.has_action(w.2, policy[w.2] as int));
        assert(m.slot(w.2, policy[w.2] as int).items().len() == 1);
        lemma_one_outcome(m, w.2, policy[w.2] as int, outs1.last(), outs2.last());
    }
}

/// Where the policy's own actions have one outcome each, every run that the
/// model allows gives the same result: TD(0) is then exact and repeatable.
pub proof fn lemma_td_sweep_determined(
    m: MDP,
    policy: Seq<usize>,
    values: Seq<i128>,
    rates: Seq<u64>,
    trace1: Seq<Seq<Outcome>>,
    trace2: Seq<Seq<Outcome>>,
    decay: bool,
)
    requires
        policy_deterministic(m, policy),
        policy.len() == m.spec_num_states(),
        trace1.len() == trace2.len(),
        forall|t: int| 0 <= t < trace1.len() ==> #[trigger] trace1[t].len() == trace2[t].len(),
        td_sweep(m, policy, values, rates, trace1, decay).2,
        td_sweep(m, policy, values, rates, trace2, decay).2,
    ensures
        td_sweep(m, policy, values, rates, trace1, decay) == td_sweep(
            m,
            policy,
            values,
            rates,
            trace2,
            decay,
        ),
    decreases trace1.len(),
{
    if trace1.len() > 0 {
        lemma_td_sweep_determined(
            m,
            policy,
            values,
            rates,
            trace1.drop_last(),
            trace2.drop_last(),
            decay,
        );
        let w = td_sweep(m, policy, values, rates, trace1.drop_last(), decay);
        assert(trace1.last().len() == trace2.last().len());
        lemma_td_walk_determined(
            m,
            policy,
            w.0,
            w.1,
            trace1.len() - 1,
            trace1.last(),
            trace2.last(),
            decay,
        );
    }
}

fn floor_div_rate(x: i128) -> (q: i128)
    ensures
        q == (x as int) / (RATE_ONE as int),
{
    proof {
        let d = RATE_ONE as int;
        let xi = x as int;
        let q = xi / d;
        assert(q * d <= xi < q * d + d) by (nonlinear_arith)
            requires
                d > 0,
                q == xi / d,
        ;
        assert(i128::MIN <= q <= i128::MAX) by (nonlinear_arith)
            requires
                q * d <= xi < q * d + d,
                d == 1_000_000,
                i128::MIN <= xi <= i128::MAX,
        ;
    }
    x.checked_div_euclid(RATE_ONE as i128).unwrap()
}

/// `reward + gamma * next_value`, rounded down.
pub fn step_target(reward: Reward, gamma: u64, next_value: i128) -> (r: i128)
    requires
        0 < gamma < RATE_ONE,
        bounded(next_value as int, gamma as int),
    ensures
        r == td_target(reward.0 as int, gamma as int, next_value as int),
        bounded(r as int, gamma as int),
{
    proof {
        lemma_bounded_range(next_value as int, gamma as int);
        lemma_target_bounded(reward.0 as int, gamma as int, next_value as int);
    }
    proof {
        let x = VALUE_BOUND * RATE_ONE;
        assert(-(RATE_ONE * x) <= gamma * next_value <= RATE_ONE * x) by (nonlinear_arith)
            requires
                0 < gamma < RATE_ONE,
                -x <= next_value <= x,
                x > 0,
        ;
    }
    let p = (gamma as i128) * next_value;
    let q = floor_div_rate(p);
    proof {
        lemma_bounded_range(reward.0 as int + q, gamma as int);
    }
    (reward.0 as i128) + q
}

/// `current` moved towards `target` by `rate` millionths, rounded down.
pub fn blend_towards(current: i128, target: i128, rate: u64, gamma: u64) -> (r: i128)
    requires
        0 < gamma < RATE_ONE,
        rate <= RATE_ONE,
        bounded(current as int, gamma as int),
        bounded(target as int, gamma as int),
    ensures
        r == blend(current as int, target as int, rate as int),
        bounded(r as int, gamma as int),
{
    proof {
        lemma_bounded_range(current as int, gamma as int);
        lemma_bounded_range(target as int, gamma as int);
        lemma_blend_between(current as int, target as int, rate as int);
    }
    let diff = target - current;
    proof {
        let x = VALUE_BOUND * RATE_ONE;
        assert(-(RATE_ONE * (2 * x)) <= rate * diff <= RATE_ONE * (2 * x)) by (nonlinear_arith)
            requires
                0 <= rate <= RATE_ONE,
                -(2 * x) <= diff <= 2 * x,
                x > 0,
        ;
    }
    let k = (rate as i128) * diff;
    let q = floor_div_rate(k);
    proof {
        let b = blend(current as int, target as int, rate as int);
        lemma_between_bounded(b, current as int, target as int, gamma as int);
    }
    current + q
}

/// One TD(0) step after the transition `state -> next` with `reward`:
/// `values[state]` moves towards `reward + gamma * values[next]` by `rate`.
pub fn td_update(
    values: &mut Vec<i128>,
    state: usize,
    next: usize,
    reward: Reward,
    gamma: u64,
    rate: u64,
)
    requires
        state < old(values)@.len(),
        next < old(values)@.len(),
        0 < gamma < RATE_ONE,
        rate <= RATE_ONE,
        all_bounded(old(values)@, gamma as int),
    ensures
        final(values)@ == old(values)@.update(
            state as int,
            blend(
                old(values)@[state as int] as int,
                td_target(reward.0 as int, gamma as int, old(values)@[next as int] as int),
                rate as int,
            ) as i128,
        ),
        all_bounded(final(values)@, gamma as int),
{
    let target = step_target(reward, gamma, values[next]);
    let v = blend_towards(values[state], target, rate, gamma);
    values.set(state, v);
}

/// The learning rate after one more update under harmonic decay,
/// `1 / (1 / rate + 1)`, in millionths and rounded down.
pub fn decayed_rate(rate: u64) -> (r: u64)
    requires
        rate <= RATE_ONE,
    ensures
        r as int == (rate as int * RATE_ONE as int) / (RATE_ONE as int + rate as int),
        r == decayed(rate),
        r <= rate,
{
    proof {
        let a = rate as int * RATE_ONE as int;
        let d = RATE_ONE as int + rate as int;
        assert(a / d <= rate) by (nonlinear_arith)
            requires
                a == rate * RATE_ONE,
                d == RATE_ONE + rate,
                0 <= rate <= RATE_ONE,
        ;
    }
    (rate * RATE_ONE) / (RATE_ONE + rate)
}

/// A fixed choice of one action per state, for a given model.
pub struct MDPPolicy<'a> {
    mdp: &'a MDP,
    policy: Vec<usize>,
}

impl<'a> MDPPolicy<'a> {
    pub closed spec fn model(&self) -> MDP {
        *self.mdp
    }

    /// The action chosen at each state.
    pub closed spec fn actions(&self) -> Seq<usize> {
        self.policy@
    }

    /// The policy chooses, at every state of its model, an action that
    /// the state has.
    pub open spec fn is_valid(&self) -> bool {
        &&& self.actions().len() == self.model().spec_num_states()
        &&& forall|s: int|
            0 <= s < self.actions().len() ==> self.model().has_action(
                s,
                #[trigger] self.actions()[s] as int,
            )
    }

    pub fn new(mdp: &'a MDP, policy: Vec<usize>) -> (r: Self)
        ensures
            r.model() == *mdp,
            r.actions() == policy@,
    {
        Self { mdp, policy }
    }

    /// The policy that picks, at each state, the first action of highest
    /// value in `q_func` (action 0 where the row is empty).
    pub fn from_q(mdp: &'a MDP, q_func: Vec<Vec<i128>>) -> (r: Self)
        ensures
            r.model() == *mdp,
            r.actions().len() == q_func@.len(),
            forall|s: int|
                0 <= s < q_func@.len() ==> if q_func@[s]@.len() == 0 {
                    #[trigger] r.actions()[s] == 0
                } else {
                    is_first_max(q_func@[s].ranks(), r.actions()[s] as int)
                },
    {
        let mut action_chosen: Vec<usize> = Vec::new();
        let mut s: usize = 0;
        while s < q_func.len()
            invariant
                s <= q_func@.len(),
                action_chosen@.len() == s,
                forall|t: int|
                    0 <= t < s ==> if q_func@[t]@.len() == 0 {
                        #[trigger] action_chosen@[t] == 0
                    } else {
                        is_first_max(q_func@[t].ranks(), action_chosen@[t] as int)
                    },
            decreases q_func@.len() - s,
        {
            let a = match q_func[s].arg_max() {
                Some(a) => a,
                None => 0,
            };
            action_chosen.push(a);
            s = s + 1;
        }
        MDPPolicy::new(mdp, action_chosen)
    }

    /// The action chosen at `state`, if the policy covers it.
    pub fn action_at(&self, state: usize) -> (r: Option<usize>)
        ensures
            state < self.actions().len() ==> r == Some(self.actions()[state as int]),
            state >= self.actions().len() ==> r is None,
    {
        if state < self.policy.len() {
            Some(self.policy[state])
        } else {
            None
        }
    }

    /// Draws one outcome of the chosen action at `state`.
    pub fn sample_action_result(&self, state: usize) -> (r: Result<(usize, Reward), ModelError>)
        requires
            self.model().wf(),
        ensures
            state >= self.actions().len() || state >= self.model().spec_num_states() ==> r == Err::<
                (usize, Reward),
                _,
            >(ModelError::StateNotFound),
            state < self.actions().len() && state < self.model().spec_num_states()
                && !self.model().has_action(state as int, self.actions()[state as int] as int)
                ==> r == Err::<(usize, Reward), _>(ModelError::ActionDoesNotExist),
            r matches Ok(o) ==> state < self.actions().len() && self.model().admits(
                state as int,
                self.actions()[state as int] as int,
                o,
            ),
            state < self.actions().len() && self.model().has_action(
                state as int,
                self.actions()[state as int] as int,
            ) ==> r is Ok,
    {
        if state >= self.policy.len() {
            return Err(ModelError::StateNotFound);
        }
        self.mdp.sample_transition(state, self.policy[state])
    }

    /// The value of every state under this policy, by TD(0) with a fixed
    /// learning rate: from each state in turn, `epoch_size` steps, each
    /// followed by a `td_update`. Values are at most `(b + 1) / (1 - gamma)`
    /// in size where every reward is at most `b`; one unit covers rounding.
    pub fn td_zero(&self, epoch_size: usize, learning_rate: u64) -> (r: Result<
        Vec<i128>,
        ModelError,
    >)
        requires
            self.model().wf(),
            self.is_valid(),
            learning_rate <= RATE_ONE,
        ensures
            !self.model().is_closed() ==> r == Err::<Vec<i128>, ModelError>(
                ModelError::StateNotFound,
            ),
            self.model().is_closed() ==> (r matches Ok(v) && td_result(
                self.model(),
                self.actions(),
                epoch_size as nat,
                learning_rate,
                false,
                v@,
            )),
            self.model().is_closed() && policy_deterministic(self.model(), self.actions()) ==> (
            r matches Ok(v) && forall|trace: Seq<Seq<Outcome>>|
                #[trigger] trace_shape(trace, self.model().spec_num_states(), epoch_size as int)
                    && td_sweep(
                    self.model(),
                    self.actions(),
                    Seq::new(self.model().spec_num_states() as nat, |i: int| 0i128),
                    Seq::new(self.model().spec_num_states() as nat, |i: int| learning_rate),
                    trace,
                    false,
                ).2 ==> v@ == td_sweep(
                    self.model(),
                    self.actions(),
                    Seq::new(self.model().spec_num_states() as nat, |i: int| 0i128),
                    Seq::new(self.model().spec_num_states() as nat, |i: int| learning_rate),
                    trace,
                    false,
                ).0),
            self.model().is_closed() ==> (r matches Ok(v) && v@.len()
                == self.model().spec_num_states() && all_bounded(
                v@,
                self.model().spec_gamma() as int,
            )),
            self.model().is_closed() && epoch_size == 0 ==> (r matches Ok(v) && v@ == Seq::new(
                self.model().spec_num_states() as nat,
                |i: int| 0i128,
            )),
            forall|b: int|
                self.model().is_closed() && #[trigger] rewards_within(self.model(), b) ==> (
                r matches Ok(v) && all_within(v@, self.model().spec_gamma() as int, b + 1)),
            self.model().is_closed() && rewards_nonneg(self.model()) ==> (r matches Ok(v)
                && all_nonneg(v@)),
    {
        self.run_td(epoch_size, learning_rate, false)
    }

    /// As `td_zero`, with each state's learning rate starting at
    /// `initial_rate` and decaying by `decayed_rate` after each of its updates.
    pub fn td_zero_decaying(&self, epoch_size: usize, initial_rate: u64) -> (r: Result<
        Vec<i128>,
        ModelError,
    >)
        requires
            self.model().wf(),
            self.is_valid(),
            initial_rate <= RATE_ONE,
        ensures
            !self.model().is_closed() ==> r == Err::<Vec<i128>, ModelError>(
                ModelError::StateNotFound,
            ),
            self.model().is_closed() ==> (r matches Ok(v) && td_result(
                self.model(),
                self.actions(),
                epoch_size as nat,
                initial_rate,
                true,
                v@,
            )),
            self.model().is_closed() && policy_deterministic(self.model(), self.actions()) ==> (
            r matches Ok(v) && forall|trace: Seq<Seq<Outcome>>|
                #[trigger] trace_shape(trace, self.model().spec_num_states(), epoch_size as int)
                    && td_sweep(
                    self.model(),
                    self.actions(),
                    Seq::new(self.model().spec_num_states() as nat, |i: int| 0i128),
                    Seq::new(self.model().spec_num_states() as nat, |i: int| initial_rate),
                    trace,
                    true,
                ).2 ==> v@ == td_sweep(
                    self.model(),
                    self.actions(),
                    Seq::new(self.model().spec_num_states() as nat, |i: int| 0i128),
                    Seq::new(self.model().spec_num_states() as nat, |i: int| initial_rate),
                    trace,
                    true,
                ).0),
            self.model().is_closed() ==> (r matches Ok(v) && v@.len()
                == self.model().spec_num_states() && all_bounded(
                v@,
                self.model().spec_gamma() as int,
            )),
            self.model().is_closed() && epoch_size == 0 ==> (r matches Ok(v) && v@ == Seq::new(
                self.model().spec_num_states() as nat,
                |i: int| 0i128,
            )),
            forall|b: int|
                self.model().is_closed() && #[trigger] rewards_within(self.model(), b) ==> (
                r matches Ok(v) && all_within(v@, self.model().spec_gamma() as int, b + 1)),
            self.model().is_closed() && rewards_nonneg(self.model()) ==> (r matches Ok(v)
                && all_nonneg(v@)),
    {
        self.run_td(epoch_size, initial_rate, true)
    }

    fn run_td(&self, epoch_size: usize, learning_rate: u64, decay: bool) -> (r: Result<
        Vec<i128>,
        ModelError,
    >)
        requires
            self.model().wf(),
            self.is_valid(),
            learning_rate <= RATE_ONE,
        ensures
            !self.model().is_closed() ==> r == Err::<Vec<i128>, ModelError>(
                ModelError::StateNotFound,
            ),
            self.model().is_closed() ==> (r matches Ok(v) && td_result(
                self.model(),
                self.actions(),
                epoch_size as nat,
                learning_rate,
                decay,
                v@,
            )),
            self.model().is_closed() && policy_deterministic(self.model(), self.actions()) ==> (
            r matches Ok(v) && forall|trace: Seq<Seq<Outcome>>|
                #[trigger] trace_shape(trace, self.model().spec_num_states(), epoch_size as int)
                    && td_sweep(
                    self.model(),
                    self.actions(),
                    Seq::new(self.model().spec_num_states() as nat, |i: int| 0i128),
                    Seq::new(self.model().spec_num_states() as nat, |i: int| learning_rate),
                    trace,
                    decay,
                ).2 ==> v@ == td_sweep(
                    self.model(),
                    self.actions(),
                    Seq::new(self.model().spec_num_states() as nat, |i: int| 0i128),
                    Seq::new(self.model().spec_num_states() as nat, |i: int| learning_rate),
                    trace,
                    decay,
                ).0),
            self.model().is_closed() ==> (r matches Ok(v) && v@.len()
                == self.model().spec_num_states() && all_bounded(
                v@,
                self.model().spec_gamma() as int,
            )),
            self.model().is_closed() && epoch_size == 0 ==> (r matches Ok(v) && v@ == Seq::new(
                self.model().spec_num_states() as nat,
                |i: int| 0i128,
            )),
            forall|b: int|
                self.model().is_closed() && #[trigger] rewards_within(self.model(), b) ==> (
                r matches Ok(v) && all_within(v@, self.model().spec_gamma() as int, b + 1)),
            self.model().is_closed() && rewards_nonneg(self.model()) ==> (r matches Ok(v)
                && all_nonneg(v@)),
    {
        if !self.mdp.successors_in_range() {
            return Err(ModelError::StateNotFound);
        }
        let n = self.mdp.num_states();
        let gamma = self.mdp.gamma();
        let mut values: Vec<i128> = vec![0i128; n];
        let mut rates: Vec<u64> = vec![learning_rate; n];
        let ghost m = self.model();
        let ghost p = self.actions();
        let ghost g = gamma as int;
        let ghost zeros = Seq::new(n as nat, |i: int| 0i128);
        let ghost initial_rates = Seq::new(n as nat, |i: int| learning_rate);
        assert(values@ =~= zeros);
        assert(rates@ =~= initial_rates);
        assert forall|i: int| 0 <= i < n implies bounded(#[trigger] values@[i] as int, g) by {
            assert(values@[i] == 0);
        }
        assert forall|b: int| #[trigger] rewards_within(m, b) && b >= 0 implies all_within(
            values@,
            g,
            b + 1,
        ) by {
            assert forall|i: int| 0 <= i < n
                implies within(#[trigger] values@[i] as int, g, b + 1) by {
                assert(values@[i] == 0);
            }
        }
        let ghost mut trace: Seq<Seq<Outcome>> = Seq::empty();
        let mut s: usize = 0;
        while s < n
            invariant
                m == self.model(),
                p == self.actions(),
                self.is_valid(),
                m.is_closed(),
                n == m.spec_num_states(),
                gamma == m.spec_gamma(),
                g == gamma as int,
                s <= n,
                values@.len() == n,
                rates@.len() == n,
                all_bounded(values@, g),
                forall|t: int| 0 <= t < n ==> #[trigger] rates@[t] <= RATE_ONE,
                trace.len() == s,
                forall|t: int| 0 <= t < s ==> #[trigger] trace[t].len() == epoch_size,
                td_sweep(m, p, zeros, initial_rates, trace, decay) == (values@, rates@, true),
                epoch_size == 0 ==> values@ == zeros,
                forall|b: int| #[trigger] rewards_within(m, b) && b >= 0
                    ==> all_within(values@, g, b + 1),
                rewards_nonneg(m) ==> all_nonneg(values@),
            decreases n - s,
        {
            let mut env = MDPEnvironment::new(self.mdp, s);
            let ghost start_values = values@;
            let ghost start_rates = rates@;
            let ghost mut outs: Seq<Outcome> = Seq::empty();
            let mut k: usize = 0;
            while k < epoch_size
                invariant
                    m == self.model(),
                    p == self.actions(),
                    self.is_valid(),
                    m.is_closed(),
                    n == m.spec_num_states(),
                    gamma == m.spec_gamma(),
                    g == gamma as int,
                    s < n,
                    env.wf(),
                    env.model() == m,
                    k <= epoch_size,
                    values@.len() == n,
                    rates@.len() == n,
                    all_bounded(values@, g),
                    forall|t: int| 0 <= t < n ==> #[trigger] rates@[t] <= RATE_ONE,
                    trace.len() == s,
                    forall|t: int| 0 <= t < s ==> #[trigger] trace[t].len() == epoch_size,
                    td_sweep(m, p, zeros, initial_rates, trace, decay) == (
                        start_values,
                        start_rates,
                        true,
                    ),
                    outs.len() == k,
                    td_walk(m, p, start_values, start_rates, s as int, outs, decay) == (
                        values@,
                        rates@,
                        env.state(),
                        true,
                    ),
                    forall|b: int| #[trigger] rewards_within(m, b) && b >= 0
                        ==> all_within(values@, g, b + 1),
                    rewards_nonneg(m) ==> all_nonneg(values@),
                decreases epoch_size - k,
            {
                let cur = env.cur_state();
                let action = self.policy[cur];
                assert(m.has_action(cur as int, p[cur as int] as int));
                let reward = env.perform_action(action);
                let next = env.cur_state();
                let ghost before = values@;
                let ghost o: Outcome = (next, reward);
                let ghost i = choose|i: int|
                    0 <= i < m.slot(cur as int, action as int).items().len() && m.slot(
                        cur as int,
                        action as int,
                    ).items()[i] == o;
                td_update(&mut values, cur, next, reward, gamma, rates[cur]);
                proof {
                    let target = td_target(reward.0 as int, g, before[next as int] as int);
                    assert(bounded(before[next as int] as int, g));
                    assert(bounded(before[cur as int] as int, g));
                    lemma_target_bounded(reward.0 as int, g, before[next as int] as int);
                    lemma_bounded_range(target, g);
                    lemma_bounded_range(before[cur as int] as int, g);
                    lemma_blend_between(before[cur as int] as int, target,
                        rates@[cur as int] as int);
                    assert(values@[cur as int] as int == blend(
                        before[cur as int] as int,
                        target,
                        rates@[cur as int] as int,
                    ));
                    assert forall|b: int| #[trigger] rewards_within(m, b) && b >= 0
                        implies all_within(
                        values@,
                        g,
                        b + 1,
                    ) by {
                        assert(m.has_action(cur as int, action as int));
                        assert(-b <= m.slot(cur as int, action as int).items()[i].1.0 <= b);
                        assert(within(before[next as int] as int, g, b + 1));
                        assert(within(before[cur as int] as int, g, b + 1));
                        lemma_target_within(reward.0 as int, g, before[next as int] as int, b + 1);
                        lemma_between_within(
                            values@[cur as int] as int,
                            before[cur as int] as int,
                            target,
                            g,
                            b + 1,
                        );
                        assert forall|j: int| 0 <= j < values@.len() implies within(
                            #[trigger] values@[j] as int,
                            g,
                            b + 1,
                        ) by {
                            if j != cur {
                                assert(within(before[j] as int, g, b + 1));
                            }
                        }
                    }
                    if rewards_nonneg(m) {
                        assert(m.has_action(cur as int, action as int));
                        assert(m.slot(cur as int, action as int).items()[i].1.0 >= 0);
                        assert(before[next as int] >= 0);
                        assert(before[cur as int] >= 0);
                        lemma_target_nonneg(reward.0 as int, g, before[next as int] as int);
                        assert forall|j: int| 0 <= j < values@.len() implies #[trigger] values@[j]
                            >= 0 by {
                            if j != cur {
                                assert(before[j] >= 0);
                            }
                        }
                    }
                }
                if decay {
                    let lowered = decayed_rate(rates[cur]);
                    rates.set(cur, lowered);
                }
                proof {
                    let outs2 = outs.push(o);
                    assert(outs2.drop_last() =~= outs);
                    assert(outs2.last() == o);
                    assert(m.admits(cur as int, p[cur as int] as int, o));
                    assert(values@ =~= td_walk(m, p, start_values, start_rates, s as int, outs2,
                        decay).0);
                    assert(rates@ =~= td_walk(m, p, start_values, start_rates, s as int, outs2,
                        decay).1);
                    outs = outs2;
                }
                k = k + 1;
            }
            proof {
                let trace2 = trace.push(outs);
                assert(trace2.drop_last() =~= trace);
                assert(trace2.last() == outs);
                trace = trace2;
            }
            s = s + 1;
        }
        proof {
            assert forall|b: int| #[trigger] rewards_within(m, b) implies all_within(
                values@,
                g,
                b + 1,
            ) by {
                if n > 0 {
                    assert(m.has_action(0, p[0] as int));
                    let d = m.slot(0, p[0] as int);
                    d.lemma_wf();
                    assert(-b <= d.items()[0].1.0 <= b);
                }
            }
            assert(trace_shape(trace, n as int, epoch_size as int));
            if policy_deterministic(m, p) {
                assert forall|trace2: Seq<Seq<Outcome>>|
                    #[trigger] trace_shape(trace2, n as int, epoch_size as int) && td_sweep(
                        m,
                        p,
                        zeros,
                        initial_rates,
                        trace2,
                        decay,
                    ).2 implies values@
                        == td_sweep(m, p, zeros, initial_rates, trace2, decay).0 by {
                    assert forall|t: int| 0 <= t < trace.len() implies #[trigger] trace[t].len()
                        == trace2[t].len() by {}
                    lemma_td_sweep_determined(m, p, zeros, initial_rates, trace, trace2, decay);
                }
            }
        }
        Ok(values)
    }
}

/// The action with the fewest visits, the lowest index among equals.
pub fn least_visited(counts: &Vec<u64>) -> (r: usize)
    requires
        counts@.len() > 0,
    ensures
        is_first_min(counts.ranks(), r as int),
{
    counts.arg_min().unwrap()
}

/// Under least-visited selection, an action never tried is chosen before any
/// action is tried again: the chosen action has no visits while some action
/// has none.
pub proof fn lemma_untried_first(counts: Seq<int>, chosen: int, untried: int)
    requires
        forall|a: int| 0 <= a < counts.len() ==> #[trigger] counts[a] >= 0,
        0 <= untried < counts.len(),
        counts[untried] == 0,
        is_first_min(counts, chosen),
    ensures
        counts[chosen] == 0,
        chosen <= untried,
{
}

/// The value that a Q-learning step bootstraps from: with `explore`, entry
/// `pick` of the next state's row; otherwise the row's maximum.
pub fn future_value(row: &Vec<i128>, explore: bool, pick: usize) -> (r: i128)
    requires
        row@.len() > 0,
        pick < row@.len(),
    ensures
        explore ==> r == row@[pick as int],
        !explore ==> exists|i: int| is_first_max(row.ranks(), i) && r == row@[i],
{
    if explore {
        row[pick]
    } else {
        let i = row.arg_max().unwrap();
        assert(row.ranks()[i as int] == row@[i as int] as int);
        row[i]
    }
}

/// One Q-learning step after taking `action` at `state` with `reward`:
/// `q[state][action]` moves towards `reward + gamma * future` by `rate`.
pub fn q_update(
    q: &mut Vec<Vec<i128>>,
    state: usize,
    action: usize,
    reward: Reward,
    future: i128,
    gamma: u64,
    rate: u64,
)
    requires
        state < old(q)@.len(),
        action < old(q)@[state as int]@.len(),
        0 < gamma < RATE_ONE,
        rate <= RATE_ONE,
        table_bounded(old(q)@, gamma as int),
        bounded(future as int, gamma as int),
    ensures
        final(q)@.len() == old(q)@.len(),
        forall|s: int| 0 <= s < old(q)@.len() && s != state ==> final(q)@[s] == old(q)@[s],
        final(q)@[state as int]@ == old(q)@[state as int]@.update(
            action as int,
            blend(
                old(q)@[state as int]@[action as int] as int,
                td_target(reward.0 as int, gamma as int, future as int),
                rate as int,
            ) as i128,
        ),
        table_bounded(final(q)@, gamma as int),
{
    let target = step_target(reward, gamma, future);
    proof {
        assert(all_bounded(q@[state as int]@, gamma as int));
    }
    let v = blend_towards(q[state][action], target, rate, gamma);
    q[state].set(action, v);
    proof {
        assert forall|s: int| 0 <= s < final(q)@.len() implies all_bounded(
            #[trigger] final(q)@[s]@,
            gamma as int,
        ) by {
            if s != state {
                assert(all_bounded(old(q)@[s]@, gamma as int));
            } else {
                assert(all_bounded(old(q)@[s]@, gamma as int));
            }
        }
    }
}

proof fn lemma_ones_total(w: Seq<u64>, k: int)
    requires
        0 <= k <= w.len(),
        forall|i: int| 0 <= i < w.len() ==> w[i] == 1,
    ensures
        prefix_sum(w, k) == k,
    decreases k,
{
    if k > 0 {
        lemma_ones_total(w, k - 1);
    }
}

/// A uniformly drawn index of `[0, n)`, from a sampler of equal weights.
fn uniform_index(n: usize) -> (r: usize)
    requires
        n > 0,
    ensures
        r < n,
{
    let mut items: Vec<usize> = Vec::new();
    let mut weights: Vec<u64> = Vec::new();
    let mut i: usize = 0;
    while i < n
        invariant
            i <= n,
            items@.len() == i,
            weights@.len() == i,
            forall|j: int| 0 <= j < i ==> #[trigger] items@[j] == j,
            forall|j: int| 0 <= j < i ==> #[trigger] weights@[j] == 1,
        decreases n - i,
    {
        items.push(i);
        weights.push(1);
        i = i + 1;
    }
    proof {
        lemma_ones_total(weights@, n as int);
    }
    let d = Distribution::new(items, weights).unwrap();
    d.sample()
}

/// The rows of a table, as sequences.
pub open spec fn rows<T>(t: Seq<Vec<T>>) -> Seq<Seq<T>> {
    t.map_values(|r: Vec<T>| r@)
}

pub open spec fn count_ranks(counts: Seq<u64>) -> Seq<int> {
    counts.map_values(|c: u64| c as int)
}

pub open spec fn value_ranks(row: Seq<i128>) -> Seq<int> {
    row.map_values(|v: i128| v as int)
}

/// The action with the fewest visits, the lowest index among equals.
pub open spec fn least_of(counts: Seq<u64>) -> int {
    choose|i: int| #[trigger] is_first_min(count_ranks(counts), i)
}

/// The largest value of a row.
pub open spec fn max_of(row: Seq<i128>) -> i128 {
    row[choose|i: int| #[trigger] is_first_max(value_ranks(row), i)]
}

proof fn lemma_first_min_unique(s: Seq<int>, i: int, j: int)
    requires
        is_first_min(s, i),
        is_first_min(s, j),
    ensures
        i == j,
{
    if i < j {
        assert(s[i] == s[j] || s[i] != s[j]);
    } else if j < i {
        assert(s[j] == s[i] || s[i] != s[j]);
    }
}

proof fn lemma_first_max_unique(s: Seq<int>, i: int, j: int)
    requires
        is_first_max(s, i),
        is_first_max(s, j),
    ensures
        i == j,
{
    if i < j {
        assert(s[i] == s[j] || s[i] != s[j]);
    } else if j < i {
        assert(s[j] == s[i] || s[i] != s[j]);
    }
}

/// What a Q-learning step draws: the outcome of its action, whether it
/// explores, and the entry of the next state's row it picks when it does.
pub type QDraw = (Outcome, bool, usize);

/// A coin with `epsilon` millionths can show `heads`.
pub open spec fn coin_allows(epsilon: u64, heads: bool) -> bool {
    &&& epsilon == 0 ==> !heads
    &&& epsilon >= RATE_ONE ==> heads
}

/// One Q-learning step from state `cur` with the draw `d`: it takes the
/// least-visited action, counts the visit, and moves that action's value
/// towards the reward plus `gamma` times the bootstrap value (the picked
/// entry when exploring, else the maximum of the next state's row). Returns
/// the table, the counts, the state after the step, and whether the draw is
/// possible.
pub open spec fn q_step(
    m: MDP,
    rate: u64,
    epsilon: u64,
    q: Seq<Seq<i128>>,
    c: Seq<Seq<u64>>,
    cur: int,
    d: QDraw,
) -> (Seq<Seq<i128>>, Seq<Seq<u64>>, int, bool) {
    let a = least_of(c[cur]);
    let o = d.0;
    let next = o.0 as int;
    let future = if d.1 {
        q[next][d.2 as int]
    } else {
        max_of(q[next])
    };
    let target = td_target(o.1.0 as int, m.spec_gamma() as int, future as int);
    let v = blend(q[cur][a] as int, target, rate as int);
    (
        q.update(cur, q[cur].update(a, v as i128)),
        c.update(cur, c[cur].update(a, (c[cur][a] + 1) as u64)),
        next,
        m.admits(cur, a, o) && (d.1 ==> d.2 < q[next].len()) && coin_allows(epsilon, d.1),
    )
}

/// Q-learning steps from state `cur` with the draws `draws`.
pub open spec fn q_walk(
    m: MDP,
    rate: u64,
    epsilon: u64,
    q: Seq<Seq<i128>>,
    c: Seq<Seq<u64>>,
    cur: int,
    draws: Seq<QDraw>,
) -> (Seq<Seq<i128>>, Seq<Seq<u64>>, int, bool)
    decreases draws.len(),
{
    if draws.len() == 0 {
        (q, c, cur, true)
    } else {
        let w = q_walk(m, rate, epsilon, q, c, cur, draws.drop_last());
        let e = q_step(m, rate, epsilon, w.0, w.1, w.2, draws.last());
        (e.0, e.1, e.2, w.3 && e.3)
    }
}

/// Q-learning from each state `t` in turn, with the draws `trace[t]`.
pub open spec fn q_sweep(
    m: MDP,
    rate: u64,
    epsilon: u64,
    q: Seq<Seq<i128>>,
    c: Seq<Seq<u64>>,
    trace: Seq<Seq<QDraw>>,
) -> (Seq<Seq<i128>>, Seq<Seq<u64>>, bool)
    decreases trace.len(),
{
    if trace.len() == 0 {
        (q, c, true)
    } else {
        let w = q_sweep(m, rate, epsilon, q, c, trace.drop_last());
        let e = q_walk(m, rate, epsilon, w.0, w.1, trace.len() - 1, trace.last());
        (e.0, e.1, w.2 && e.3)
    }
}

proof fn lemma_q_walk_determined(
    m: MDP,
    rate: u64,
    q: Seq<Seq<i128>>,
    c: Seq<Seq<u64>>,
    cur: int,
    draws1: Seq<QDraw>,
    draws2: Seq<QDraw>,
)
    requires
        m.is_deterministic(),
        draws1.len() == draws2.len(),
        q_walk(m, rate, 0, q, c, cur, draws1).3,
        q_walk(m, rate, 0, q, c, cur, draws2).3,
    ensures
        q_walk(m, rate, 0, q, c, cur, draws1) == q_walk(m, rate, 0, q, c, cur, draws2),
    decreases draws1.len(),
{
    if draws1.len() > 0 {
        lemma_q_walk_determined(m, rate, q, c, cur, draws1.drop_last(), draws2.drop_last());
        let w = q_walk(m, rate, 0, q, c, cur, draws1.drop_last());
        let a = least_of(w.1[w.2]);
        assert(m.has_action(w.2, a));
        lemma_one_outcome(m, w.2, a, draws1.last().0, draws2.last().0);
    }
}

/// On a model whose actions have one outcome each, Q-learning without
/// exploration gives the same result on every run that the model allows.
pub proof fn lemma_q_sweep_determined(
    m: MDP,
    rate: u64,
    q: Seq<Seq<i128>>,
    c: Seq<Seq<u64>>,
    trace1: Seq<Seq<QDraw>>,
    trace2: Seq<Seq<QDraw>>,
)
    requires
        m.is_deterministic(),
        trace1.len() == trace2.len(),
        forall|t: int| 0 <= t < trace1.len() ==> #[trigger] trace1[t].len() == trace2[t].len(),
        q_sweep(m, rate, 0, q, c, trace1).2,
        q_sweep(m, rate, 0, q, c, trace2).2,
    ensures
        q_sweep(m, rate, 0, q, c, trace1) == q_sweep(m, rate, 0, q, c, trace2),
    decreases trace1.len(),
{
    if trace1.len() > 0 {
        lemma_q_sweep_determined(m, rate, q, c, trace1.drop_last(), trace2.drop_last());
        let w = q_sweep(m, rate, 0, q, c, trace1.drop_last());
        assert(trace1.last().len() == trace2.last().len());
        lemma_q_walk_determined(m, rate, w.0, w.1, trace1.len() - 1, trace1.last(), trace2.last());
    }
}

pub open spec fn table_within(q: Seq<Seq<i128>>, gamma: int, b: int) -> bool {
    forall|s: int| 0 <= s < q.len() ==> all_within(#[trigger] q[s], gamma, b)
}

pub open spec fn table_nonneg(q: Seq<Seq<i128>>) -> bool {
    forall|s: int| 0 <= s < q.len() ==> all_nonneg(#[trigger] q[s])
}

impl MDP {
    /// Why Q-learning cannot run on this model, if it cannot: a successor is
    /// unknown, or a state has no action.
    pub open spec fn q_error(&self) -> Option<ModelError> {
        if !self.is_closed() {
            Some(ModelError::StateNotFound)
        } else if exists|s: int|
            0 <= s < self.spec_num_states() && #[trigger] self.spec_num_actions(s) == 0 {
            Some(ModelError::ActionDoesNotExist)
        } else {
            None
        }
    }

    /// `q` is what Q-learning yields, from a table of zeros and no visits,
    /// for some draws that the model and `epsilon` allow: `epoch` steps from
    /// each state in turn.
    pub open spec fn q_result(&self, rate: u64, epsilon: u64, epoch: nat,
        q: Seq<Seq<i128>>) -> bool {
        exists|trace: Seq<Seq<QDraw>>|
            #[trigger] trace_shape(trace, self.spec_num_states(), epoch as int) && q_sweep(
                *self,
                rate,
                epsilon,
                Seq::new(self.spec_num_states() as nat,
                    |t: int| Seq::new(self.spec_num_actions(t) as nat, |a: int| 0i128)),
                Seq::new(self.spec_num_states() as nat,
                    |t: int| Seq::new(self.spec_num_actions(t) as nat, |a: int| 0u64)),
                trace,
            ).2 && q == q_sweep(*self, rate, epsilon, Seq::new(self.spec_num_states() as nat,
                |t: int| Seq::new(self.spec_num_actions(t) as nat, |a: int| 0i128)),
                    Seq::new(self.spec_num_states() as nat,
                        |t: int| Seq::new(self.spec_num_actions(t) as nat, |a: int| 0u64)), trace).0
    }

    /// Q-learning: from each state in turn, `epoch_size` steps. Each step
    /// takes the least-visited action of the current state; with probability
    /// `epsilon` it bootstraps from a uniformly drawn entry of the next
    /// state's row, otherwise from the row's maximum, and applies `q_update`.
    /// The result holds one row per state, one entry per action. Values are
    /// at most `(b + 1) / (1 - gamma)` in size where every reward is at most
    /// `b`; one unit covers rounding.
    pub fn perform_q_learning(&self, epoch_size: usize, learning_rate: u64, epsilon: u64) -> (r:
        Result<Vec<Vec<i128>>, ModelError>)
        requires
            self.wf(),
            learning_rate <= RATE_ONE,
            epsilon <= RATE_ONE,
            self.spec_num_states() * epoch_size <= u64::MAX,
        ensures
            self.q_error() matches Some(e) ==> r == Err::<Vec<Vec<i128>>, ModelError>(e),
            self.q_error() is None ==> (r matches Ok(q) && q@.len() == self.spec_num_states()
                && table_bounded(q@, self.spec_gamma() as int) && forall|s: int|
                0 <= s < q@.len() ==> #[trigger] q@[s]@.len() == self.spec_num_actions(s)),
            self.q_error() is None ==> (r matches Ok(q) && self.q_result(
                learning_rate,
                epsilon,
                epoch_size as nat,
                rows(q@),
            )),
            self.q_error() is None && self.is_deterministic() && epsilon == 0 ==> (r matches Ok(q)
                && forall|trace: Seq<Seq<QDraw>>|
                #[trigger] trace_shape(trace, self.spec_num_states(), epoch_size as int)
                    && q_sweep(*self, learning_rate, 0, Seq::new(self.spec_num_states() as nat,
                        |t: int| Seq::new(self.spec_num_actions(t) as nat, |a: int| 0i128)),
                            Seq::new(self.spec_num_states() as nat,
                                |t: int| Seq::new(self.spec_num_actions(t) as nat, |a: int| 0u64)),
                                    trace).2 ==> rows(q@) == q_sweep(
                    *self,
                    learning_rate,
                    0,
                    Seq::new(self.spec_num_states() as nat,
                        |t: int| Seq::new(self.spec_num_actions(t) as nat, |a: int| 0i128)),
                    Seq::new(self.spec_num_states() as nat,
                        |t: int| Seq::new(self.spec_num_actions(t) as nat, |a: int| 0u64)),
                    trace,
                ).0),
            self.q_error() is None && epoch_size == 0
                ==> (r matches Ok(q)
                    && rows(q@)
                        == Seq::new(self.spec_num_states() as nat,
                            |t: int| Seq::new(self.spec_num_actions(t) as nat, |a: int| 0i128))),
            forall|b: int|
                self.q_error() is None && #[trigger] rewards_within(*self, b) ==> (r matches Ok(q)
                    && table_within(rows(q@), self.spec_gamma() as int, b + 1)),
            self.q_error() is None && rewards_nonneg(*self) ==> (r matches Ok(q) && table_nonneg(
                rows(q@),
            )),
    {
        if !self.successors_in_range() {
            return Err(ModelError::StateNotFound);
        }
        let n = self.num_states();
        let gamma = self.gamma();
        let mut q_func: Vec<Vec<i128>> = Vec::new();
        let mut num_seen: Vec<Vec<u64>> = Vec::new();
        let mut s: usize = 0;
        while s < n
            invariant
                self.is_closed(),
                n == self.spec_num_states(),
                gamma == self.spec_gamma(),
                s <= n,
                q_func@.len() == s,
                num_seen@.len() == s,
                forall|t: int| 0 <= t < s ==> #[trigger] self.spec_num_actions(t) > 0,
                forall|t: int|
                    0 <= t < s ==> #[trigger] q_func@[t]@.len() == self.spec_num_actions(t),
                forall|t: int|
                    0 <= t < s ==> #[trigger] num_seen@[t]@.len() == self.spec_num_actions(t),
                forall|t: int, a: int|
                    0 <= t < s && 0 <= a < q_func@[t]@.len() ==> #[trigger] q_func@[t]@[a] == 0,
                forall|t: int, a: int|
                    0 <= t < s && 0 <= a < num_seen@[t]@.len() ==> #[trigger] num_seen@[t]@[a]
                        == 0,
            decreases n - s,
        {
            let m = self.num_actions(s).unwrap();
            if m == 0 {
                return Err(ModelError::ActionDoesNotExist);
            }
            q_func.push(vec![0i128; m]);
            num_seen.push(vec![0u64; m]);
            s = s + 1;
        }
        let ghost g = gamma as int;
        let ghost q0 = Seq::new(self.spec_num_states() as nat,
            |t: int| Seq::new(self.spec_num_actions(t) as nat, |a: int| 0i128));
        let ghost c0 = Seq::new(self.spec_num_states() as nat,
            |t: int| Seq::new(self.spec_num_actions(t) as nat, |a: int| 0u64));
        proof {
            assert forall|t: int| 0 <= t < n implies #[trigger] rows(q_func@)[t] == q0[t] by {
                assert(rows(q_func@)[t] =~= q0[t]);
            }
            assert forall|t: int| 0 <= t < n implies #[trigger] rows(num_seen@)[t] == c0[t] by {
                assert(rows(num_seen@)[t] =~= c0[t]);
            }
            assert(rows(q_func@) =~= q0);
            assert(rows(num_seen@) =~= c0);
            assert forall|t: int| 0 <= t < n implies all_bounded(#[trigger] q_func@[t]@, g) by {
                assert forall|a: int| 0 <= a < q_func@[t]@.len() implies bounded(
                    #[trigger] q_func@[t]@[a] as int,
                    g,
                ) by {
                    assert(q_func@[t]@[a] == 0);
                }
            }
            assert forall|b: int| #[trigger] rewards_within(*self, b) && b >= 0
                implies table_within(
                rows(q_func@),
                g,
                b + 1,
            ) by {
                assert forall|t: int| 0 <= t < n
                    implies all_within(#[trigger] rows(q_func@)[t], g, b + 1) by {
                    assert forall|a: int| 0 <= a < rows(q_func@)[t].len() implies within(
                        #[trigger] rows(q_func@)[t][a] as int,
                        g,
                        b + 1,
                    ) by {
                        assert(q_func@[t]@[a] == 0);
                    }
                }
            }
            assert forall|t: int| 0 <= t < n implies all_nonneg(#[trigger] rows(q_func@)[t]) by {
                assert forall|a: int| 0 <= a < rows(q_func@)[t].len()
                    implies #[trigger] rows(q_func@)[t][a] >= 0 by {
                    assert(q_func@[t]@[a] == 0);
                }
            }
            if n > 0 {
                assert(epoch_size <= n * epoch_size) by (nonlinear_arith)
                    requires
                        n > 0,
                ;
            }
        }
        let ghost mut trace: Seq<Seq<QDraw>> = Seq::empty();
        let ghost steps: int = 0;
        let mut s: usize = 0;
        while s < n
            invariant
                self.is_closed(),
                n == self.spec_num_states(),
                gamma == self.spec_gamma(),
                g == gamma as int,
                learning_rate <= RATE_ONE,
                epsilon <= RATE_ONE,
                n * epoch_size <= u64::MAX,
                s <= n,
                steps == s * epoch_size,
                s < n ==> steps + epoch_size <= n * epoch_size,
                q_func@.len() == n,
                num_seen@.len() == n,
                forall|t: int| 0 <= t < n ==> #[trigger] self.spec_num_actions(t) > 0,
                forall|t: int|
                    0 <= t < n ==> #[trigger] q_func@[t]@.len() == self.spec_num_actions(t),
                forall|t: int|
                    0 <= t < n ==> #[trigger] num_seen@[t]@.len() == self.spec_num_actions(t),
                forall|t: int, a: int|
                    0 <= t < n && 0 <= a < num_seen@[t]@.len() ==> #[trigger] num_seen@[t]@[a]
                        <= steps,
                table_bounded(q_func@, g),
                trace.len() == s,
                forall|t: int| 0 <= t < s ==> #[trigger] trace[t].len() == epoch_size,
                q_sweep(*self, learning_rate, epsilon, q0, c0, trace) == (
                    rows(q_func@),
                    rows(num_seen@),
                    true,
                ),
                epoch_size == 0 ==> rows(q_func@) == q0,
                forall|b: int| #[trigger] rewards_within(*self, b) && b >= 0 ==> table_within(
                    rows(q_func@),
                    g,
                    b + 1,
                ),
                rewards_nonneg(*self) ==> table_nonneg(rows(q_func@)),
            decreases n - s,
        {
            let mut env = MDPEnvironment::new(self, s);
            let ghost start_q = rows(q_func@);
            let ghost start_c = rows(num_seen@);
            let ghost mut draws: Seq<QDraw> = Seq::empty();
            let mut k: usize = 0;
            while k < epoch_size
                invariant
                    self.is_closed(),
                    n == self.spec_num_states(),
                    gamma == self.spec_gamma(),
                    g == gamma as int,
                    learning_rate <= RATE_ONE,
                    epsilon <= RATE_ONE,
                    env.wf(),
                    env.model() == *self,
                    s < n,
                    k <= epoch_size,
                    steps == s * epoch_size + k,
                    steps + epoch_size - k <= n * epoch_size,
                    n * epoch_size <= u64::MAX,
                    q_func@.len() == n,
                    num_seen@.len() == n,
                    forall|t: int| 0 <= t < n ==> #[trigger] self.spec_num_actions(t) > 0,
                    forall|t: int|
                        0 <= t < n ==> #[trigger] q_func@[t]@.len() == self.spec_num_actions(t),
                    forall|t: int|
                        0 <= t < n ==> #[trigger] num_seen@[t]@.len() == self.spec_num_actions(t),
                    forall|t: int, a: int|
                        0 <= t < n && 0 <= a < num_seen@[t]@.len() ==> #[trigger] num_seen@[t]@[a]
                            <= steps,
                    table_bounded(q_func@, g),
                    trace.len() == s,
                    forall|t: int| 0 <= t < s ==> #[trigger] trace[t].len() == epoch_size,
                    q_sweep(*self, learning_rate, epsilon, q0, c0, trace) == (
                        start_q,
                        start_c,
                        true,
                    ),
                    draws.len() == k,
                    q_walk(*self, learning_rate, epsilon, start_q, start_c, s as int, draws) == (
                        rows(q_func@),
                        rows(num_seen@),
                        env.state(),
                        true,
                    ),
                    forall|b: int| #[trigger] rewards_within(*self, b) && b >= 0 ==> table_within(
                        rows(q_func@),
                        g,
                        b + 1,
                    ),
                    rewards_nonneg(*self) ==> table_nonneg(rows(q_func@)),
                decreases epoch_size - k,
            {
                let cur = env.cur_state();
                let action = least_visited(&num_seen[cur]);
                let reward = env.perform_action(action);
                let next = env.cur_state();
                let ghost q_before = rows(q_func@);
                let ghost c_before = rows(num_seen@);
                let ghost o: Outcome = (next, reward);
                proof {
                    let cs = c_before[cur as int];
                    let ranks = count_ranks(cs);
                    assert(num_seen@[cur as int].ranks() == ranks);
                    lemma_first_min_unique(ranks, action as int, least_of(cs));
                }
                let ghost i = choose|i: int|
                    0 <= i < self.slot(cur as int, action as int).items().len() && self.slot(
                        cur as int,
                        action as int,
                    ).items()[i] == o;
                let explore = throw_coin(epsilon);
                let pick = if explore {
                    uniform_index(q_func[next].len())
                } else {
                    0
                };
                let future = future_value(&q_func[next], explore, pick);
                proof {
                    assert(all_bounded(q_func@[next as int]@, g));
                    let row = q_before[next as int];
                    if !explore {
                        let j = choose|j: int|
                            is_first_max(q_func@[next as int].ranks(), j) && future
                                == q_func@[next as int]@[j];
                        assert(bounded(q_func@[next as int]@[j] as int, g));
                        let ranks = value_ranks(row);
                        assert(q_func@[next as int].ranks() == ranks);
                        lemma_first_max_unique(ranks, j,
                            choose|j2: int| #[trigger] is_first_max(ranks, j2));
                        assert(future == max_of(row));
                    }
                    assert(exists|j: int| 0 <= j < row.len() && row[j] == future);
                    assert(bounded(future as int, g));
                    assert(all_bounded(q_func@[cur as int]@, g));
                    assert(bounded(q_before[cur as int][action as int] as int, g));
                }
                let ghost fj = choose|j: int| 0 <= j < q_before[next as int].len()
                    && q_before[next as int][j] == future;
                q_update(&mut q_func, cur, action, reward, future, gamma, learning_rate);
                let seen = num_seen[cur][action];
                assert(num_seen@[cur as int]@[action as int] <= steps);
                num_seen[cur].set(action, seen + 1);
                proof {
                    let d: QDraw = (o, explore, pick);
                    let w = q_step(*self, learning_rate, epsilon, q_before, c_before, cur as int,
                        d);
                    assert(rows(q_func@) =~= w.0);
                    assert(rows(num_seen@) =~= w.1);
                    let draws2 = draws.push(d);
                    assert(draws2.drop_last() =~= draws);
                    assert(draws2.last() == d);
                    let target = td_target(reward.0 as int, g, future as int);
                    let old_v = q_before[cur as int][action as int] as int;
                    lemma_target_bounded(reward.0 as int, g, future as int);
                    lemma_bounded_range(target, g);
                    lemma_bounded_range(old_v, g);
                    lemma_blend_between(old_v, target, learning_rate as int);
                    assert(rows(q_func@)[cur as int][action as int] as int == blend(
                        old_v,
                        target,
                        learning_rate as int,
                    ));
                    assert(self.has_action(cur as int, action as int));
                    assert forall|b: int| #[trigger] rewards_within(*self, b) && b >= 0
                        implies table_within(
                        rows(q_func@),
                        g,
                        b + 1,
                    ) by {
                        assert(-b <= self.slot(cur as int, action as int).items()[i].1.0 <= b);
                        assert(all_within(q_before[next as int], g, b + 1));
                        assert(within(q_before[next as int][fj] as int, g, b + 1));
                        assert(all_within(q_before[cur as int], g, b + 1));
                        assert(within(old_v, g, b + 1));
                        lemma_target_within(reward.0 as int, g, future as int, b + 1);
                        lemma_between_within(
                            rows(q_func@)[cur as int][action as int] as int,
                            old_v,
                            target,
                            g,
                            b + 1,
                        );
                        assert forall|t: int| 0 <= t < n
                            implies all_within(#[trigger] rows(q_func@)[t], g, b + 1) by {
                            assert(all_within(q_before[t], g, b + 1));
                            assert forall|a: int| 0 <= a < rows(q_func@)[t].len() implies within(
                                #[trigger] rows(q_func@)[t][a] as int,
                                g,
                                b + 1,
                            ) by {
                                if t != cur || a != action {
                                    assert(within(q_before[t][a] as int, g, b + 1));
                                }
                            }
                        }
                    }
                    if rewards_nonneg(*self) {
                        assert(self.slot(cur as int, action as int).items()[i].1.0 >= 0);
                        assert(all_nonneg(q_before[next as int]));
                        assert(q_before[next as int][fj] >= 0);
                        assert(all_nonneg(q_before[cur as int]));
                        lemma_target_nonneg(reward.0 as int, g, future as int);
                        assert forall|t: int| 0 <= t < n
                            implies all_nonneg(#[trigger] rows(q_func@)[t]) by {
                            assert(all_nonneg(q_before[t]));
                            assert forall|a: int| 0 <= a < rows(q_func@)[t].len()
                                implies #[trigger] rows(q_func@)[t][a] >= 0 by {
                                if t != cur || a != action {
                                    assert(q_before[t][a] >= 0);
                                }
                            }
                        }
                    }
                    draws = draws2;
                    steps = steps + 1;
                }
                k = k + 1;
            }
            proof {
                let trace2 = trace.push(draws);
                assert(trace2.drop_last() =~= trace);
                assert(trace2.last() == draws);
                trace = trace2;
                assert(steps == (s + 1) * epoch_size) by (nonlinear_arith)
                    requires
                        steps == s * epoch_size + epoch_size,
                ;
                if s + 1 < n {
                    assert(steps + epoch_size <= n * epoch_size) by (nonlinear_arith)
                        requires
                            steps == (s + 1) * epoch_size,
                            s + 1 < n,
                    ;
                }
            }
            s = s + 1;
        }
        proof {
            assert(trace_shape(trace, n as int, epoch_size as int));
            if self.is_deterministic() && epsilon == 0 {
                assert forall|trace2: Seq<Seq<QDraw>>|
                    #[trigger] trace_shape(trace2, n as int, epoch_size as int) && q_sweep(
                        *self,
                        learning_rate,
                        0,
                        q0,
                        c0,
                        trace2,
                    ).2 implies rows(q_func@)
                        == q_sweep(*self, learning_rate, 0, q0, c0, trace2).0 by {
                    assert forall|t: int| 0 <= t < trace.len() implies #[trigger] trace[t].len()
                        == trace2[t].len() by {}
                    lemma_q_sweep_determined(*self, learning_rate, q0, c0, trace, trace2);
                }
            }
            assert forall|b: int| self.q_error() is None
                && #[trigger] rewards_within(*self, b) implies table_within(
                rows(q_func@),
                g,
                b + 1,
            ) by {
                let t = 0int;
                assert(self.spec_num_actions(0) > 0 || n == 0);
                if n > 0 {
                    let d = self.slot(0, 0);
                    assert(self.has_action(0, 0));
                    d.lemma_wf();
                    assert(-b <= d.items()[0].1.0 <= b);
                } else {
                    assert(rows(q_func@).len() == 0);
                }
            }
        }
        Ok(q_func)
    }
}

} // verus!
