//! Rollouts for proximal policy optimisation: episodes driven by the
//! policy's own scores, labelled with generalised advantage estimates.

use vstd::prelude::*;
use crate::collector::{CollectedData, Collector, MergeError, Rollouts, contents, merge, merged};
use crate::columns::copy_column;
use crate::env::Env;
use crate::policy::{Policy, is_logit_sample, sample_from_logits};
use crate::scalar::{Scalar, is_minus, is_plus, is_times};

verus! {

/// One backward step of the estimate: from the reward and the value of a
/// step and the value and the advantage of the step after it,
/// `ret = rew + gamma * (next_val + lambda * next_adv)` and
/// `adv = ret - val`.
pub open spec fn is_gae_step<S: Scalar>(
    rew: S,
    val: S,
    next_val: S,
    next_adv: S,
    gamma: S,
    lambda: S,
    ret: S,
    adv: S,
) -> bool {
    exists|damped: S, target: S, discounted: S|
        #![trigger is_times(lambda, next_adv, damped), is_plus(next_val, damped, target), is_times(gamma, target, discounted)]
        {
            &&& is_times(lambda, next_adv, damped)
            &&& is_plus(next_val, damped, target)
            &&& is_times(gamma, target, discounted)
            &&& is_plus(rew, discounted, ret)
            &&& is_minus(ret, val, adv)
        }
}

/// `advs` and `rets` are the generalised advantage estimates and the returns
/// of an episode with the given rewards and value estimates: at the last
/// step the return is the reward and the advantage the reward minus the
/// value; every earlier step follows from the step after it.
pub open spec fn is_gae<S: Scalar>(
    rews: Seq<S>,
    vals: Seq<S>,
    gamma: S,
    lambda: S,
    advs: Seq<S>,
    rets: Seq<S>,
) -> bool {
    let n = rews.len() as int;
    &&& n >= 1
    &&& vals.len() == n
    &&& advs.len() == n
    &&& rets.len() == n
    &&& rets[n - 1] == rews[n - 1]
    &&& is_minus(rews[n - 1], vals[n - 1], advs[n - 1])
    &&& forall|t: int|
        0 <= t < n - 1 ==> is_gae_step(
            rews[t],
            vals[t],
            vals[t + 1],
            advs[t + 1],
            gamma,
            lambda,
            #[trigger] rets[t],
            advs[t],
        )
}

/// For an episode of one step the return is the reward and the advantage is
/// the reward minus the value. For an episode of two steps the same holds of
/// the second step, and the first step follows from it by one backward step.
pub proof fn lemma_gae_of_short_episodes<S: Scalar>(
    rews: Seq<S>,
    vals: Seq<S>,
    gamma: S,
    lambda: S,
    advs: Seq<S>,
    rets: Seq<S>,
)
    requires
        is_gae(rews, vals, gamma, lambda, advs, rets),
    ensures
        rews.len() == 1 ==> rets[0] == rews[0] && is_minus(rews[0], vals[0], advs[0]),
        rews.len() == 2 ==> {
            &&& rets[1] == rews[1]
            &&& is_minus(rews[1], vals[1], advs[1])
            &&& is_gae_step(rews[0], vals[0], vals[1], advs[1], gamma, lambda, rets[0], advs[0])
        },
{
    if rews.len() == 2 {
        let t = 0int;
        assert(is_gae_step(
            rews[t],
            vals[t],
            vals[t + 1],
            advs[t + 1],
            gamma,
            lambda,
            rets[t],
            advs[t],
        ));
    }
}

/// The generalised advantage estimates and the returns of one episode, in
/// this order, computed from its last step backwards.
pub fn gae<S: Scalar>(rews: &Vec<S>, vals: &Vec<S>, gamma: S, lambda: S) -> (estimates: (
    Vec<S>,
    Vec<S>,
))
    requires
        rews.len() >= 1,
        vals.len() == rews.len(),
    ensures
        is_gae(rews@, vals@, gamma, lambda, estimates.0@, estimates.1@),
{
    let n = rews.len();
    let zero = S::zero();
    let mut advs: Vec<S> = Vec::new();
    let mut rets: Vec<S> = Vec::new();
    let mut i: usize = 0;
    while i < n
        invariant
            i <= n,
            advs.len() == i,
            rets.len() == i,
        decreases n - i,
    {
        advs.push(zero);
        rets.push(zero);
        i += 1;
    }
    advs[n - 1] = rews[n - 1].minus(vals[n - 1]);
    rets[n - 1] = rews[n - 1];
    let mut t: usize = n - 1;
    while t > 0
        invariant
            n == rews.len(),
            n == vals.len(),
            n >= 1,
            t <= n - 1,
            advs.len() == n,
            rets.len() == n,
            rets[n - 1] == rews[n - 1],
            is_minus(rews[n - 1], vals[n - 1], advs[n - 1]),
            forall|j: int|
                t <= j < n - 1 ==> is_gae_step(
                    rews[j],
                    vals[j],
                    vals[j + 1],
                    advs[j + 1],
                    gamma,
                    lambda,
                    #[trigger] rets[j],
                    advs[j],
                ),
        decreases t,
    {
        t -= 1;
        let ghost before_rets = rets@;
        let ghost before_advs = advs@;
        let damped = lambda.times(advs[t + 1]);
        let target = vals[t + 1].plus(damped);
        let discounted = gamma.times(target);
        let ret = rews[t].plus(discounted);
        let adv = ret.minus(vals[t]);
        rets[t] = ret;
        advs[t] = adv;
        proof {
            assert(is_times(lambda, before_advs[t + 1], damped) && is_plus(vals[t + 1], damped, target)
                && is_times(gamma, target, discounted));
            assert forall|j: int| t <= j < n - 1 implies is_gae_step(
                rews[j],
                vals[j],
                vals[j + 1],
                advs[j + 1],
                gamma,
                lambda,
                #[trigger] rets[j],
                advs[j],
            ) by {
                if j > t {
                    assert(rets[j] == before_rets[j]);
                    assert(advs[j] == before_advs[j]);
                    assert(advs[j + 1] == before_advs[j + 1]);
                    assert(is_gae_step(
                        rews[j],
                        vals[j],
                        vals[j + 1],
                        before_advs[j + 1],
                        gamma,
                        lambda,
                        before_rets[j],
                        before_advs[j],
                    ));
                }
            }
        }
    }
    (advs, rets)
}

/// Settings of a collection of episodes for proximal policy optimisation.
pub struct PPOCollector<S> {
    /// How many episodes one collection runs.
    pub num_episodes: usize,
    /// The discount of later rewards.
    pub gamma: S,
    /// The weight of later advantages.
    pub lambda: S,
    /// The size of the worker pool that a pooled driver may use.
    pub num_cores: usize,
}

/// What one step records of the state `state`: its observation, the scores
/// and the value that `policy.forward` gives for the observation and the
/// masks of the state, an action drawn from the scores, and the reward of
/// the state.
pub open spec fn is_ppo_step<E: Env<S>, P: Policy<S>, S: Scalar>(
    state: E,
    policy: P,
    obs: Seq<usize>,
    logits: Seq<S>,
    action: usize,
    value: S,
    reward: S,
) -> bool {
    &&& call_ensures(E::reward, (&state,), reward)
    &&& is_logit_sample(logits, action)
    &&& exists|seen: Vec<usize>, shown: Vec<usize>, masks: Vec<bool>, scores: Vec<S>|
        #![trigger call_ensures(E::observe, (&state,), seen), call_ensures(P::forward, (&policy, shown, masks), (scores, value))]
        {
            &&& call_ensures(E::observe, (&state,), seen)
            &&& call_ensures(E::masks, (&state,), masks)
            &&& seen@ == obs
            &&& shown@ == obs
            &&& call_ensures(P::forward, (&policy, shown, masks), (scores, value))
            &&& scores@ == logits
        }
}

/// `states` is the path of the episode that `episode` records: it starts
/// with a reset of a copy of `env`; every state is recorded as a step; every
/// state but the last is not terminal and leads to the next by the recorded
/// action; the last state is terminal.
pub open spec fn is_ppo_path<E: Env<S>, P: Policy<S>, S: Scalar>(
    env: E,
    policy: P,
    states: Seq<E>,
    episode: Rollouts<S>,
) -> bool {
    let n = episode.obs.len() as int;
    &&& states.len() == n
    &&& exists|copy: E| #[trigger] env.same_state(&copy) && copy.resets_to(&states[0])
    &&& forall|t: int|
        0 <= t < n ==> is_ppo_step(
            #[trigger] states[t],
            policy,
            episode.obs[t],
            episode.logits[t],
            episode.actions[t],
            episode.values[t],
            episode.rewards[t],
        )
    &&& forall|t: int|
        0 <= t < n - 1 ==> call_ensures(E::is_final, (&#[trigger] states[t],), false)
            && states[t].steps_to(episode.actions[t], &states[t + 1])
    &&& call_ensures(E::is_final, (&states.last(),), true)
}

/// `episode` is the record of one episode of `env` under `policy` for
/// proximal policy optimisation: at least one step; per step an observation,
/// the scores, the value estimate, the reward and the action, as met along
/// the path of the episode; and the advantages and returns under the names
/// `advs` and `rets`.
pub open spec fn is_ppo_episode<E: Env<S>, P: Policy<S>, S: Scalar>(
    env: E,
    policy: P,
    gamma: S,
    lambda: S,
    episode: Rollouts<S>,
) -> bool {
    let n = episode.obs.len();
    &&& n >= 1
    &&& episode.logits.len() == n
    &&& episode.values.len() == n
    &&& episode.rewards.len() == n
    &&& episode.actions.len() == n
    &&& exists|states: Seq<E>| #[trigger] is_ppo_path(env, policy, states, episode)
    &&& episode.additional_data.dom() =~= set!["advs"@, "rets"@]
    &&& is_gae(
        episode.rewards,
        episode.values,
        gamma,
        lambda,
        episode.additional_data["advs"@],
        episode.additional_data["rets"@],
    )
}

impl<S: Copy> Clone for PPOCollector<S> {
    /// The same settings.
    fn clone(&self) -> (copy: Self)
        ensures
            copy == *self,
    {
        PPOCollector {
            num_episodes: self.num_episodes,
            gamma: self.gamma,
            lambda: self.lambda,
            num_cores: self.num_cores,
        }
    }
}

impl<S: Scalar> PPOCollector<S> {
    /// The settings as given.
    pub fn new(num_episodes: usize, gamma: S, lambda: S, num_cores: usize) -> (collector: Self)
        ensures
            collector.num_episodes == num_episodes,
            collector.gamma == gamma,
            collector.lambda == lambda,
            collector.num_cores == num_cores,
    {
        PPOCollector { num_episodes, gamma, lambda, num_cores }
    }

    /// What one step records of the state `env`: the observation, the
    /// policy's scores, an action drawn from the scores, the policy's value
    /// estimate and the reward, in this order.
    pub fn get_step_data<E: Env<S>, P: Policy<S>>(&self, env: &E, policy: &P) -> (step: (
        Vec<usize>,
        Vec<S>,
        usize,
        S,
        S,
    ))
        requires
            env.valid(),
        ensures
            is_ppo_step(*env, *policy, step.0@, step.1@, step.2, step.3, step.4),
            step.1.len() > 0 ==> step.2 < step.1.len(),
    {
        let obs = env.observe();
        let masks = env.masks();
        let reward = env.reward();
        let obs_copy = copy_column(&obs);
        let ghost shown = obs_copy;
        let ghost masks_seen = masks;
        let (logits, value) = policy.forward(obs_copy, masks);
        let action = sample_from_logits(&logits);
        proof {
            assert(call_ensures(P::forward, (policy, shown, masks_seen), (logits, value)));
        }
        (obs, logits, action, value, reward)
    }

    /// Runs one episode on a copy of `env`, from a random initial state to a
    /// terminal state, and returns its record.
    pub fn single_collect<E: Env<S>, P: Policy<S>>(&self, env: &E, policy: &P) -> (data:
        CollectedData<S>)
        requires
            env.valid(),
        ensures
            data.additional_data.wf(),
            is_ppo_episode(*env, *policy, self.gamma, self.lambda, data@),
    {
        let ghost origin = *env;
        let mut env = env.snapshot();
        let ghost copy = env;
        env.reset();
        let ghost start = env;
        let mut obss: Vec<Vec<usize>> = Vec::new();
        let mut log_probs: Vec<Vec<S>> = Vec::new();
        let mut vals: Vec<S> = Vec::new();
        let mut rews: Vec<S> = Vec::new();
        let mut acts: Vec<usize> = Vec::new();
        let ghost mut states: Seq<E> = Seq::empty();
        let mut running = true;
        while running
            invariant
                env.valid(),
                obss.len() == log_probs.len(),
                obss.len() == vals.len(),
                obss.len() == rews.len(),
                obss.len() == acts.len(),
                obss.len() == states.len(),
                states.len() > 0 ==> states[0] == start,
                running && states.len() == 0 ==> env == start,
                running && states.len() > 0 ==> call_ensures(E::is_final, (&states.last(),), false)
                    && states.last().steps_to(acts[acts.len() - 1], &env),
                !running ==> states.len() >= 1 && call_ensures(
                    E::is_final,
                    (&states.last(),),
                    true,
                ),
                forall|t: int|
                    0 <= t < states.len() ==> is_ppo_step(
                        #[trigger] states[t],
                        *policy,
                        obss[t]@,
                        log_probs[t]@,
                        acts[t],
                        vals[t],
                        rews[t],
                    ),
                forall|t: int|
                    0 <= t < states.len() - 1 ==> call_ensures(
                        E::is_final,
                        (&#[trigger] states[t],),
                        false,
                    ) && states[t].steps_to(acts[t], &states[t + 1]),
            decreases env.horizon(), (if running { 1int } else { 0int }),
        {
            let ghost state = env;
            let ghost old_states = states;
            let (obs, log_prob, act, val, rew) = self.get_step_data(&env, policy);
            obss.push(obs);
            log_probs.push(log_prob);
            vals.push(val);
            rews.push(rew);
            acts.push(act);
            proof {
                states = states.push(state);
            }
            if env.is_final() {
                running = false;
            } else {
                env.step(act);
            }
            proof {
                assert forall|t: int| 0 <= t < states.len() implies is_ppo_step(
                    #[trigger] states[t],
                    *policy,
                    obss[t]@,
                    log_probs[t]@,
                    acts[t],
                    vals[t],
                    rews[t],
                ) by {
                    if t < old_states.len() {
                        assert(states[t] == old_states[t]);
                    }
                }
                assert forall|t: int| 0 <= t < states.len() - 1 implies call_ensures(
                    E::is_final,
                    (&#[trigger] states[t],),
                    false,
                ) && states[t].steps_to(acts[t], &states[t + 1]) by {
                    if t < old_states.len() - 1 {
                        assert(states[t] == old_states[t]);
                        assert(states[t + 1] == old_states[t + 1]);
                    } else {
                        assert(states[t] == old_states.last());
                        assert(states[t + 1] == state);
                    }
                }
            }
        }
        let (advs, rets) = gae(&rews, &vals, self.gamma, self.lambda);
        let ghost rewards = rews@;
        let ghost values = vals@;
        let ghost recorded_obs = obss;
        let ghost recorded_logits = log_probs;
        let ghost recorded_actions = acts@;
        let mut data = CollectedData::new(obss, log_probs, vals, rews, acts);
        data.additional_data.insert("advs".to_owned(), advs);
        data.additional_data.insert("rets".to_owned(), rets);
        proof {
            reveal_strlit("advs");
            reveal_strlit("rets");
            assert("advs"@[0] != "rets"@[0]);
            assert(data@.additional_data.dom() =~= set!["advs"@, "rets"@]);
            assert(data@.logits.len() == data@.obs.len());
            assert(origin.same_state(&copy) && copy.resets_to(&states[0]));
            assert forall|t: int| 0 <= t < states.len() implies is_ppo_step(
                #[trigger] states[t],
                *policy,
                data@.obs[t],
                data@.logits[t],
                data@.actions[t],
                data@.values[t],
                data@.rewards[t],
            ) by {
                assert(data@.obs[t] == recorded_obs[t]@);
                assert(data@.logits[t] == recorded_logits[t]@);
            }
            assert(is_ppo_path(origin, *policy, states, data@));
            assert(is_gae(
                rewards,
                values,
                self.gamma,
                self.lambda,
                data@.additional_data["advs"@],
                data@.additional_data["rets"@],
            ));
        }
        data
    }
}

/// `data` is what a collection of `num_episodes` episodes of `env` under
/// `policy` returns: the merged records of that many episodes.
pub open spec fn is_ppo_collection<E: Env<S>, P: Policy<S>, S: Scalar>(
    env: E,
    policy: P,
    num_episodes: usize,
    gamma: S,
    lambda: S,
    data: Rollouts<S>,
) -> bool {
    exists|episodes: Seq<Rollouts<S>>|
        {
            &&& episodes.len() == num_episodes
            &&& forall|i: int|
                0 <= i < episodes.len() ==> is_ppo_episode(
                    env,
                    policy,
                    gamma,
                    lambda,
                    #[trigger] episodes[i],
                )
            &&& data == #[trigger] merged(episodes)
        }
}

impl<E: Env<S>, P: Policy<S>, S: Scalar> Collector<E, P, S> for PPOCollector<S> {
    open spec fn episodes(&self) -> usize {
        self.num_episodes
    }

    open spec fn configured(&self) -> bool {
        true
    }

    /// Runs the episodes one after the other in the calling thread and
    /// merges their records. A pooled driver runs `single_collect` once per
    /// episode instead and hands the records to `merge`.
    fn collect(&self, env: &E, policy: &P) -> (result: Result<CollectedData<S>, MergeError>)
        ensures
            result matches Ok(data) ==> is_ppo_collection(
                *env,
                *policy,
                self.num_episodes,
                self.gamma,
                self.lambda,
                data@,
            ),
    {
        let mut chunks: Vec<CollectedData<S>> = Vec::new();
        let mut k: usize = 0;
        while k < self.num_episodes
            invariant
                k <= self.num_episodes,
                env.valid(),
                chunks.len() == k,
                forall|i: int| 0 <= i < chunks.len() ==> (#[trigger] chunks[i]).additional_data.wf(),
                forall|i: int|
                    0 <= i < chunks.len() ==> is_ppo_episode(
                        *env,
                        *policy,
                        self.gamma,
                        self.lambda,
                        (#[trigger] chunks[i])@,
                    ),
            decreases self.num_episodes - k,
        {
            chunks.push(self.single_collect(env, policy));
            k += 1;
        }
        let ghost episodes = contents(chunks@);
        let result = merge(chunks);
        proof {
            if result is Ok {
                let data = result->Ok_0;
                assert forall|i: int| 0 <= i < episodes.len() implies is_ppo_episode(
                    *env,
                    *policy,
                    self.gamma,
                    self.lambda,
                    #[trigger] episodes[i],
                ) by {
                    assert(is_ppo_episode(*env, *policy, self.gamma, self.lambda, chunks[i]@));
                }
                assert(data@ == merged(episodes));
            }
        }
        result
    }
}

/// Runs `num_episodes` episodes of `env` under `policy` and returns their
/// merged records, labelled with generalised advantage estimates. Fails where
/// there is no episode to run, and only there.
pub fn collect_ppo<E: Env<S>, P: Policy<S>, S: Scalar>(
    env: &E,
    policy: &P,
    num_episodes: usize,
    gamma: S,
    lambda: S,
    num_cores: usize,
) -> (result: Result<CollectedData<S>, MergeError>)
    requires
        env.valid(),
    ensures
        num_episodes == 0 <==> result is Err,
        result matches Ok(data) ==> data.additional_data.wf() && is_ppo_collection(
            *env,
            *policy,
            num_episodes,
            gamma,
            lambda,
            data@,
        ),
{
    let collector = PPOCollector::new(num_episodes, gamma, lambda, num_cores);
    collector.collect(env, policy)
}

} // verus!
