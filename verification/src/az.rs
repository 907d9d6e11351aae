//! Rollouts for self-play training: episodes driven by tree search, labelled
//! with the reward that was still to come at each step.

use vstd::prelude::*;
use crate::collector::{CollectedData, Collector, MergeError, Rollouts, contents, merge, merged};
use crate::env::Env;
use crate::policy::{Policy, is_sample, sample};
use crate::scalar::{Scalar, is_minus, is_running_sum};
use crate::search::{is_search_result, predict_probs_mcts};

verus! {

/// `remaining[t]` is `total` minus `prefix[t]`, for every step `t`.
pub open spec fn is_remaining<S: Scalar>(prefix: Seq<S>, total: S, remaining: Seq<S>) -> bool {
    &&& remaining.len() == prefix.len()
    &&& forall|t: int| 0 <= t < prefix.len() ==> is_minus(total, prefix[t], #[trigger] remaining[t])
}

/// For every step, the reward that was still to come when the step began:
/// the total reward of the episode minus the total before the step.
pub fn remaining_values<S: Scalar>(prefix: &Vec<S>, total: S) -> (remaining: Vec<S>)
    ensures
        is_remaining(prefix@, total, remaining@),
{
    let mut remaining: Vec<S> = Vec::new();
    let mut t: usize = 0;
    while t < prefix.len()
        invariant
            t <= prefix.len(),
            remaining.len() == t,
            forall|j: int| 0 <= j < t ==> is_minus(total, prefix[j], #[trigger] remaining[j]),
        decreases prefix.len() - t,
    {
        remaining.push(total.minus(prefix[t]));
        t += 1;
    }
    remaining
}

/// Settings of a collection of self-play episodes.
pub struct AZCollector<S> {
    /// How many episodes one collection runs.
    pub num_episodes: usize,
    /// How many simulations each tree search runs.
    pub num_mcts_searches: usize,
    /// The exploration constant of the tree search.
    pub c: S,
    /// How far one simulation may grow the tree.
    pub max_expand_depth: usize,
    /// The size of the worker pool that a pooled driver may use.
    pub num_cores: usize,
}

/// What one step records of the state `state`: its observation and the
/// action shares of a tree search from a copy of the state; `reward` is the
/// reward of the state.
pub open spec fn is_az_step<E: Env<S>, P: Policy<S>, S: Scalar>(
    state: E,
    policy: P,
    num_mcts_searches: usize,
    c: S,
    max_expand_depth: usize,
    obs: Seq<usize>,
    shares: Seq<S>,
    reward: S,
) -> bool {
    &&& call_ensures(E::reward, (&state,), reward)
    &&& exists|seen: Vec<usize>| #[trigger] call_ensures(E::observe, (&state,), seen) && seen@ == obs
    &&& exists|copy: E| #[trigger] state.same_state(&copy) && is_search_result(copy, policy, num_mcts_searches, c, max_expand_depth, shares)
}

/// The state `state` is not terminal and leads to the state `next` by an
/// action drawn at random by `shares`.
pub open spec fn is_az_move<E: Env<S>, S: Scalar>(state: E, shares: Seq<S>, next: E) -> bool {
    &&& call_ensures(E::is_final, (&state,), false)
    &&& exists|scores: Vec<S>, action: usize|
        {
            &&& scores@ == shares
            &&& #[trigger] is_sample(scores, action)
            &&& state.steps_to(action, &next)
        }
}

/// `states` is the path of the episode that `episode` records, and `rewards`
/// are the rewards met along it: the path starts with a reset of a copy of
/// `env`; every state is recorded as a step; every state but the last is
/// followed by a move; the last state is terminal.
pub open spec fn is_az_path<E: Env<S>, P: Policy<S>, S: Scalar>(
    env: E,
    policy: P,
    num_mcts_searches: usize,
    c: S,
    max_expand_depth: usize,
    states: Seq<E>,
    rewards: Seq<S>,
    episode: Rollouts<S>,
) -> bool {
    let n = episode.obs.len() as int;
    &&& states.len() == n
    &&& rewards.len() == n
    &&& exists|copy: E| #[trigger] env.same_state(&copy) && copy.resets_to(&states[0])
    &&& forall|t: int|
        0 <= t < n ==> is_az_step(
            #[trigger] states[t],
            policy,
            num_mcts_searches,
            c,
            max_expand_depth,
            episode.obs[t],
            episode.logits[t],
            rewards[t],
        )
    &&& forall|t: int|
        0 <= t < n - 1 ==> is_az_move(#[trigger] states[t], episode.logits[t], states[t + 1])
    &&& call_ensures(E::is_final, (&states.last(),), true)
}

/// `episode` is the record of one self-play episode of `env`: at least one
/// step; per step an observation and the action shares of a tree search, as
/// met along the path of the episode; no values, rewards or actions; and
/// under the name `remaining_values`, per step, the sum of the rewards of
/// that step and of all later steps, computed as the total of all rewards
/// minus the total before the step.
pub open spec fn is_az_episode<E: Env<S>, P: Policy<S>, S: Scalar>(
    env: E,
    policy: P,
    num_mcts_searches: usize,
    c: S,
    max_expand_depth: usize,
    episode: Rollouts<S>,
) -> bool {
    let n = episode.obs.len();
    &&& n >= 1
    &&& episode.logits.len() == n
    &&& episode.values.len() == 0
    &&& episode.rewards.len() == 0
    &&& episode.actions.len() == 0
    &&& episode.additional_data.dom() =~= set!["remaining_values"@]
    &&& exists|states: Seq<E>, rewards: Seq<S>, partial: Seq<S>|
        {
            &&& #[trigger] is_az_path(env, policy, num_mcts_searches, c, max_expand_depth, states, rewards, episode)
            &&& #[trigger] is_running_sum(rewards, partial)
            &&& is_remaining(
                partial.drop_last(),
                partial.last(),
                episode.additional_data["remaining_values"@],
            )
        }
}

impl<S: Copy> Clone for AZCollector<S> {
    /// The same settings.
    fn clone(&self) -> (copy: Self)
        ensures
            copy == *self,
    {
        AZCollector {
            num_episodes: self.num_episodes,
            num_mcts_searches: self.num_mcts_searches,
            c: self.c,
            max_expand_depth: self.max_expand_depth,
            num_cores: self.num_cores,
        }
    }
}

impl<S: Scalar> AZCollector<S> {
    /// The settings as given.
    pub fn new(
        num_episodes: usize,
        num_mcts_searches: usize,
        c: S,
        max_expand_depth: usize,
        num_cores: usize,
    ) -> (collector: Self)
        ensures
            collector.num_episodes == num_episodes,
            collector.num_mcts_searches == num_mcts_searches,
            collector.c == c,
            collector.max_expand_depth == max_expand_depth,
            collector.num_cores == num_cores,
    {
        AZCollector { num_episodes, num_mcts_searches, c, max_expand_depth, num_cores }
    }

    /// Runs one episode on a copy of `env`, from a random initial state to a
    /// terminal state, and returns its record. In every state the action is
    /// drawn by the action shares of a tree search from that state.
    pub fn single_collect<E: Env<S>, P: Policy<S>>(&self, env: &E, policy: &P) -> (data:
        CollectedData<S>)
        requires
            env.valid(),
            self.num_mcts_searches < u32::MAX,
        ensures
            data.additional_data.wf(),
            is_az_episode(*env, *policy, self.num_mcts_searches, self.c, self.max_expand_depth, data@),
    {
        let ghost origin = *env;
        let mut env = env.snapshot();
        let ghost copy = env;
        env.reset();
        let ghost start = env;
        let mut obs: Vec<Vec<usize>> = Vec::new();
        let mut probs: Vec<Vec<S>> = Vec::new();
        let mut total_vals: Vec<S> = Vec::new();
        let mut total_val = S::zero();
        let ghost mut states: Seq<E> = Seq::empty();
        let ghost mut rewards: Seq<S> = Seq::empty();
        let ghost mut partial: Seq<S> = seq![total_val];
        let mut running = true;
        while running
            invariant
                env.valid(),
                self.num_mcts_searches < u32::MAX,
                obs.len() == probs.len(),
                obs.len() == total_vals.len(),
                obs.len() == rewards.len(),
                obs.len() == states.len(),
                is_running_sum(rewards, partial),
                partial.last() == total_val,
                total_vals@ == partial.drop_last(),
                states.len() > 0 ==> states[0] == start,
                running && states.len() == 0 ==> env == start,
                running && states.len() > 0 ==> is_az_move(
                    states.last(),
                    probs[probs.len() - 1]@,
                    env,
                ),
                !running ==> states.len() >= 1 && call_ensures(
                    E::is_final,
                    (&states.last(),),
                    true,
                ),
                forall|t: int|
                    0 <= t < states.len() ==> is_az_step(
                        #[trigger] states[t],
                        *policy,
                        self.num_mcts_searches,
                        self.c,
                        self.max_expand_depth,
                        obs[t]@,
                        probs[t]@,
                        rewards[t],
                    ),
                forall|t: int|
                    0 <= t < states.len() - 1 ==> is_az_move(
                        #[trigger] states[t],
                        probs[t]@,
                        states[t + 1],
                    ),
            decreases env.horizon(), (if running { 1int } else { 0int }),
        {
            let ghost state = env;
            let ghost old_states = states;
            let ghost old_rewards = rewards;
            let searched = env.snapshot();
            let ghost searched_copy = searched;
            let mcts_probs = predict_probs_mcts(
                searched,
                policy,
                self.num_mcts_searches,
                self.c,
                self.max_expand_depth,
            );
            let action = sample(&mcts_probs);
            let val = env.reward();
            total_vals.push(total_val);
            total_val = total_val.plus(val);
            proof {
                let before = partial;
                rewards = rewards.push(val);
                partial = partial.push(total_val);
                states = states.push(state);
                assert(partial.drop_last() =~= before);
                assert(total_vals@ =~= partial.drop_last());
            }
            let seen = env.observe();
            let ghost shares = mcts_probs;
            proof {
                assert(state.same_state(&searched_copy) && is_search_result(
                    searched_copy,
                    *policy,
                    self.num_mcts_searches,
                    self.c,
                    self.max_expand_depth,
                    shares@,
                ));
                assert(call_ensures(E::observe, (&state,), seen));
                assert(is_az_step(state, *policy, self.num_mcts_searches, self.c, self.max_expand_depth, seen@, shares@, val));
            }
            obs.push(seen);
            probs.push(mcts_probs);
            if env.is_final() {
                running = false;
            } else {
                env.step(action);
                proof {
                    assert(is_sample(shares, action) && state.steps_to(action, &env));
                    assert(is_az_move(state, shares@, env));
                }
            }
            proof {
                assert forall|t: int| 0 <= t < states.len() implies is_az_step(
                    #[trigger] states[t],
                    *policy,
                    self.num_mcts_searches,
                    self.c,
                    self.max_expand_depth,
                    obs[t]@,
                    probs[t]@,
                    rewards[t],
                ) by {
                    if t < old_states.len() {
                        assert(states[t] == old_states[t]);
                        assert(rewards[t] == old_rewards[t]);
                    }
                }
                assert forall|t: int| 0 <= t < states.len() - 1 implies is_az_move(
                    #[trigger] states[t],
                    probs[t]@,
                    states[t + 1],
                ) by {
                    if t < old_states.len() - 1 {
                        assert(states[t] == old_states[t]);
                        assert(states[t + 1] == old_states[t + 1]);
                    } else {
                        assert(states[t] == old_states.last());
                        assert(states[t + 1] == state);
                    }
                }
            }
        }
        let remaining = remaining_values(&total_vals, total_val);
        let ghost recorded_obs = obs;
        let ghost recorded_probs = probs;
        let mut data = CollectedData::new(obs, probs, Vec::new(), Vec::new(), Vec::new());
        data.additional_data.insert("remaining_values".to_owned(), remaining);
        proof {
            assert(data@.additional_data.dom() =~= set!["remaining_values"@]);
            assert(data@.logits.len() == data@.obs.len());
            assert(origin.same_state(&copy) && copy.resets_to(&states[0]));
            assert forall|t: int| 0 <= t < states.len() implies is_az_step(
                #[trigger] states[t],
                *policy,
                self.num_mcts_searches,
                self.c,
                self.max_expand_depth,
                data@.obs[t],
                data@.logits[t],
                rewards[t],
            ) by {
                assert(data@.obs[t] == recorded_obs[t]@);
                assert(data@.logits[t] == recorded_probs[t]@);
            }
            assert forall|t: int| 0 <= t < states.len() - 1 implies is_az_move(
                #[trigger] states[t],
                data@.logits[t],
                states[t + 1],
            ) by {
                assert(data@.logits[t] == recorded_probs[t]@);
            }
            assert(is_az_path(origin, *policy, self.num_mcts_searches, self.c, self.max_expand_depth, states, rewards, data@));
            assert(is_running_sum(rewards, partial));
        }
        data
    }
}

/// `data` is what a collection of `num_episodes` self-play episodes of `env`
/// returns: the merged records of that many episodes.
pub open spec fn is_az_collection<E: Env<S>, P: Policy<S>, S: Scalar>(
    env: E,
    policy: P,
    num_mcts_searches: usize,
    c: S,
    max_expand_depth: usize,
    num_episodes: usize,
    data: Rollouts<S>,
) -> bool {
    exists|episodes: Seq<Rollouts<S>>|
        {
            &&& episodes.len() == num_episodes
            &&& forall|i: int|
                0 <= i < episodes.len() ==> is_az_episode(env, policy, num_mcts_searches, c, max_expand_depth, #[trigger] episodes[i])
            &&& data == #[trigger] merged(episodes)
        }
}

impl<E: Env<S>, P: Policy<S>, S: Scalar> Collector<E, P, S> for AZCollector<S> {
    open spec fn episodes(&self) -> usize {
        self.num_episodes
    }

    open spec fn configured(&self) -> bool {
        self.num_mcts_searches < u32::MAX
    }

    /// Runs the episodes one after the other in the calling thread and
    /// merges their records. A pooled driver runs `single_collect` once per
    /// episode instead and hands the records to `merge`.
    fn collect(&self, env: &E, policy: &P) -> (result: Result<CollectedData<S>, MergeError>)
        ensures
            result matches Ok(data) ==> is_az_collection(
                *env,
                *policy,
                self.num_mcts_searches,
                self.c,
                self.max_expand_depth,
                self.num_episodes,
                data@,
            ),
    {
        let mut chunks: Vec<CollectedData<S>> = Vec::new();
        let mut k: usize = 0;
        while k < self.num_episodes
            invariant
                k <= self.num_episodes,
                env.valid(),
                self.num_mcts_searches < u32::MAX,
                chunks.len() == k,
                forall|i: int| 0 <= i < chunks.len() ==> (#[trigger] chunks[i]).additional_data.wf(),
                forall|i: int|
                    0 <= i < chunks.len() ==> is_az_episode(
                        *env,
                        *policy,
                        self.num_mcts_searches,
                        self.c,
                        self.max_expand_depth,
                        (#[trigger] chunks[i])@,
                    ),
            decreases self.num_episodes - k,
        {
            chunks.push(self.single_collect(env, policy));
            k += 1;
        }
        let ghost episodes = contents(chunks@);
        let result = merge(chunks);
        proof {
            if result is Ok {
                let data = result->Ok_0;
                assert forall|i: int| 0 <= i < episodes.len() implies is_az_episode(
                    *env,
                    *policy,
                    self.num_mcts_searches,
                    self.c,
                    self.max_expand_depth,
                    #[trigger] episodes[i],
                ) by {
                    assert(is_az_episode(*env, *policy, self.num_mcts_searches, self.c, self.max_expand_depth, chunks[i]@));
                }
                assert(data@ == merged(episodes));
            }
        }
        result
    }
}

/// Runs `num_episodes` self-play episodes of `env` under `policy` and returns
/// their merged records. Fails where there is no episode to run, and only
/// there.
pub fn collect_az<E: Env<S>, P: Policy<S>, S: Scalar>(
    env: &E,
    policy: &P,
    num_episodes: usize,
    num_mcts_searches: usize,
    c: S,
    max_expand_depth: usize,
    num_cores: usize,
) -> (result: Result<CollectedData<S>, MergeError>)
    requires
        env.valid(),
        num_mcts_searches < u32::MAX,
    ensures
        num_episodes == 0 <==> result is Err,
        result matches Ok(data) ==> data.additional_data.wf() && is_az_collection(
            *env,
            *policy,
            num_mcts_searches,
            c,
            max_expand_depth,
            num_episodes,
            data@,
        ),
{
    let collector = AZCollector::new(
        num_episodes,
        num_mcts_searches,
        c,
        max_expand_depth,
        num_cores,
    );
    collector.collect(env, policy)
}

} // verus!
