//! Rollouts that try to bring an environment to a successful end.

use vstd::prelude::*;
use crate::env::Env;
use crate::policy::{Policy, argmax, is_argmax, is_sample, sample};
use crate::scalar::{
    Scalar, is_count, is_equals, is_exceeds, is_neg_infinity, is_one, is_plus, is_running_sum,
    is_sum, is_zero,
};
use crate::search::{is_search_result, predict_probs_mcts};

verus! {

/// `flag` is the success flag of an episode that ended with the reward
/// `last`: the number one where `last` equals one, else the number zero.
pub open spec fn is_success_flag<S: Scalar>(last: S, flag: S) -> bool {
    exists|unit: S|
        {
            &&& #[trigger] is_one(unit)
            &&& {
                ||| is_equals(last, unit, true) && is_count(1, flag)
                ||| is_equals(last, unit, false) && is_count(0, flag)
            }
        }
}

/// The success flag of an episode that ended with the reward `last`.
pub fn success_flag<S: Scalar>(last: S) -> (flag: S)
    ensures
        is_success_flag(last, flag),
{
    let unit = S::one();
    let won = last.equals(unit);
    if won {
        let flag = S::from_usize(1);
        proof {
            assert(is_one(unit));
            assert(is_equals(last, unit, true));
        }
        flag
    } else {
        let flag = S::from_usize(0);
        proof {
            assert(is_one(unit));
            assert(is_equals(last, unit, false));
        }
        flag
    }
}

/// `scores` are action scores that a rollout may use in the state `state`:
/// what `policy.predict` returns for the observation and the masks of the
/// state where no tree search is asked for, and the result of a tree search
/// from a copy of the state otherwise.
pub open spec fn is_scored<E: Env<S>, P: Policy<S>, S: Scalar>(
    state: E,
    policy: P,
    num_mcts_searches: usize,
    c: S,
    max_expand_depth: usize,
    scores: Vec<S>,
) -> bool {
    if num_mcts_searches == 0 {
        exists|obs: Vec<usize>, masks: Vec<bool>, value: S|
            {
                &&& call_ensures(E::observe, (&state,), obs)
                &&& call_ensures(E::masks, (&state,), masks)
                &&& #[trigger] call_ensures(P::predict, (&policy, obs, masks), (scores, value))
            }
    } else {
        exists|copy: E| #[trigger] state.same_state(&copy) && is_search_result(copy, policy, num_mcts_searches, c, max_expand_depth, scores@)
    }
}

/// `action` is an action that a rollout may pick from `scores`: the position
/// of the greatest score where the rollout is deterministic, a position
/// drawn at random by the scores otherwise.
pub open spec fn is_choice<S: Scalar>(deterministic: bool, scores: Vec<S>, action: usize) -> bool {
    if deterministic {
        is_argmax(scores@, action as int)
    } else {
        is_sample(scores, action)
    }
}

/// Step `t` of a rollout: the state `states[t]` is not terminal and has the
/// reward `rewards[t]`; the action `actions[t]` was picked from the scores
/// of that state; and the action leads to the state `states[t + 1]`.
pub open spec fn is_rollout_step<E: Env<S>, P: Policy<S>, S: Scalar>(
    states: Seq<E>,
    policy: P,
    deterministic: bool,
    num_mcts_searches: usize,
    c: S,
    max_expand_depth: usize,
    actions: Seq<usize>,
    rewards: Seq<S>,
    t: int,
) -> bool {
    &&& call_ensures(E::is_final, (&states[t],), false)
    &&& call_ensures(E::reward, (&states[t],), rewards[t])
    &&& exists|scores: Vec<S>| #[trigger]
        is_scored(states[t], policy, num_mcts_searches, c, max_expand_depth, scores) && is_choice(
            deterministic,
            scores,
            actions[t],
        )
    &&& states[t].steps_to(actions[t], &states[t + 1])
}

/// `states` is the path of a rollout that took `actions` and met `rewards`:
/// every state but the last is followed by a step, and the last state is
/// terminal and has the last reward.
pub open spec fn is_rollout<E: Env<S>, P: Policy<S>, S: Scalar>(
    states: Seq<E>,
    policy: P,
    deterministic: bool,
    num_mcts_searches: usize,
    c: S,
    max_expand_depth: usize,
    actions: Seq<usize>,
    rewards: Seq<S>,
) -> bool {
    &&& states.len() == actions.len() + 1
    &&& rewards.len() == actions.len() + 1
    &&& forall|t: int|
        0 <= t < actions.len() ==> #[trigger] is_rollout_step(
            states,
            policy,
            deterministic,
            num_mcts_searches,
            c,
            max_expand_depth,
            actions,
            rewards,
            t,
        )
    &&& call_ensures(E::is_final, (&states.last(),), true)
    &&& call_ensures(E::reward, (&states.last(),), rewards.last())
}

/// A deterministic rollout without tree search draws nothing at random: each
/// of its actions is the position of the greatest score that
/// `policy.predict` gave for the observation and the masks of the state.
pub proof fn lemma_deterministic_rollout_draws_nothing<E: Env<S>, P: Policy<S>, S: Scalar>(
    states: Seq<E>,
    policy: P,
    c: S,
    max_expand_depth: usize,
    actions: Seq<usize>,
    rewards: Seq<S>,
    t: int,
)
    requires
        is_rollout(states, policy, true, 0, c, max_expand_depth, actions, rewards),
        0 <= t < actions.len(),
    ensures
        exists|obs: Vec<usize>, masks: Vec<bool>, scores: Vec<S>, value: S|
            {
                &&& call_ensures(E::observe, (&states[t],), obs)
                &&& call_ensures(E::masks, (&states[t],), masks)
                &&& #[trigger] call_ensures(P::predict, (&policy, obs, masks), (scores, value))
                &&& is_argmax(scores@, actions[t] as int)
            },
{
    assert(is_rollout_step(states, policy, true, 0, c, max_expand_depth, actions, rewards, t));
    let scores = choose|scores: Vec<S>| #[trigger]
        is_scored(states[t], policy, 0, c, max_expand_depth, scores) && is_choice(
            true,
            scores,
            actions[t],
        );
    let (obs, masks, value) = choose|obs: Vec<usize>, masks: Vec<bool>, value: S|
        {
            &&& call_ensures(E::observe, (&states[t],), obs)
            &&& call_ensures(E::masks, (&states[t],), masks)
            &&& #[trigger] call_ensures(P::predict, (&policy, obs, masks), (scores, value))
        };
    assert(call_ensures(P::predict, (&policy, obs, masks), (scores, value)));
}

/// Runs one episode on `env` from its current state to a terminal state.
///
/// In every state before the terminal one, the action scores come from
/// `policy.predict` where `num_mcts_searches` is zero and from a tree search
/// otherwise, and the action is the one with the greatest score where
/// `deterministic` is set and drawn at random by the scores otherwise.
///
/// Returns the success flag, the total reward and the actions taken. The
/// total adds up the reward of every state that was passed, the terminal
/// state included; the flag is computed from the reward of the terminal
/// state.
pub fn single_solve<E: Env<S>, P: Policy<S>, S: Scalar>(
    env: &mut E,
    policy: &P,
    deterministic: bool,
    num_mcts_searches: usize,
    c: S,
    max_expand_depth: usize,
) -> (outcome: ((S, S), Vec<usize>))
    requires
        old(env).valid(),
        num_mcts_searches < u32::MAX,
    ensures
        final(env).valid(),
        exists|states: Seq<E>, rewards: Seq<S>|
            {
                &&& #[trigger] is_rollout(
                    states,
                    *policy,
                    deterministic,
                    num_mcts_searches,
                    c,
                    max_expand_depth,
                    outcome.1@,
                    rewards,
                )
                &&& states[0] == *old(env)
                &&& states.last() == *final(env)
                &&& is_sum(rewards, outcome.0.1)
                &&& is_success_flag(rewards.last(), outcome.0.0)
            },
{
    let mut total_val = S::zero();
    let mut solution: Vec<usize> = Vec::new();
    let ghost mut states: Seq<E> = seq![*env];
    let ghost mut rewards: Seq<S> = Seq::empty();
    let ghost mut partial: Seq<S> = seq![total_val];
    let mut done = env.is_final();
    while !done
        invariant
            env.valid(),
            num_mcts_searches < u32::MAX,
            call_ensures(E::is_final, (&*env,), done),
            env.horizon() == 0 ==> done,
            states.len() == solution.len() + 1,
            states[0] == *old(env),
            states.last() == *env,
            rewards.len() == solution.len(),
            is_running_sum(rewards, partial),
            partial.last() == total_val,
            forall|t: int|
                0 <= t < solution.len() ==> #[trigger] is_rollout_step(
                    states,
                    *policy,
                    deterministic,
                    num_mcts_searches,
                    c,
                    max_expand_depth,
                    solution@,
                    rewards,
                    t,
                ),
        decreases env.horizon(),
    {
        let ghost state = *env;
        let ghost old_states = states;
        let ghost old_rewards = rewards;
        let ghost old_actions = solution@;
        let val = env.reward();
        let obs = env.observe();
        let masks = env.masks();
        total_val = total_val.plus(val);
        let ghost obs_seen = obs;
        let ghost masks_seen = masks;
        let probs = if num_mcts_searches == 0 {
            let (scores, value) = policy.predict(obs, masks);
            proof {
                assert(call_ensures(P::predict, (policy, obs_seen, masks_seen), (scores, value)));
                assert(is_scored(state, *policy, num_mcts_searches, c, max_expand_depth, scores));
            }
            scores
        } else {
            let copy = env.snapshot();
            let ghost copied = copy;
            let scores = predict_probs_mcts(copy, policy, num_mcts_searches, c, max_expand_depth);
            proof {
                assert(state.same_state(&copied) && is_search_result(copied, *policy, num_mcts_searches, c, max_expand_depth, scores@));
                assert(is_scored(state, *policy, num_mcts_searches, c, max_expand_depth, scores));
            }
            scores
        };
        let action = if deterministic {
            argmax(&probs)
        } else {
            sample(&probs)
        };
        env.step(action);
        solution.push(action);
        done = env.is_final();
        proof {
            rewards = rewards.push(val);
            partial = partial.push(total_val);
            states = states.push(*env);
            assert(is_choice(deterministic, probs, action));
            assert forall|t: int| 0 <= t < solution.len() implies #[trigger] is_rollout_step(
                states,
                *policy,
                deterministic,
                num_mcts_searches,
                c,
                max_expand_depth,
                solution@,
                rewards,
                t,
            ) by {
                if t < solution.len() - 1 {
                    assert(is_rollout_step(
                        old_states,
                        *policy,
                        deterministic,
                        num_mcts_searches,
                        c,
                        max_expand_depth,
                        old_actions,
                        old_rewards,
                        t,
                    ));
                    assert(states[t] == old_states[t]);
                    assert(states[t + 1] == old_states[t + 1]);
                    assert(rewards[t] == old_rewards[t]);
                    assert(solution@[t] == old_actions[t]);
                } else {
                    assert(states[t] == state);
                    assert(states[t + 1] == *env);
                }
            }
        }
    }
    let ghost path = solution@;
    let val = env.reward();
    total_val = total_val.plus(val);
    let flag = success_flag(val);
    let ghost old_rewards = rewards;
    proof {
        rewards = rewards.push(val);
        partial = partial.push(total_val);
        assert(is_running_sum(rewards, partial));
        assert(is_sum(rewards, total_val));
        assert forall|t: int| 0 <= t < path.len() implies #[trigger] is_rollout_step(
            states,
            *policy,
            deterministic,
            num_mcts_searches,
            c,
            max_expand_depth,
            path,
            rewards,
            t,
        ) by {
            assert(is_rollout_step(
                states,
                *policy,
                deterministic,
                num_mcts_searches,
                c,
                max_expand_depth,
                path,
                old_rewards,
                t,
            ));
            assert(rewards[t] == old_rewards[t]);
        }
    }
    let outcome = ((flag, total_val), solution);
    proof {
        assert(is_rollout(states, *policy, deterministic, num_mcts_searches, c, max_expand_depth, outcome.1@, rewards));
    }
    outcome
}

/// `wins` is a possible answer to "is the outcome `new` better than the
/// outcome `kept`": success decides, and the total reward decides between
/// outcomes of equal success.
pub open spec fn is_better<S: Scalar>(new: (S, S), kept: (S, S), wins: bool) -> bool {
    ||| is_equals(new.0, kept.0, true) && is_exceeds(new.1, kept.1, wins)
    ||| is_equals(new.0, kept.0, false) && is_exceeds(new.0, kept.0, wins)
}

/// Whether the outcome `new` is better than the outcome `kept`.
pub fn better<S: Scalar>(new: (S, S), kept: (S, S)) -> (wins: bool)
    ensures
        is_better(new, kept, wins),
{
    if new.0.equals(kept.0) {
        new.1.exceeds(kept.1)
    } else {
        new.0.exceeds(kept.0)
    }
}

/// The outcome that stands for "no attempt was made": no success, a total
/// reward below every number, no action.
pub open spec fn is_defeat<S: Scalar>(outcome: ((S, S), Seq<usize>)) -> bool {
    &&& is_zero(outcome.0.0)
    &&& is_neg_infinity(outcome.0.1)
    &&& outcome.1.len() == 0
}

/// `kept[k]` is the outcome kept after the first `k` of `attempts`: the
/// defeat at first, and then each attempt replaces the kept outcome exactly
/// where it is better.
pub open spec fn is_best_of<S: Scalar>(
    attempts: Seq<((S, S), Seq<usize>)>,
    kept: Seq<((S, S), Seq<usize>)>,
) -> bool {
    &&& kept.len() == attempts.len() + 1
    &&& is_defeat(kept[0])
    &&& forall|k: int|
        0 <= k < attempts.len() ==> {
            ||| is_better((#[trigger] attempts[k]).0, kept[k].0, true) && kept[k + 1] == attempts[k]
            ||| is_better(attempts[k].0, kept[k].0, false) && kept[k + 1] == kept[k]
        }
}

/// `flag` is one of the values that a success flag takes: zero or one, as a
/// count or as the number zero itself.
pub open spec fn is_flag<S: Scalar>(flag: S) -> bool {
    is_zero(flag) || is_count(0, flag) || is_count(1, flag)
}

/// A success flag is zero or one.
pub proof fn lemma_success_flag_is_flag<S: Scalar>(last: S, flag: S)
    requires
        is_success_flag(last, flag),
    ensures
        is_flag(flag),
{
}

/// Every outcome kept along a run of attempts carries a flag that is zero or
/// one, provided every attempt does.
pub proof fn lemma_kept_has_flag<S: Scalar>(
    attempts: Seq<((S, S), Seq<usize>)>,
    kept: Seq<((S, S), Seq<usize>)>,
    upto: int,
)
    requires
        is_best_of(attempts, kept),
        forall|k: int| 0 <= k < attempts.len() ==> is_flag((#[trigger] attempts[k]).0.0),
        0 <= upto <= attempts.len(),
    ensures
        is_flag(kept[upto].0.0),
    decreases upto,
{
    if upto > 0 {
        lemma_kept_has_flag(attempts, kept, upto - 1);
        assert(is_flag(attempts[upto - 1].0.0));
    }
}

/// `attempt` is the outcome of one rollout from a copy of the state `env`:
/// the success flag of its last reward, the sum of its rewards and its
/// actions.
pub open spec fn is_attempt<E: Env<S>, P: Policy<S>, S: Scalar>(
    env: E,
    policy: P,
    deterministic: bool,
    num_mcts_searches: usize,
    c: S,
    max_expand_depth: usize,
    attempt: ((S, S), Seq<usize>),
) -> bool {
    exists|states: Seq<E>, rewards: Seq<S>|
        {
            &&& #[trigger] is_rollout(
                states,
                policy,
                deterministic,
                num_mcts_searches,
                c,
                max_expand_depth,
                attempt.1,
                rewards,
            )
            &&& env.same_state(&states[0])
            &&& is_sum(rewards, attempt.0.1)
            &&& is_success_flag(rewards.last(), attempt.0.0)
        }
}

/// `best` is what `solve` may return: the outcome kept after `num_searches`
/// rollouts from copies of the state `env`.
pub open spec fn is_solution<E: Env<S>, P: Policy<S>, S: Scalar>(
    env: E,
    policy: P,
    deterministic: bool,
    num_searches: usize,
    num_mcts_searches: usize,
    c: S,
    max_expand_depth: usize,
    best: ((S, S), Seq<usize>),
) -> bool {
    exists|attempts: Seq<((S, S), Seq<usize>)>, kept: Seq<((S, S), Seq<usize>)>|
        {
            &&& attempts.len() == num_searches
            &&& #[trigger] is_best_of(attempts, kept)
            &&& forall|k: int|
                0 <= k < attempts.len() ==> is_attempt(
                    env,
                    policy,
                    deterministic,
                    num_mcts_searches,
                    c,
                    max_expand_depth,
                    #[trigger] attempts[k],
                )
            &&& best == kept.last()
        }
}

/// Whatever `solve` returns carries a success flag that is zero or one.
pub proof fn lemma_solution_has_flag<E: Env<S>, P: Policy<S>, S: Scalar>(
    env: E,
    policy: P,
    deterministic: bool,
    num_searches: usize,
    num_mcts_searches: usize,
    c: S,
    max_expand_depth: usize,
    best: ((S, S), Seq<usize>),
)
    requires
        is_solution(env, policy, deterministic, num_searches, num_mcts_searches, c, max_expand_depth, best),
    ensures
        is_flag(best.0.0),
{
    let (attempts, kept) = choose|
        attempts: Seq<((S, S), Seq<usize>)>,
        kept: Seq<((S, S), Seq<usize>)>,
    |
        {
            &&& attempts.len() == num_searches
            &&& #[trigger] is_best_of(attempts, kept)
            &&& forall|k: int|
                0 <= k < attempts.len() ==> is_attempt(
                    env,
                    policy,
                    deterministic,
                    num_mcts_searches,
                    c,
                    max_expand_depth,
                    #[trigger] attempts[k],
                )
            &&& best == kept.last()
        };
    assert forall|k: int| 0 <= k < attempts.len() implies is_flag((#[trigger] attempts[k]).0.0) by {
        let attempt = attempts[k];
        let (states, rewards) = choose|states: Seq<E>, rewards: Seq<S>|
            {
                &&& #[trigger] is_rollout(
                    states,
                    policy,
                    deterministic,
                    num_mcts_searches,
                    c,
                    max_expand_depth,
                    attempt.1,
                    rewards,
                )
                &&& env.same_state(&states[0])
                &&& is_sum(rewards, attempt.0.1)
                &&& is_success_flag(rewards.last(), attempt.0.0)
            };
        lemma_success_flag_is_flag(rewards.last(), attempt.0.0);
    }
    lemma_kept_has_flag(attempts, kept, attempts.len() as int);
}

/// Runs `num_searches` episodes, each on a fresh copy of `env`, and returns
/// the best outcome: a successful one before an unsuccessful one, and among
/// outcomes of equal success the one with the greatest total reward, the
/// earliest of them. Without any episode the outcome is the defeat.
pub fn solve<E: Env<S>, P: Policy<S>, S: Scalar>(
    env: &E,
    policy: &P,
    deterministic: bool,
    num_searches: usize,
    num_mcts_searches: usize,
    c: S,
    max_expand_depth: usize,
) -> (best: ((S, S), Vec<usize>))
    requires
        env.valid(),
        num_mcts_searches < u32::MAX,
    ensures
        is_solution(
            *env,
            *policy,
            deterministic,
            num_searches,
            num_mcts_searches,
            c,
            max_expand_depth,
            (best.0, best.1@),
        ),
        num_searches == 0 ==> is_defeat((best.0, best.1@)),
{
    let mut best: ((S, S), Vec<usize>) = ((S::zero(), S::neg_infinity()), Vec::new());
    let ghost mut attempts: Seq<((S, S), Seq<usize>)> = Seq::empty();
    let ghost mut kept: Seq<((S, S), Seq<usize>)> = seq![(best.0, best.1@)];
    let mut k: usize = 0;
    while k < num_searches
        invariant
            k <= num_searches,
            env.valid(),
            num_mcts_searches < u32::MAX,
            attempts.len() == k,
            is_best_of(attempts, kept),
            forall|j: int|
                0 <= j < attempts.len() ==> is_attempt(
                    *env,
                    *policy,
                    deterministic,
                    num_mcts_searches,
                    c,
                    max_expand_depth,
                    #[trigger] attempts[j],
                ),
            kept.last() == (best.0, best.1@),
        decreases num_searches - k,
    {
        let mut cloned_env = env.snapshot();
        let ghost start = cloned_env;
        let next_val = single_solve(
            &mut cloned_env,
            policy,
            deterministic,
            num_mcts_searches,
            c,
            max_expand_depth,
        );
        let ghost attempt = (next_val.0, next_val.1@);
        let ghost before = (best.0, best.1@);
        let wins = better(next_val.0, best.0);
        if wins {
            best = next_val;
        }
        proof {
            let old_attempts = attempts;
            let old_kept = kept;
            let (states, rewards) = choose|states: Seq<E>, rewards: Seq<S>|
                {
                    &&& #[trigger] is_rollout(
                        states,
                        *policy,
                        deterministic,
                        num_mcts_searches,
                        c,
                        max_expand_depth,
                        next_val.1@,
                        rewards,
                    )
                    &&& states[0] == start
                    &&& states.last() == cloned_env
                    &&& is_sum(rewards, next_val.0.1)
                    &&& is_success_flag(rewards.last(), next_val.0.0)
                };
            assert(is_rollout(
                states,
                *policy,
                deterministic,
                num_mcts_searches,
                c,
                max_expand_depth,
                attempt.1,
                rewards,
            ));
            assert(is_attempt(*env, *policy, deterministic, num_mcts_searches, c, max_expand_depth, attempt));
            attempts = attempts.push(attempt);
            kept = kept.push((best.0, best.1@));
            assert forall|j: int| 0 <= j < attempts.len() implies {
                ||| is_better((#[trigger] attempts[j]).0, kept[j].0, true) && kept[j + 1] == attempts[j]
                ||| is_better(attempts[j].0, kept[j].0, false) && kept[j + 1] == kept[j]
            } by {
                if j < k {
                    assert(old_attempts[j] == attempts[j]);
                    assert(old_kept[j] == kept[j]);
                    assert(old_kept[j + 1] == kept[j + 1]);
                } else {
                    assert(kept[j] == before);
                }
            }
            assert forall|j: int| 0 <= j < attempts.len() implies is_attempt(
                *env,
                *policy,
                deterministic,
                num_mcts_searches,
                c,
                max_expand_depth,
                #[trigger] attempts[j],
            ) by {
                if j < k {
                    assert(old_attempts[j] == attempts[j]);
                } else {
                    assert(attempts[j] == attempt);
                }
            }
        }
        k += 1;
    }
    proof {
        assert(is_best_of(attempts, kept));
    }
    best
}

} // verus!
