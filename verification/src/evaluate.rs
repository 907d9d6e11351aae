//! The success rate and the mean reward of a policy over many episodes.

use vstd::prelude::*;
use crate::env::Env;
use crate::policy::Policy;
use crate::scalar::{Scalar, is_count, is_over, is_plus, is_running_sum, is_sum, is_zero};
use crate::solve::{is_flag, is_solution, lemma_solution_has_flag, solve};

verus! {

/// `means` holds `successes` and `rewards`, each divided by the number of
/// episodes.
pub open spec fn is_mean_outcome<S: Scalar>(
    successes: S,
    rewards: S,
    num_episodes: usize,
    means: (S, S),
) -> bool {
    exists|n_first: S, n_second: S|
        {
            &&& #[trigger] is_count(num_episodes, n_first)
            &&& #[trigger] is_count(num_episodes, n_second)
            &&& is_over(successes, n_first, means.0)
            &&& is_over(rewards, n_second, means.1)
        }
}

/// Divides the summed success flags and the summed total rewards of
/// `num_episodes` episodes by the number of episodes.
pub fn mean_outcome<S: Scalar>(successes: S, rewards: S, num_episodes: usize) -> (means: (S, S))
    requires
        num_episodes >= 1,
    ensures
        is_mean_outcome(successes, rewards, num_episodes, means),
{
    let n_first = S::from_usize(num_episodes);
    let first = successes.over(n_first);
    let n_second = S::from_usize(num_episodes);
    let second = rewards.over(n_second);
    proof {
        assert(is_count(num_episodes, n_first) && is_count(num_episodes, n_second));
    }
    (first, second)
}

/// `outcome` is the success flag and the total reward that solving the state
/// `state` may end with.
pub open spec fn is_episode_outcome<E: Env<S>, P: Policy<S>, S: Scalar>(
    state: E,
    policy: P,
    deterministic: bool,
    num_searches: usize,
    num_mcts_searches: usize,
    c: S,
    max_expand_depth: usize,
    outcome: (S, S),
) -> bool {
    exists|path: Seq<usize>| #[trigger]
        is_solution(state, policy, deterministic, num_searches, num_mcts_searches, c, max_expand_depth, (outcome, path))
}

/// Runs one evaluation episode: resets `env` to a random initial state and
/// solves it. Returns the success flag and the total reward of the best
/// attempt.
pub fn evaluate_episode<E: Env<S>, P: Policy<S>, S: Scalar>(
    env: &mut E,
    policy: &P,
    deterministic: bool,
    num_searches: usize,
    num_mcts_searches: usize,
    c: S,
    max_expand_depth: usize,
) -> (outcome: (S, S))
    requires
        old(env).valid(),
        num_mcts_searches < u32::MAX,
    ensures
        final(env).valid(),
        old(env).resets_to(final(env)),
        is_episode_outcome(
            *final(env),
            *policy,
            deterministic,
            num_searches,
            num_mcts_searches,
            c,
            max_expand_depth,
            outcome,
        ),
        is_flag(outcome.0),
{
    env.reset();
    let (outcome, path) = solve(
        &*env,
        policy,
        deterministic,
        num_searches,
        num_mcts_searches,
        c,
        max_expand_depth,
    );
    proof {
        lemma_solution_has_flag(
            *env,
            *policy,
            deterministic,
            num_searches,
            num_mcts_searches,
            c,
            max_expand_depth,
            (outcome, path@),
        );
    }
    outcome
}

/// The episodes of an evaluation: `starts[0]` is a copy of `env`, every
/// episode resets the state that the episode before it reset, and
/// `flags[k]` and `totals[k]` are the success flag, which is zero or one,
/// and the total reward that solving the state of episode `k` ended with.
pub open spec fn is_evaluation<E: Env<S>, P: Policy<S>, S: Scalar>(
    env: E,
    policy: P,
    deterministic: bool,
    num_searches: usize,
    num_mcts_searches: usize,
    c: S,
    max_expand_depth: usize,
    starts: Seq<E>,
    flags: Seq<S>,
    totals: Seq<S>,
) -> bool {
    &&& starts.len() == flags.len() + 1
    &&& totals.len() == flags.len()
    &&& env.same_state(&starts[0])
    &&& forall|k: int|
        0 <= k < flags.len() ==> {
            &&& (#[trigger] starts[k]).resets_to(&starts[k + 1])
            &&& is_episode_outcome(
                starts[k + 1],
                policy,
                deterministic,
                num_searches,
                num_mcts_searches,
                c,
                max_expand_depth,
                (flags[k], totals[k]),
            )
            &&& is_flag(flags[k])
        }
}

/// `count` reads numbers as whole numbers in the way that counting needs:
/// the number zero as 0, the number nearest to a count as that count, and a
/// sum as the sum of what its terms are read as. Floating-point numbers can
/// be read so as long as the counts stay within their exact range.
pub open spec fn counts_exactly<S: Scalar>(count: spec_fn(S) -> int) -> bool {
    &&& forall|r: S| #[trigger] is_zero(r) ==> count(r) == 0
    &&& forall|n: usize, r: S| #[trigger] is_count(n, r) ==> count(r) == n
    &&& forall|a: S, b: S, r: S| #[trigger] is_plus(a, b, r) ==> count(r) == count(a) + count(b)
}

/// Flags that are zero or one add up, flag by flag, to a whole number
/// between none and the number of flags added.
pub proof fn lemma_flags_are_counted<S: Scalar>(
    count: spec_fn(S) -> int,
    flags: Seq<S>,
    partial: Seq<S>,
    upto: int,
)
    requires
        counts_exactly(count),
        is_running_sum(flags, partial),
        forall|k: int| 0 <= k < flags.len() ==> is_flag(#[trigger] flags[k]),
        0 <= upto <= flags.len(),
    ensures
        0 <= count(partial[upto]) <= upto,
    decreases upto,
{
    if upto > 0 {
        lemma_flags_are_counted(count, flags, partial, upto - 1);
        let k = upto - 1;
        assert(is_flag(flags[k]));
        assert(is_plus(partial[k], flags[k], partial[k + 1]));
    }
}

/// The summed success flags of an evaluation count its successful episodes:
/// read as a whole number, the sum lies between none and the number of
/// episodes, so that the success rate, which is this sum over the number of
/// episodes, lies between zero and one. This holds of every number type
/// that counts exactly.
pub proof fn lemma_successes_are_counted<S: Scalar>(
    count: spec_fn(S) -> int,
    flags: Seq<S>,
    successes: S,
)
    requires
        counts_exactly(count),
        is_sum(flags, successes),
        forall|k: int| 0 <= k < flags.len() ==> is_flag(#[trigger] flags[k]),
    ensures
        0 <= count(successes) <= flags.len(),
{
    let partial = choose|partial: Seq<S>| #[trigger]
        is_running_sum(flags, partial) && successes == partial.last();
    lemma_flags_are_counted(count, flags, partial, flags.len() as int);
}

/// Evaluates `policy` on `num_episodes` fresh episodes of `env`, one after
/// the other in the calling thread, and returns the share of episodes that
/// were solved and the mean total reward.
///
/// `_seed` is not used. `_num_cores` is the size of the worker pool that the
/// caller would like; the episodes do not depend on each other, so a pooled
/// driver runs `evaluate_episode` once per episode on a copy of `env`, adds
/// up the outcomes and ends with `mean_outcome`.
///
/// At least one episode is needed for a mean.
pub fn evaluate<E: Env<S>, P: Policy<S>, S: Scalar>(
    env: &E,
    policy: &P,
    num_episodes: usize,
    deterministic: bool,
    num_searches: usize,
    num_mcts_searches: usize,
    _seed: usize,
    c: S,
    max_expand_depth: usize,
    _num_cores: usize,
) -> (means: (S, S))
    requires
        env.valid(),
        num_episodes >= 1,
        num_mcts_searches < u32::MAX,
    ensures
        exists|starts: Seq<E>, flags: Seq<S>, totals: Seq<S>, successes: S, rewards: S|
            {
                &&& #[trigger] is_evaluation(
                    *env,
                    *policy,
                    deterministic,
                    num_searches,
                    num_mcts_searches,
                    c,
                    max_expand_depth,
                    starts,
                    flags,
                    totals,
                )
                &&& flags.len() == num_episodes
                &&& #[trigger] is_sum(flags, successes)
                &&& #[trigger] is_sum(totals, rewards)
                &&& is_mean_outcome(successes, rewards, num_episodes, means)
            },
{
    let ghost origin = *env;
    let mut env = env.snapshot();
    let ghost mut starts: Seq<E> = seq![env];
    let mut successes = S::zero();
    let mut rewards = S::zero();
    let ghost mut flags: Seq<S> = Seq::empty();
    let ghost mut totals: Seq<S> = Seq::empty();
    let ghost mut partial_flags: Seq<S> = seq![successes];
    let ghost mut partial_totals: Seq<S> = seq![rewards];
    let mut k: usize = 0;
    while k < num_episodes
        invariant
            k <= num_episodes,
            env.valid(),
            num_mcts_searches < u32::MAX,
            flags.len() == k,
            starts.last() == env,
            is_evaluation(
                origin,
                *policy,
                deterministic,
                num_searches,
                num_mcts_searches,
                c,
                max_expand_depth,
                starts,
                flags,
                totals,
            ),
            is_running_sum(flags, partial_flags),
            is_running_sum(totals, partial_totals),
            partial_flags.last() == successes,
            partial_totals.last() == rewards,
        decreases num_episodes - k,
    {
        let (success, reward) = evaluate_episode(
            &mut env,
            policy,
            deterministic,
            num_searches,
            num_mcts_searches,
            c,
            max_expand_depth,
        );
        successes = successes.plus(success);
        rewards = rewards.plus(reward);
        proof {
            let old_starts = starts;
            let old_flags = flags;
            let old_totals = totals;
            starts = starts.push(env);
            flags = flags.push(success);
            totals = totals.push(reward);
            assert forall|j: int| 0 <= j < flags.len() implies {
                &&& (#[trigger] starts[j]).resets_to(&starts[j + 1])
                &&& is_episode_outcome(
                    starts[j + 1],
                    *policy,
                    deterministic,
                    num_searches,
                    num_mcts_searches,
                    c,
                    max_expand_depth,
                    (flags[j], totals[j]),
                )
                &&& is_flag(flags[j])
            } by {
                if j < k {
                    assert(starts[j] == old_starts[j]);
                    assert(starts[j + 1] == old_starts[j + 1]);
                    assert(flags[j] == old_flags[j]);
                    assert(totals[j] == old_totals[j]);
                } else {
                    assert(starts[j] == old_starts.last());
                }
            }
            partial_flags = partial_flags.push(successes);
            partial_totals = partial_totals.push(rewards);
        }
        k += 1;
    }
    let means = mean_outcome(successes, rewards, num_episodes);
    proof {
        assert(is_sum(flags, successes));
        assert(is_sum(totals, rewards));
    }
    means
}

} // verus!
