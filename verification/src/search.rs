//! Monte-Carlo tree search over snapshots of an environment.

use vstd::prelude::*;
use crate::env::Env;
use crate::policy::{Policy, is_sample, sample, sample_of};
use crate::scalar::{
    Scalar, is_at_most, is_count, is_exceeds, is_neg_infinity, is_one, is_over, is_plus, is_sqrt,
    is_sum, is_times, is_weighted_index, is_zero, sum,
};
use crate::tree::Tree;

verus! {

/// What the search keeps for one explored state.
pub struct MCTSNode<E, S> {
    /// The state itself, independent of every other node's state.
    pub state: E,
    /// The action that led from the parent's state to this one; `None` at the
    /// root.
    pub action_taken: Option<usize>,
    /// The probability that the policy gave to that action.
    pub prior: S,
    /// How often a simulation went through this node.
    pub visit_count: u32,
    /// The sum of the values of those simulations.
    pub value_sum: S,
}

/// The search tree: an arena of explored states.
pub type MCTSTree<E, S> = Tree<MCTSNode<E, S>>;

/// `q` is the mean value of a node with the given statistics: zero for a node
/// that was never visited, else the value sum over the visit count.
pub open spec fn is_mean_value<S: Scalar>(visits: u32, value_sum: S, q: S) -> bool {
    if visits == 0 {
        is_zero(q)
    } else {
        exists|n: S| #[trigger] is_count(visits as usize, n) && is_over(value_sum, n, q)
    }
}

/// `bonus` is the exploration bonus `c * (sqrt(parent_visits) / (visits + 1)) * prior`.
pub open spec fn is_exploration_bonus<S: Scalar>(
    parent_visits: u32,
    visits: u32,
    prior: S,
    c: S,
    bonus: S,
) -> bool {
    exists|n_parent: S, root: S, n: S, unit: S, denom: S, ratio: S, scaled: S|
        #![trigger is_sqrt(n_parent, root), is_plus(n, unit, denom), is_over(root, denom, ratio), is_times(c, ratio, scaled)]
        {
            &&& is_count(parent_visits as usize, n_parent)
            &&& is_sqrt(n_parent, root)
            &&& is_count(visits as usize, n)
            &&& is_one(unit)
            &&& is_plus(n, unit, denom)
            &&& is_over(root, denom, ratio)
            &&& is_times(c, ratio, scaled)
            &&& is_times(scaled, prior, bonus)
        }
}

/// `score` is the upper confidence bound of a child with the given
/// statistics under a parent with `parent_visits` visits: the child's mean
/// value plus its exploration bonus.
pub open spec fn is_ucb<S: Scalar>(
    parent_visits: u32,
    visits: u32,
    value_sum: S,
    prior: S,
    c: S,
    score: S,
) -> bool {
    exists|q: S, bonus: S|
        #![trigger is_mean_value(visits, value_sum, q), is_exploration_bonus(parent_visits, visits, prior, c, bonus)]
        {
            &&& is_mean_value(visits, value_sum, q)
            &&& is_exploration_bonus(parent_visits, visits, prior, c, bonus)
            &&& is_plus(q, bonus, score)
        }
}

impl<E, S: Scalar> MCTSNode<E, S> {
    /// The upper confidence bound of `child` seen from `self`, its parent.
    pub fn ucb(&self, child: &MCTSNode<E, S>, c: S) -> (score: S)
        ensures
            is_ucb(self.visit_count, child.visit_count, child.value_sum, child.prior, c, score),
    {
        let q = if child.visit_count == 0 {
            S::zero()
        } else {
            let n = S::from_usize(child.visit_count as usize);
            let q = child.value_sum.over(n);
            proof {
                assert(is_count(child.visit_count as usize, n) && is_over(child.value_sum, n, q));
            }
            q
        };
        let n_parent = S::from_usize(self.visit_count as usize);
        let root = n_parent.sqrt();
        let n = S::from_usize(child.visit_count as usize);
        let unit = S::one();
        let denom = n.plus(unit);
        let ratio = root.over(denom);
        let scaled = c.times(ratio);
        let bonus = scaled.times(child.prior);
        let score = q.plus(bonus);
        proof {
            assert(is_sqrt(n_parent, root) && is_plus(n, unit, denom) && is_over(root, denom, ratio)
                && is_times(c, ratio, scaled));
            assert(is_mean_value(child.visit_count, child.value_sum, q));
            assert(is_exploration_bonus(
                self.visit_count,
                child.visit_count,
                child.prior,
                c,
                bonus,
            ));
        }
        score
    }
}

/// `prior` was found not to be at most zero.
pub open spec fn is_positive<S: Scalar>(prior: S) -> bool {
    exists|zero: S| #[trigger] is_zero(zero) && is_at_most(prior, zero, false)
}

/// `prior` was found to be at most zero.
pub open spec fn is_not_positive<S: Scalar>(prior: S) -> bool {
    exists|zero: S| #[trigger] is_zero(zero) && is_at_most(prior, zero, true)
}

/// `child` is what a copy of `parent` may become through `action`.
pub open spec fn is_successor<E: Env<S>, S: Scalar>(parent: E, action: usize, child: E) -> bool {
    exists|copy: E| #[trigger] parent.same_state(&copy) && copy.steps_to(action, &child)
}

/// One step of a scan for the greatest score: the child replaces the kept
/// one, and its score the kept score, exactly where its score `exceeds` the
/// kept score.
pub open spec fn select_step<S: Scalar>(
    score: S,
    child: usize,
    kept: Option<usize>,
    kept_score: S,
    next: Option<usize>,
    next_score: S,
) -> bool {
    ||| is_exceeds(score, kept_score, true) && next == Some(child) && next_score == score
    ||| is_exceeds(score, kept_score, false) && next == kept && next_score == kept_score
}

/// Every number of `probs` is the one number `1 / len`.
pub open spec fn is_uniform<S: Scalar>(probs: Seq<S>) -> bool {
    exists|unit: S, n: S, share: S|
        {
            &&& is_one(unit)
            &&& is_count(probs.len() as usize, n)
            &&& #[trigger] is_over(unit, n, share)
            &&& forall|i: int| 0 <= i < probs.len() ==> #[trigger] probs[i] == share
        }
}

/// `probs` is `weights` brought to a distribution: every weight over the sum
/// of the weights where that sum exceeds zero, else the same share for every
/// position.
pub open spec fn is_normalized<S: Scalar>(weights: Seq<S>, probs: Seq<S>) -> bool {
    &&& probs.len() == weights.len()
    &&& exists|total: S, zero: S|
        {
            &&& #[trigger] is_sum(weights, total)
            &&& #[trigger] is_zero(zero)
            &&& {
                ||| is_exceeds(total, zero, true) && forall|i: int|
                    0 <= i < weights.len() ==> is_over(weights[i], total, #[trigger] probs[i])
                ||| is_exceeds(total, zero, false) && is_uniform(probs)
            }
        }
}

/// Brings `weights` to a distribution: divides every weight by their sum, or
/// returns the uniform distribution where the sum does not exceed zero.
pub fn normalized<S: Scalar>(weights: Vec<S>) -> (probs: Vec<S>)
    ensures
        is_normalized(weights@, probs@),
{
    let total = sum(&weights);
    let zero = S::zero();
    let n = weights.len();
    let mut probs: Vec<S> = Vec::new();
    let positive = total.exceeds(zero);
    if positive {
        let mut i: usize = 0;
        while i < n
            invariant
                n == weights.len(),
                i <= n,
                probs.len() == i,
                forall|j: int| 0 <= j < i ==> is_over(weights[j], total, #[trigger] probs[j]),
            decreases n - i,
        {
            probs.push(weights[i].over(total));
            i += 1;
        }
        proof {
            assert(is_sum(weights@, total) && is_zero(zero));
        }
    } else {
        let unit = S::one();
        let count = S::from_usize(n);
        let share = unit.over(count);
        let mut i: usize = 0;
        while i < n
            invariant
                i <= n,
                probs.len() == i,
                forall|j: int| 0 <= j < i ==> #[trigger] probs[j] == share,
            decreases n - i,
        {
            probs.push(share);
            i += 1;
        }
        proof {
            assert(is_over(unit, count, share));
            assert(is_uniform(probs@));
            assert(is_sum(weights@, total) && is_zero(zero));
        }
    }
    probs
}

/// Node `i` lies on the path that leads from node `from` up to its root
/// (both ends included).
pub open spec fn on_path(parents: Seq<Option<usize>>, from: int, i: int) -> bool
    decreases from,
{
    i == from || match parents[from] {
        Some(p) => 0 <= from < parents.len() && p < from && on_path(parents, p as int, i),
        None => false,
    }
}

/// A node on the path from `from` to the root was created no later than
/// `from`.
pub proof fn lemma_path_goes_up(parents: Seq<Option<usize>>, from: int, i: int)
    requires
        on_path(parents, from, i),
    ensures
        i <= from,
    decreases from,
{
    if i != from {
        lemma_path_goes_up(parents, parents[from]->Some_0 as int, i);
    }
}

impl<E: Env<S>, S: Scalar> Tree<MCTSNode<E, S>> {
    /// The arena is well formed and every state in it is usable.
    pub open spec fn search_wf(&self) -> bool {
        &&& self.wf()
        &&& forall|i: int| 0 <= i < self.nodes.len() ==> (#[trigger] self.nodes[i]).val.state.valid()
    }

    /// The tree has one root, node 0, which no action led to; every other
    /// node has a parent and the action that led to it.
    pub open spec fn is_rooted(&self) -> bool {
        &&& self.nodes.len() > 0
        &&& self.nodes[0].parent is None
        &&& self.nodes[0].val.action_taken is None
        &&& forall|i: int|
            0 < i < self.nodes.len() ==> (#[trigger] self.nodes[i]).parent is Some
                && self.nodes[i].val.action_taken is Some
    }

    /// No visit count exceeds `bound`.
    pub open spec fn visits_at_most(&self, bound: int) -> bool {
        forall|i: int| 0 <= i < self.nodes.len() ==> (#[trigger] self.nodes[i]).val.visit_count <= bound
    }

    /// `self` differs from `before` in visit counts and value sums only.
    pub open spec fn same_shape(&self, before: &Self) -> bool {
        &&& self.nodes.len() == before.nodes.len()
        &&& forall|i: int|
            0 <= i < self.nodes.len() ==> {
                &&& (#[trigger] self.nodes[i]).idx == before.nodes[i].idx
                &&& self.nodes[i].parent == before.nodes[i].parent
                &&& self.nodes[i].children == before.nodes[i].children
                &&& self.nodes[i].val.state == before.nodes[i].val.state
                &&& self.nodes[i].val.action_taken == before.nodes[i].val.action_taken
                &&& self.nodes[i].val.prior == before.nodes[i].val.prior
            }
    }

    /// Node `j` is a fresh child of node `parent` for one of the actions that
    /// `priors` scores: it is linked under `parent`, holds the state that the
    /// action leads to from the parent's state, carries the action's prior,
    /// which was not found to be at most zero, and has no statistics yet.
    pub open spec fn is_fresh_child(&self, j: int, parent: int, priors: Seq<S>) -> bool {
        let node = self.nodes[j];
        &&& node.parent == Some(parent as usize)
        &&& node.children@.len() == 0
        &&& node.val.visit_count == 0
        &&& is_zero(node.val.value_sum)
        &&& node.val.action_taken matches Some(a) && {
            &&& a < priors.len()
            &&& node.val.prior == priors[a as int]
            &&& is_positive(priors[a as int])
            &&& is_successor(self.nodes[parent].val.state, a, node.val.state)
        }
    }

    /// One of the nodes from position `from` on was reached by `action`.
    pub open spec fn has_child_for(&self, from: int, action: int) -> bool {
        exists|j: int|
            from <= j < self.nodes.len() && (#[trigger] self.nodes[j]).val.action_taken == Some(
                action as usize,
            )
    }

    /// `self` is `before` after node `node` was expanded by `priors`: the
    /// node got one fresh child for every action whose prior was not found
    /// to be at most zero, in the order of the actions and at the end of the
    /// arena; every action without such a child has a prior that was found
    /// to be at most zero; and every node of `before` is as it was, but for
    /// the child list of `node`.
    pub open spec fn is_expansion_of(&self, before: &Self, node: int, priors: Seq<S>) -> bool {
        &&& self.nodes.len() >= before.nodes.len()
        &&& self.nodes.len() - before.nodes.len() <= priors.len()
        &&& forall|i: int|
            0 <= i < before.nodes.len() && i != node ==> self.nodes[i] == before.nodes[i]
        &&& self.nodes[node].val == before.nodes[node].val
        &&& self.nodes[node].parent == before.nodes[node].parent
        &&& self.nodes[node].children@ == before.nodes[node].children@ + Seq::new(
            (self.nodes.len() - before.nodes.len()) as nat,
            |k: int| (before.nodes.len() + k) as usize,
        )
        &&& forall|j: int|
            before.nodes.len() <= j < self.nodes.len() ==> #[trigger] self.is_fresh_child(
                j,
                node,
                priors,
            )
        &&& forall|j: int, k: int|
            before.nodes.len() <= j < k < self.nodes.len() ==> self.nodes[j].val.action_taken->Some_0
                < self.nodes[k].val.action_taken->Some_0
        &&& forall|a: int|
            0 <= a < priors.len() ==> #[trigger] self.has_child_for(before.nodes.len() as int, a)
                || is_not_positive(priors[a])
    }

    /// Gives node `node_idx` one child for every action whose prior is not at
    /// most zero, in the order of the actions. The child holds a copy of the
    /// node's state advanced by the action. Every node that was there before
    /// stays as it was, but for the child list of `node_idx`.
    pub fn expand(&mut self, node_idx: usize, action_priors: Vec<S>)
        requires
            old(self).search_wf(),
            node_idx < old(self).nodes.len(),
        ensures
            final(self).search_wf(),
            final(self).is_expansion_of(old(self), node_idx as int, action_priors@),
    {
        let zero = S::zero();
        let ghost first = self.nodes.len() as int;
        let mut action: usize = 0;
        while action < action_priors.len()
            invariant
                action <= action_priors.len(),
                is_zero(zero),
                node_idx < first,
                first == old(self).nodes.len(),
                self.search_wf(),
                first <= self.nodes.len() <= first + action,
                forall|i: int| 0 <= i < first && i != node_idx ==> self.nodes[i] == old(self).nodes[i],
                self.nodes[node_idx as int].val == old(self).nodes[node_idx as int].val,
                self.nodes[node_idx as int].parent == old(self).nodes[node_idx as int].parent,
                self.nodes[node_idx as int].children@ == old(self).nodes[node_idx as int].children@
                    + Seq::new(
                    (self.nodes.len() - first) as nat,
                    |k: int| (first + k) as usize,
                ),
                forall|j: int|
                    first <= j < self.nodes.len() ==> #[trigger] self.is_fresh_child(
                        j,
                        node_idx as int,
                        action_priors@,
                    ),
                forall|j: int|
                    first <= j < self.nodes.len() ==> (#[trigger] self.nodes[j]).val.action_taken->Some_0
                        < action,
                forall|j: int, k: int|
                    first <= j < k < self.nodes.len() ==> self.nodes[j].val.action_taken->Some_0
                        < self.nodes[k].val.action_taken->Some_0,
                forall|a: int|
                    0 <= a < action ==> #[trigger] self.has_child_for(first, a) || is_not_positive(
                        action_priors[a],
                    ),
            decreases action_priors.len() - action,
        {
            let prob = action_priors[action];
            let low = prob.at_most(zero);
            if !low {
                let ghost before = *self;
                let mut next_state = self.nodes[node_idx].val.state.snapshot();
                let ghost copy = next_state;
                next_state.step(action);
                let child = self.add_child_to_node(
                    MCTSNode {
                        state: next_state,
                        action_taken: Some(action),
                        prior: prob,
                        visit_count: 0,
                        value_sum: zero,
                    },
                    node_idx,
                );
                proof {
                    assert(is_at_most(prob, zero, false));
                    assert(is_positive(prob));
                    assert(before.nodes[node_idx as int].val.state.same_state(&copy));
                    assert(is_successor(before.nodes[node_idx as int].val.state, action, next_state));
                    assert(self.nodes[child as int].val.action_taken == Some(action));
                    assert(self.has_child_for(first, action as int));
                    assert forall|j: int| first <= j < self.nodes.len() implies #[trigger] self.is_fresh_child(
                        j,
                        node_idx as int,
                        action_priors@,
                    ) by {
                        if j < child {
                            assert(before.is_fresh_child(j, node_idx as int, action_priors@));
                        }
                    }
                    assert forall|a: int| 0 <= a < action + 1 implies #[trigger] self.has_child_for(
                        first,
                        a,
                    ) || is_not_positive(action_priors[a]) by {
                        if a < action && before.has_child_for(first, a) {
                            let j = choose|j: int|
                                first <= j < before.nodes.len() && (#[trigger] before.nodes[j]).val.action_taken
                                    == Some(a as usize);
                            assert(self.nodes[j].val.action_taken == Some(a as usize));
                        }
                    }
                    assert(self.nodes[node_idx as int].children@ =~= old(self).nodes[node_idx as int].children@
                        + Seq::new(
                        (self.nodes.len() - first) as nat,
                        |k: int| (first + k) as usize,
                    ));
                    assert forall|i: int| 0 <= i < self.nodes.len() implies (#[trigger] self.nodes[i]).val.state.valid() by {
                        if i < child && i != node_idx {
                            assert(before.nodes[i].val.state.valid());
                        }
                    }
                }
            } else {
                proof {
                    assert(is_at_most(prob, zero, true));
                    assert(is_not_positive(prob));
                }
            }
            action += 1;
        }
        proof {
            assert(self.nodes[node_idx as int].children@ =~= old(self).nodes[node_idx as int].children@
                + Seq::new(
                (self.nodes.len() - old(self).nodes.len()) as nat,
                |k: int| (old(self).nodes.len() + k) as usize,
            ));
        }
    }

    /// The priors of the children of node `i`, in the order of the children.
    pub open spec fn child_priors(&self, i: int) -> Seq<S> {
        Seq::new(
            self.nodes[i].children@.len(),
            |k: int| self.nodes[self.nodes[i].children[k] as int].val.prior,
        )
    }

    /// `score` is the upper confidence bound of node `child` under node
    /// `parent`.
    pub open spec fn is_node_ucb(&self, parent: int, child: int, c: S, score: S) -> bool {
        is_ucb(
            self.nodes[parent].val.visit_count,
            self.nodes[child].val.visit_count,
            self.nodes[child].val.value_sum,
            self.nodes[child].val.prior,
            c,
            score,
        )
    }

    /// A scan of the children of node `i` for the greatest upper confidence
    /// bound: `scores[k]` is the bound of child `k`, `kept[k]` the child kept
    /// and `best[k]` its bound before child `k` is looked at. The scan starts
    /// with no child kept and a bound below every number.
    pub open spec fn is_selection(
        &self,
        i: int,
        c: S,
        scores: Seq<S>,
        kept: Seq<Option<usize>>,
        best: Seq<S>,
    ) -> bool {
        let children = self.nodes[i].children@;
        &&& scores.len() == children.len()
        &&& kept.len() == children.len() + 1
        &&& best.len() == children.len() + 1
        &&& kept[0] == None::<usize>
        &&& is_neg_infinity(best[0])
        &&& forall|k: int|
            0 <= k < children.len() ==> {
                &&& self.is_node_ucb(i, children[k] as int, c, #[trigger] scores[k])
                &&& select_step(scores[k], children[k], kept[k], best[k], kept[k + 1], best[k + 1])
            }
    }

    /// `choice` is what a scan of the children of node `i` for the greatest
    /// upper confidence bound may end with.
    pub open spec fn is_next(&self, i: int, c: S, choice: Option<usize>) -> bool {
        exists|scores: Seq<S>, kept: Seq<Option<usize>>, best: Seq<S>| #[trigger]
            self.is_selection(i, c, scores, kept, best) && choice == kept.last()
    }

    /// The child of node `node_idx` with the greatest upper confidence bound,
    /// the first of them where several share it. The node must have a child.
    /// `None` where no child's bound is found to exceed the starting bound,
    /// negative infinity.
    pub fn next(&self, node_idx: usize, c: S) -> (choice: Option<usize>)
        requires
            self.wf(),
            node_idx < self.nodes.len(),
            self.nodes[node_idx as int].children.len() > 0,
        ensures
            self.is_next(node_idx as int, c, choice),
            choice matches Some(child) ==> self.nodes[node_idx as int].children@.contains(child),
    {
        let mut best_child: Option<usize> = None;
        let mut best_ucb = S::neg_infinity();
        let ghost mut scores: Seq<S> = Seq::empty();
        let ghost mut kept: Seq<Option<usize>> = seq![None];
        let ghost mut best: Seq<S> = seq![best_ucb];
        let mut k: usize = 0;
        proof {
            assert(self.node_linked(node_idx as int));
        }
        while k < self.nodes[node_idx].children.len()
            invariant
                self.wf(),
                node_idx < self.nodes.len(),
                self.node_linked(node_idx as int),
                k <= self.nodes[node_idx as int].children.len(),
                scores.len() == k,
                kept.len() == k + 1,
                best.len() == k + 1,
                kept[0] == None::<usize>,
                is_neg_infinity(best[0]),
                kept[k as int] == best_child,
                best[k as int] == best_ucb,
                best_child matches Some(child) ==> self.nodes[node_idx as int].children@.contains(
                    child,
                ),
                forall|j: int|
                    0 <= j < k ==> {
                        &&& self.is_node_ucb(
                            node_idx as int,
                            self.nodes[node_idx as int].children[j] as int,
                            c,
                            #[trigger] scores[j],
                        )
                        &&& select_step(
                            scores[j],
                            self.nodes[node_idx as int].children[j],
                            kept[j],
                            best[j],
                            kept[j + 1],
                            best[j + 1],
                        )
                    },
            decreases self.nodes[node_idx as int].children.len() - k,
        {
            let child_idx = self.nodes[node_idx].children[k];
            let score = self.nodes[node_idx].val.ucb(&self.nodes[child_idx].val, c);
            let wins = score.exceeds(best_ucb);
            if wins {
                best_child = Some(child_idx);
                best_ucb = score;
            }
            proof {
                assert(self.nodes[node_idx as int].children@[k as int] == child_idx);
                scores = scores.push(score);
                kept = kept.push(best_child);
                best = best.push(best_ucb);
            }
            k += 1;
        }
        proof {
            assert(self.is_selection(node_idx as int, c, scores, kept, best));
        }
        best_child
    }

    /// `child` is a child of node `i` that a draw by the priors of the
    /// children may give.
    pub open spec fn is_child_sample(&self, i: int, child: int) -> bool {
        exists|weights: Vec<S>, drawn: Option<usize>|
            {
                &&& weights@ == self.child_priors(i)
                &&& #[trigger] is_weighted_index(weights, drawn)
                &&& child == self.nodes[i].children[sample_of(weights.len() as int, drawn) as int]
            }
    }

    /// A child of node `node_idx` drawn at random with probability
    /// proportional to its prior; the first child where the priors do not
    /// form a distribution.
    pub fn next_sample(&self, node_idx: usize) -> (child: usize)
        requires
            self.wf(),
            node_idx < self.nodes.len(),
            self.nodes[node_idx as int].children.len() > 0,
        ensures
            self.is_child_sample(node_idx as int, child as int),
            self.nodes[node_idx as int].children@.contains(child),
            node_idx < child < self.nodes.len(),
    {
        let mut probs: Vec<S> = Vec::new();
        let mut k: usize = 0;
        proof {
            assert(self.node_linked(node_idx as int));
        }
        while k < self.nodes[node_idx].children.len()
            invariant
                self.wf(),
                node_idx < self.nodes.len(),
                self.node_linked(node_idx as int),
                k <= self.nodes[node_idx as int].children.len(),
                probs.len() == k,
                forall|j: int|
                    0 <= j < k ==> #[trigger] probs[j] == self.nodes[self.nodes[node_idx as int].children[j] as int].val.prior,
            decreases self.nodes[node_idx as int].children.len() - k,
        {
            let child_idx = self.nodes[node_idx].children[k];
            probs.push(self.nodes[child_idx].val.prior);
            k += 1;
        }
        let child_num = sample(&probs);
        proof {
            assert(probs@ =~= self.child_priors(node_idx as int));
            assert(is_sample(probs, child_num));
            let drawn = choose|drawn: Option<usize>| #[trigger]
                is_weighted_index(probs, drawn) && child_num == sample_of(probs.len() as int, drawn);
            assert(is_weighted_index(probs, drawn));
        }
        self.nodes[node_idx].children[child_num]
    }

    /// Child `k` of node `i` was reached by `action`.
    pub open spec fn child_has_action(&self, i: int, k: int, action: int) -> bool {
        self.nodes[self.nodes[i].children[k] as int].val.action_taken == Some(action as usize)
    }

    /// `weight` is the weight that the first `upto` children of node `i` give
    /// to `action`: the visit count of the last of them that was reached by
    /// the action, or zero where none was.
    pub open spec fn is_visit_weight(&self, i: int, upto: int, action: int, weight: S) -> bool {
        ||| is_zero(weight) && forall|k: int| 0 <= k < upto ==> !#[trigger] self.child_has_action(i, k, action)
        ||| exists|k: int|
            {
                &&& 0 <= k < upto
                &&& #[trigger] self.child_has_action(i, k, action)
                &&& is_count(
                    self.nodes[self.nodes[i].children[k] as int].val.visit_count as usize,
                    weight,
                )
                &&& forall|later: int| k < later < upto ==> !#[trigger] self.child_has_action(i, later, action)
            }
    }

    /// `weights` holds, for each of `n_actions` actions, the weight that the
    /// children of the root give to it.
    pub open spec fn is_root_weights(&self, n_actions: usize, weights: Seq<S>) -> bool {
        &&& weights.len() == n_actions
        &&& forall|a: int|
            0 <= a < n_actions ==> self.is_visit_weight(
                0,
                self.nodes[0].children.len() as int,
                a,
                #[trigger] weights[a],
            )
    }

    /// For each of `n_actions` actions, the visit count of the child of node
    /// `node_idx` that was reached by it, or zero where there is none.
    pub fn visit_weights(&self, node_idx: usize, n_actions: usize) -> (weights: Vec<S>)
        requires
            self.wf(),
            node_idx < self.nodes.len(),
        ensures
            weights.len() == n_actions,
            forall|a: int|
                0 <= a < n_actions ==> self.is_visit_weight(
                    node_idx as int,
                    self.nodes[node_idx as int].children.len() as int,
                    a,
                    #[trigger] weights[a],
                ),
    {
        let zero = S::zero();
        let mut weights: Vec<S> = Vec::new();
        let mut a: usize = 0;
        while a < n_actions
            invariant
                a <= n_actions,
                weights.len() == a,
                is_zero(zero),
                forall|j: int| 0 <= j < a ==> is_zero(#[trigger] weights[j]),
            decreases n_actions - a,
        {
            weights.push(zero);
            a += 1;
        }
        let mut k: usize = 0;
        proof {
            assert(self.node_linked(node_idx as int));
        }
        while k < self.nodes[node_idx].children.len()
            invariant
                self.wf(),
                node_idx < self.nodes.len(),
                self.node_linked(node_idx as int),
                k <= self.nodes[node_idx as int].children.len(),
                weights.len() == n_actions,
                forall|a: int|
                    0 <= a < n_actions ==> self.is_visit_weight(
                        node_idx as int,
                        k as int,
                        a,
                        #[trigger] weights[a],
                    ),
            decreases self.nodes[node_idx as int].children.len() - k,
        {
            let child_idx = self.nodes[node_idx].children[k];
            let ghost before = weights@;
            proof {
                assert(self.nodes[node_idx as int].children@[k as int] == child_idx);
            }
            let mut hit: Option<usize> = None;
            if let Some(act) = self.nodes[child_idx].val.action_taken {
                if act < n_actions {
                    let count = S::from_usize(self.nodes[child_idx].val.visit_count as usize);
                    weights[act] = count;
                    hit = Some(act);
                }
            }
            proof {
                assert forall|a: int| 0 <= a < n_actions implies self.is_visit_weight(
                    node_idx as int,
                    k + 1,
                    a,
                    #[trigger] weights[a],
                ) by {
                    assert(self.is_visit_weight(node_idx as int, k as int, a, before[a]));
                    if hit == Some(a as usize) {
                        assert(self.child_has_action(node_idx as int, k as int, a));
                    } else {
                        assert(!self.child_has_action(node_idx as int, k as int, a));
                        assert(weights[a] == before[a]);
                        if is_zero(before[a]) && forall|j: int|
                            0 <= j < k ==> !#[trigger] self.child_has_action(node_idx as int, j, a) {
                        } else {
                            let w = choose|w: int|
                                {
                                    &&& 0 <= w < k
                                    &&& #[trigger] self.child_has_action(node_idx as int, w, a)
                                    &&& is_count(
                                        self.nodes[self.nodes[node_idx as int].children[w] as int].val.visit_count as usize,
                                        before[a],
                                    )
                                    &&& forall|later: int|
                                        w < later < k ==> !#[trigger] self.child_has_action(
                                            node_idx as int,
                                            later,
                                            a,
                                        )
                                };
                            assert(self.child_has_action(node_idx as int, w, a));
                        }
                    }
                }
            }
            k += 1;
        }
        weights
    }

    /// `self` is `before` after a simulation of value `value` that ended in
    /// node `node` was recorded: on that node and on each of its ancestors
    /// up to the root, the visit count grew by one and `value` was added to
    /// the value sum. Nothing else changed.
    pub open spec fn is_backprop_of(&self, before: &Self, node: int, value: S) -> bool {
        &&& self.same_shape(before)
        &&& forall|i: int|
            0 <= i < before.nodes.len() ==> if on_path(before.parents(), node, i) {
                &&& (#[trigger] self.nodes[i]).val.visit_count == before.nodes[i].val.visit_count + 1
                &&& is_plus(before.nodes[i].val.value_sum, value, self.nodes[i].val.value_sum)
            } else {
                &&& self.nodes[i].val.visit_count == before.nodes[i].val.visit_count
                &&& self.nodes[i].val.value_sum == before.nodes[i].val.value_sum
            }
    }

    /// Records one simulation of value `value` that ended in node
    /// `node_idx`: on that node and on each of its ancestors up to the root,
    /// the visit count grows by one and `value` is added to the value sum.
    /// Nothing else changes.
    pub fn backpropagate(&mut self, node_idx: usize, value: S)
        requires
            old(self).wf(),
            node_idx < old(self).nodes.len(),
            old(self).visits_at_most(u32::MAX - 1),
        ensures
            final(self).is_backprop_of(old(self), node_idx as int, value),
        decreases node_idx,
    {
        assert(old(self).node_linked(node_idx as int));
        let parent = self.nodes[node_idx].parent;
        if let Some(p) = parent {
            self.backpropagate(p, value);
            proof {
                assert forall|i: int| 0 <= i < old(self).nodes.len() && on_path(
                    old(self).parents(),
                    p as int,
                    i,
                ) implies i < node_idx by {
                    lemma_path_goes_up(old(self).parents(), p as int, i);
                }
            }
        }
        let sum = self.nodes[node_idx].val.value_sum.plus(value);
        self.nodes[node_idx].val.value_sum = sum;
        self.nodes[node_idx].val.visit_count += 1;
    }
}

/// In a tree with the one root 0, the path from any node to its root ends in
/// node 0.
pub proof fn lemma_root_on_every_path<E: Env<S>, S: Scalar>(tree: MCTSTree<E, S>, from: int)
    requires
        tree.wf(),
        tree.is_rooted(),
        0 <= from < tree.nodes.len(),
    ensures
        on_path(tree.parents(), from, 0),
    decreases from,
{
    if from > 0 {
        assert(tree.node_linked(from));
        let p = tree.nodes[from].parent->Some_0;
        lemma_root_on_every_path(tree, p as int);
    }
}

/// A tree that differs from a sound search tree in its statistics only is a
/// sound search tree.
pub proof fn lemma_same_shape_keeps_wf<E: Env<S>, S: Scalar>(
    after: MCTSTree<E, S>,
    before: MCTSTree<E, S>,
)
    requires
        before.search_wf(),
        after.same_shape(&before),
    ensures
        after.search_wf(),
        after.parents() == before.parents(),
        before.is_rooted() ==> after.is_rooted(),
{
    assert forall|i: int| 0 <= i < after.nodes.len() implies #[trigger] after.node_linked(i) by {
        assert(before.node_linked(i));
        let node = after.nodes[i];
        assert forall|k: int| 0 <= k < node.children.len() implies {
            &&& i < (#[trigger] node.children[k]) < after.nodes.len()
            &&& after.nodes[node.children[k] as int].parent == Some(i as usize)
        } by {
            let c = before.nodes[i].children[k];
            assert(i < c < before.nodes.len());
            assert(after.nodes[c as int].parent == before.nodes[c as int].parent);
        }
    }
    assert forall|i: int| 0 <= i < after.nodes.len() implies (#[trigger] after.nodes[i]).val.state.valid() by {
        assert(before.nodes[i].val.state.valid());
    }
    assert(after.parents() =~= before.parents());
}

/// The ancestor of node `from` that is a child of the root: `from` itself
/// where its parent is the root.
pub open spec fn top_ancestor(parents: Seq<Option<usize>>, from: int) -> int
    decreases from,
{
    match parents[from] {
        Some(p) => if p == 0 || p >= from || from >= parents.len() || from <= 0 {
            from
        } else {
            top_ancestor(parents, p as int)
        },
        None => from,
    }
}

/// How many of the simulations that ended in the nodes `ends` ended below
/// the root.
pub open spec fn below_root(ends: Seq<int>) -> int
    decreases ends.len(),
{
    if ends.len() == 0 {
        0
    } else {
        below_root(ends.drop_last()) + if ends.last() != 0 {
            1int
        } else {
            0int
        }
    }
}

/// No more simulations ended below the root than there were simulations.
pub proof fn lemma_below_root_is_bounded(ends: Seq<int>)
    ensures
        0 <= below_root(ends) <= ends.len(),
    decreases ends.len(),
{
    if ends.len() > 0 {
        lemma_below_root_is_bounded(ends.drop_last());
    }
}

impl<E: Env<S>, S: Scalar> Tree<MCTSNode<E, S>> {
    /// The visit counts of the first `upto` children of node `i`, added up.
    pub open spec fn child_visits(&self, i: int, upto: int) -> int
        decreases upto,
    {
        if upto <= 0 {
            0
        } else {
            self.child_visits(i, upto - 1) + self.nodes[self.nodes[i].children[upto - 1] as int].val.visit_count
        }
    }

    /// The visit counts of the children of the root, added up.
    pub open spec fn root_child_visits(&self) -> int {
        self.child_visits(0, self.nodes[0].children.len() as int)
    }

    /// Two trees in which node `i` has the same first `upto` children with
    /// the same visit counts have the same sum of these counts.
    pub proof fn lemma_same_child_visits(&self, other: &Self, i: int, upto: int)
        requires
            0 <= upto <= self.nodes[i].children.len(),
            upto <= other.nodes[i].children.len(),
            forall|k: int|
                0 <= k < upto ==> (#[trigger] self.nodes[i].children[k]) == other.nodes[i].children[k]
                    && self.nodes[self.nodes[i].children[k] as int].val.visit_count
                    == other.nodes[other.nodes[i].children[k] as int].val.visit_count,
        ensures
            self.child_visits(i, upto) == other.child_visits(i, upto),
        decreases upto,
    {
        if upto > 0 {
            self.lemma_same_child_visits(other, i, upto - 1);
            assert(self.nodes[i].children[upto - 1] == other.nodes[i].children[upto - 1]);
        }
    }

    /// Children that were never visited add up to no visit.
    pub proof fn lemma_no_child_visits(&self, i: int, upto: int)
        requires
            0 <= upto <= self.nodes[i].children.len(),
            forall|k: int|
                0 <= k < upto ==> self.nodes[(#[trigger] self.nodes[i].children[k]) as int].val.visit_count
                    == 0,
        ensures
            self.child_visits(i, upto) == 0,
        decreases upto,
    {
        if upto > 0 {
            self.lemma_no_child_visits(i, upto - 1);
            assert(self.nodes[self.nodes[i].children[upto - 1] as int].val.visit_count == 0);
        }
    }

    /// The path from a node below the root up to the root passes through
    /// exactly one child of the root: the top ancestor of the node.
    pub proof fn lemma_one_child_on_path(&self, from: int, child: int)
        requires
            self.wf(),
            self.is_rooted(),
            0 < from < self.nodes.len(),
            0 < child < self.nodes.len(),
            self.nodes[child].parent == Some(0usize),
        ensures
            on_path(self.parents(), from, child) <==> child == top_ancestor(self.parents(), from),
            0 < top_ancestor(self.parents(), from) <= from,
            self.nodes[top_ancestor(self.parents(), from)].parent == Some(0usize),
        decreases from,
    {
        assert(self.node_linked(from));
        let parents = self.parents();
        let p = self.nodes[from].parent->Some_0 as int;
        assert(parents[from] == self.nodes[from].parent);
        assert(parents[0] == self.nodes[0].parent);
        assert(parents[child] == self.nodes[child].parent);
        if p != 0 {
            self.lemma_one_child_on_path(p, child);
            assert(top_ancestor(parents, from) == top_ancestor(parents, p));
            assert(child != from);
            assert(on_path(parents, from, child) == on_path(parents, p, child));
        } else {
            assert(top_ancestor(parents, from) == from);
            assert(!on_path(parents, 0, child));
            assert(on_path(parents, from, child) == (child == from));
        }
    }

    /// Recording a simulation that ended below the root adds one visit to
    /// the children of the root taken together, and recording one that ended
    /// in the root adds none.
    pub proof fn lemma_backprop_counts_once(&self, before: &Self, end: int, value: S, upto: int)
        requires
            before.wf(),
            before.is_rooted(),
            0 <= end < before.nodes.len(),
            self.is_backprop_of(before, end, value),
            0 <= upto <= before.nodes[0].children.len(),
        ensures
            self.child_visits(0, upto) == before.child_visits(0, upto) + if end != 0 && exists|k: int|
                0 <= k < upto && #[trigger] before.nodes[0].children[k] == top_ancestor(
                    before.parents(),
                    end,
                ) {
                1int
            } else {
                0int
            },
        decreases upto,
    {
        assert(before.node_linked(0));
        assert(before.parents()[0] == before.nodes[0].parent);
        if upto > 0 {
            self.lemma_backprop_counts_once(before, end, value, upto - 1);
            let kids = before.nodes[0].children@;
            let kid = kids[upto - 1] as int;
            assert(0 < kid < before.nodes.len());
            assert(self.nodes[0].children == before.nodes[0].children);
            let top = top_ancestor(before.parents(), end);
            if end != 0 {
                before.lemma_one_child_on_path(end, kid);
                if kid == top {
                    assert forall|k: int| 0 <= k < upto - 1 implies #[trigger] kids[k] != top by {
                        assert(kids[k] < kids[upto - 1]);
                    }
                    assert(kids[upto - 1] == top);
                } else {
                    if exists|k: int| 0 <= k < upto && #[trigger] kids[k] == top {
                        let k = choose|k: int| 0 <= k < upto && #[trigger] kids[k] == top;
                        assert(k < upto - 1);
                    }
                }
            } else {
                assert(!on_path(before.parents(), 0, kid));
            }
        }
    }

    /// Recording a simulation adds one visit to the children of the root
    /// taken together where it ended below the root, and none where it ended
    /// in the root.
    pub proof fn lemma_backprop_adds_root_child_visit(&self, before: &Self, end: int, value: S)
        requires
            before.wf(),
            before.is_rooted(),
            0 <= end < before.nodes.len(),
            self.is_backprop_of(before, end, value),
        ensures
            self.root_child_visits() == before.root_child_visits() + if end != 0 {
                1int
            } else {
                0int
            },
    {
        let n = before.nodes[0].children.len() as int;
        self.lemma_backprop_counts_once(before, end, value, n);
        assert(self.nodes[0].children == before.nodes[0].children);
        if end != 0 {
            assert(before.node_linked(0));
            let kid = before.nodes[0].children@;
            let top = top_ancestor(before.parents(), end);
            before.lemma_top_is_listed(end);
            let k = choose|k: int| 0 <= k < n && kid[k] == top as usize;
            assert(before.nodes[0].children[k] == top);
        }
    }

    /// The top ancestor of a node below the root is listed among the
    /// children of the root.
    pub proof fn lemma_top_is_listed(&self, from: int)
        requires
            self.wf(),
            self.is_rooted(),
            0 < from < self.nodes.len(),
        ensures
            self.nodes[0].children@.contains(top_ancestor(self.parents(), from) as usize),
            0 < top_ancestor(self.parents(), from) <= from,
        decreases from,
    {
        assert(self.node_linked(from));
        assert(self.parents()[from] == self.nodes[from].parent);
        let p = self.nodes[from].parent->Some_0 as int;
        if p != 0 {
            self.lemma_top_is_listed(p);
        }
    }

    /// `path` is a descent from the root by the greatest upper confidence
    /// bound: it starts at the root and every node of it but the last has
    /// children, of which `next` gave the node that follows. Where `at_leaf`
    /// is set the last node has no child; otherwise it has children, but
    /// `next` found none whose bound compares.
    pub open spec fn is_descent(&self, c: S, path: Seq<usize>, at_leaf: bool) -> bool {
        &&& path.len() >= 1
        &&& path[0] == 0
        &&& forall|k: int| 0 <= k < path.len() ==> (#[trigger] path[k]) < self.nodes.len()
        &&& forall|k: int|
            0 <= k < path.len() - 1 ==> self.nodes[(#[trigger] path[k]) as int].children.len() > 0
                && self.is_next(path[k] as int, c, Some(path[k + 1]))
        &&& if at_leaf {
            self.nodes[path.last() as int].children.len() == 0
        } else {
            self.nodes[path.last() as int].children.len() > 0 && self.is_next(
                path.last() as int,
                c,
                None,
            )
        }
    }

    /// `leaf` is a node at which a descent from the root may end, with or
    /// without a leaf found.
    pub open spec fn is_selected(&self, c: S, leaf: int, at_leaf: bool) -> bool {
        exists|path: Seq<usize>| #[trigger] self.is_descent(c, path, at_leaf) && path.last() == leaf
    }

    /// Descends from the root, at every node to the child with the greatest
    /// upper confidence bound, until a node without children is reached.
    /// Returns that node and `true`; or, where the children of a node have no
    /// bound that compares, that node and `false`.
    pub fn select_leaf(&self, c: S) -> (found: (usize, bool))
        requires
            self.wf(),
            self.nodes.len() > 0,
        ensures
            found.0 < self.nodes.len(),
            found.1 <==> self.nodes[found.0 as int].children.len() == 0,
            self.is_selected(c, found.0 as int, found.1),
    {
        let mut node_idx: usize = 0;
        let mut at_leaf = true;
        let ghost mut path: Seq<usize> = seq![0usize];
        while at_leaf && self.nodes[node_idx].children.len() > 0
            invariant
                self.wf(),
                node_idx < self.nodes.len(),
                path.len() >= 1,
                path[0] == 0,
                path.last() == node_idx,
                forall|k: int| 0 <= k < path.len() ==> (#[trigger] path[k]) < self.nodes.len(),
                forall|k: int|
                    0 <= k < path.len() - 1 ==> self.nodes[(#[trigger] path[k]) as int].children.len()
                        > 0 && self.is_next(path[k] as int, c, Some(path[k + 1])),
                !at_leaf ==> self.nodes[node_idx as int].children.len() > 0 && self.is_next(
                    node_idx as int,
                    c,
                    None,
                ),
            decreases self.nodes.len() - node_idx, (if at_leaf { 1int } else { 0int }),
        {
            proof {
                assert(self.node_linked(node_idx as int));
            }
            match self.next(node_idx, c) {
                Some(child) => {
                    let ghost listed = self.nodes[node_idx as int].children@;
                    let ghost before = path;
                    proof {
                        let k = choose|k: int| 0 <= k < listed.len() && listed[k] == child;
                        assert(node_idx < self.nodes[node_idx as int].children[k] < self.nodes.len());
                        path = path.push(child);
                        assert forall|k: int| 0 <= k < path.len() - 1 implies self.nodes[(
                        #[trigger] path[k]) as int].children.len() > 0 && self.is_next(
                            path[k] as int,
                            c,
                            Some(path[k + 1]),
                        ) by {
                            if k < before.len() - 1 {
                                assert(path[k] == before[k]);
                                assert(path[k + 1] == before[k + 1]);
                            }
                        }
                    }
                    node_idx = child;
                },
                None => {
                    at_leaf = false;
                },
            }
        }
        proof {
            assert(self.is_descent(c, path, at_leaf));
        }
        (node_idx, at_leaf)
    }

    /// `priors` and `estimate` are what `policy.full_predict` gave for the
    /// observation and the masks of the state of node `node`.
    pub open spec fn is_prediction<P: Policy<S>>(
        &self,
        policy: P,
        node: int,
        priors: Seq<S>,
        estimate: S,
    ) -> bool {
        exists|obs: Vec<usize>, masks: Vec<bool>, scores: Vec<S>|
            #![trigger call_ensures(P::full_predict, (&policy, obs, masks), (scores, estimate))]
            {
                &&& call_ensures(E::observe, (&self.nodes[node].val.state,), obs)
                &&& call_ensures(E::masks, (&self.nodes[node].val.state,), masks)
                &&& call_ensures(P::full_predict, (&policy, obs, masks), (scores, estimate))
                &&& scores@ == priors
            }
    }

    /// The action that led to child `k` of node `i`.
    pub open spec fn child_action(&self, i: int, k: int) -> usize {
        self.nodes[self.nodes[i].children[k] as int].val.action_taken->Some_0
    }

    /// Child `k` of node `i` is what an expansion by `priors` gives for its
    /// action: it carries the action's prior, which was not found to be at
    /// most zero, and holds the state that the action leads to from the
    /// state of node `i`.
    pub open spec fn is_child_of_expansion(&self, i: int, k: int, priors: Seq<S>) -> bool {
        let kid = self.nodes[self.nodes[i].children[k] as int];
        kid.val.action_taken matches Some(a) && {
            &&& a < priors.len()
            &&& kid.val.prior == priors[a as int]
            &&& is_positive(priors[a as int])
            &&& is_successor(self.nodes[i].val.state, a, kid.val.state)
        }
    }

    /// A child of node `i` was reached by `action`.
    pub open spec fn has_kid_for(&self, i: int, action: int) -> bool {
        exists|k: int|
            0 <= k < self.nodes[i].children.len() && #[trigger] self.child_has_action(i, k, action)
    }

    /// The children of node `i` are the children that an expansion by
    /// `priors` gives: one for every action whose prior was not found to be
    /// at most zero, in the order of the actions; every action without a
    /// child has a prior that was found to be at most zero.
    pub open spec fn is_expanded_by(&self, i: int, priors: Seq<S>) -> bool {
        &&& forall|k: int|
            0 <= k < self.nodes[i].children.len() ==> #[trigger] self.is_child_of_expansion(
                i,
                k,
                priors,
            )
        &&& forall|j: int, k: int|
            0 <= j < k < self.nodes[i].children.len() ==> (#[trigger] self.child_action(i, j))
                < (#[trigger] self.child_action(i, k))
        &&& forall|a: int|
            0 <= a < priors.len() ==> #[trigger] self.has_kid_for(i, a) || is_not_positive(priors[a])
    }

    /// Node `i` has no child, or its children are the children that an
    /// expansion gives by priors that the policy gave for the state of the
    /// node.
    pub open spec fn is_policy_node<P: Policy<S>>(&self, policy: P, i: int) -> bool {
        self.nodes[i].children.len() > 0 ==> exists|priors: Seq<S>, estimate: S| #[trigger]
            self.is_prediction(policy, i, priors, estimate) && self.is_expanded_by(i, priors)
    }

    /// Every node got its children from the policy.
    pub open spec fn is_grown_by<P: Policy<S>>(&self, policy: P) -> bool {
        forall|i: int| 0 <= i < self.nodes.len() ==> #[trigger] self.is_policy_node(policy, i)
    }

    /// The expansion of a leaf by priors of the policy keeps every node a
    /// node that got its children from the policy.
    pub proof fn lemma_expansion_keeps_policy_nodes<P: Policy<S>>(
        &self,
        before: &Self,
        policy: P,
        node: int,
        priors: Seq<S>,
        estimate: S,
    )
        requires
            before.search_wf(),
            before.is_grown_by(policy),
            0 <= node < before.nodes.len(),
            before.nodes[node].children.len() == 0,
            before.is_prediction(policy, node, priors, estimate),
            self.is_expansion_of(before, node, priors),
        ensures
            self.is_grown_by(policy),
    {
        let first = before.nodes.len() as int;
        assert forall|i: int| 0 <= i < self.nodes.len() implies #[trigger] self.is_policy_node(
            policy,
            i,
        ) by {
            if i == node {
                let kids = self.nodes[i].children@;
                assert forall|k: int| 0 <= k < kids.len() implies kids[k] == first + k by {}
                assert forall|k: int| 0 <= k < kids.len() implies #[trigger] self.is_child_of_expansion(
                    i,
                    k,
                    priors,
                ) by {
                    assert(self.is_fresh_child(first + k, node, priors));
                }
                assert forall|j: int, k: int| 0 <= j < k < kids.len() implies (#[trigger] self.child_action(
                    i,
                    j,
                )) < (#[trigger] self.child_action(i, k)) by {
                    assert(kids[j] == first + j && kids[k] == first + k);
                }
                assert forall|a: int| 0 <= a < priors.len() implies #[trigger] self.has_kid_for(i, a)
                    || is_not_positive(priors[a]) by {
                    if self.has_child_for(first, a) {
                        let j = choose|j: int|
                            first <= j < self.nodes.len() && (#[trigger] self.nodes[j]).val.action_taken
                                == Some(a as usize);
                        assert(kids[j - first] == j);
                        assert(self.child_has_action(i, j - first, a));
                    }
                }
                assert(self.is_prediction(policy, i, priors, estimate));
                assert(self.is_expanded_by(i, priors));
            } else if i < first {
                assert(before.is_policy_node(policy, i));
                assert(self.nodes[i] == before.nodes[i]);
                if before.nodes[i].children.len() > 0 {
                    let (p, e) = choose|p: Seq<S>, e: S| #[trigger]
                        before.is_prediction(policy, i, p, e) && before.is_expanded_by(i, p);
                    assert(before.node_linked(i));
                    let kids = before.nodes[i].children@;
                    assert forall|k: int| 0 <= k < kids.len() implies self.nodes[kids[k] as int].val
                        == before.nodes[kids[k] as int].val by {
                        assert(i < kids[k] < before.nodes.len());
                    }
                    assert forall|k: int| 0 <= k < kids.len() implies #[trigger] self.is_child_of_expansion(
                        i,
                        k,
                        p,
                    ) by {
                        assert(before.is_child_of_expansion(i, k, p));
                    }
                    assert forall|j: int, k: int| 0 <= j < k < kids.len() implies (
                    #[trigger] self.child_action(i, j)) < (#[trigger] self.child_action(i, k)) by {
                        assert(before.child_action(i, j) < before.child_action(i, k));
                    }
                    assert forall|a: int| 0 <= a < p.len() implies #[trigger] self.has_kid_for(i, a)
                        || is_not_positive(p[a]) by {
                        if before.has_kid_for(i, a) {
                            let k = choose|k: int|
                                0 <= k < before.nodes[i].children.len() && #[trigger] before.child_has_action(
                                    i,
                                    k,
                                    a,
                                );
                            assert(self.child_has_action(i, k, a));
                        }
                    }
                    assert(self.is_prediction(policy, i, p, e));
                    assert(self.is_expanded_by(i, p));
                }
            } else {
                assert(self.is_fresh_child(i, node, priors));
            }
        }
    }

    /// Recording a simulation keeps every node a node that got its children
    /// from the policy.
    pub proof fn lemma_backprop_keeps_policy_nodes<P: Policy<S>>(
        &self,
        before: &Self,
        policy: P,
    )
        requires
            before.is_grown_by(policy),
            before.wf(),
            self.same_shape(before),
        ensures
            self.is_grown_by(policy),
    {
        assert forall|i: int| 0 <= i < self.nodes.len() implies #[trigger] self.is_policy_node(
            policy,
            i,
        ) by {
            assert(before.is_policy_node(policy, i));
            if before.nodes[i].children.len() > 0 {
                let (p, e) = choose|p: Seq<S>, e: S| #[trigger]
                    before.is_prediction(policy, i, p, e) && before.is_expanded_by(i, p);
                assert(before.node_linked(i));
                let kids = before.nodes[i].children@;
                assert forall|k: int| 0 <= k < kids.len() implies #[trigger] self.is_child_of_expansion(
                    i,
                    k,
                    p,
                ) by {
                    assert(i < kids[k] < before.nodes.len());
                    assert(before.is_child_of_expansion(i, k, p));
                }
                assert forall|j: int, k: int| 0 <= j < k < kids.len() implies (#[trigger] self.child_action(
                    i,
                    j,
                )) < (#[trigger] self.child_action(i, k)) by {
                    assert(i < kids[j] < before.nodes.len());
                    assert(i < kids[k] < before.nodes.len());
                    assert(before.child_action(i, j) < before.child_action(i, k));
                }
                assert forall|a: int| 0 <= a < p.len() implies #[trigger] self.has_kid_for(i, a)
                    || is_not_positive(p[a]) by {
                    if before.has_kid_for(i, a) {
                        let k = choose|k: int|
                            0 <= k < before.nodes[i].children.len() && #[trigger] before.child_has_action(
                                i,
                                k,
                                a,
                            );
                        assert(i < kids[k] < before.nodes.len());
                        assert(self.child_has_action(i, k, a));
                    }
                }
                assert(self.is_prediction(policy, i, p, e));
                assert(self.is_expanded_by(i, p));
            }
        }
    }

    /// `self` is `before` after one step of growth from node `from` to node
    /// `to`: the tree stays sound; the state of `from` is not terminal; the node was expanded by
    /// the priors of the policy, which gave it children; `to` is the child
    /// drawn by the priors; and `estimate` is the policy's value estimate
    /// for the state of `from`.
    pub open spec fn is_growth_step<P: Policy<S>>(
        &self,
        before: &Self,
        policy: P,
        from: int,
        to: int,
        estimate: S,
    ) -> bool {
        &&& 0 <= from < before.nodes.len()
        &&& self.search_wf()
        &&& call_ensures(E::is_final, (&before.nodes[from].val.state,), false)
        &&& exists|priors: Seq<S>|
            #[trigger] before.is_prediction(policy, from, priors, estimate) && self.is_expansion_of(
                before,
                from,
                priors,
            )
        &&& self.nodes[from].children.len() > 0
        &&& self.is_child_sample(from, to)
    }

    /// `self` is `before` after an expansion of node `node` by the priors of
    /// the policy that gave the node no child.
    pub open spec fn is_barren_expansion<P: Policy<S>>(
        &self,
        before: &Self,
        policy: P,
        node: int,
    ) -> bool {
        &&& self.nodes[node].children.len() == 0
        &&& exists|priors: Seq<S>, estimate: S|
            #[trigger] before.is_prediction(policy, node, priors, estimate) && self.is_expansion_of(
                before,
                node,
                priors,
            )
    }

    /// The growth of `before` from node `start` into `self`, step by step:
    /// `trees[j]` and `nodes[j]` are the tree and the node reached after `j`
    /// steps, and `values[j]` is the value that is recorded where the growth
    /// ends there because nothing more may be grown: `pending` before the
    /// first step, the policy's estimate of the step after it.
    ///
    /// The growth ends in node `end` with the value `value` in one of three
    /// ways: the budget of `budget` steps is used up; or the state reached is
    /// terminal and `value` is its reward; or the policy proposes no action
    /// for the state reached and `value` is its reward.
    pub open spec fn is_growth<P: Policy<S>>(
        &self,
        before: &Self,
        policy: P,
        start: int,
        budget: usize,
        pending: S,
        trees: Seq<Self>,
        nodes: Seq<int>,
        values: Seq<S>,
        end: int,
        value: S,
    ) -> bool {
        let steps = trees.len() - 1;
        let last = trees.last();
        &&& trees.len() >= 1
        &&& nodes.len() == trees.len()
        &&& values.len() == trees.len()
        &&& steps <= budget
        &&& trees[0] == *before
        &&& nodes[0] == start
        &&& values[0] == pending
        &&& forall|j: int|
            0 <= j < steps ==> (#[trigger] trees[j + 1]).is_growth_step(
                &trees[j],
                policy,
                nodes[j],
                nodes[j + 1],
                values[j + 1],
            )
        &&& end == nodes.last()
        &&& {
            ||| steps == budget && *self == last && value == values.last()
            ||| {
                &&& steps < budget
                &&& call_ensures(E::is_final, (&last.nodes[end].val.state,), true)
                &&& call_ensures(E::reward, (&last.nodes[end].val.state,), value)
                &&& *self == last
            }
            ||| {
                &&& steps < budget
                &&& call_ensures(E::is_final, (&last.nodes[end].val.state,), false)
                &&& call_ensures(E::reward, (&last.nodes[end].val.state,), value)
                &&& self.is_barren_expansion(&last, policy, end)
            }
        }
    }

    /// `self` is what `grow` may make of `before`, with the node `end` and
    /// the value `value` as its result.
    pub open spec fn is_grown<P: Policy<S>>(
        &self,
        before: &Self,
        policy: P,
        start: int,
        budget: usize,
        pending: S,
        end: int,
        value: S,
    ) -> bool {
        exists|trees: Seq<Self>, nodes: Seq<int>, values: Seq<S>| #[trigger]
            self.is_growth(before, policy, start, budget, pending, trees, nodes, values, end, value)
    }

    /// Grows the tree below node `start` by up to `max_expand_depth`
    /// steps. A step asks the policy about the state of the node reached,
    /// expands the node by the priors and moves on to a child drawn by them.
    /// The growth ends early at a terminal state and at a state for which the
    /// policy proposes no action.
    ///
    /// Returns the node reached and the value of the simulation: the reward
    /// of the state where the growth ended early, else the policy's estimate
    /// of the last step or, where no step was allowed, `pending`.
    pub fn grow<P: Policy<S>>(
        &mut self,
        policy: &P,
        start: usize,
        max_expand_depth: usize,
        pending: S,
    ) -> (reached: (usize, S))
        requires
            old(self).search_wf(),
            old(self).is_rooted(),
            old(self).is_grown_by(*policy),
            start < old(self).nodes.len(),
            old(self).nodes[start as int].children.len() == 0,
        ensures
            final(self).search_wf(),
            final(self).is_rooted(),
            final(self).is_grown_by(*policy),
            final(self).root_child_visits() == old(self).root_child_visits(),
            reached.0 < final(self).nodes.len(),
            final(self).nodes.len() >= old(self).nodes.len(),
            forall|i: int|
                0 <= i < old(self).nodes.len() ==> (#[trigger] final(self).nodes[i]).val == old(self).nodes[i].val,
            forall|i: int|
                old(self).nodes.len() <= i < final(self).nodes.len() ==> (#[trigger] final(self).nodes[i]).val.visit_count == 0,
            final(self).is_grown(
                old(self),
                *policy,
                start as int,
                max_expand_depth,
                pending,
                reached.0 as int,
                reached.1,
            ),
    {
        let mut node_idx = start;
        let mut value = pending;
        let mut expanded_depth: usize = 0;
        let mut growing = true;
        let ghost mut trees: Seq<Self> = seq![*self];
        let ghost mut nodes: Seq<int> = seq![node_idx as int];
        let ghost mut values: Seq<S> = seq![pending];
        let ghost mut ended: Self = *self;
        while growing && expanded_depth < max_expand_depth
            invariant
                self.search_wf(),
                self.is_rooted(),
                self.is_grown_by(*policy),
                self.root_child_visits() == old(self).root_child_visits(),
                growing ==> self.nodes[node_idx as int].children.len() == 0,
                node_idx < self.nodes.len(),
                self.nodes.len() >= old(self).nodes.len(),
                forall|i: int|
                    0 <= i < old(self).nodes.len() ==> (#[trigger] self.nodes[i]).val == old(self).nodes[i].val,
                forall|i: int|
                    old(self).nodes.len() <= i < self.nodes.len() ==> (#[trigger] self.nodes[i]).val.visit_count
                        == 0,
                expanded_depth <= max_expand_depth,
                trees.len() == expanded_depth + 1,
                nodes.len() == trees.len(),
                values.len() == trees.len(),
                trees[0] == *old(self),
                nodes[0] == start,
                values[0] == pending,
                nodes.last() == node_idx,
                forall|j: int|
                    0 <= j < trees.len() - 1 ==> (#[trigger] trees[j + 1]).is_growth_step(
                        &trees[j],
                        *policy,
                        nodes[j],
                        nodes[j + 1],
                        values[j + 1],
                    ),
                growing ==> *self == trees.last() && value == values.last(),
                !growing ==> expanded_depth < max_expand_depth && call_ensures(
                    E::reward,
                    (&trees.last().nodes[node_idx as int].val.state,),
                    value,
                ) && {
                    ||| *self == trees.last() && call_ensures(
                        E::is_final,
                        (&trees.last().nodes[node_idx as int].val.state,),
                        true,
                    )
                    ||| self.is_barren_expansion(&trees.last(), *policy, node_idx as int)
                        && call_ensures(
                        E::is_final,
                        (&trees.last().nodes[node_idx as int].val.state,),
                        false,
                    )
                },
            decreases max_expand_depth - expanded_depth, (if growing { 1int } else { 0int }),
        {
            let ghost before = *self;
            let reward = self.nodes[node_idx].val.state.reward();
            if self.nodes[node_idx].val.state.is_final() {
                value = reward;
                growing = false;
            } else {
                let obs = self.nodes[node_idx].val.state.observe();
                let masks = self.nodes[node_idx].val.state.masks();
                let ghost obs_seen = obs;
                let ghost masks_seen = masks;
                let (action_probs, new_value) = policy.full_predict(obs, masks);
                let ghost priors = action_probs@;
                proof {
                    assert(call_ensures(
                        P::full_predict,
                        (policy, obs_seen, masks_seen),
                        (action_probs, new_value),
                    ));
                    assert(before.is_prediction(*policy, node_idx as int, priors, new_value));
                }
                self.expand(node_idx, action_probs);
                proof {
                    self.lemma_expansion_keeps_policy_nodes(
                        &before,
                        *policy,
                        node_idx as int,
                        priors,
                        new_value,
                    );
                    let kids = self.nodes[0].children@;
                    if node_idx == 0 {
                        assert forall|k: int| 0 <= k < kids.len() implies self.nodes[(
                        #[trigger] self.nodes[0].children[k]) as int].val.visit_count == 0 by {
                            assert(kids[k] == before.nodes.len() + k);
                            assert(self.is_fresh_child(before.nodes.len() + k, 0, priors));
                        }
                        self.lemma_no_child_visits(0, kids.len() as int);
                    } else {
                        assert(self.nodes[0] == before.nodes[0]);
                        assert(before.node_linked(0));
                        assert forall|k: int| 0 <= k < kids.len() implies (
                        #[trigger] self.nodes[0].children[k]) == before.nodes[0].children[k]
                            && self.nodes[self.nodes[0].children[k] as int].val.visit_count
                            == before.nodes[before.nodes[0].children[k] as int].val.visit_count by {
                            assert(0 < before.nodes[0].children[k] < before.nodes.len());
                        }
                        self.lemma_same_child_visits(&before, 0, kids.len() as int);
                    }
                    assert forall|i: int| 0 < i < self.nodes.len() implies (#[trigger] self.nodes[i]).parent is Some
                        && self.nodes[i].val.action_taken is Some by {
                        if i < before.nodes.len() {
                            assert(before.nodes[i].parent is Some);
                        } else {
                            assert(self.is_fresh_child(i, node_idx as int, priors));
                        }
                    }
                    assert forall|i: int|
                        old(self).nodes.len() <= i < self.nodes.len() implies (#[trigger] self.nodes[i]).val.visit_count
                        == 0 by {
                        if i >= before.nodes.len() {
                            assert(self.is_fresh_child(i, node_idx as int, priors));
                        }
                    }
                }
                if self.nodes[node_idx].children.len() == 0 {
                    value = reward;
                    growing = false;
                    proof {
                        assert(self.is_barren_expansion(&before, *policy, node_idx as int));
                    }
                } else {
                    let child = self.next_sample(node_idx);
                    proof {
                        let kids = self.nodes[node_idx as int].children@;
                        let k = choose|k: int| 0 <= k < kids.len() && kids[k] == child;
                        assert(kids[k] == before.nodes.len() + k);
                        assert(self.is_fresh_child(child as int, node_idx as int, priors));
                        let old_trees = trees;
                        let old_nodes = nodes;
                        let old_values = values;
                        assert(self.is_growth_step(
                            &before,
                            *policy,
                            node_idx as int,
                            child as int,
                            new_value,
                        ));
                        trees = trees.push(*self);
                        nodes = nodes.push(child as int);
                        values = values.push(new_value);
                        assert forall|j: int| 0 <= j < trees.len() - 1 implies (#[trigger] trees[j
                            + 1]).is_growth_step(
                            &trees[j],
                            *policy,
                            nodes[j],
                            nodes[j + 1],
                            values[j + 1],
                        ) by {
                            if j < old_trees.len() - 1 {
                                assert(trees[j + 1] == old_trees[j + 1]);
                                assert(trees[j] == old_trees[j]);
                                assert(nodes[j] == old_nodes[j]);
                                assert(nodes[j + 1] == old_nodes[j + 1]);
                                assert(values[j + 1] == old_values[j + 1]);
                            } else {
                                assert(trees[j] == before);
                                assert(nodes[j] == node_idx);
                            }
                        }
                    }
                    node_idx = child;
                    value = new_value;
                    expanded_depth += 1;
                }
            }
        }
        proof {
            assert(self.is_growth(
                old(self),
                *policy,
                start as int,
                max_expand_depth,
                pending,
                trees,
                nodes,
                values,
                node_idx as int,
                value,
            ));
        }
        (node_idx, value)
    }

    /// `self` is `before` after one simulation that ended in node `end`: a
    /// descent from the root ended at a node; where that node was a leaf the tree was grown below
    /// it, which gave the node reached and the value of the simulation, and
    /// otherwise the node itself and the reward of its state are taken; and
    /// the value was recorded from the node reached up to the root.
    pub open spec fn is_simulation_of<P: Policy<S>>(
        &self,
        before: &Self,
        policy: P,
        c: S,
        max_expand_depth: usize,
        end: int,
    ) -> bool {
        exists|leaf: int, at_leaf: bool, pending: S, grown: Self, value: S|
            {
                &&& #[trigger] before.is_selected(c, leaf, at_leaf)
                &&& #[trigger] call_ensures(E::reward, (&before.nodes[leaf].val.state,), pending)
                &&& if at_leaf {
                    grown.is_grown(before, policy, leaf, max_expand_depth, pending, end, value)
                } else {
                    grown == *before && end == leaf && value == pending
                }
                &&& #[trigger] self.is_backprop_of(&grown, end, value)
            }
    }

    /// Runs one simulation: descends from the root to a leaf, grows the tree
    /// below the leaf by up to `max_expand_depth` steps, and records the
    /// value of the simulation on every node between the node reached and
    /// the root. Returns the node reached.
    pub fn simulate<P: Policy<S>>(&mut self, policy: &P, c: S, max_expand_depth: usize) -> (end:
        usize)
        requires
            old(self).search_wf(),
            old(self).is_rooted(),
            old(self).is_grown_by(*policy),
            old(self).visits_at_most(u32::MAX - 1),
        ensures
            final(self).search_wf(),
            final(self).is_rooted(),
            final(self).is_grown_by(*policy),
            final(self).is_simulation_of(old(self), *policy, c, max_expand_depth, end as int),
            final(self).root_child_visits() == old(self).root_child_visits() + if end != 0 {
                1int
            } else {
                0int
            },
            final(self).nodes.len() >= old(self).nodes.len(),
            final(self).nodes[0].val.visit_count == old(self).nodes[0].val.visit_count + 1,
            final(self).nodes[0].val.state == old(self).nodes[0].val.state,
            forall|i: int|
                0 <= i < old(self).nodes.len() ==> (#[trigger] final(self).nodes[i]).val.visit_count
                    <= old(self).nodes[i].val.visit_count + 1,
            forall|i: int|
                old(self).nodes.len() <= i < final(self).nodes.len() ==> (#[trigger] final(self).nodes[i]).val.visit_count <= 1,
    {
        let (leaf, at_leaf) = self.select_leaf(c);
        let pending = self.nodes[leaf].val.state.reward();
        let (end, value) = if at_leaf {
            self.grow(policy, leaf, max_expand_depth, pending)
        } else {
            (leaf, pending)
        };
        let ghost grown = *self;
        proof {
            assert forall|i: int| 0 <= i < grown.nodes.len() implies (#[trigger] grown.nodes[i]).val.visit_count
                <= u32::MAX - 1 by {
                if i < old(self).nodes.len() {
                    assert(old(self).nodes[i].val.visit_count <= u32::MAX - 1);
                }
            }
        }
        self.backpropagate(end, value);
        proof {
            lemma_same_shape_keeps_wf(*self, grown);
            lemma_root_on_every_path(grown, end as int);
            self.lemma_backprop_keeps_policy_nodes(&grown, *policy);
            self.lemma_backprop_adds_root_child_visit(&grown, end as int, value);
            assert(old(self).is_selected(c, leaf as int, at_leaf));
            assert(self.is_backprop_of(&grown, end as int, value));
        }
        end
    }

    /// `self` is the tree that a search starts with: one root, which holds a
    /// copy of the state `env`, was visited once and has no value yet,
    /// expanded by the priors that the policy gives for the observation and
    /// the masks of its state.
    pub open spec fn is_start<P: Policy<S>>(&self, env: E, policy: P) -> bool {
        exists|seed: Self, priors: Seq<S>, estimate: S|
            {
                &&& seed.nodes.len() == 1
                &&& env.same_state(&seed.nodes[0].val.state)
                &&& seed.nodes[0].parent is None
                &&& seed.nodes[0].children.len() == 0
                &&& seed.nodes[0].val.action_taken is None
                &&& is_zero(seed.nodes[0].val.prior)
                &&& seed.nodes[0].val.visit_count == 1
                &&& is_zero(seed.nodes[0].val.value_sum)
                &&& #[trigger] seed.is_prediction(policy, 0, priors, estimate)
                &&& #[trigger] self.is_expansion_of(&seed, 0, priors)
            }
    }
}

/// `trees` are the trees of a search from the state `env`, from the tree
/// that the search starts with to the tree after the last simulation: each
/// is a sound tree with the one root whose nodes got their children from the
/// policy; each arises from the one before it by one simulation; and
/// `ends[k]` is the node in which simulation `k` ended.
pub open spec fn is_search<E: Env<S>, P: Policy<S>, S: Scalar>(
    env: E,
    policy: P,
    c: S,
    max_expand_depth: usize,
    trees: Seq<MCTSTree<E, S>>,
    ends: Seq<int>,
) -> bool {
    &&& trees.len() == ends.len() + 1
    &&& trees[0].is_start(env, policy)
    &&& forall|k: int|
        0 <= k < trees.len() ==> (#[trigger] trees[k]).search_wf() && trees[k].is_rooted()
            && trees[k].is_grown_by(policy)
    &&& forall|k: int|
        0 <= k < ends.len() ==> (#[trigger] trees[k + 1]).is_simulation_of(
            &trees[k],
            policy,
            c,
            max_expand_depth,
            ends[k],
        )
}

/// `probs` is what a tree search of `num_mcts_searches` simulations from the
/// state `env` may return: there is a search of that many simulations, and
/// `probs` holds, for each action of the environment, the visit count of the
/// root's child for that action in the last tree over the sum of these
/// counts, or the same share for every action where that sum does not exceed
/// zero. In the last tree the root was visited once more than there were
/// simulations, and the visit counts of the root's children add up to the
/// number of simulations that ended below the root.
pub open spec fn is_search_result<E: Env<S>, P: Policy<S>, S: Scalar>(
    env: E,
    policy: P,
    num_mcts_searches: usize,
    c: S,
    max_expand_depth: usize,
    probs: Seq<S>,
) -> bool {
    exists|trees: Seq<MCTSTree<E, S>>, ends: Seq<int>, n: usize, weights: Seq<S>|
        {
            &&& #[trigger] is_search(env, policy, c, max_expand_depth, trees, ends)
            &&& ends.len() == num_mcts_searches
            &&& trees.last().root_child_visits() == below_root(ends)
            &&& trees.last().root_child_visits() <= num_mcts_searches
            &&& trees.last().nodes[0].val.visit_count == num_mcts_searches + 1
            &&& #[trigger] call_ensures(E::num_actions, (&env,), n)
            &&& #[trigger] trees.last().is_root_weights(n, weights)
            &&& is_normalized(weights, probs)
        }
}

/// Where every simulation ended below the root, as many simulations ended
/// below the root as there were simulations: the visit counts of the root's
/// children then add up to the number of simulations.
pub proof fn lemma_all_below_root(ends: Seq<int>)
    requires
        forall|k: int| 0 <= k < ends.len() ==> #[trigger] ends[k] != 0,
    ensures
        below_root(ends) == ends.len(),
    decreases ends.len(),
{
    if ends.len() > 0 {
        assert(ends.last() == ends[ends.len() - 1]);
        assert forall|k: int| 0 <= k < ends.drop_last().len() implies #[trigger] ends.drop_last()[k]
            != 0 by {
            assert(ends.drop_last()[k] == ends[k]);
        }
        lemma_all_below_root(ends.drop_last());
    }
}

/// A simulation that may grow nothing ends in the node that the descent
/// selected, leaves the tree as it is but for the value recorded, and
/// records the reward of the state of that node.
pub proof fn lemma_simulation_without_growth<E: Env<S>, P: Policy<S>, S: Scalar>(
    after: MCTSTree<E, S>,
    before: MCTSTree<E, S>,
    policy: P,
    c: S,
    end: int,
)
    requires
        after.is_simulation_of(&before, policy, c, 0, end),
    ensures
        exists|at_leaf: bool, value: S|
            {
                &&& #[trigger] before.is_selected(c, end, at_leaf)
                &&& call_ensures(E::reward, (&before.nodes[end].val.state,), value)
                &&& #[trigger] after.is_backprop_of(&before, end, value)
            },
{
    let (leaf, at_leaf, pending, grown, value) = choose|
        leaf: int,
        at_leaf: bool,
        pending: S,
        grown: MCTSTree<E, S>,
        value: S,
    |
        {
            &&& #[trigger] before.is_selected(c, leaf, at_leaf)
            &&& #[trigger] call_ensures(E::reward, (&before.nodes[leaf].val.state,), pending)
            &&& if at_leaf {
                grown.is_grown(&before, policy, leaf, 0, pending, end, value)
            } else {
                grown == before && end == leaf && value == pending
            }
            &&& #[trigger] after.is_backprop_of(&grown, end, value)
        };
    if at_leaf {
        let (trees, nodes, values) = choose|
            trees: Seq<MCTSTree<E, S>>,
            nodes: Seq<int>,
            values: Seq<S>,
        | #[trigger]
            grown.is_growth(&before, policy, leaf, 0, pending, trees, nodes, values, end, value);
        assert(trees.len() == 1);
        assert(trees.last() == trees[0]);
        assert(nodes.last() == nodes[0]);
        assert(values.last() == values[0]);
    }
    assert(before.is_selected(c, end, at_leaf));
    assert(after.is_backprop_of(&before, end, value));
}

impl<E: Env<S>, S: Scalar> Tree<MCTSNode<E, S>> {
    /// A scan of the children of a node keeps no child or one of the
    /// children.
    pub proof fn lemma_selection_keeps_a_child(
        &self,
        i: int,
        c: S,
        scores: Seq<S>,
        kept: Seq<Option<usize>>,
        best: Seq<S>,
        upto: int,
    )
        requires
            self.is_selection(i, c, scores, kept, best),
            0 <= upto <= self.nodes[i].children.len(),
        ensures
            kept[upto] matches Some(child) ==> self.nodes[i].children@.contains(child),
        decreases upto,
    {
        if upto > 0 {
            self.lemma_selection_keeps_a_child(i, c, scores, kept, best, upto - 1);
            let k = upto - 1;
            assert(self.is_node_ucb(i, self.nodes[i].children[k] as int, c, scores[k]));
            assert(select_step(
                scores[k],
                self.nodes[i].children[k],
                kept[k],
                best[k],
                kept[k + 1],
                best[k + 1],
            ));
            assert(self.nodes[i].children@[k] == self.nodes[i].children[k]);
        }
    }

    /// A descent that goes on from a node goes on to a node that was created
    /// later: every node of a descent but the first lies below the root.
    pub proof fn lemma_descent_goes_down(&self, c: S, path: Seq<usize>, at_leaf: bool, k: int)
        requires
            self.wf(),
            self.is_descent(c, path, at_leaf),
            1 <= k < path.len(),
        ensures
            path[k] > 0,
    {
        let from = path[k - 1] as int;
        assert(self.nodes[from].children.len() > 0 && self.is_next(from, c, Some(path[k - 1 + 1])));
        let (scores, kept, best) = choose|
            scores: Seq<S>,
            kept: Seq<Option<usize>>,
            best: Seq<S>,
        | #[trigger]
            self.is_selection(from, c, scores, kept, best) && Some(path[k]) == kept.last();
        self.lemma_selection_keeps_a_child(
            from,
            c,
            scores,
            kept,
            best,
            self.nodes[from].children.len() as int,
        );
        assert(self.node_linked(from));
        let listed = self.nodes[from].children@;
        let j = choose|j: int| 0 <= j < listed.len() && listed[j] == path[k];
        assert(from < self.nodes[from].children[j]);
    }

    /// Growth goes down: every node that a growth reaches after its start
    /// lies below the root.
    pub proof fn lemma_growth_goes_down<P: Policy<S>>(
        &self,
        before: &Self,
        policy: P,
        start: int,
        budget: usize,
        pending: S,
        trees: Seq<Self>,
        nodes: Seq<int>,
        values: Seq<S>,
        end: int,
        value: S,
        j: int,
    )
        requires
            self.is_growth(before, policy, start, budget, pending, trees, nodes, values, end, value),
            0 <= start,
            1 <= j < trees.len(),
        ensures
            nodes[j] > 0,
    {
        let tree = trees[j - 1 + 1];
        let from = nodes[j - 1];
        assert(tree.is_growth_step(&trees[j - 1], policy, from, nodes[j - 1 + 1], values[j - 1 + 1]));
        assert(tree.node_linked(from));
        let (weights, drawn) = choose|weights: Vec<S>, drawn: Option<usize>|
            {
                &&& weights@ == tree.child_priors(from)
                &&& #[trigger] is_weighted_index(weights, drawn)
                &&& nodes[j] == tree.nodes[from].children[sample_of(weights.len() as int, drawn) as int]
            };
        let pick = sample_of(weights.len() as int, drawn) as int;
        assert(0 <= pick < tree.nodes[from].children.len());
        assert(from < tree.nodes[from].children[pick]);
    }

    /// A simulation ends below the root where the root has children and the
    /// scan of them finds one: it then adds a visit to the children of the
    /// root.
    pub proof fn lemma_simulation_leaves_root<P: Policy<S>>(
        &self,
        before: &Self,
        policy: P,
        c: S,
        max_expand_depth: usize,
        end: int,
    )
        requires
            before.wf(),
            self.is_simulation_of(before, policy, c, max_expand_depth, end),
            before.nodes[0].children.len() > 0,
            !before.is_next(0, c, None),
        ensures
            end != 0,
    {
        let (leaf, at_leaf, pending, grown, value) = choose|
            leaf: int,
            at_leaf: bool,
            pending: S,
            grown: Self,
            value: S,
        |
            {
                &&& #[trigger] before.is_selected(c, leaf, at_leaf)
                &&& #[trigger] call_ensures(E::reward, (&before.nodes[leaf].val.state,), pending)
                &&& if at_leaf {
                    grown.is_grown(before, policy, leaf, max_expand_depth, pending, end, value)
                } else {
                    grown == *before && end == leaf && value == pending
                }
                &&& #[trigger] self.is_backprop_of(&grown, end, value)
            };
        let path = choose|path: Seq<usize>| #[trigger]
            before.is_descent(c, path, at_leaf) && path.last() == leaf;
        assert(path.len() >= 2);
        before.lemma_descent_goes_down(c, path, at_leaf, path.len() - 1);
        assert(leaf > 0);
        if at_leaf {
            let (trees, nodes, values) = choose|trees: Seq<Self>, nodes: Seq<int>, values: Seq<S>| #[trigger]
                grown.is_growth(
                    before,
                    policy,
                    leaf,
                    max_expand_depth,
                    pending,
                    trees,
                    nodes,
                    values,
                    end,
                    value,
                );
            if trees.len() > 1 {
                grown.lemma_growth_goes_down(
                    before,
                    policy,
                    leaf,
                    max_expand_depth,
                    pending,
                    trees,
                    nodes,
                    values,
                    end,
                    value,
                    trees.len() - 1,
                );
            }
        }
    }

    /// An action for which the root has no child gets the weight zero.
    pub proof fn lemma_no_child_no_weight(&self, n_actions: usize, weights: Seq<S>, action: int)
        requires
            self.is_root_weights(n_actions, weights),
            0 <= action < n_actions,
            !self.has_kid_for(0, action),
        ensures
            is_zero(weights[action]),
    {
        assert(self.is_visit_weight(0, self.nodes[0].children.len() as int, action, weights[action]));
    }

    /// An action whose prior was not found above zero has no child under a
    /// node that was expanded by the priors, and so gets the weight zero
    /// under the root.
    pub proof fn lemma_no_prior_no_weight(
        &self,
        priors: Seq<S>,
        n_actions: usize,
        weights: Seq<S>,
        action: int,
    )
        requires
            self.is_expanded_by(0, priors),
            self.is_root_weights(n_actions, weights),
            0 <= action < n_actions,
            0 <= action < priors.len() ==> !is_positive(priors[action]),
        ensures
            !self.has_kid_for(0, action),
            is_zero(weights[action]),
    {
        if self.has_kid_for(0, action) {
            let k = choose|k: int|
                0 <= k < self.nodes[0].children.len() && #[trigger] self.child_has_action(0, k, action);
            assert(self.is_child_of_expansion(0, k, priors));
        }
        self.lemma_no_child_no_weight(n_actions, weights, action);
    }

    /// Where the visit counts of the first `upto` children of node `i` add
    /// up to nothing, none of these children was visited.
    pub proof fn lemma_no_visits_at_all(&self, i: int, upto: int)
        requires
            0 <= upto <= self.nodes[i].children.len(),
            self.child_visits(i, upto) <= 0,
        ensures
            forall|k: int|
                0 <= k < upto ==> self.nodes[(#[trigger] self.nodes[i].children[k]) as int].val.visit_count
                    == 0,
        decreases upto,
    {
        if upto > 0 {
            self.lemma_child_visits_not_negative(i, upto - 1);
            self.lemma_no_visits_at_all(i, upto - 1);
        }
    }

    /// Visit counts add up to no less than nothing.
    pub proof fn lemma_child_visits_not_negative(&self, i: int, upto: int)
        ensures
            self.child_visits(i, upto) >= 0,
        decreases upto,
    {
        if upto > 0 {
            self.lemma_child_visits_not_negative(i, upto - 1);
        }
    }

    /// Where no simulation ended below the root, as after a search without
    /// simulations, every weight is the number zero or the count zero.
    pub proof fn lemma_unvisited_root_weights(&self, n_actions: usize, weights: Seq<S>, action: int)
        requires
            self.is_root_weights(n_actions, weights),
            self.root_child_visits() <= 0,
            0 <= action < n_actions,
        ensures
            is_zero(weights[action]) || is_count(0, weights[action]),
    {
        let n = self.nodes[0].children.len() as int;
        self.lemma_no_visits_at_all(0, n);
        assert(self.is_visit_weight(0, n, action, weights[action]));
        if !is_zero(weights[action]) {
            let k = choose|k: int|
                {
                    &&& 0 <= k < n
                    &&& #[trigger] self.child_has_action(0, k, action)
                    &&& is_count(
                        self.nodes[self.nodes[0].children[k] as int].val.visit_count as usize,
                        weights[action],
                    )
                };
            assert(self.nodes[self.nodes[0].children[k] as int].val.visit_count == 0);
        }
    }
}

/// Where the root has children in every tree of a search and every scan of
/// them finds one, every simulation ends below the root: the visit counts of
/// the root's children then add up to the number of simulations.
pub proof fn lemma_every_simulation_counts<E: Env<S>, P: Policy<S>, S: Scalar>(
    env: E,
    policy: P,
    c: S,
    max_expand_depth: usize,
    trees: Seq<MCTSTree<E, S>>,
    ends: Seq<int>,
)
    requires
        is_search(env, policy, c, max_expand_depth, trees, ends),
        trees.last().root_child_visits() == below_root(ends),
        forall|k: int|
            0 <= k < ends.len() ==> (#[trigger] trees[k]).nodes[0].children.len() > 0
                && !trees[k].is_next(0, c, None),
    ensures
        trees.last().root_child_visits() == ends.len(),
{
    assert forall|k: int| 0 <= k < ends.len() implies #[trigger] ends[k] != 0 by {
        assert(trees[k].search_wf());
        assert(trees[k + 1].is_simulation_of(&trees[k], policy, c, max_expand_depth, ends[k]));
        trees[k + 1].lemma_simulation_leaves_root(&trees[k], policy, c, max_expand_depth, ends[k]);
    }
    lemma_all_below_root(ends);
}

/// Runs a Monte-Carlo tree search from the state `env` and returns, for each
/// action, the share of the root's visits that went to it.
///
/// The tree starts with the root, visited once, and one child for every
/// action to which `policy` gives a probability above zero. Each of the
/// `num_mcts_searches` simulations descends from the root to a leaf by the
/// greatest upper confidence bound with exploration constant `c`, then grows
/// the tree below that leaf by up to `max_expand_depth` nodes, each drawn at
/// random by the priors of the policy, and stops early at a terminal state
/// or at a state for which the policy proposes no action. The value of the
/// simulation is the reward of the state it stopped at or, where the growth
/// budget ran out, the policy's estimate for the last expanded state; where
/// nothing may be grown, it is the reward of the leaf. It is recorded on
/// every node between the node reached and the root.
///
/// A descent that meets a node none of whose children has a bound that
/// compares ends at that node, which is not grown: the simulation records
/// the reward of its state.
///
/// The search cannot count more visits than a `u32` holds, which bounds the
/// number of simulations.
pub fn predict_probs_mcts<E: Env<S>, P: Policy<S>, S: Scalar>(
    env: E,
    policy: &P,
    num_mcts_searches: usize,
    c: S,
    max_expand_depth: usize,
) -> (probs: Vec<S>)
    requires
        env.valid(),
        num_mcts_searches < u32::MAX,
    ensures
        is_search_result(env, *policy, num_mcts_searches, c, max_expand_depth, probs@),
{
    let root_state = env.snapshot();
    let obs = root_state.observe();
    let masks = root_state.masks();
    let ghost obs_seen = obs;
    let ghost masks_seen = masks;
    let (action_probs, estimate) = policy.full_predict(obs, masks);
    let ghost priors = action_probs@;
    let mut tree: MCTSTree<E, S> = Tree::new();
    let root_idx = tree.new_node(
        MCTSNode {
            state: root_state,
            action_taken: None,
            prior: S::zero(),
            visit_count: 1,
            value_sum: S::zero(),
        },
    );
    let ghost seed = tree;
    proof {
        assert(tree.nodes[0].val.state.valid());
        assert(tree.search_wf());
        assert(call_ensures(
            P::full_predict,
            (policy, obs_seen, masks_seen),
            (action_probs, estimate),
        ));
        assert(seed.is_prediction(*policy, 0, priors, estimate));
    }
    tree.expand(root_idx, action_probs);
    proof {
        assert forall|i: int| 0 < i < tree.nodes.len() implies (#[trigger] tree.nodes[i]).parent is Some
            && tree.nodes[i].val.action_taken is Some by {
            assert(tree.is_fresh_child(i, 0, priors));
        }
        assert forall|i: int| 0 <= i < tree.nodes.len() implies (#[trigger] tree.nodes[i]).val.visit_count
            <= 1 by {
            if i > 0 {
                assert(tree.is_fresh_child(i, 0, priors));
            }
        }
        assert(tree.is_expansion_of(&seed, 0, priors));
        assert(tree.is_start(env, *policy));
        assert(seed.is_grown_by(*policy)) by {
            assert(seed.is_policy_node(*policy, 0));
        }
        tree.lemma_expansion_keeps_policy_nodes(&seed, *policy, 0, priors, estimate);
    }
    proof {
        let kids = tree.nodes[0].children@;
        assert forall|k: int| 0 <= k < kids.len() implies tree.nodes[(#[trigger] tree.nodes[0].children[k]) as int].val.visit_count
            == 0 by {
            assert(kids[k] == 1 + k);
            assert(tree.is_fresh_child(1 + k, 0, priors));
        }
        tree.lemma_no_child_visits(0, kids.len() as int);
    }
    let ghost mut trees: Seq<MCTSTree<E, S>> = seq![tree];
    let ghost mut ends: Seq<int> = Seq::empty();
    let mut done: usize = 0;
    while done < num_mcts_searches
        invariant
            done <= num_mcts_searches < u32::MAX,
            root_idx == 0,
            tree.search_wf(),
            tree.is_rooted(),
            tree.is_grown_by(*policy),
            tree.nodes[0].val.visit_count == done + 1,
            tree.visits_at_most(done + 1),
            trees.len() == done + 1,
            ends.len() == done,
            trees.last() == tree,
            is_search(env, *policy, c, max_expand_depth, trees, ends),
            tree.root_child_visits() == below_root(ends),
        decreases num_mcts_searches - done,
    {
        let ghost before = tree;
        let ghost old_trees = trees;
        let ghost old_ends = ends;
        let end = tree.simulate(policy, c, max_expand_depth);
        proof {
            ends = ends.push(end as int);
            assert(ends.drop_last() =~= old_ends);
            assert forall|i: int| 0 <= i < tree.nodes.len() implies (#[trigger] tree.nodes[i]).val.visit_count
                <= done + 2 by {
                if i < before.nodes.len() {
                    assert(before.nodes[i].val.visit_count <= done + 1);
                }
            }
            trees = trees.push(tree);
            assert forall|k: int| 0 <= k < ends.len() implies (#[trigger] trees[k + 1]).is_simulation_of(
                &trees[k],
                *policy,
                c,
                max_expand_depth,
                ends[k],
            ) by {
                if k < old_ends.len() {
                    assert(trees[k + 1] == old_trees[k + 1]);
                    assert(trees[k] == old_trees[k]);
                    assert(ends[k] == old_ends[k]);
                } else {
                    assert(trees[k] == before);
                }
            }
            assert forall|k: int| 0 <= k < trees.len() implies (#[trigger] trees[k]).search_wf()
                && trees[k].is_rooted() && trees[k].is_grown_by(*policy) by {
                if k < old_trees.len() {
                    assert(trees[k] == old_trees[k]);
                }
            }
            assert(trees[0] == old_trees[0]);
        }
        done += 1;
    }
    let n_actions = env.num_actions();
    let weights = tree.visit_weights(root_idx, n_actions);
    let probs = normalized(weights);
    proof {
        assert(call_ensures(E::num_actions, (&env,), n_actions));
        assert(tree.is_root_weights(n_actions, weights@));
        assert(is_search(env, *policy, c, max_expand_depth, trees, ends));
        lemma_below_root_is_bounded(ends);
    }
    probs
}

} // verus!
