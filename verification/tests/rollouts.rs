use rand::distributions::Distribution;
use rand::Rng;
use twisterl::az::{collect_az, remaining_values, AZCollector};
use twisterl::collector::{merge, CollectedData, Collector, MergeError};
use twisterl::columns::NamedColumns;
use twisterl::env::{Env, Simulation};
use twisterl::evaluate::{evaluate, evaluate_episode, mean_outcome};
use twisterl::policy::{argmax, gumbel_shift, sample, sample_from_logits, Policy};
use twisterl::ppo::{collect_ppo, gae, PPOCollector};
use twisterl::scalar::{sum, Scalar};
use twisterl::search::{normalized, predict_probs_mcts, MCTSNode, MCTSTree};
use twisterl::solve::{better, single_solve, solve, success_flag};
use twisterl::tree::Tree;

/// Single-precision floating point as the engine's number type.
#[derive(Clone, Copy, Debug, PartialEq, PartialOrd)]
struct F(f32);

impl Scalar for F {
    fn zero() -> Self {
        F(0.0)
    }
    fn one() -> Self {
        F(1.0)
    }
    fn neg_infinity() -> Self {
        F(f32::NEG_INFINITY)
    }
    fn from_usize(n: usize) -> Self {
        F(n as f32)
    }
    fn plus(self, other: Self) -> Self {
        F(self.0 + other.0)
    }
    fn minus(self, other: Self) -> Self {
        F(self.0 - other.0)
    }
    fn times(self, other: Self) -> Self {
        F(self.0 * other.0)
    }
    fn over(self, other: Self) -> Self {
        F(self.0 / other.0)
    }
    fn negated(self) -> Self {
        F(-self.0)
    }
    fn sqrt(self) -> Self {
        F(self.0.sqrt())
    }
    fn ln(self) -> Self {
        F(self.0.ln())
    }
    fn abs(self) -> Self {
        F(self.0.abs())
    }
    fn exceeds(self, other: Self) -> bool {
        self.0 > other.0
    }
    fn at_most(self, other: Self) -> bool {
        self.0 <= other.0
    }
    fn equals(self, other: Self) -> bool {
        self.0 == other.0
    }
    fn random_unit() -> Self {
        F(rand::thread_rng().gen::<f32>())
    }
    fn weighted_index(weights: &Vec<Self>) -> Option<usize> {
        let plain: Vec<f32> = weights.iter().map(|w| w.0).collect();
        match rand::distributions::WeightedIndex::new(&plain) {
            Ok(dist) => Some(dist.sample(&mut rand::thread_rng())),
            Err(_) => None,
        }
    }
}

fn fs(values: &[f32]) -> Vec<F> {
    values.iter().map(|&v| F(v)).collect()
}

/// A counter that starts at 0 and is terminal once it has been stepped.
#[derive(Clone)]
struct DummyEnv {
    step: usize,
}

impl DummyEnv {
    fn new() -> Self {
        Self { step: 0 }
    }
}

impl Simulation for DummyEnv {
    fn valid(&self) -> bool {
        true
    }
    fn horizon(&self) -> usize {
        1usize.saturating_sub(self.step)
    }
    fn same_state(&self, other: &Self) -> bool {
        self.step == other.step
    }
    fn steps_to(&self, _action: usize, next: &Self) -> bool {
        next.step == self.step + 1
    }
    fn resets_to(&self, next: &Self) -> bool {
        next.step == 0
    }
    fn num_actions(&self) -> usize {
        1
    }
    fn obs_shape(&self) -> Vec<usize> {
        vec![1]
    }
    fn set_state(&mut self, state: Vec<i64>) {
        self.step = state[0] as usize;
    }
    fn reset(&mut self) {
        self.step = 0;
    }
    fn step(&mut self, _action: usize) {
        self.step += 1;
    }
    fn masks(&self) -> Vec<bool> {
        vec![true]
    }
    fn is_final(&self) -> bool {
        self.step >= 1
    }
    fn observe(&self) -> Vec<usize> {
        vec![0]
    }
    fn snapshot(&self) -> Self {
        self.clone()
    }
}

impl Env<F> for DummyEnv {
    fn reward(&self) -> F {
        F(1.0)
    }
}

/// One action with the score 1 and the value 1, as a network of one unit
/// weight would give: `predict` exponentiates and normalises the score.
struct DummyPolicy;

impl Policy<F> for DummyPolicy {
    fn predict(&self, _obs: Vec<usize>, masks: Vec<bool>) -> (Vec<F>, F) {
        let exp: Vec<f32> = masks.iter().map(|&m| if m { 1.0f32.exp() } else { 0.0 }).collect();
        let total: f32 = exp.iter().sum();
        (exp.iter().map(|&v| F(v / (total + 0.000001))).collect(), F(1.0))
    }
    fn forward(&self, _obs: Vec<usize>, masks: Vec<bool>) -> (Vec<F>, F) {
        (masks.iter().map(|&m| if m { F(1.0) } else { F(-1e10) }).collect(), F(1.0))
    }
    fn full_predict(&self, obs: Vec<usize>, masks: Vec<bool>) -> (Vec<F>, F) {
        self.predict(obs, masks)
    }
}

#[test]
fn test_merge_collected_data() {
    let d1 = CollectedData::new(vec![vec![0]], vec![vec![0.1]], vec![0.2], vec![0.3], vec![1]);
    let d2 = CollectedData::new(vec![vec![1]], vec![vec![0.4]], vec![0.5], vec![0.6], vec![0]);

    let merged = merge(vec![d1, d2]).unwrap();
    assert_eq!(merged.obs.len(), 2);
    assert_eq!(merged.logits.len(), 2);
    assert_eq!(merged.actions, vec![0, 1]);
}

#[test]
fn test_azcollector_collect() {
    let env = DummyEnv::new();
    let policy = DummyPolicy;
    let collector = AZCollector::new(1, 1, F(1.0), 1, 1);
    let data = collector.collect(&env, &policy).unwrap();
    assert_eq!(data.obs.len(), 2);
    assert!(data.additional_data.contains_key("remaining_values"));
}

#[test]
fn test_ppocollector_collect() {
    let env = DummyEnv::new();
    let policy = DummyPolicy;
    let collector = PPOCollector::new(1, F(0.9), F(0.95), 1);
    let data = collector.collect(&env, &policy).unwrap();
    assert_eq!(data.obs.len(), 2);
    assert!(data.additional_data.contains_key("rets"));
}

/// One action, terminal from the start, reward 1 in every state.
#[derive(Clone)]
struct TerminalEnv;

impl Simulation for TerminalEnv {
    fn valid(&self) -> bool {
        true
    }
    fn horizon(&self) -> usize {
        0
    }
    fn same_state(&self, _other: &Self) -> bool {
        true
    }
    fn steps_to(&self, _action: usize, _next: &Self) -> bool {
        true
    }
    fn resets_to(&self, _next: &Self) -> bool {
        true
    }
    fn num_actions(&self) -> usize {
        1
    }
    fn obs_shape(&self) -> Vec<usize> {
        vec![1]
    }
    fn set_state(&mut self, _state: Vec<i64>) {}
    fn reset(&mut self) {}
    fn step(&mut self, _action: usize) {}
    fn is_final(&self) -> bool {
        true
    }
    fn observe(&self) -> Vec<usize> {
        vec![0]
    }
    fn snapshot(&self) -> Self {
        TerminalEnv
    }
}

impl Env<F> for TerminalEnv {
    fn reward(&self) -> F {
        F(1.0)
    }
}

/// A walk along a line of `len` cells; action 0 moves right, action 1 stays.
/// Terminal at the last cell, whose reward is `goal`; other cells pay `toll`.
#[derive(Clone)]
struct LineEnv {
    at: usize,
    len: usize,
    toll: f32,
    goal: f32,
}

impl Simulation for LineEnv {
    fn valid(&self) -> bool {
        self.at < self.len
    }
    fn horizon(&self) -> usize {
        self.len - 1 - self.at
    }
    fn same_state(&self, other: &Self) -> bool {
        self.at == other.at
    }
    fn steps_to(&self, _action: usize, next: &Self) -> bool {
        next.at == self.at + 1
    }
    fn resets_to(&self, next: &Self) -> bool {
        next.at == 0 && next.len == self.len
    }
    fn num_actions(&self) -> usize {
        2
    }
    fn obs_shape(&self) -> Vec<usize> {
        vec![self.len]
    }
    fn set_state(&mut self, state: Vec<i64>) {
        self.at = state[0] as usize;
    }
    fn reset(&mut self) {
        self.at = 0;
    }
    fn step(&mut self, _action: usize) {
        self.at += 1;
    }
    fn is_final(&self) -> bool {
        self.at + 1 >= self.len
    }
    fn observe(&self) -> Vec<usize> {
        vec![self.at]
    }
    fn snapshot(&self) -> Self {
        self.clone()
    }
}

impl Env<F> for LineEnv {
    fn reward(&self) -> F {
        if self.at + 1 >= self.len {
            F(self.goal)
        } else {
            F(self.toll)
        }
    }
}

/// Fixed scores and a fixed value, whatever the state.
struct FixedPolicy {
    scores: Vec<f32>,
    value: f32,
}

impl Policy<F> for FixedPolicy {
    fn predict(&self, _obs: Vec<usize>, _masks: Vec<bool>) -> (Vec<F>, F) {
        (fs(&self.scores), F(self.value))
    }
    fn forward(&self, _obs: Vec<usize>, _masks: Vec<bool>) -> (Vec<F>, F) {
        (fs(&self.scores), F(self.value))
    }
    fn full_predict(&self, _obs: Vec<usize>, _masks: Vec<bool>) -> (Vec<F>, F) {
        (fs(&self.scores), F(self.value))
    }
}

fn node(state: DummyEnv, action: Option<usize>, prior: f32, visits: u32, value_sum: f32) -> MCTSNode<DummyEnv, F> {
    MCTSNode { state, action_taken: action, prior: F(prior), visit_count: visits, value_sum: F(value_sum) }
}

// ---- numbers -------------------------------------------------------------

#[test]
fn sum_adds_from_zero_in_order() {
    assert_eq!(sum(&fs(&[])), F(0.0));
    assert_eq!(sum(&fs(&[1.5, 2.25, -0.75])), F(3.0));
}

// ---- picking an action -----------------------------------------------------

#[test]
fn argmax_returns_first_greatest() {
    assert_eq!(argmax(&fs(&[])), 0);
    assert_eq!(argmax(&fs(&[4.0])), 0);
    assert_eq!(argmax(&fs(&[1.0, 3.0, 2.0])), 1);
    assert_eq!(argmax(&fs(&[2.0, 5.0, 5.0, 1.0])), 1);
    assert_eq!(argmax(&fs(&[-3.0, -1.0, -2.0])), 1);
}

#[test]
fn argmax_never_moves_to_a_value_that_does_not_compare() {
    assert_eq!(argmax(&fs(&[1.0, f32::NAN, 2.0])), 2);
    assert_eq!(argmax(&fs(&[f32::NAN, 1.0, 2.0])), 0);
    assert_eq!(argmax(&fs(&[1.0, f32::NAN])), 0);
}

#[test]
fn sample_falls_back_to_first_position() {
    assert_eq!(sample(&fs(&[])), 0);
    assert_eq!(sample(&fs(&[0.0, 0.0, 0.0])), 0);
    assert_eq!(sample(&fs(&[0.5, -1.0])), 0);
    assert_eq!(sample(&fs(&[0.5, f32::NAN])), 0);
}

#[test]
fn sample_draws_where_the_weight_is() {
    for _ in 0..50 {
        assert_eq!(sample(&fs(&[0.0, 0.0, 1.0])), 2);
        assert_eq!(sample(&fs(&[0.0, 0.25, 0.0, 0.0])), 1);
        let pick = sample(&fs(&[0.3, 0.0, 0.7]));
        assert!(pick == 0 || pick == 2);
    }
}

#[test]
fn sample_reaches_every_weighted_position() {
    let mut seen = [false; 2];
    for _ in 0..400 {
        seen[sample(&fs(&[0.5, 0.5]))] = true;
    }
    assert_eq!(seen, [true, true]);
}

#[test]
fn sample_from_logits_stays_in_range_and_avoids_masked_scores() {
    assert_eq!(sample_from_logits(&fs(&[])), 0);
    assert_eq!(sample_from_logits(&fs(&[0.3])), 0);
    for _ in 0..100 {
        assert_eq!(sample_from_logits(&fs(&[-1e10, 1.0, -1e10])), 1);
        assert!(sample_from_logits(&fs(&[0.0, 0.0, 0.0, 0.0])) < 4);
    }
}

#[test]
fn sample_from_logits_reaches_every_position_of_equal_score() {
    let mut seen = [false; 3];
    for _ in 0..600 {
        seen[sample_from_logits(&fs(&[0.0, 0.0, 0.0]))] = true;
    }
    assert_eq!(seen, [true, true, true]);
}

#[test]
fn gumbel_shift_moves_the_score_by_a_finite_amount() {
    let mut moved = false;
    for _ in 0..20 {
        let shifted = gumbel_shift(F(2.0));
        if shifted.0.is_finite() && shifted.0 != 2.0 {
            moved = true;
        }
    }
    assert!(moved);
}

// ---- the search tree -------------------------------------------------------

#[test]
fn ucb_adds_mean_value_and_exploration_bonus() {
    let parent = node(DummyEnv::new(), None, 0.0, 4, 0.0);
    let child = node(DummyEnv::new(), Some(0), 0.25, 1, 0.5);
    // 0.5 / 1 + 2 * (sqrt(4) / (1 + 1)) * 0.25
    assert_eq!(parent.ucb(&child, F(2.0)), F(1.0));
    let fresh = node(DummyEnv::new(), Some(1), 0.5, 0, 7.0);
    // never visited: mean value 0; 1 * (sqrt(4) / (0 + 1)) * 0.5
    assert_eq!(parent.ucb(&fresh, F(1.0)), F(1.0));
    let seen = node(DummyEnv::new(), Some(1), 0.0, 3, 1.5);
    assert_eq!(parent.ucb(&seen, F(1.0)), F(0.5));
}

fn small_tree() -> MCTSTree<DummyEnv, F> {
    let mut tree: MCTSTree<DummyEnv, F> = Tree::new();
    let root = tree.new_node(node(DummyEnv::new(), None, 0.0, 1, 0.0));
    let a = tree.add_child_to_node(node(DummyEnv::new(), Some(0), 0.5, 0, 0.0), root);
    let _b = tree.add_child_to_node(node(DummyEnv::new(), Some(1), 0.5, 0, 0.0), root);
    let _c = tree.add_child_to_node(node(DummyEnv::new(), Some(0), 1.0, 0, 0.0), a);
    tree
}

#[test]
fn backpropagate_updates_the_path_to_the_root_only() {
    let mut tree = small_tree();
    tree.backpropagate(3, F(1.5));
    let visits: Vec<u32> = tree.nodes.iter().map(|n| n.val.visit_count).collect();
    let sums: Vec<F> = tree.nodes.iter().map(|n| n.val.value_sum).collect();
    assert_eq!(visits, vec![2, 1, 0, 1]);
    assert_eq!(sums, fs(&[1.5, 1.5, 0.0, 1.5]));
    tree.backpropagate(2, F(-0.5));
    let visits: Vec<u32> = tree.nodes.iter().map(|n| n.val.visit_count).collect();
    let sums: Vec<F> = tree.nodes.iter().map(|n| n.val.value_sum).collect();
    assert_eq!(visits, vec![3, 1, 1, 1]);
    assert_eq!(sums, fs(&[1.0, 1.5, -0.5, 1.5]));
    assert_eq!(tree.nodes[0].children, vec![1, 2]);
    assert_eq!(tree.nodes[3].parent, Some(1));
}

#[test]
fn expand_adds_a_child_for_each_positive_prior() {
    let mut tree: MCTSTree<DummyEnv, F> = Tree::new();
    let root = tree.new_node(node(DummyEnv { step: 5 }, None, 0.0, 1, 0.0));
    tree.expand(root, fs(&[0.0, 0.7, -1.0, 0.3]));
    assert_eq!(tree.nodes.len(), 3);
    assert_eq!(tree.nodes[root].children, vec![1, 2]);
    assert_eq!(tree.nodes[1].val.action_taken, Some(1));
    assert_eq!(tree.nodes[2].val.action_taken, Some(3));
    assert_eq!(tree.nodes[1].val.prior, F(0.7));
    assert_eq!(tree.nodes[2].val.prior, F(0.3));
    for child in 1..3 {
        assert_eq!(tree.nodes[child].parent, Some(root));
        assert!(tree.nodes[child].children.is_empty());
        assert_eq!(tree.nodes[child].val.visit_count, 0);
        assert_eq!(tree.nodes[child].val.value_sum, F(0.0));
        assert_eq!(tree.nodes[child].val.state.step, 6);
    }
    assert_eq!(tree.nodes[root].val.state.step, 5);
    assert_eq!(tree.nodes[root].val.visit_count, 1);
}

#[test]
fn expand_without_positive_prior_adds_nothing() {
    let mut tree: MCTSTree<DummyEnv, F> = Tree::new();
    let root = tree.new_node(node(DummyEnv::new(), None, 0.0, 1, 0.0));
    tree.expand(root, fs(&[0.0, -0.1]));
    tree.expand(root, fs(&[]));
    assert_eq!(tree.nodes.len(), 1);
    assert!(tree.nodes[root].children.is_empty());
}

#[test]
fn next_picks_the_first_child_with_the_greatest_bound() {
    let mut tree: MCTSTree<DummyEnv, F> = Tree::new();
    let root = tree.new_node(node(DummyEnv::new(), None, 0.0, 1, 0.0));
    tree.add_child_to_node(node(DummyEnv::new(), Some(0), 0.2, 0, 0.0), root);
    tree.add_child_to_node(node(DummyEnv::new(), Some(1), 0.6, 0, 0.0), root);
    tree.add_child_to_node(node(DummyEnv::new(), Some(2), 0.6, 0, 0.0), root);
    assert_eq!(tree.next(root, F(1.0)), Some(2));
    // a visited child with a high mean value wins over the priors
    tree.nodes[1].val.visit_count = 1;
    tree.nodes[1].val.value_sum = F(5.0);
    assert_eq!(tree.next(root, F(1.0)), Some(1));
}

#[test]
fn next_finds_no_child_where_no_bound_compares() {
    let mut tree: MCTSTree<DummyEnv, F> = Tree::new();
    let root = tree.new_node(node(DummyEnv::new(), None, 0.0, 1, 0.0));
    tree.add_child_to_node(node(DummyEnv::new(), Some(0), f32::NAN, 0, 0.0), root);
    assert_eq!(tree.next(root, F(1.0)), None);
}

#[test]
fn next_sample_draws_a_child_by_its_prior() {
    let mut tree: MCTSTree<DummyEnv, F> = Tree::new();
    let root = tree.new_node(node(DummyEnv::new(), None, 0.0, 1, 0.0));
    tree.add_child_to_node(node(DummyEnv::new(), Some(0), 0.0, 0, 0.0), root);
    tree.add_child_to_node(node(DummyEnv::new(), Some(1), 1.0, 0, 0.0), root);
    for _ in 0..30 {
        assert_eq!(tree.next_sample(root), 2);
    }
    tree.nodes[2].val.prior = F(0.0);
    assert_eq!(tree.next_sample(root), 1);
}

#[test]
fn visit_weights_places_counts_at_the_actions() {
    let mut tree = small_tree();
    tree.nodes[1].val.visit_count = 3;
    tree.nodes[2].val.visit_count = 5;
    assert_eq!(tree.visit_weights(0, 2), fs(&[3.0, 5.0]));
    assert_eq!(tree.visit_weights(0, 4), fs(&[3.0, 5.0, 0.0, 0.0]));
    assert_eq!(tree.visit_weights(0, 1), fs(&[3.0]));
    assert_eq!(tree.visit_weights(2, 3), fs(&[0.0, 0.0, 0.0]));
    assert_eq!(tree.visit_weights(0, 0), fs(&[]));
}

#[test]
fn normalized_divides_by_the_sum_or_falls_back_to_uniform() {
    assert_eq!(normalized(fs(&[1.0, 3.0])), fs(&[0.25, 0.75]));
    assert_eq!(normalized(fs(&[0.0, 2.0, 0.0])), fs(&[0.0, 1.0, 0.0]));
    assert_eq!(normalized(fs(&[0.0, 0.0])), fs(&[0.5, 0.5]));
    assert_eq!(normalized(fs(&[0.0, 0.0, 0.0, 0.0])), fs(&[0.25, 0.25, 0.25, 0.25]));
    assert_eq!(normalized(fs(&[])), fs(&[]));
}

#[test]
fn search_of_terminal_single_action_state_returns_one() {
    let policy = DummyPolicy;
    for depth in 1..4 {
        let probs = predict_probs_mcts(TerminalEnv, &policy, 1, F(1.0), depth);
        assert_eq!(probs, fs(&[1.0]));
    }
    assert_eq!(predict_probs_mcts(TerminalEnv, &policy, 7, F(1.0), 2), fs(&[1.0]));
}

#[test]
fn search_without_simulations_is_uniform() {
    let policy = FixedPolicy { scores: vec![0.5, 0.5], value: 0.0 };
    let env = LineEnv { at: 0, len: 3, toll: 0.0, goal: 1.0 };
    assert_eq!(predict_probs_mcts(env, &policy, 0, F(1.0), 1), fs(&[0.5, 0.5]));
}

#[test]
fn search_without_growth_uses_the_reward_of_the_leaf() {
    let policy = FixedPolicy { scores: vec![1.0, 0.0], value: 9.0 };
    let env = LineEnv { at: 0, len: 4, toll: 0.0, goal: 1.0 };
    let probs = predict_probs_mcts(env, &policy, 5, F(1.0), 0);
    assert_eq!(probs, fs(&[1.0, 0.0]));
}

#[test]
fn search_returns_a_distribution_over_the_actions() {
    let policy = FixedPolicy { scores: vec![0.25, 0.75], value: 0.5 };
    for searches in [1usize, 4, 16] {
        let env = LineEnv { at: 0, len: 5, toll: -0.1, goal: 1.0 };
        let probs = predict_probs_mcts(env, &policy, searches, F(1.5), 2);
        assert_eq!(probs.len(), 2);
        let total: f32 = probs.iter().map(|p| p.0).sum();
        assert!((total - 1.0).abs() < 1e-5);
        assert!(probs.iter().all(|p| p.0 >= 0.0 && p.0 <= 1.0));
    }
}

#[test]
fn search_survives_a_policy_without_proposals() {
    let policy = FixedPolicy { scores: vec![0.0, 0.0], value: 0.5 };
    let env = LineEnv { at: 0, len: 5, toll: -0.1, goal: 1.0 };
    assert_eq!(predict_probs_mcts(env, &policy, 3, F(1.0), 2), fs(&[0.5, 0.5]));
}

// ---- solving ---------------------------------------------------------------

#[test]
fn success_flag_is_one_exactly_for_reward_one() {
    assert_eq!(success_flag(F(1.0)), F(1.0));
    assert_eq!(success_flag(F(0.99)), F(0.0));
    assert_eq!(success_flag(F(2.0)), F(0.0));
    assert_eq!(success_flag(F(-1.0)), F(0.0));
    assert_eq!(success_flag(F(f32::NAN)), F(0.0));
}

#[test]
fn single_solve_counts_every_state_once() {
    let policy = DummyPolicy;
    let mut env = DummyEnv::new();
    let ((success, total), path) = single_solve(&mut env, &policy, true, 0, F(1.0), 1);
    assert_eq!(success, F(1.0));
    assert_eq!(total, F(2.0));
    assert_eq!(path, vec![0]);
    assert_eq!(env.step, 1);
}

#[test]
fn single_solve_of_terminal_state_takes_no_action() {
    let policy = DummyPolicy;
    let mut env = TerminalEnv;
    let ((success, total), path) = single_solve(&mut env, &policy, false, 3, F(1.0), 1);
    assert_eq!((success, total), (F(1.0), F(1.0)));
    assert!(path.is_empty());
}

#[test]
fn single_solve_follows_the_greatest_score() {
    let policy = FixedPolicy { scores: vec![0.1, 0.9], value: 0.0 };
    let mut env = LineEnv { at: 0, len: 4, toll: -0.25, goal: 0.5 };
    let ((success, total), path) = single_solve(&mut env, &policy, true, 0, F(1.0), 1);
    assert_eq!(success, F(0.0));
    assert_eq!(total, F(-0.25));
    assert_eq!(path, vec![1, 1, 1]);
}

#[test]
fn single_solve_with_search_reaches_the_end() {
    let policy = FixedPolicy { scores: vec![0.5, 0.5], value: 0.0 };
    for deterministic in [true, false] {
        let mut env = LineEnv { at: 0, len: 3, toll: 0.0, goal: 1.0 };
        let ((success, total), path) = single_solve(&mut env, &policy, deterministic, 4, F(1.0), 2);
        assert_eq!((success, total), (F(1.0), F(1.0)));
        assert_eq!(path.len(), 2);
        assert!(path.iter().all(|&a| a < 2));
    }
}

#[test]
fn better_compares_success_before_reward() {
    assert!(better((F(1.0), F(-5.0)), (F(0.0), F(9.0))));
    assert!(!better((F(0.0), F(9.0)), (F(1.0), F(-5.0))));
    assert!(better((F(1.0), F(2.0)), (F(1.0), F(1.0))));
    assert!(!better((F(1.0), F(1.0)), (F(1.0), F(1.0))));
    assert!(!better((F(1.0), F(0.5)), (F(1.0), F(1.0))));
    assert!(better((F(0.0), F(-3.0)), (F(0.0), F(f32::NEG_INFINITY))));
    assert!(!better((F(f32::NAN), F(3.0)), (F(0.0), F(0.0))));
}

#[test]
fn solve_without_attempts_is_the_defeat() {
    let policy = DummyPolicy;
    let env = DummyEnv::new();
    let ((success, total), path) = solve(&env, &policy, true, 0, 0, F(1.0), 1);
    assert_eq!(success, F(0.0));
    assert_eq!(total, F(f32::NEG_INFINITY));
    assert!(path.is_empty());
}

#[test]
fn solve_keeps_the_best_attempt_and_leaves_the_state_alone() {
    let policy = DummyPolicy;
    let env = DummyEnv::new();
    let ((success, total), path) = solve(&env, &policy, false, 3, 0, F(1.0), 1);
    assert_eq!((success, total), (F(1.0), F(2.0)));
    assert_eq!(path, vec![0]);
    assert_eq!(env.step, 0);
    let line = LineEnv { at: 1, len: 4, toll: -0.5, goal: 0.0 };
    let policy = FixedPolicy { scores: vec![1.0, 0.0], value: 0.0 };
    let ((success, total), path) = solve(&line, &policy, true, 2, 0, F(1.0), 1);
    assert_eq!((success, total), (F(0.0), F(-1.0)));
    assert_eq!(path, vec![0, 0]);
    assert_eq!(line.at, 1);
}

// ---- evaluating --------------------------------------------------------------

#[test]
fn mean_outcome_divides_both_sums() {
    assert_eq!(mean_outcome(F(3.0), F(-6.0), 4), (F(0.75), F(-1.5)));
    assert_eq!(mean_outcome(F(1.0), F(2.0), 1), (F(1.0), F(2.0)));
}

#[test]
fn evaluate_episode_resets_before_solving() {
    let policy = DummyPolicy;
    let mut env = DummyEnv { step: 1 };
    let outcome = evaluate_episode(&mut env, &policy, true, 1, 0, F(1.0), 1);
    assert_eq!(outcome, (F(1.0), F(2.0)));
    assert_eq!(env.step, 0);
}

#[test]
fn evaluate_reports_success_rate_and_mean_reward() {
    let policy = DummyPolicy;
    let env = DummyEnv::new();
    assert_eq!(evaluate(&env, &policy, 5, true, 1, 0, 0, F(1.0), 1, 1), (F(1.0), F(2.0)));
    let line = LineEnv { at: 0, len: 3, toll: -0.5, goal: 0.25 };
    let policy = FixedPolicy { scores: vec![1.0, 0.0], value: 0.0 };
    assert_eq!(evaluate(&line, &policy, 4, true, 2, 0, 7, F(1.0), 1, 4), (F(0.0), F(-0.75)));
}

#[test]
fn evaluate_success_rate_lies_between_zero_and_one() {
    let policy = FixedPolicy { scores: vec![0.5, 0.5], value: 0.0 };
    for (goal, searches) in [(1.0f32, 1usize), (0.0, 1), (1.0, 0), (1.0, 3)] {
        let line = LineEnv { at: 0, len: 3, toll: 0.0, goal };
        let (rate, _) = evaluate(&line, &policy, 6, false, searches, 2, 0, F(1.0), 1, 1);
        assert!(rate.0 >= 0.0 && rate.0 <= 1.0);
    }
}

#[test]
fn deterministic_evaluation_without_search_repeats_itself() {
    let policy = FixedPolicy { scores: vec![0.3, 0.7], value: 0.1 };
    let line = LineEnv { at: 0, len: 6, toll: -0.3, goal: 1.0 };
    let first = evaluate(&line, &policy, 3, true, 2, 0, 0, F(1.0), 1, 1);
    for _ in 0..5 {
        let again = evaluate(&line, &policy, 3, true, 2, 0, 0, F(1.0), 1, 1);
        assert_eq!(again.0 .0.to_bits(), first.0 .0.to_bits());
        assert_eq!(again.1 .0.to_bits(), first.1 .0.to_bits());
    }
}

// ---- advantage estimates -----------------------------------------------------

#[test]
fn gae_of_a_single_step() {
    let (advs, rets) = gae(&fs(&[0.7]), &fs(&[0.2]), F(0.9), F(0.95));
    assert_eq!(advs, vec![F(0.7 - 0.2)]);
    assert_eq!(rets, vec![F(0.7)]);
}

#[test]
fn gae_of_two_steps() {
    let (r0, r1, v0, v1, gamma, lambda) = (0.3f32, 1.0f32, 0.5f32, 0.25f32, 0.9f32, 0.95f32);
    let (advs, rets) = gae(&fs(&[r0, r1]), &fs(&[v0, v1]), F(gamma), F(lambda));
    assert_eq!(rets[1], F(r1));
    assert_eq!(advs[1], F(r1 - v1));
    assert_eq!(rets[0], F(r0 + gamma * (v1 + lambda * (r1 - v1))));
    assert_eq!(advs[0], F((r0 + gamma * (v1 + lambda * (r1 - v1))) - v0));
    assert_eq!((advs.len(), rets.len()), (2, 2));
}

#[test]
fn gae_of_three_steps_with_round_numbers() {
    let (advs, rets) = gae(&fs(&[1.0, 2.0, 4.0]), &fs(&[0.0, 1.0, 2.0]), F(0.5), F(0.5));
    // last: ret 4, adv 2; middle: ret 2 + 0.5 * (2 + 0.5 * 2) = 3.5, adv 2.5;
    // first: ret 1 + 0.5 * (1 + 0.5 * 2.5) = 2.125, adv 2.125
    assert_eq!(rets, fs(&[2.125, 3.5, 4.0]));
    assert_eq!(advs, fs(&[2.125, 2.5, 2.0]));
}

#[test]
fn remaining_values_subtract_the_prefix_from_the_total() {
    assert_eq!(remaining_values(&fs(&[0.0, 1.0, 3.0]), F(3.5)), fs(&[3.5, 2.5, 0.5]));
    assert_eq!(remaining_values(&fs(&[]), F(3.5)), fs(&[]));
}

// ---- collected data ----------------------------------------------------------

#[test]
fn named_columns_behave_like_a_map() {
    let mut columns: NamedColumns<F> = NamedColumns::new();
    assert_eq!(columns.len(), 0);
    assert!(!columns.contains_key("advs"));
    assert_eq!(columns.get("advs"), None);
    assert_eq!(columns.insert("advs".to_string(), fs(&[1.0])), None);
    assert_eq!(columns.insert("rets".to_string(), fs(&[2.0, 3.0])), None);
    assert_eq!(columns.insert("advs".to_string(), fs(&[4.0])), Some(fs(&[1.0])));
    assert_eq!(columns.len(), 2);
    assert!(columns.contains_key("advs") && columns.contains_key("rets"));
    assert!(!columns.contains_key("adv"));
    assert_eq!(columns.get("advs"), Some(&fs(&[4.0])));
    columns.append(&"rets".to_string(), &fs(&[5.0]));
    columns.append(&"new".to_string(), &fs(&[6.0]));
    assert_eq!(columns.get("rets"), Some(&fs(&[2.0, 3.0, 5.0])));
    assert_eq!(columns.get("new"), Some(&fs(&[6.0])));
    assert_eq!(columns.position(&"new".to_string()), Some(2));
    assert_eq!(columns.position(&"old".to_string()), None);
}

#[test]
fn new_collected_data_has_no_derived_columns() {
    let data = CollectedData::new(vec![vec![3, 4]], vec![fs(&[0.5])], fs(&[1.0]), fs(&[2.0]), vec![7]);
    assert_eq!(data.obs, vec![vec![3, 4]]);
    assert_eq!(data.logits, vec![fs(&[0.5])]);
    assert_eq!(data.values, fs(&[1.0]));
    assert_eq!(data.rewards, fs(&[2.0]));
    assert_eq!(data.actions, vec![7]);
    assert_eq!(data.additional_data.len(), 0);
}

fn chunk(tag: usize, rows: usize, with_extra: bool) -> CollectedData<F> {
    let base = (tag * 10) as f32;
    let mut data = CollectedData::new(
        (0..rows).map(|r| vec![tag, r]).collect(),
        (0..rows).map(|r| fs(&[base, r as f32])).collect(),
        (0..rows).map(|r| F(base + r as f32)).collect(),
        (0..rows).map(|r| F(-(base + r as f32))).collect(),
        (0..rows).map(|r| tag * 100 + r).collect(),
    );
    data.additional_data.insert("advs".to_string(), (0..rows).map(|r| F(base + 0.5 + r as f32)).collect());
    if with_extra {
        data.additional_data.insert("extra".to_string(), fs(&[base]));
    }
    data
}

#[test]
fn merge_method_appends_every_column() {
    let mut first = chunk(1, 2, false);
    let second = chunk(2, 1, true);
    first.merge(&second);
    assert_eq!(first.obs, vec![vec![1, 0], vec![1, 1], vec![2, 0]]);
    assert_eq!(first.logits, vec![fs(&[10.0, 0.0]), fs(&[10.0, 1.0]), fs(&[20.0, 0.0])]);
    assert_eq!(first.values, fs(&[10.0, 11.0, 20.0]));
    assert_eq!(first.rewards, fs(&[-10.0, -11.0, -20.0]));
    assert_eq!(first.actions, vec![100, 101, 200]);
    assert_eq!(first.additional_data.get("advs"), Some(&fs(&[10.5, 11.5, 20.5])));
    assert_eq!(first.additional_data.get("extra"), Some(&fs(&[20.0])));
    assert_eq!(first.additional_data.len(), 2);
    // the other chunk is left as it was
    assert_eq!(second.actions, vec![200]);
    assert_eq!(second.additional_data.get("advs"), Some(&fs(&[20.5])));
}

#[test]
fn merge_of_no_chunks_fails() {
    let result: Result<CollectedData<F>, MergeError> = merge(Vec::new());
    assert!(matches!(result, Err(MergeError::NoChunks)));
    assert_eq!(
        MergeError::NoChunks.message(),
        "Something went wrong. No data in collected data chunks to merge. "
    );
}

#[test]
fn merge_of_one_chunk_is_that_chunk() {
    let merged = merge(vec![chunk(3, 2, true)]).unwrap();
    assert_eq!(merged.actions, vec![300, 301]);
    assert_eq!(merged.additional_data.get("extra"), Some(&fs(&[30.0])));
}

#[test]
fn merge_starts_with_the_last_chunk() {
    let merged = merge(vec![chunk(1, 1, false), chunk(2, 2, true), chunk(3, 1, false)]).unwrap();
    assert_eq!(merged.actions, vec![300, 100, 200, 201]);
    assert_eq!(merged.values, fs(&[30.0, 10.0, 20.0, 21.0]));
    assert_eq!(merged.additional_data.get("advs"), Some(&fs(&[30.5, 10.5, 20.5, 21.5])));
    assert_eq!(merged.additional_data.get("extra"), Some(&fs(&[20.0])));
}

fn sorted(mut actions: Vec<usize>) -> Vec<usize> {
    actions.sort();
    actions
}

#[test]
fn merge_in_parts_keeps_the_same_rows() {
    let all = || vec![chunk(1, 2, false), chunk(2, 1, true), chunk(3, 3, false), chunk(4, 1, true)];
    let at_once = merge(all()).unwrap();
    assert_eq!(at_once.actions.len(), 7);
    assert_eq!(at_once.obs.len(), 7);
    for split in 1..4 {
        let mut first = all();
        let second = first.split_off(split);
        let parts = merge(vec![merge(first).unwrap(), merge(second).unwrap()]).unwrap();
        assert_eq!(sorted(parts.actions.clone()), sorted(at_once.actions.clone()));
        assert_eq!(parts.obs.len(), 7);
        assert_eq!(parts.logits.len(), 7);
        let mut a: Vec<u32> = parts.values.iter().map(|v| v.0.to_bits()).collect();
        let mut b: Vec<u32> = at_once.values.iter().map(|v| v.0.to_bits()).collect();
        a.sort();
        b.sort();
        assert_eq!(a, b);
        assert_eq!(parts.additional_data.get("advs").unwrap().len(), 7);
        assert_eq!(parts.additional_data.get("extra").unwrap().len(), 2);
    }
}

// ---- collectors ----------------------------------------------------------------

#[test]
fn az_episode_of_one_step_has_two_rows() {
    let data = collect_az(&DummyEnv::new(), &DummyPolicy, 1, 1, F(1.0), 1, 1).unwrap();
    assert_eq!(data.obs, vec![vec![0], vec![0]]);
    assert_eq!(data.logits, vec![fs(&[1.0]), fs(&[1.0])]);
    assert!(data.values.is_empty() && data.rewards.is_empty() && data.actions.is_empty());
    assert_eq!(data.additional_data.len(), 1);
    assert_eq!(data.additional_data.get("remaining_values"), Some(&fs(&[2.0, 1.0])));
}

#[test]
fn az_remaining_values_are_rewards_to_go() {
    let collector = AZCollector::new(1, 2, F(1.0), 1, 1);
    let policy = FixedPolicy { scores: vec![0.5, 0.5], value: 0.0 };
    let env = LineEnv { at: 2, len: 4, toll: -0.5, goal: 1.0 };
    let data = collector.single_collect(&env, &policy);
    assert_eq!(data.obs, vec![vec![0], vec![1], vec![2], vec![3]]);
    assert_eq!(data.additional_data.get("remaining_values"), Some(&fs(&[-0.5, 0.0, 0.5, 1.0])));
    assert_eq!(data.logits.len(), 4);
    assert_eq!(env.at, 2);
}

#[test]
fn az_collection_joins_the_episodes() {
    let collector = AZCollector::new(3, 1, F(1.0), 1, 1);
    let data = collector.collect(&DummyEnv::new(), &DummyPolicy).unwrap();
    assert_eq!(data.obs.len(), 6);
    assert_eq!(data.logits.len(), 6);
    assert_eq!(
        data.additional_data.get("remaining_values"),
        Some(&fs(&[2.0, 1.0, 2.0, 1.0, 2.0, 1.0]))
    );
}

#[test]
fn collection_without_episodes_fails() {
    let az = AZCollector::new(0, 1, F(1.0), 1, 1);
    assert!(matches!(az.collect(&DummyEnv::new(), &DummyPolicy), Err(MergeError::NoChunks)));
    let ppo = PPOCollector::new(0, F(0.9), F(0.95), 1);
    assert!(matches!(ppo.collect(&DummyEnv::new(), &DummyPolicy), Err(MergeError::NoChunks)));
    assert!(collect_ppo(&DummyEnv::new(), &DummyPolicy, 0, F(0.9), F(0.95), 1).is_err());
    assert!(collect_az(&DummyEnv::new(), &DummyPolicy, 0, 1, F(1.0), 1, 1).is_err());
}

#[test]
fn collectors_keep_their_settings() {
    let az = AZCollector::new(3, 4, F(1.5), 6, 7);
    assert_eq!((az.num_episodes, az.num_mcts_searches, az.c, az.max_expand_depth, az.num_cores), (3, 4, F(1.5), 6, 7));
    let ppo = PPOCollector::new(2, F(0.9), F(0.95), 8);
    assert_eq!((ppo.num_episodes, ppo.gamma, ppo.lambda, ppo.num_cores), (2, F(0.9), F(0.95), 8));
}

#[test]
fn ppo_step_data_reads_the_state() {
    let collector = PPOCollector::new(1, F(0.9), F(0.95), 1);
    let env = LineEnv { at: 1, len: 3, toll: -0.5, goal: 1.0 };
    let policy = FixedPolicy { scores: vec![-1e10, 2.0], value: 0.75 };
    let (obs, logits, action, value, reward) = collector.get_step_data(&env, &policy);
    assert_eq!(obs, vec![1]);
    assert_eq!(logits, fs(&[-1e10, 2.0]));
    assert_eq!(action, 1);
    assert_eq!(value, F(0.75));
    assert_eq!(reward, F(-0.5));
}

#[test]
fn ppo_episode_of_one_step_has_two_rows() {
    let (gamma, lambda) = (0.9f32, 0.95f32);
    let data = collect_ppo(&DummyEnv::new(), &DummyPolicy, 1, F(gamma), F(lambda), 1).unwrap();
    assert_eq!(data.obs, vec![vec![0], vec![0]]);
    assert_eq!(data.logits, vec![fs(&[1.0]), fs(&[1.0])]);
    assert_eq!(data.values, fs(&[1.0, 1.0]));
    assert_eq!(data.rewards, fs(&[1.0, 1.0]));
    assert_eq!(data.actions, vec![0, 0]);
    assert_eq!(data.additional_data.len(), 2);
    let ret0 = 1.0 + gamma * (1.0 + lambda * (1.0 - 1.0));
    assert_eq!(data.additional_data.get("rets"), Some(&fs(&[ret0, 1.0])));
    assert_eq!(data.additional_data.get("advs"), Some(&fs(&[ret0 - 1.0, 0.0])));
}

#[test]
fn ppo_collection_joins_the_episodes() {
    let collector = PPOCollector::new(4, F(0.5), F(0.5), 3);
    let policy = FixedPolicy { scores: vec![0.0, 0.0], value: 0.0 };
    let env = LineEnv { at: 0, len: 3, toll: 1.0, goal: 2.0 };
    let data = collector.collect(&env, &policy).unwrap();
    assert_eq!(data.obs.len(), 12);
    assert_eq!(data.rewards, fs(&[1.0, 1.0, 2.0, 1.0, 1.0, 2.0, 1.0, 1.0, 2.0, 1.0, 1.0, 2.0]));
    assert!(data.actions.iter().all(|&a| a < 2));
    // rets: 2; 1 + 0.5 * (0 + 0.5 * 2) = 1.5; 1 + 0.5 * (0 + 0.5 * 1.5) = 1.375
    let rets = data.additional_data.get("rets").unwrap();
    assert_eq!(rets[..3], fs(&[1.375, 1.5, 2.0])[..]);
    assert_eq!(data.additional_data.get("advs"), Some(rets));
}

/// Two actions from the start: action 0 leads to a state of reward 1, action
/// 1 to a state of reward 0. Nothing is terminal within three steps.
#[derive(Clone)]
struct ForkEnv {
    took: Option<usize>,
    steps: usize,
}

impl Simulation for ForkEnv {
    fn valid(&self) -> bool {
        true
    }
    fn horizon(&self) -> usize {
        3usize.saturating_sub(self.steps)
    }
    fn same_state(&self, other: &Self) -> bool {
        self.took == other.took && self.steps == other.steps
    }
    fn steps_to(&self, _action: usize, next: &Self) -> bool {
        next.steps == self.steps + 1
    }
    fn resets_to(&self, next: &Self) -> bool {
        next.steps == 0
    }
    fn num_actions(&self) -> usize {
        2
    }
    fn obs_shape(&self) -> Vec<usize> {
        vec![3]
    }
    fn set_state(&mut self, _state: Vec<i64>) {}
    fn reset(&mut self) {
        self.took = None;
        self.steps = 0;
    }
    fn step(&mut self, action: usize) {
        if self.took.is_none() {
            self.took = Some(action);
        }
        self.steps += 1;
    }
    fn is_final(&self) -> bool {
        self.steps >= 3
    }
    fn observe(&self) -> Vec<usize> {
        vec![self.took.map_or(0, |a| a + 1)]
    }
    fn snapshot(&self) -> Self {
        self.clone()
    }
}

impl Env<F> for ForkEnv {
    fn reward(&self) -> F {
        if self.took == Some(0) {
            F(1.0)
        } else {
            F(0.0)
        }
    }
}

fn fork_tree(priors: &[f32]) -> MCTSTree<ForkEnv, F> {
    let mut tree: MCTSTree<ForkEnv, F> = Tree::new();
    let root = tree.new_node(MCTSNode {
        state: ForkEnv { took: None, steps: 0 },
        action_taken: None,
        prior: F(0.0),
        visit_count: 1,
        value_sum: F(0.0),
    });
    tree.expand(root, fs(priors));
    tree
}

#[test]
fn select_leaf_descends_by_the_greatest_bound() {
    let mut tree = fork_tree(&[0.25, 0.75]);
    assert_eq!(tree.select_leaf(F(1.0)), (2, true));
    tree.expand(2, fs(&[0.5, 0.5]));
    assert_eq!(tree.select_leaf(F(1.0)), (3, true));
    tree.nodes[3].val.visit_count = 1;
    tree.nodes[3].val.value_sum = F(-9.0);
    assert_eq!(tree.select_leaf(F(1.0)), (4, true));
    let alone = fork_tree(&[]);
    assert_eq!(alone.select_leaf(F(1.0)), (0, true));
    let lost = fork_tree(&[f32::NAN]);
    assert_eq!(lost.select_leaf(F(1.0)), (0, false));
}

#[test]
fn grow_without_budget_returns_the_pending_value() {
    let mut tree = fork_tree(&[0.5, 0.5]);
    let policy = FixedPolicy { scores: vec![1.0, 0.0], value: 7.0 };
    assert_eq!(tree.grow(&policy, 1, 0, F(0.25)), (1, F(0.25)));
    assert_eq!(tree.nodes.len(), 3);
}

#[test]
fn grow_stops_at_budget_terminal_state_and_missing_proposal() {
    let policy = FixedPolicy { scores: vec![1.0, 0.0], value: 7.0 };
    // budget: two steps below node 1, then the policy's estimate
    let mut tree = fork_tree(&[0.5, 0.5]);
    assert_eq!(tree.grow(&policy, 1, 1, F(0.25)), (3, F(7.0)));
    assert_eq!(tree.nodes[1].children, vec![3]);
    assert_eq!(tree.nodes[3].val.action_taken, Some(0));
    assert_eq!(tree.nodes[3].val.state.steps, 2);
    // terminal: the state after three steps ends the growth with its reward
    let mut tree = fork_tree(&[0.5, 0.5]);
    assert_eq!(tree.grow(&policy, 1, 9, F(0.25)), (4, F(1.0)));
    assert_eq!(tree.nodes.len(), 5);
    assert!(tree.nodes[4].children.is_empty());
    // no proposal: the reward of the state that could not be expanded
    let silent = FixedPolicy { scores: vec![0.0, 0.0], value: 7.0 };
    let mut tree = fork_tree(&[0.5, 0.5]);
    assert_eq!(tree.grow(&silent, 2, 9, F(0.25)), (2, F(0.0)));
    assert_eq!(tree.nodes.len(), 3);
}

#[test]
fn simulate_records_along_the_path() {
    let policy = FixedPolicy { scores: vec![0.5, 0.5], value: 7.0 };
    let mut tree = fork_tree(&[0.5, 0.5]);
    assert_eq!(tree.simulate(&policy, F(1.0), 0), 1);
    let visits: Vec<u32> = tree.nodes.iter().map(|n| n.val.visit_count).collect();
    let sums: Vec<F> = tree.nodes.iter().map(|n| n.val.value_sum).collect();
    assert_eq!(visits, vec![2, 1, 0]);
    assert_eq!(sums, fs(&[1.0, 1.0, 0.0]));
    assert_eq!(tree.simulate(&policy, F(1.0), 0), 1);
    assert_eq!(tree.simulate(&policy, F(8.0), 0), 2);
    let visits: Vec<u32> = tree.nodes.iter().map(|n| n.val.visit_count).collect();
    assert_eq!(visits, vec![4, 2, 1]);
    // a root without children is where the simulation ends
    let silent = FixedPolicy { scores: vec![0.0, 0.0], value: 7.0 };
    let mut alone = fork_tree(&[]);
    assert_eq!(alone.simulate(&silent, F(1.0), 3), 0);
    assert_eq!(alone.nodes[0].val.visit_count, 2);
}

#[test]
fn search_without_growth_follows_the_reward_of_the_leaf() {
    let policy = FixedPolicy { scores: vec![0.5, 0.5], value: 0.0 };
    let env = ForkEnv { took: None, steps: 0 };
    assert_eq!(predict_probs_mcts(env, &policy, 2, F(1.0), 0), fs(&[1.0, 0.0]));
}

#[test]
fn search_shares_are_visit_counts_over_the_number_of_simulations() {
    let policy = FixedPolicy { scores: vec![0.25, 0.75], value: 0.5 };
    for searches in [1usize, 2, 8, 32] {
        let env = LineEnv { at: 0, len: 5, toll: -0.1, goal: 1.0 };
        let probs = predict_probs_mcts(env, &policy, searches, F(1.5), 2);
        let counts: Vec<f32> = probs.iter().map(|p| p.0 * searches as f32).collect();
        assert!(counts.iter().all(|k| *k >= 0.0 && k.fract() == 0.0));
        assert_eq!(counts.iter().sum::<f32>(), searches as f32);
    }
}

#[test]
fn search_gives_no_share_to_an_action_without_prior() {
    let policy = FixedPolicy { scores: vec![0.0, 1.0], value: 0.5 };
    for searches in [1usize, 5] {
        let env = LineEnv { at: 0, len: 5, toll: -0.1, goal: 1.0 };
        assert_eq!(predict_probs_mcts(env, &policy, searches, F(1.0), 1), fs(&[0.0, 1.0]));
    }
}
