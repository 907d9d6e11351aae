//! Rollout data and the way in which the data of many episodes is joined.

use vstd::prelude::*;
use vstd::seq_lib::lemma_multiset_commutative;
use crate::columns::{NamedColumns, appended_column, copy_column, extend_column};
use crate::env::Env;
use crate::policy::Policy;
use crate::scalar::Scalar;

verus! {

/// The data of a number of steps: one row per step in each of the five
/// primary columns, and derived columns under their names.
pub struct CollectedData<S> {
    /// The observation at each step.
    pub obs: Vec<Vec<usize>>,
    /// The action scores at each step.
    pub logits: Vec<Vec<S>>,
    /// The value estimate at each step.
    pub values: Vec<S>,
    /// The reward at each step.
    pub rewards: Vec<S>,
    /// The action taken at each step.
    pub actions: Vec<usize>,
    /// Derived columns, such as advantages and returns.
    pub additional_data: NamedColumns<S>,
}

/// The mathematical content of a `CollectedData`.
pub struct Rollouts<S> {
    pub obs: Seq<Seq<usize>>,
    pub logits: Seq<Seq<S>>,
    pub values: Seq<S>,
    pub rewards: Seq<S>,
    pub actions: Seq<usize>,
    pub additional_data: Map<Seq<char>, Seq<S>>,
}

/// Why data could not be joined.
#[derive(Debug, Clone, Copy, PartialEq, Eq)]
pub enum MergeError {
    /// There was no chunk to join.
    NoChunks,
}

impl MergeError {
    /// The error as a sentence.
    pub fn message(&self) -> (text: String)
        ensures
            text@ == "Something went wrong. No data in collected data chunks to merge. "@,
    {
        "Something went wrong. No data in collected data chunks to merge. ".to_owned()
    }
}

/// The rows of a table as sequences.
pub open spec fn rows<T>(table: Vec<Vec<T>>) -> Seq<Seq<T>> {
    Seq::new(table.len() as nat, |i: int| table[i]@)
}

/// The derived columns of `first` followed, name by name, by those of
/// `second`.
pub open spec fn joined_columns<S>(
    first: Map<Seq<char>, Seq<S>>,
    second: Map<Seq<char>, Seq<S>>,
) -> Map<Seq<char>, Seq<S>> {
    Map::new(
        |key: Seq<char>| first.contains_key(key) || second.contains_key(key),
        |key: Seq<char>|
            if second.contains_key(key) {
                appended_column(first, key, second[key])
            } else {
                first[key]
            },
    )
}

impl<S> Rollouts<S> {
    /// The rows of `self` followed by the rows of `other`, column by column.
    pub open spec fn joined(self, other: Rollouts<S>) -> Rollouts<S> {
        Rollouts {
            obs: self.obs + other.obs,
            logits: self.logits + other.logits,
            values: self.values + other.values,
            rewards: self.rewards + other.rewards,
            actions: self.actions + other.actions,
            additional_data: joined_columns(self.additional_data, other.additional_data),
        }
    }
}

/// `acc` joined with each of `chunks` in turn.
pub open spec fn joined_all<S>(acc: Rollouts<S>, chunks: Seq<Rollouts<S>>) -> Rollouts<S>
    decreases chunks.len(),
{
    if chunks.len() == 0 {
        acc
    } else {
        joined_all(acc, chunks.drop_last()).joined(chunks.last())
    }
}

/// What `merge` makes of a list of chunks that is not empty: the last chunk
/// joined with each of the others in their order.
pub open spec fn merged<S>(chunks: Seq<Rollouts<S>>) -> Rollouts<S> {
    joined_all(chunks.last(), chunks.drop_last())
}

/// The contents of chunks, in the order of the chunks.
pub open spec fn contents<S>(chunks: Seq<CollectedData<S>>) -> Seq<Rollouts<S>> {
    Seq::new(chunks.len(), |i: int| chunks[i]@)
}

impl<S> View for CollectedData<S> {
    type V = Rollouts<S>;

    open spec fn view(&self) -> Rollouts<S> {
        Rollouts {
            obs: rows(self.obs),
            logits: rows(self.logits),
            values: self.values@,
            rewards: self.rewards@,
            actions: self.actions@,
            additional_data: self.additional_data@,
        }
    }
}

/// Appends a copy of every row of `more` to `table`.
pub fn extend_rows<T: Copy>(table: &mut Vec<Vec<T>>, more: &Vec<Vec<T>>)
    ensures
        rows(*final(table)) == rows(*old(table)) + rows(*more),
{
    let mut i: usize = 0;
    while i < more.len()
        invariant
            i <= more.len(),
            table.len() == old(table).len() + i,
            forall|j: int| 0 <= j < old(table).len() ==> (#[trigger] table[j])@ == old(table)[j]@,
            forall|j: int|
                old(table).len() <= j < table.len() ==> (#[trigger] table[j])@ == more[j - old(table).len()]@,
        decreases more.len() - i,
    {
        table.push(copy_column(&more[i]));
        i += 1;
    }
    proof {
        let joined = rows(*old(table)) + rows(*more);
        assert(rows(*table).len() == joined.len());
        assert forall|j: int| 0 <= j < joined.len() implies rows(*table)[j] == joined[j] by {
            if j < old(table).len() {
                assert(table[j]@ == old(table)[j]@);
            } else {
                assert(table[j]@ == more[j - old(table).len()]@);
            }
        }
        assert(rows(*table) =~= joined);
    }
}

impl<S: Copy> CollectedData<S> {
    /// The data of the given primary columns, without derived columns.
    pub fn new(
        obs: Vec<Vec<usize>>,
        logits: Vec<Vec<S>>,
        values: Vec<S>,
        rewards: Vec<S>,
        actions: Vec<usize>,
    ) -> (data: Self)
        ensures
            data.obs == obs,
            data.logits == logits,
            data.values == values,
            data.rewards == rewards,
            data.actions == actions,
            data.additional_data.wf(),
            data@.additional_data == Map::<Seq<char>, Seq<S>>::empty(),
    {
        CollectedData { obs, logits, values, rewards, actions, additional_data: NamedColumns::new() }
    }

    /// Appends the rows of `other` to every primary column, and to every
    /// derived column that `other` has, a column that `self` lacks being
    /// created.
    pub fn merge(&mut self, other: &CollectedData<S>)
        requires
            old(self).additional_data.wf(),
            other.additional_data.wf(),
        ensures
            final(self).additional_data.wf(),
            final(self)@ == old(self)@.joined(other@),
    {
        extend_rows(&mut self.obs, &other.obs);
        extend_rows(&mut self.logits, &other.logits);
        extend_column(&mut self.values, &other.values);
        extend_column(&mut self.rewards, &other.rewards);
        extend_column(&mut self.actions, &other.actions);
        let ghost start = old(self).additional_data@;
        let ghost primary = self@;
        let mut k: usize = 0;
        while k < other.additional_data.entries.len()
            invariant
                k <= other.additional_data.entries.len(),
                other.additional_data.wf(),
                self.additional_data.wf(),
                start == old(self).additional_data@,
                rows(self.obs) == primary.obs,
                rows(self.logits) == primary.logits,
                self.values@ == primary.values,
                self.rewards@ == primary.rewards,
                self.actions@ == primary.actions,
                forall|key: Seq<char>|
                    self.additional_data@.contains_key(key) == (start.contains_key(key)
                        || other.additional_data.has_before(k as int, key)),
                forall|key: Seq<char>| #[trigger]
                    self.additional_data@.contains_key(key) ==> self.additional_data@[key] == (
                    if other.additional_data.has_before(k as int, key) {
                        appended_column(start, key, other.additional_data@[key])
                    } else {
                        start[key]
                    }),
            decreases other.additional_data.entries.len() - k,
        {
            let ghost before = self.additional_data@;
            let ghost name = other.additional_data.entries[k as int].0@;
            proof {
                other.additional_data.lemma_entry_in_view(k as int);
                if other.additional_data.has_before(k as int, name) {
                    let j = choose|j: int|
                        0 <= j < k && j < other.additional_data.entries.len()
                            && (#[trigger] other.additional_data.entries[j]).0@ == name;
                    assert(other.additional_data.entries[j].0@ != other.additional_data.entries[k as int].0@);
                }
            }
            self.additional_data.append(
                &other.additional_data.entries[k].0,
                &other.additional_data.entries[k].1,
            );
            proof {
                assert forall|key: Seq<char>|
                    other.additional_data.has_before(k + 1, key) == (key == name
                        || other.additional_data.has_before(k as int, key)) by {
                    if other.additional_data.has_before(k + 1, key) {
                        let j = choose|j: int|
                            0 <= j < k + 1 && j < other.additional_data.entries.len()
                                && (#[trigger] other.additional_data.entries[j]).0@ == key;
                        if j < k {
                            assert(other.additional_data.has_before(k as int, key));
                        }
                    }
                    if other.additional_data.has_before(k as int, key) {
                        let j = choose|j: int|
                            0 <= j < k && j < other.additional_data.entries.len()
                                && (#[trigger] other.additional_data.entries[j]).0@ == key;
                        assert(other.additional_data.entries[j].0@ == key);
                    }
                    if key == name {
                        assert(other.additional_data.entries[k as int].0@ == key);
                    }
                }
                let after = self.additional_data@;
                assert(after == before.insert(name, appended_column(before, name, other.additional_data@[name])));
                assert forall|key: Seq<char>|
                    after.contains_key(key) == (start.contains_key(key)
                        || other.additional_data.has_before(k + 1, key)) by {
                    assert(before.contains_key(key) == (start.contains_key(key)
                        || other.additional_data.has_before(k as int, key)));
                }
                assert forall|key: Seq<char>| #[trigger] after.contains_key(key) implies after[key] == (
                if other.additional_data.has_before(k + 1, key) {
                    appended_column(start, key, other.additional_data@[key])
                } else {
                    start[key]
                }) by {
                    assert(before.contains_key(key) == (start.contains_key(key)
                        || other.additional_data.has_before(k as int, key)));
                    if key == name {
                        if before.contains_key(key) {
                            assert(before[key] == start[key]);
                        }
                    } else {
                        assert(before.contains_key(key));
                    }
                }
            }
            k += 1;
        }
        proof {
            assert(self.additional_data@ =~= joined_columns(start, other.additional_data@));
        }
    }
}

/// Joins the data of many chunks into one: the last chunk, followed by the
/// others in their order. Fails where there is no chunk.
pub fn merge<S: Copy>(chunks: Vec<CollectedData<S>>) -> (result: Result<CollectedData<S>, MergeError>)
    requires
        forall|i: int| 0 <= i < chunks.len() ==> (#[trigger] chunks[i]).additional_data.wf(),
    ensures
        chunks.len() == 0 <==> result is Err,
        result matches Ok(data) ==> data.additional_data.wf() && data@ == merged(contents(chunks@)),
{
    let mut chunks = chunks;
    let ghost all = chunks@;
    match chunks.pop() {
        None => Err(MergeError::NoChunks),
        Some(last) => {
            let mut acc = last;
            let ghost rest = contents(all).drop_last();
            let mut k: usize = 0;
            while k < chunks.len()
                invariant
                    k <= chunks.len(),
                    all.len() > 0,
                    chunks@ == all.drop_last(),
                    rest == contents(all).drop_last(),
                    forall|i: int| 0 <= i < all.len() ==> (#[trigger] all[i]).additional_data.wf(),
                    acc.additional_data.wf(),
                    acc@ == joined_all(contents(all).last(), rest.take(k as int)),
                decreases chunks.len() - k,
            {
                proof {
                    assert(chunks[k as int] == all[k as int]);
                    assert(rest.take(k + 1).drop_last() =~= rest.take(k as int));
                    assert(rest.take(k + 1).last() == chunks[k as int]@);
                }
                acc.merge(&chunks[k]);
                k += 1;
            }
            proof {
                assert(rest.take(k as int) =~= rest);
            }
            Ok(acc)
        },
    }
}

/// Something that runs episodes of an environment under a policy and returns
/// what it recorded.
pub trait Collector<E: Env<S>, P: Policy<S>, S: Scalar> {
    /// The number of episodes that one collection runs.
    spec fn episodes(&self) -> usize;

    /// The settings are within the limits of the machine.
    spec fn configured(&self) -> bool;

    /// Runs the episodes and joins their data. Fails where there is no
    /// episode to run, and only there.
    fn collect(&self, env: &E, policy: &P) -> (result: Result<CollectedData<S>, MergeError>)
        requires
            self.configured(),
            env.valid(),
        ensures
            self.episodes() == 0 <==> result is Err,
            result matches Ok(data) ==> data.additional_data.wf(),
    ;
}

/// What lies in one column of `chunks`, chunk after chunk.
pub open spec fn stacked<S, T>(chunks: Seq<Rollouts<S>>, column: spec_fn(Rollouts<S>) -> Seq<T>) -> Seq<T>
    decreases chunks.len(),
{
    if chunks.len() == 0 {
        Seq::empty()
    } else {
        stacked(chunks.drop_last(), column) + column(chunks.last())
    }
}

/// `column` reads a column that joining extends: the column of two joined
/// rollouts is the column of the first followed by that of the second.
pub open spec fn is_joined_column<S, T>(column: spec_fn(Rollouts<S>) -> Seq<T>) -> bool {
    forall|a: Rollouts<S>, b: Rollouts<S>| #[trigger] column(a.joined(b)) == column(a) + column(b)
}

/// The derived column named `key`, empty where there is none of that name.
pub open spec fn derived_column<S>(key: Seq<char>) -> spec_fn(Rollouts<S>) -> Seq<S> {
    |r: Rollouts<S>|
        if r.additional_data.contains_key(key) {
            r.additional_data[key]
        } else {
            Seq::empty()
        }
}

/// Joining extends each of the five primary columns and every derived
/// column.
pub proof fn lemma_columns_are_joined<S>(key: Seq<char>)
    ensures
        is_joined_column(|r: Rollouts<S>| r.obs),
        is_joined_column(|r: Rollouts<S>| r.logits),
        is_joined_column(|r: Rollouts<S>| r.values),
        is_joined_column(|r: Rollouts<S>| r.rewards),
        is_joined_column(|r: Rollouts<S>| r.actions),
        is_joined_column(derived_column::<S>(key)),
{
    let column = derived_column::<S>(key);
    assert forall|a: Rollouts<S>, b: Rollouts<S>| #[trigger] column(a.joined(b)) == column(a) + column(b) by {
        assert(column(a.joined(b)) =~= column(a) + column(b));
    }
}

/// A column of rollouts joined one after the other holds the column of the
/// first followed by the columns of the others.
pub proof fn lemma_joined_all_stacks<S, T>(
    acc: Rollouts<S>,
    chunks: Seq<Rollouts<S>>,
    column: spec_fn(Rollouts<S>) -> Seq<T>,
)
    requires
        is_joined_column(column),
    ensures
        column(joined_all(acc, chunks)) == column(acc) + stacked(chunks, column),
    decreases chunks.len(),
{
    if chunks.len() == 0 {
        assert(column(acc) + stacked(chunks, column) =~= column(acc));
    } else {
        lemma_joined_all_stacks(acc, chunks.drop_last(), column);
        let front = joined_all(acc, chunks.drop_last());
        assert(column(front.joined(chunks.last())) == column(front) + column(chunks.last()));
        assert(column(acc) + stacked(chunks, column) =~= (column(acc) + stacked(
            chunks.drop_last(),
            column,
        )) + column(chunks.last()));
    }
}

/// Stacking chunks that come in two groups stacks the first group and then
/// the second.
pub proof fn lemma_stacked_splits<S, T>(
    first: Seq<Rollouts<S>>,
    second: Seq<Rollouts<S>>,
    column: spec_fn(Rollouts<S>) -> Seq<T>,
)
    ensures
        stacked(first + second, column) == stacked(first, column) + stacked(second, column),
    decreases second.len(),
{
    if second.len() == 0 {
        assert(first + second =~= first);
        assert(stacked(first, column) + stacked(second, column) =~= stacked(first, column));
    } else {
        lemma_stacked_splits(first, second.drop_last(), column);
        assert((first + second).drop_last() =~= first + second.drop_last());
        assert((first + second).last() == second.last());
        assert(stacked(first + second, column) =~= stacked(first, column) + stacked(
            second,
            column,
        ));
    }
}

/// Merging loses nothing and invents nothing: every column of the merged
/// data holds exactly the items that the chunks hold in that column, each as
/// often as the chunks do, so that its length is the total number of rows.
pub proof fn lemma_merge_keeps_rows<S, T>(
    chunks: Seq<Rollouts<S>>,
    column: spec_fn(Rollouts<S>) -> Seq<T>,
)
    requires
        chunks.len() > 0,
        is_joined_column(column),
    ensures
        column(merged(chunks)).to_multiset() == stacked(chunks, column).to_multiset(),
        column(merged(chunks)).len() == stacked(chunks, column).len(),
{
    let front = stacked(chunks.drop_last(), column);
    let back = column(chunks.last());
    lemma_joined_all_stacks(chunks.last(), chunks.drop_last(), column);
    lemma_multiset_commutative(back, front);
    lemma_multiset_commutative(front, back);
    assert(back.to_multiset().add(front.to_multiset()) =~= front.to_multiset().add(
        back.to_multiset(),
    ));
}

/// The chunks of all `groups`, group after group.
pub open spec fn flattened<S>(groups: Seq<Seq<Rollouts<S>>>) -> Seq<Rollouts<S>>
    decreases groups.len(),
{
    if groups.len() == 0 {
        Seq::empty()
    } else {
        flattened(groups.drop_last()) + groups.last()
    }
}

/// Each of `groups` merged by itself.
pub open spec fn merged_each<S>(groups: Seq<Seq<Rollouts<S>>>) -> Seq<Rollouts<S>> {
    Seq::new(groups.len(), |i: int| merged(groups[i]))
}

/// A column of groups that were merged one by one holds the same items, each
/// as often, as the column of all their chunks.
pub proof fn lemma_stacked_groups<S, T>(
    groups: Seq<Seq<Rollouts<S>>>,
    column: spec_fn(Rollouts<S>) -> Seq<T>,
)
    requires
        forall|i: int| 0 <= i < groups.len() ==> (#[trigger] groups[i]).len() > 0,
        is_joined_column(column),
    ensures
        stacked(merged_each(groups), column).to_multiset() == stacked(
            flattened(groups),
            column,
        ).to_multiset(),
    decreases groups.len(),
{
    if groups.len() > 0 {
        let front = groups.drop_last();
        let last = groups.last();
        lemma_stacked_groups(front, column);
        assert(merged_each(groups).drop_last() =~= merged_each(front));
        assert(merged_each(groups).last() == merged(last));
        lemma_merge_keeps_rows(last, column);
        lemma_stacked_splits(flattened(front), last, column);
        lemma_multiset_commutative(stacked(merged_each(front), column), column(merged(last)));
        lemma_multiset_commutative(stacked(flattened(front), column), stacked(last, column));
    }
}

/// Merging in any number of parts gives the same rows as one pass over all
/// chunks: where the chunks come in groups, each group is merged by itself
/// and the results are merged, every column holds exactly the items that all
/// the chunks hold in that column, each as often, so that its length is the
/// total number of rows.
pub proof fn lemma_merge_of_groups<S, T>(
    groups: Seq<Seq<Rollouts<S>>>,
    column: spec_fn(Rollouts<S>) -> Seq<T>,
)
    requires
        groups.len() > 0,
        forall|i: int| 0 <= i < groups.len() ==> (#[trigger] groups[i]).len() > 0,
        is_joined_column(column),
    ensures
        column(merged(merged_each(groups))).to_multiset() == stacked(
            flattened(groups),
            column,
        ).to_multiset(),
        column(merged(merged_each(groups))).len() == stacked(flattened(groups), column).len(),
{
    lemma_merge_keeps_rows(merged_each(groups), column);
    lemma_stacked_groups(groups, column);
    column(merged(merged_each(groups))).to_multiset_ensures();
    stacked(flattened(groups), column).to_multiset_ensures();
}

} // verus!
