//! The inference function that guides the engine, and the ways in which an
//! action is picked from the scores it returns.

use vstd::prelude::*;
use crate::scalar::{Scalar, is_abs, is_exceeds, is_ln, is_minus, is_random_unit, is_weighted_index};

verus! {

/// A stateless function from an observation and the action masks to a score
/// per action and an estimate of the state's value.
pub trait Policy<S: Scalar> {
    /// Probabilities of the actions (masked actions get probability zero) and
    /// the value estimate.
    fn predict(&self, obs: Vec<usize>, masks: Vec<bool>) -> (Vec<S>, S);

    /// Unnormalised scores of the actions (masked actions get a very low
    /// score) and the value estimate.
    fn forward(&self, obs: Vec<usize>, masks: Vec<bool>) -> (Vec<S>, S);

    /// As `predict`, averaged over the symmetries of the problem where the
    /// policy knows any.
    fn full_predict(&self, obs: Vec<usize>, masks: Vec<bool>) -> (Vec<S>, S);
}

/// One step of a scan for the greatest value: position `k` replaces the kept
/// position `kept` exactly where its value `exceeds` the kept value.
pub open spec fn scan_step<S: Scalar>(values: Seq<S>, k: int, kept: int, next: int) -> bool {
    &&& 0 <= kept < k < values.len()
    &&& if next == kept {
        is_exceeds(values[k], values[kept], false)
    } else {
        next == k && is_exceeds(values[k], values[kept], true)
    }
}

/// `kept[k]` is the position that a scan of `values` from the left keeps
/// after it has looked at the positions `0..=k`.
pub open spec fn is_scan<S: Scalar>(values: Seq<S>, kept: Seq<int>) -> bool {
    &&& kept.len() == values.len()
    &&& values.len() > 0 ==> kept[0] == 0
    &&& forall|k: int| 1 <= k < values.len() ==> scan_step(values, k, kept[k - 1], #[trigger] kept[k])
}

/// `best` is a position that `argmax` may return for `values`: 0 for no
/// values, else the position that a scan from the left keeps at its end.
pub open spec fn is_argmax<S: Scalar>(values: Seq<S>, best: int) -> bool {
    if values.len() == 0 {
        best == 0
    } else {
        exists|kept: Seq<int>| #[trigger] is_scan(values, kept) && best == kept.last()
    }
}

/// The position of the first greatest value, or 0 for no values. A value that
/// does not compare (it neither exceeds nor is exceeded) never replaces the
/// kept one.
pub fn argmax<S: Scalar>(values: &Vec<S>) -> (best: usize)
    ensures
        is_argmax(values@, best as int),
        values.len() > 0 ==> best < values.len(),
{
    if values.len() == 0 {
        return 0;
    }
    let mut max_idx: usize = 0;
    let mut max_val = values[0];
    let mut i: usize = 1;
    let ghost mut kept: Seq<int> = seq![0int];
    while i < values.len()
        invariant
            1 <= i <= values.len(),
            max_idx < i,
            max_val == values[max_idx as int],
            kept.len() == i,
            kept[0] == 0,
            kept[i - 1] == max_idx,
            forall|k: int| 1 <= k < i ==> scan_step(values@, k, kept[k - 1], #[trigger] kept[k]),
        decreases values.len() - i,
    {
        let val = values[i];
        let wins = val.exceeds(max_val);
        if wins {
            max_val = val;
            max_idx = i;
        }
        proof {
            kept = kept.push(max_idx as int);
        }
        i += 1;
    }
    proof {
        assert(is_scan(values@, kept));
    }
    max_idx
}

/// What `sample` makes of a draw over `len` weights: the position drawn, or
/// 0 where nothing could be drawn.
pub open spec fn sample_of(len: int, drawn: Option<usize>) -> usize {
    match drawn {
        Some(i) => if i < len {
            i
        } else {
            0
        },
        None => 0,
    }
}

/// `pick` is a position that `sample` may return for `probs`.
pub open spec fn is_sample<S: Scalar>(probs: Vec<S>, pick: usize) -> bool {
    exists|drawn: Option<usize>| #[trigger]
        is_weighted_index(probs, drawn) && pick == sample_of(probs.len() as int, drawn)
}

/// A random position in `probs`, drawn with probability proportional to the
/// weight at that position. Where the weights do not form a distribution the
/// fixed position 0 is returned instead.
pub fn sample<S: Scalar>(probs: &Vec<S>) -> (pick: usize)
    ensures
        is_sample(*probs, pick),
        probs.len() > 0 ==> pick < probs.len(),
{
    let drawn = S::weighted_index(probs);
    proof {
        assert(is_weighted_index(*probs, drawn));
    }
    match drawn {
        Some(i) => if i < probs.len() {
            i
        } else {
            0
        },
        None => 0,
    }
}

/// `shifted` is `score` minus a fresh draw of Gumbel noise, `ln(|ln(u)|)` for
/// a random `u` of the unit interval.
pub open spec fn is_gumbel_shift<S: Scalar>(score: S, shifted: S) -> bool {
    exists|u: S, l: S, a: S, noise: S|
        #![trigger is_ln(u, l), is_abs(l, a), is_ln(a, noise)]
        {
            &&& is_random_unit(u)
            &&& is_ln(u, l)
            &&& is_abs(l, a)
            &&& is_ln(a, noise)
            &&& is_minus(score, noise, shifted)
        }
}

/// Shifts one score by fresh Gumbel noise.
pub fn gumbel_shift<S: Scalar>(score: S) -> (shifted: S)
    ensures
        is_gumbel_shift(score, shifted),
{
    let u = S::random_unit();
    let l = u.ln();
    let a = l.abs();
    let noise = a.ln();
    let shifted = score.minus(noise);
    proof {
        assert(is_ln(u, l) && is_abs(l, a) && is_ln(a, noise));
    }
    shifted
}

/// `shifted` holds every score of `logits` shifted by a draw of Gumbel noise
/// of its own.
pub open spec fn is_gumbel_shifted<S: Scalar>(logits: Seq<S>, shifted: Seq<S>) -> bool {
    &&& shifted.len() == logits.len()
    &&& forall|i: int| 0 <= i < logits.len() ==> is_gumbel_shift(logits[i], #[trigger] shifted[i])
}

/// `pick` is a position that `sample_from_logits` may return for `logits`:
/// the position of the greatest score after every score was shifted by
/// Gumbel noise.
pub open spec fn is_logit_sample<S: Scalar>(logits: Seq<S>, pick: usize) -> bool {
    exists|shifted: Seq<S>| #[trigger] is_gumbel_shifted(logits, shifted) && is_argmax(shifted, pick as int)
}

/// A random position drawn from the softmax of `logits`, by the Gumbel-max
/// trick: every score is shifted by independent Gumbel noise and the position
/// of the greatest shifted score is returned.
pub fn sample_from_logits<S: Scalar>(logits: &Vec<S>) -> (pick: usize)
    ensures
        is_logit_sample(logits@, pick),
        logits.len() > 0 ==> pick < logits.len(),
{
    let mut shifted: Vec<S> = Vec::new();
    let mut i: usize = 0;
    while i < logits.len()
        invariant
            i <= logits.len(),
            shifted.len() == i,
            forall|j: int| 0 <= j < i ==> is_gumbel_shift(logits[j], #[trigger] shifted[j]),
        decreases logits.len() - i,
    {
        shifted.push(gumbel_shift(logits[i]));
        i += 1;
    }
    let pick = argmax(&shifted);
    proof {
        assert(is_gumbel_shifted(logits@, shifted@));
    }
    pick
}

} // verus!
