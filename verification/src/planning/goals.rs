//! Goal identity and the per-cycle goal-selection policy.

use vstd::prelude::*;

use rand::distributions::{Distribution, WeightedIndex};
use rand::Rng;

use crate::data::{Num, PredV, Requirements, WorldState};

verus! {

/// The mathematical value of a `Goal`.
pub struct GoalV {
    pub name: Seq<char>,
    pub requires: Map<Seq<char>, PredV>,
    pub utility: int,
}

/// A goal: a name, the requirements a world must meet for the goal to count
/// as reached, and a static utility score used only for ranking goals.
#[derive(Debug)]
pub struct Goal {
    pub name: String,
    pub requirements: Requirements,
    pub utility: Num,
}

impl View for Goal {
    type V = GoalV;

    open spec fn view(&self) -> GoalV {
        GoalV { name: self.name@, requires: self.requirements@, utility: self.utility@ }
    }
}

impl Goal {
    /// The held requirements' representation is well-formed.
    pub open spec fn wf(&self) -> bool {
        self.requirements.wf()
    }

    /// A goal of the given name, requirements and utility.
    pub fn new(name: &str, requirements: Requirements, utility: Num) -> (r: Goal)
        ensures
            r@ == (GoalV { name: name@, requires: requirements@, utility: utility@ }),
            r.wf() == requirements.wf(),
    {
        Goal { name: name.to_owned(), requirements, utility }
    }
}

impl Clone for Goal {
    fn clone(&self) -> (r: Self)
        ensures
            r@ == self@,
            r.wf() == self.wf(),
    {
        Goal {
            name: self.name.clone(),
            requirements: self.requirements.clone(),
            utility: self.utility,
        }
    }
}

/// The sum of a weight sequence.
pub open spec fn sum_weights(s: Seq<i64>) -> int
    decreases s.len(),
{
    if s.len() == 0 {
        0
    } else {
        sum_weights(s.drop_last()) + s.last()
    }
}

/// The sum of the positive weights of a sequence.
pub open spec fn sum_pos(s: Seq<i64>) -> int
    decreases s.len(),
{
    if s.len() == 0 {
        0
    } else {
        sum_pos(s.drop_last()) + (if s.last() > 0 {
            s.last() as int
        } else {
            0
        })
    }
}

proof fn lemma_sum_nonneg(s: Seq<i64>)
    requires
        forall|i: int| 0 <= i < s.len() ==> s[i] >= 0,
    ensures
        sum_weights(s) == sum_pos(s),
        sum_weights(s) >= 0,
    decreases s.len(),
{
    if s.len() > 0 {
        assert(forall|i: int| 0 <= i < s.drop_last().len() ==> s.drop_last()[i] == s[i]);
        lemma_sum_nonneg(s.drop_last());
    }
}

/// Relies on rand's `Rng::gen_range` over `0..n`: every outcome lies below
/// `n`, and the range is never empty, so the call cannot panic.
#[verifier::external_body]
fn pick_uniform(n: usize) -> (r: usize)
    requires
        n > 0,
    ensures
        r < n,
{
    rand::thread_rng().gen_range(0..n)
}

/// Relies on rand's `WeightedIndex::new` and `Distribution::sample`: `new`
/// errs exactly on an empty list, a negative weight, or a zero total, and
/// `sample` returns an index of positive weight below the length. The bound
/// on the positive weights' sum keeps `new`'s accumulation from
/// overflowing.
#[verifier::external_body]
fn pick_weighted(weights: &Vec<i64>) -> (r: Option<usize>)
    requires
        sum_pos(weights@) <= i64::MAX,
    ensures
        r is Some <==> (weights@.len() > 0 && (forall|i: int|
            0 <= i < weights@.len() ==> weights@[i] >= 0) && sum_weights(weights@) > 0),
        r matches Some(i) ==> i < weights@.len() && weights@[i as int] > 0,
{
    let dist = match WeightedIndex::new(weights.iter()) {
        Ok(d) => d,
        Err(_) => {
            return None;
        },
    };
    Some(dist.sample(&mut rand::thread_rng()))
}

/// A weighted draw over these goals can be made: there is at least one
/// goal, no utility is negative, and their sum is positive and
/// representable.
pub open spec fn weights_valid(gs: Seq<Goal>) -> bool {
    &&& gs.len() > 0
    &&& forall|i: int| 0 <= i < gs.len() ==> gs[i]@.utility >= 0
    &&& sum_weights(Seq::new(gs.len(), |i: int| gs[i].utility.units)) > 0
    &&& sum_weights(Seq::new(gs.len(), |i: int| gs[i].utility.units)) <= i64::MAX
}

/// The policy by which an agent picks the goal it pursues this cycle.
pub enum GoalEvaluation<F> where F: Fn(&Vec<Goal>, &WorldState) -> Option<Goal> {
    /// A uniformly random candidate.
    Random,
    /// A random candidate, weighted by utility; fails closed when the
    /// utilities cannot form a distribution.
    RandomWeighted,
    /// The first candidate in the list.
    Top,
    /// An injected decision closure.
    Custom(F),
}

impl<F> Default for GoalEvaluation<F> where F: Fn(&Vec<Goal>, &WorldState) -> Option<Goal> {
    fn default() -> (r: Self)
        ensures
            r is Top,
    {
        GoalEvaluation::Top
    }
}

impl<F> GoalEvaluation<F> where F: Fn(&Vec<Goal>, &WorldState) -> Option<Goal> {
    /// Picks the next goal to pursue from `goals` under this policy, given
    /// the current world. An empty candidate list yields nothing, whatever
    /// the policy.
    pub fn next_goal(&self, goals: &Vec<Goal>, world: &WorldState) -> (r: Option<Goal>)
        requires
            self matches GoalEvaluation::Custom(f) ==> call_requires(f, (goals, world)),
        ensures
            goals@.len() == 0 ==> r is None,
            goals@.len() > 0 && self is Top ==> (r matches Some(g) && g@ == goals@[0]@
                && g.wf() == goals@[0].wf()),
            goals@.len() > 0 && self is Random ==> (r matches Some(g) && exists|i: int|
                0 <= i < goals@.len() && g@ == goals@[i]@ && g.wf() == goals@[i].wf()),
            goals@.len() > 0 && self is RandomWeighted ==> ((r is Some <==> weights_valid(
                goals@,
            )) && (r matches Some(g) ==> exists|i: int|
                0 <= i < goals@.len() && g@ == goals@[i]@ && g.wf() == goals@[i].wf()
                    && goals@[i]@.utility > 0)),
            goals@.len() > 0 ==> (match self {
                GoalEvaluation::Custom(f) => call_ensures(f, (goals, world), r),
                _ => true,
            }),
    {
        if goals.len() == 0 {
            return None;
        }
        match self {
            GoalEvaluation::Top => Some(goals[0].clone()),
            GoalEvaluation::Custom(f) => f(goals, world),
            GoalEvaluation::Random => {
                let i = pick_uniform(goals.len());
                Some(goals[i].clone())
            },
            GoalEvaluation::RandomWeighted => {
                let n = goals.len();
                let ghost wv = Seq::new(goals@.len(), |j: int| goals@[j].utility.units);
                let mut weights: Vec<i64> = Vec::new();
                let mut i: usize = 0;
                while i < n
                    invariant
                        self is RandomWeighted,
                        n == goals@.len(),
                        i <= n,
                        weights@.len() == i,
                        forall|j: int| 0 <= j < i ==> weights@[j] == goals@[j].utility.units,
                    decreases n - i,
                {
                    weights.push(goals[i].utility.units);
                    i += 1;
                }
                proof {
                    assert(weights@ =~= wv);
                }
                let mut j: usize = 0;
                while j < n
                    invariant
                        self is RandomWeighted,
                        n == goals@.len(),
                        n == weights@.len(),
                        j <= n,
                        weights@ == wv,
                        wv == Seq::new(goals@.len(), |l: int| goals@[l].utility.units),
                        forall|k: int| 0 <= k < j ==> weights@[k] >= 0,
                    decreases n - j,
                {
                    if weights[j] < 0 {
                        return None;
                    }
                    j += 1;
                }
                let mut total: i64 = 0;
                let mut k: usize = 0;
                proof {
                    assert(weights@.take(0) =~= Seq::<i64>::empty());
                }
                while k < n
                    invariant
                        self is RandomWeighted,
                        n == goals@.len(),
                        n == weights@.len(),
                        k <= n,
                        weights@ == wv,
                        wv == Seq::new(goals@.len(), |l: int| goals@[l].utility.units),
                        forall|l: int| 0 <= l < n ==> weights@[l] >= 0,
                        total as int == sum_weights(weights@.take(k as int)),
                        total >= 0,
                    decreases n - k,
                {
                    proof {
                        assert(weights@.take(k as int + 1).drop_last() =~= weights@.take(
                            k as int,
                        ));
                        assert(weights@.take(k as int + 1).last() == weights@[k as int]);
                    }
                    if i64::MAX - total < weights[k] {
                        proof {
                            lemma_sum_take_le(weights@, k as int + 1);
                            lemma_sum_nonneg(weights@);
                        }
                        return None;
                    }
                    total = total + weights[k];
                    k += 1;
                }
                proof {
                    assert(weights@.take(n as int) =~= weights@);
                    lemma_sum_nonneg(weights@);
                }
                if total <= 0 {
                    return None;
                }
                proof {
                    assert(forall|l: int|
                        0 <= l < goals@.len() ==> wv[l] == goals@[l].utility.units);
                    assert(forall|l: int|
                        0 <= l < goals@.len() ==> #[trigger] goals@[l]@.utility == weights@[l]
                            as int);
                    assert(sum_pos(weights@) <= i64::MAX);
                }
                match pick_weighted(&weights) {
                    Some(idx) => {
                        proof {
                            assert(goals@[idx as int]@.utility == weights@[idx as int] as int);
                        }
                        Some(goals[idx].clone())
                    },
                    None => None,
                }
            },
        }
    }
}

/// The sum of a nonnegative sequence's prefix is at most the sum of its
/// positive elements overall.
proof fn lemma_sum_take_le(s: Seq<i64>, k: int)
    requires
        0 <= k <= s.len(),
        forall|i: int| 0 <= i < s.len() ==> s[i] >= 0,
    ensures
        sum_weights(s.take(k)) <= sum_pos(s),
        sum_weights(s.take(k)) >= 0,
    decreases s.len() - k,
{
    assert(forall|i: int| 0 <= i < s.take(k).len() ==> s.take(k)[i] == s[i]);
    lemma_sum_nonneg(s.take(k));
    if k == s.len() {
        assert(s.take(k) =~= s);
    } else {
        lemma_sum_take_le(s, k + 1);
        assert(s.take(k + 1).drop_last() =~= s.take(k));
        assert(sum_weights(s.take(k + 1)) == sum_weights(s.take(k)) + s[k]);
    }
}

} // verus!
