//! A population: a deduplicated collection of candidate solutions.
//!
//! The members of a `Solutions` value are pairwise distinct at the canonical
//! fixed-point resolution. Every operation returns a new population; none
//! mutates one in place. The module also holds truncation selection and the
//! generational driver.

use vstd::prelude::*;

use crate::function::{Function, FunctionError};
use crate::random::RandomSource;
use crate::scalar::{spec_mul_fixed, SCALE};
use crate::solution::{spec_avg_seq, spec_mutated_from, valid_factor, Solution, SolutionError};

verus! {

/// Upper bound on the number of draws a single population sampling makes
/// before it stops collecting; it exists to bound the sampling loop and is
/// never reached when the sampled range offers enough distinct values.
pub const MAX_SAMPLE_ATTEMPTS: u64 = 100_000_000;

/// The canonical views of a sequence of solutions.
pub open spec fn seq_views(s: Seq<Solution>) -> Seq<Seq<i64>> {
    s.map_values(|x: Solution| x@)
}

/// Every coordinate of `q` lies in the half-open range `lo..hi`.
pub open spec fn in_range(q: Seq<i64>, lo: i64, hi: i64) -> bool {
    forall|j: int| 0 <= j < q.len() ==> lo <= #[trigger] q[j] < hi
}

/// First-occurrence deduplication of a sequence of coordinate vectors.
pub open spec fn spec_dedup(s: Seq<Seq<i64>>) -> Seq<Seq<i64>>
    decreases s.len(),
{
    if s.len() == 0 {
        Seq::<Seq<i64>>::empty()
    } else {
        let rest = spec_dedup(s.drop_last());
        if rest.contains(s.last()) {
            rest
        } else {
            rest.push(s.last())
        }
    }
}

/// Deduplication yields a duplicate-free sequence with exactly the distinct
/// values of the input: its members are the input's members, and its length
/// is the number of distinct values in the input, never more than the input's
/// length.
pub proof fn lemma_dedup_properties(s: Seq<Seq<i64>>)
    ensures
        spec_dedup(s).no_duplicates(),
        forall|x: Seq<i64>| #[trigger] spec_dedup(s).contains(x) <==> s.contains(x),
        spec_dedup(s).len() <= s.len(),
        spec_dedup(s).to_set() == s.to_set(),
        spec_dedup(s).len() == s.to_set().len(),
    decreases s.len(),
{
    if s.len() == 0 {
        assert(s.to_set() =~= Set::<Seq<i64>>::empty());
        assert(spec_dedup(s).to_set() =~= Set::<Seq<i64>>::empty());
    } else {
        let prefix = s.drop_last();
        lemma_dedup_properties(prefix);
        assert forall|x: Seq<i64>| s.contains(x) implies #[trigger] spec_dedup(s).contains(x) by {
            let i = choose|i: int| 0 <= i < s.len() && s[i] == x;
            if i < s.len() - 1 {
                assert(prefix[i] == x);
                assert(prefix.contains(x));
                assert(spec_dedup(prefix).contains(x));
                if !spec_dedup(prefix).contains(s.last()) {
                    assert(spec_dedup(s) == spec_dedup(prefix).push(s.last()));
                    let j = choose|j: int|
                        0 <= j < spec_dedup(prefix).len() && spec_dedup(prefix)[j] == x;
                    assert(spec_dedup(s)[j] == x);
                }
            } else {
                assert(x == s.last());
                if spec_dedup(prefix).contains(s.last()) {
                    assert(spec_dedup(s).contains(x));
                } else {
                    assert(spec_dedup(s).last() == x);
                }
            }
        }
        assert forall|x: Seq<i64>| #[trigger] spec_dedup(s).contains(x) implies s.contains(x) by {
            if spec_dedup(prefix).contains(x) {
                let i = choose|i: int| 0 <= i < prefix.len() && prefix[i] == x;
                assert(s[i] == x);
            } else {
                assert(x == s.last());
            }
        }
        assert(spec_dedup(s).to_set() =~= s.to_set()) by {
            assert forall|x: Seq<i64>| #[trigger] s.to_set().contains(x) implies spec_dedup(
                s,
            ).to_set().contains(x) by {
                assert(s.contains(x));
            }
            assert forall|x: Seq<i64>| #[trigger] spec_dedup(s).to_set().contains(x) implies
                s.to_set().contains(x) by {
                assert(spec_dedup(s).contains(x));
            }
        }
        spec_dedup(s).unique_seq_to_set();
    }
}

/// Deduplication leaves a sequence without duplicates unchanged.
pub proof fn lemma_dedup_of_unique(s: Seq<Seq<i64>>)
    requires
        s.no_duplicates(),
    ensures
        spec_dedup(s) == s,
    decreases s.len(),
{
    if s.len() == 0 {
        assert(spec_dedup(s) =~= s);
    } else {
        let prefix = s.drop_last();
        lemma_dedup_of_unique(prefix);
        if prefix.contains(s.last()) {
            let i = choose|i: int| 0 <= i < prefix.len() && prefix[i] == s.last();
            assert(s[i] == s.last());
            assert(false);
        }
        assert(spec_dedup(s) =~= s);
    }
}

/// All coordinate vectors of `s` have one common length.
pub open spec fn all_same_length(s: Seq<Seq<i64>>) -> bool {
    forall|i: int, j: int|
        0 <= i < s.len() && 0 <= j < s.len() ==> (#[trigger] s[i]).len() == (#[trigger] s[j]).len()
}

/// `q` may be a member of an evolved population over `members`: it is a
/// parent, or a possibly mutated crossover offspring of a pair of distinct
/// parents.
pub open spec fn evolution_member(q: Seq<i64>, members: Seq<Seq<i64>>) -> bool {
    members.contains(q) || exists|i: int, j: int|
        0 <= i < j < members.len() && spec_mutated_from(
            q,
            spec_avg_seq(#[trigger] members[i], #[trigger] members[j]),
        )
}

/// `off` covers the pair `(a, b)`: it holds a possibly mutated crossover
/// offspring of `mem[a]` and `mem[b]`.
pub open spec fn pair_covered(off: Seq<Seq<i64>>, mem: Seq<Seq<i64>>, a: int, b: int) -> bool {
    exists|q: Seq<i64>| #[trigger] off.contains(q) && spec_mutated_from(q, spec_avg_seq(mem[a], mem[b]))
}

/// Pushing onto a sequence keeps its members, adds the new one, and nothing
/// else.
pub proof fn lemma_push_contains(s: Seq<Seq<i64>>, x: Seq<i64>)
    ensures
        forall|y: Seq<i64>| #[trigger] s.contains(y) ==> s.push(x).contains(y),
        s.push(x).contains(x),
        forall|y: Seq<i64>| #[trigger] s.push(x).contains(y) ==> s.contains(y) || y == x,
{
    assert forall|y: Seq<i64>| #[trigger] s.contains(y) implies s.push(x).contains(y) by {
        let i = choose|i: int| 0 <= i < s.len() && s[i] == y;
        assert(s.push(x)[i] == y);
    }
    assert(s.push(x)[s.len() as int] == x);
    assert forall|y: Seq<i64>| #[trigger] s.push(x).contains(y) implies s.contains(y) || y == x by {
        let i = choose|i: int| 0 <= i < s.push(x).len() && s.push(x)[i] == y;
        if i < s.len() {
            assert(s[i] == y);
        }
    }
}

/// A non-empty collection of coordinate vectors has a member whose score
/// under the objective is at least every member's score.
pub proof fn lemma_exists_fittest<F: Function>(function: &F, s: Seq<Seq<i64>>)
    requires
        s.len() > 0,
    ensures
        exists|q: Seq<i64>|
            #[trigger] s.contains(q) && (forall|i: int|
                0 <= i < s.len() ==> function.score(q) >= function.score(#[trigger] s[i])),
    decreases s.len(),
{
    if s.len() == 1 {
        assert(s.contains(s[0]));
        assert(s.contains(s[0]) && (forall|i: int|
            0 <= i < s.len() ==> function.score(s[0]) >= function.score(#[trigger] s[i])));
    } else {
        let prefix = s.drop_last();
        lemma_exists_fittest(function, prefix);
        let q0 = choose|q0: Seq<i64>|
            #[trigger] prefix.contains(q0) && (forall|i: int|
                0 <= i < prefix.len() ==> function.score(q0) >= function.score(
                    #[trigger] prefix[i],
                ));
        let t = choose|t: int| 0 <= t < prefix.len() && prefix[t] == q0;
        assert(s[t] == q0);
        assert(s.contains(q0));
        assert(s.contains(s.last()));
        let q = if function.score(q0) >= function.score(s.last()) {
            q0
        } else {
            s.last()
        };
        assert forall|i: int| 0 <= i < s.len() implies function.score(q) >= function.score(
            #[trigger] s[i],
        ) by {
            if i < s.len() - 1 {
                assert(prefix[i] == s[i]);
                assert(function.score(q0) >= function.score(prefix[i]));
            }
        }
        assert(s.contains(q) && (forall|i: int|
            0 <= i < s.len() ==> function.score(q) >= function.score(#[trigger] s[i])));
    }
}

/// `ord` is a permutation of the positions `0 .. m`.
pub open spec fn is_perm(ord: Seq<int>, m: int) -> bool {
    &&& ord.len() == m
    &&& forall|i: int| 0 <= i < m ==> 0 <= #[trigger] ord[i] < m
    &&& forall|i: int, j: int| 0 <= i < j < m ==> ord[i] != ord[j]
    &&& forall|t: int| 0 <= t < m ==> ord.contains(t)
}

/// `selected` is a truncation selection of `members` under the objective:
/// it holds exactly `min(n, members.len())` entries, every kept member
/// scores at least every member left out, and with `n` at least the
/// population's size every member is kept. (Opaque: callers that need these
/// facts reveal the definition.)
#[verifier::opaque]
pub open spec fn truncation_selected<F: Function>(
    function: &F,
    members: Seq<Seq<i64>>,
    n: usize,
    selected: Seq<Seq<i64>>,
) -> bool {
    &&& selected.len() == (if n <= members.len() {
        n as int
    } else {
        members.len() as int
    })
    &&& forall|q1: Seq<i64>, q2: Seq<i64>|
        #![trigger selected.contains(q1), members.contains(q2)]
        selected.contains(q1) && members.contains(q2) && !selected.contains(q2)
            ==> function.score(q1) >= function.score(q2)
    &&& n >= members.len() ==> (forall|i: int|
        0 <= i < members.len() ==> selected.contains(#[trigger] members[i]))
}

/// Keep the `n` highest-scored of a list of scored solutions, highest first.
///
/// The result is the prefix of length `min(n, len)` of the input brought
/// into an order of non-increasing scores: there is a permutation of all
/// input positions, sorted by non-increasing score, whose first entries the
/// result copies.
pub fn rank_by_score(scored: Vec<(i64, Solution)>, n: usize) -> (r: Vec<(i64, Solution)>)
    ensures
        r@.len() == if n <= scored@.len() {
            n as int
        } else {
            scored@.len() as int
        },
        exists|ord: Seq<int>|
            {
                &&& #[trigger] is_perm(ord, scored@.len() as int)
                &&& forall|i: int, j: int|
                    0 <= i < j < ord.len() ==> scored@[ord[i]].0 >= scored@[ord[j]].0
                &&& forall|k: int|
                    0 <= k < r@.len() ==> (#[trigger] r@[k]).0 == scored@[ord[k]].0 && r@[k].1@
                        == scored@[ord[k]].1@
            },
{
    let m = scored.len();
    let mut order: Vec<usize> = Vec::new();
    for k in 0..m
        invariant
            m == scored@.len(),
            order@.len() == k,
            forall|i: int| 0 <= i < k ==> #[trigger] order@[i] < k,
            forall|i: int, j: int| 0 <= i < j < k ==> order@[i] != order@[j],
            forall|i: int, j: int|
                0 <= i < j < k ==> scored@[order@[i] as int].0 >= scored@[order@[j] as int].0,
            forall|t: int| 0 <= t < k ==> #[trigger] order@.contains(t as usize),
    {
        let mut pos: usize = 0;
        while pos < order.len() && scored[order[pos]].0 >= scored[k].0
            invariant
                m == scored@.len(),
                k < m,
                order@.len() == k,
                forall|i: int| 0 <= i < k ==> #[trigger] order@[i] < k,
                pos <= k,
                forall|i: int|
                    0 <= i < pos ==> scored@[#[trigger] order@[i] as int].0 >= scored@[k as int].0,
            decreases order@.len() - pos,
        {
            pos += 1;
        }
        let ghost prev = order@;
        order.insert(pos, k);
        proof {
            assert forall|i: int| 0 <= i < k + 1 implies #[trigger] order@[i] < k + 1 by {
                if i < pos {
                    assert(order@[i] == prev[i]);
                } else if i == pos {
                } else {
                    assert(order@[i] == prev[i - 1]);
                }
            }
            assert forall|i: int, j: int| 0 <= i < j < k + 1 implies order@[i] != order@[j] by {
                if j < pos {
                    assert(order@[i] == prev[i] && order@[j] == prev[j]);
                } else if j == pos {
                    assert(order@[i] == prev[i] && prev[i] < k);
                } else if i < pos {
                    assert(order@[i] == prev[i] && order@[j] == prev[j - 1]);
                } else if i == pos {
                    assert(order@[j] == prev[j - 1] && prev[j - 1] < k);
                } else {
                    assert(order@[i] == prev[i - 1] && order@[j] == prev[j - 1]);
                }
            }
            assert forall|i: int, j: int|
                0 <= i < j < k + 1 implies scored@[#[trigger] order@[i] as int].0 >= scored@[
                #[trigger] order@[j] as int].0 by {
                if j < pos {
                    assert(order@[i] == prev[i] && order@[j] == prev[j]);
                } else if j == pos {
                    assert(order@[i] == prev[i]);
                } else if i < pos {
                    assert(order@[i] == prev[i] && order@[j] == prev[j - 1]);
                    if pos < prev.len() {
                        assert(scored@[prev[pos as int] as int].0 < scored@[k as int].0);
                    }
                } else if i == pos {
                    assert(order@[j] == prev[j - 1]);
                    assert(pos <= j - 1 < prev.len());
                    assert(scored@[prev[pos as int] as int].0 < scored@[k as int].0);
                    assert(scored@[prev[j - 1] as int].0 <= scored@[prev[pos as int] as int].0);
                } else {
                    assert(order@[i] == prev[i - 1] && order@[j] == prev[j - 1]);
                }
            }
            assert forall|t: int| 0 <= t < k + 1 implies #[trigger] order@.contains(t as usize) by {
                if t == k {
                    assert(order@[pos as int] == t as usize);
                } else {
                    assert(prev.contains(t as usize));
                    let i0 = choose|i: int| 0 <= i < prev.len() && prev[i] == t as usize;
                    if i0 < pos {
                        assert(order@[i0] == t as usize);
                    } else {
                        assert(order@[i0 + 1] == t as usize);
                    }
                }
            }
        }
    }
    let take_n = if n <= m {
        n
    } else {
        m
    };
    let mut r: Vec<(i64, Solution)> = Vec::new();
    for i in 0..take_n
        invariant
            m == scored@.len(),
            take_n <= m,
            order@.len() == m,
            forall|i0: int| 0 <= i0 < m ==> #[trigger] order@[i0] < m,
            r@.len() == i,
            forall|k0: int|
                0 <= k0 < i ==> (#[trigger] r@[k0]).0 == scored@[order@[k0] as int].0 && r@[k0].1@
                    == scored@[order@[k0] as int].1@,
    {
        let idx = order[i];
        let score = scored[idx].0;
        let copy = Solution::new(scored[idx].1.get_arguments());
        r.push((score, copy));
    }
    proof {
        let ord = order@.map_values(|u: usize| u as int);
        assert forall|t: int| 0 <= t < m implies ord.contains(t) by {
            assert(order@.contains(t as usize));
            let i0 = choose|i: int| 0 <= i < order@.len() && order@[i] == t as usize;
            assert(ord[i0] == t);
        }
        assert(is_perm(ord, scored@.len() as int));
        assert(forall|i: int, j: int|
            0 <= i < j < ord.len() ==> scored@[ord[i]].0 >= scored@[ord[j]].0);
        assert(forall|k: int|
            0 <= k < r@.len() ==> (#[trigger] r@[k]).0 == scored@[ord[k]].0 && r@[k].1@
                == scored@[ord[k]].1@);
    }
    r
}

/// A deduplicated population of candidate solutions.
#[derive(Debug, Clone)]
pub struct Solutions {
    solutions: Vec<Solution>,
}

impl View for Solutions {
    type V = Seq<Seq<i64>>;

    closed spec fn view(&self) -> Seq<Seq<i64>> {
        seq_views(self.solutions@)
    }
}

impl Solutions {
    /// The population invariant: no two members share a canonical form.
    pub open spec fn wf(&self) -> bool {
        self@.no_duplicates()
    }

    /// Whether some member of `v` has the same canonical form as `s`.
    fn contains_solution(v: &Vec<Solution>, s: &Solution) -> (r: bool)
        ensures
            r == seq_views(v@).contains(s@),
    {
        let mut k: usize = 0;
        while k < v.len()
            invariant
                0 <= k <= v@.len(),
                forall|i: int| 0 <= i < k ==> seq_views(v@)[i] != s@,
            decreases v@.len() - k,
        {
            if v[k] == *s {
                assert(seq_views(v@)[k as int] == s@);
                return true;
            }
            k += 1;
        }
        false
    }

    /// Build a population from a collection of solutions, keeping the first
    /// of every group of canonically equal ones.
    pub fn from(solutions: Vec<Solution>) -> (r: Solutions)
        ensures
            r@ == spec_dedup(seq_views(solutions@)),
            r.wf(),
    {
        let mut kept: Vec<Solution> = Vec::new();
        let n = solutions.len();
        for k in 0..n
            invariant
                n == solutions@.len(),
                seq_views(kept@) == spec_dedup(seq_views(solutions@.take(k as int))),
        {
            proof {
                assert(seq_views(solutions@.take(k + 1)).drop_last() =~= seq_views(
                    solutions@.take(k as int),
                ));
                assert(seq_views(solutions@.take(k + 1)).last() == solutions@[k as int]@);
            }
            let candidate = &solutions[k];
            if !Self::contains_solution(&kept, candidate) {
                kept.push(Solution::new(candidate.get_arguments()));
                proof {
                    assert(seq_views(kept@).drop_last() =~= seq_views(kept@.drop_last()));
                    assert(seq_views(kept@) =~= spec_dedup(seq_views(solutions@.take(k + 1))));
                }
            } else {
                proof {
                    assert(seq_views(kept@) =~= spec_dedup(seq_views(solutions@.take(k + 1))));
                }
            }
        }
        proof {
            assert(solutions@.take(n as int) =~= solutions@);
            lemma_dedup_properties(seq_views(solutions@));
        }
        Solutions { solutions: kept }
    }

    /// Sample a population of up to `n_solutions` distinct random solutions of
    /// `length` coordinates each, drawn from the non-empty range `lo..hi`.
    /// Duplicate draws are discarded and sampling continues; the collection
    /// only stops short of `n_solutions` if a very large attempt bound is
    /// exhausted first.
    pub fn random(n_solutions: usize, lo: i64, hi: i64, length: usize, rng: &mut RandomSource) -> (r:
        Solutions)
        requires
            lo < hi,
        ensures
            r.wf(),
            r@.len() <= n_solutions,
            n_solutions > 0 ==> r@.len() > 0,
            forall|i: int| 0 <= i < r@.len() ==> (#[trigger] r@[i]).len() == length && in_range(
                r@[i],
                lo,
                hi,
            ),
    {
        let mut kept: Vec<Solution> = Vec::new();
        let mut attempts: u64 = 0;
        while kept.len() < n_solutions && attempts < MAX_SAMPLE_ATTEMPTS
            invariant
                lo < hi,
                seq_views(kept@).no_duplicates(),
                kept@.len() <= n_solutions,
                attempts > 0 && n_solutions > 0 ==> kept@.len() > 0,
                forall|i: int| 0 <= i < kept@.len() ==> (#[trigger] seq_views(kept@)[i]).len()
                    == length && in_range(seq_views(kept@)[i], lo, hi),
            decreases MAX_SAMPLE_ATTEMPTS - attempts,
        {
            let s = Solution::random(lo, hi, length, rng);
            let ghost prev = kept@;
            if !Self::contains_solution(&kept, &s) {
                kept.push(s);
                proof {
                    assert(seq_views(kept@) =~= seq_views(prev).push(s@));
                    assert forall|i: int, j: int|
                        0 <= i < j < seq_views(kept@).len() implies seq_views(kept@)[i]
                        != seq_views(kept@)[j] by {
                        if j == seq_views(kept@).len() - 1 {
                            assert(!seq_views(prev).contains(s@));
                            assert(seq_views(kept@)[i] == seq_views(prev)[i]);
                        }
                    }
                }
            }
            attempts += 1;
        }
        Solutions { solutions: kept }
    }

    /// Compute every member's fitness. The result pairs each member, in
    /// order, with its score; the call fails with the objective's arity error
    /// exactly when some member's dimensionality differs from the
    /// objective's arity.
    pub fn fitnesses<F: Function>(&self, function: &F) -> (r: Result<
        Vec<(i64, Solution)>,
        FunctionError,
    >)
        ensures
            r is Ok <==> (forall|i: int|
                0 <= i < self@.len() ==> (#[trigger] self@[i]).len() == function.arity()),
            r matches Ok(v) ==> v@.len() == self@.len() && (forall|i: int|
                0 <= i < v@.len() ==> (#[trigger] v@[i]).1@ == self@[i] && v@[i].0
                    == function.score(self@[i])),
            r matches Err(e) ==> exists|i: int|
                0 <= i < self@.len() && (#[trigger] self@[i]).len() != function.arity() && e
                    == (FunctionError::WrongNumberOfEntries {
                    expected_number_of_entries: function.arity(),
                    actual_number_of_entries: self@[i].len() as usize,
                }),
    {
        let mut v: Vec<(i64, Solution)> = Vec::new();
        for k in 0..self.solutions.len()
            invariant
                v@.len() == k,
                forall|i: int|
                    0 <= i < k ==> (#[trigger] v@[i]).1@ == self@[i] && v@[i].0 == function.score(
                        self@[i],
                    ),
                forall|i: int| 0 <= i < k ==> (#[trigger] self@[i]).len() == function.arity(),
        {
            assert(self@[k as int] == self.solutions@[k as int]@);
            match self.solutions[k].fitness(function) {
                Ok(score) => {
                    let copy = Solution::new(self.solutions[k].get_arguments());
                    v.push((score, copy));
                },
                Err(e) => {
                    return Err(e);
                },
            }
        }
        Ok(v)
    }

    /// The `n` fittest members under the given objective, fittest first
    /// (every member if the population holds fewer than `n`). Fails with the
    /// objective's arity error exactly when some member's dimensionality
    /// differs from the objective's arity.
    pub fn get_n_fittest<F: Function>(&self, n: usize, function: &F) -> (r: Result<
        Vec<Solution>,
        FunctionError,
    >)
        ensures
            r is Ok <==> (forall|i: int|
                0 <= i < self@.len() ==> (#[trigger] self@[i]).len() == function.arity()),
            r matches Ok(v) ==> ({
                &&& v@.len() == if n <= self@.len() {
                    n as int
                } else {
                    self@.len() as int
                }
                &&& exists|ord: Seq<int>|
                    {
                        &&& #[trigger] is_perm(ord, self@.len() as int)
                        &&& forall|i: int, j: int|
                            0 <= i < j < ord.len() ==> function.score(self@[ord[i]])
                                >= function.score(self@[ord[j]])
                        &&& forall|k: int|
                            0 <= k < v@.len() ==> (#[trigger] v@[k])@ == self@[ord[k]]
                    }
            }),
            r matches Err(e) ==> exists|i: int|
                0 <= i < self@.len() && (#[trigger] self@[i]).len() != function.arity() && e
                    == (FunctionError::WrongNumberOfEntries {
                    expected_number_of_entries: function.arity(),
                    actual_number_of_entries: self@[i].len() as usize,
                }),
    {
        let scored = match self.fitnesses(function) {
            Ok(scored) => scored,
            Err(e) => {
                return Err(e);
            },
        };
        let top = rank_by_score(scored, n);
        let mut v: Vec<Solution> = Vec::new();
        for i in 0..top.len()
            invariant
                v@.len() == i,
                forall|k: int| 0 <= k < i ==> (#[trigger] v@[k])@ == top@[k].1@,
        {
            v.push(Solution::new(top[i].1.get_arguments()));
        }
        Ok(v)
    }

    /// The population of the `n` fittest members under the given objective:
    /// the deduplicated collection of what `get_n_fittest` selects. For a
    /// well-formed population that is exactly the `min(n, len)` fittest
    /// members: every kept member scores at least every excluded one, and
    /// with `n` at least the population's size every member is kept. Fails
    /// with the objective's arity error exactly when some member's
    /// dimensionality differs from the objective's arity.
    pub fn get_fittest_population<F: Function>(&self, n: usize, function: &F) -> (r: Result<
        Solutions,
        FunctionError,
    >)
        ensures
            r is Ok <==> (forall|i: int|
                0 <= i < self@.len() ==> (#[trigger] self@[i]).len() == function.arity()),
            r matches Ok(p) ==> ({
                &&& p.wf()
                &&& p@.len() <= n
                &&& forall|q: Seq<i64>| #[trigger] p@.contains(q) ==> self@.contains(q)
                &&& self@.len() > 0 && n > 0 ==> p@.len() > 0 && (exists|q: Seq<i64>|
                    #[trigger] p@.contains(q) && forall|i: int|
                        0 <= i < self@.len() ==> function.score(q) >= function.score(
                            #[trigger] self@[i],
                        ))
                &&& self.wf() ==> truncation_selected(function, self@, n, p@)
            }),
            r matches Err(e) ==> exists|i: int|
                0 <= i < self@.len() && (#[trigger] self@[i]).len() != function.arity() && e
                    == (FunctionError::WrongNumberOfEntries {
                    expected_number_of_entries: function.arity(),
                    actual_number_of_entries: self@[i].len() as usize,
                }),
    {
        let v = match self.get_n_fittest(n, function) {
            Ok(v) => v,
            Err(e) => {
                return Err(e);
            },
        };
        let p = Solutions::from(v);
        proof {
            lemma_dedup_properties(seq_views(v@));
            let m = self@.len() as int;
            let min_n: int = if n <= self@.len() {
                n as int
            } else {
                m
            };
            let ord = choose|ord: Seq<int>|
                {
                    &&& #[trigger] is_perm(ord, m)
                    &&& forall|i: int, j: int|
                        0 <= i < j < ord.len() ==> function.score(self@[ord[i]])
                            >= function.score(self@[ord[j]])
                    &&& forall|k: int|
                        0 <= k < v@.len() ==> (#[trigger] v@[k])@ == self@[ord[k]]
                };
            assert(v@.len() == min_n);
            if m > 0 && n > 0 {
                let best = self@[ord[0]];
                assert(seq_views(v@)[0] == best);
                assert(seq_views(v@).contains(best));
                assert(p@.contains(best));
                assert forall|i: int| 0 <= i < m implies function.score(best) >= function.score(
                    #[trigger] self@[i],
                ) by {
                    assert(ord.contains(i));
                    let t = choose|t: int| 0 <= t < ord.len() && ord[t] == i;
                    if t > 0 {
                        assert(function.score(self@[ord[0]]) >= function.score(self@[ord[t]]));
                    }
                }
            }
            assert forall|q: Seq<i64>| #[trigger] p@.contains(q) implies self@.contains(q) by {
                assert(seq_views(v@).contains(q));
                let k = choose|k: int| 0 <= k < seq_views(v@).len() && seq_views(v@)[k] == q;
                assert(v@[k]@ == self@[ord[k]]);
            }
            if self.wf() {
                reveal(truncation_selected);
                assert(seq_views(v@).no_duplicates()) by {
                    assert forall|k1: int, k2: int|
                        0 <= k1 < k2 < seq_views(v@).len() implies seq_views(v@)[k1] != seq_views(
                        v@,
                    )[k2] by {
                        assert(v@[k1]@ == self@[ord[k1]]);
                        assert(v@[k2]@ == self@[ord[k2]]);
                        assert(ord[k1] != ord[k2]);
                        if ord[k1] < ord[k2] {
                            assert(self@[ord[k1]] != self@[ord[k2]]);
                        } else {
                            assert(self@[ord[k2]] != self@[ord[k1]]);
                        }
                    }
                }
                lemma_dedup_of_unique(seq_views(v@));
                assert(p@ == seq_views(v@));
                assert(p@.len() == min_n);
                assert forall|q1: Seq<i64>, q2: Seq<i64>|
                    p@.contains(q1) && self@.contains(q2) && !p@.contains(q2)
                        implies function.score(q1) >= function.score(q2) by {
                    let k1 = choose|k1: int| 0 <= k1 < p@.len() && p@[k1] == q1;
                    assert(v@[k1]@ == self@[ord[k1]]);
                    assert(q1 == self@[ord[k1]]);
                    let t = choose|t: int| 0 <= t < self@.len() && self@[t] == q2;
                    assert(ord.contains(t));
                    let u = choose|u: int| 0 <= u < ord.len() && ord[u] == t;
                    if u < min_n {
                        assert(v@[u]@ == self@[ord[u]]);
                        assert(p@[u] == q2);
                        assert(p@.contains(q2));
                        assert(false);
                    } else {
                        assert(k1 < u);
                        assert(function.score(self@[ord[k1]]) >= function.score(self@[ord[u]]));
                    }
                }
                if n >= self.solutions.len() {
                    assert(min_n == m);
                    assert forall|i: int| 0 <= i < m implies p@.contains(#[trigger] self@[i]) by {
                        assert(ord.contains(i));
                        let u = choose|u: int| 0 <= u < ord.len() && ord[u] == i;
                        assert(v@[u]@ == self@[ord[u]]);
                        assert(p@[u] == self@[i]);
                    }
                }
            }
        }
        Ok(p)
    }

    /// Evolve the population one generation: cross every unordered pair of
    /// distinct members (coordinate-wise averaging), mutate every offspring
    /// independently with the given probability, keep the parents, and
    /// collect everything into a new deduplicated population. Fails with a
    /// dimension mismatch exactly when two members have different
    /// dimensionality.
    #[verifier::loop_isolation(false)]
    pub fn evolve(&self, mutation_probability: i64, rng: &mut RandomSource) -> (r: Result<
        Solutions,
        SolutionError,
    >)
        requires
            0 <= mutation_probability <= SCALE,
        ensures
            r is Ok <==> all_same_length(self@),
            r matches Ok(p) ==> ({
                &&& p.wf()
                &&& forall|i: int| 0 <= i < self@.len() ==> p@.contains(#[trigger] self@[i])
                &&& forall|q: Seq<i64>| #[trigger] p@.contains(q) ==> evolution_member(q, self@)
                &&& forall|a: int, b: int|
                    0 <= a < b < self@.len() ==> pair_covered(p@, self@, a, b)
                &&& mutation_probability == 0 ==> forall|a: int, b: int|
                    0 <= a < b < self@.len() ==> p@.contains(
                        spec_avg_seq(#[trigger] self@[a], #[trigger] self@[b]),
                    )
                &&& forall|q: Seq<i64>|
                    #[trigger] p@.contains(q) ==> exists|t: int|
                        0 <= t < self@.len() && q.len() == (#[trigger] self@[t]).len()
            }),
            r matches Err(e) ==> !all_same_length(self@) && (exists|a: int, b: int|
                0 <= a < b < self@.len() && (#[trigger] self@[a]).len() != (
                #[trigger] self@[b]).len() && e == (SolutionError::DimensionMismatch {
                    left_number_of_entries: self@[a].len() as usize,
                    right_number_of_entries: self@[b].len() as usize,
                })),
    {
        let m = self.solutions.len();
        let mut offspring: Vec<Solution> = Vec::new();
        let mut i: usize = 0;
        while i < m
            invariant
                i <= m,
                forall|q: Seq<i64>|
                    #[trigger] seq_views(offspring@).contains(q) ==> evolution_member(q, self@),
                forall|a: int, b: int|
                    0 <= a < b < m && a < i ==> (#[trigger] self@[a]).len() == (
                    #[trigger] self@[b]).len(),
                forall|a: int, b: int|
                    0 <= a < b < m && a < i ==> #[trigger] pair_covered(
                        seq_views(offspring@),
                        self@,
                        a,
                        b,
                    ),
                mutation_probability == 0 ==> forall|a: int, b: int|
                    0 <= a < b < m && a < i ==> seq_views(offspring@).contains(
                        spec_avg_seq(#[trigger] self@[a], #[trigger] self@[b]),
                    ),
            decreases m - i,
        {
            let mut j = i + 1;
            while j < m
                invariant
                    i < m,
                    i + 1 <= j <= m,
                    forall|q: Seq<i64>|
                        #[trigger] seq_views(offspring@).contains(q) ==> evolution_member(
                            q,
                            self@,
                        ),
                    forall|a: int, b: int|
                        0 <= a < b < m && (a < i || (a == i && b < j)) ==> (
                        #[trigger] self@[a]).len() == (#[trigger] self@[b]).len(),
                    forall|a: int, b: int|
                        0 <= a < b < m && (a < i || (a == i && b < j)) ==> #[trigger] pair_covered(
                            seq_views(offspring@),
                            self@,
                            a,
                            b,
                        ),
                    mutation_probability == 0 ==> forall|a: int, b: int|
                        0 <= a < b < m && (a < i || (a == i && b < j)) ==> seq_views(
                            offspring@,
                        ).contains(spec_avg_seq(#[trigger] self@[a], #[trigger] self@[b])),
                decreases m - j,
            {
                let crossed = match self.solutions[i].crossover(&self.solutions[j]) {
                    Ok(c) => c,
                    Err(e) => {
                        proof {
                            assert(self@[i as int] == self.solutions@[i as int]@);
                            assert(self@[j as int] == self.solutions@[j as int]@);
                            assert(self@[i as int].len() != self@[j as int].len());
                            assert(!all_same_length(self@));
                            assert(i < j && (j as int) < self@.len() && self@[i as int].len()
                                != self@[j as int].len() && e == (SolutionError::DimensionMismatch {
                                left_number_of_entries: self@[i as int].len() as usize,
                                right_number_of_entries: self@[j as int].len() as usize,
                            }));
                        }
                        return Err(e);
                    },
                };
                let mutated = crossed.mutate(mutation_probability, rng);
                let ghost prev = seq_views(offspring@);
                let ghost q = mutated@;
                offspring.push(mutated);
                proof {
                    assert(seq_views(offspring@) =~= prev.push(q));
                    lemma_push_contains(prev, q);
                    assert(spec_mutated_from(q, spec_avg_seq(self@[i as int], self@[j as int])));
                    assert(evolution_member(q, self@));
                    assert(pair_covered(seq_views(offspring@), self@, i as int, j as int));
                    assert forall|a: int, b: int|
                        0 <= a < b < m && (a < i || (a == i && b < j + 1)) implies
                        #[trigger] pair_covered(seq_views(offspring@), self@, a, b) by {
                        if a == i && b == j {
                        } else {
                            assert(pair_covered(prev, self@, a, b));
                            let qq = choose|qq: Seq<i64>|
                                #[trigger] prev.contains(qq) && spec_mutated_from(
                                    qq,
                                    spec_avg_seq(self@[a], self@[b]),
                                );
                            assert(seq_views(offspring@).contains(qq));
                        }
                    }
                    if mutation_probability == 0 {
                        assert(q == spec_avg_seq(self@[i as int], self@[j as int]));
                        assert forall|a: int, b: int|
                            0 <= a < b < m && (a < i || (a == i && b < j + 1)) implies seq_views(
                            offspring@,
                        ).contains(spec_avg_seq(#[trigger] self@[a], #[trigger] self@[b])) by {
                            if a == i && b == j {
                            } else {
                                assert(prev.contains(spec_avg_seq(self@[a], self@[b])));
                                assert(seq_views(offspring@).contains(
                                    spec_avg_seq(self@[a], self@[b]),
                                ));
                            }
                        }
                    }
                }
                j += 1;
            }
            i += 1;
        }
        let mut t: usize = 0;
        while t < m
            invariant
                t <= m,
                forall|q: Seq<i64>|
                    #[trigger] seq_views(offspring@).contains(q) ==> evolution_member(q, self@),
                forall|a: int, b: int|
                    0 <= a < b < m ==> (#[trigger] self@[a]).len() == (#[trigger] self@[b]).len(),
                forall|a: int, b: int|
                    0 <= a < b < m ==> #[trigger] pair_covered(seq_views(offspring@), self@, a, b),
                mutation_probability == 0 ==> forall|a: int, b: int|
                    0 <= a < b < m ==> seq_views(offspring@).contains(
                        spec_avg_seq(#[trigger] self@[a], #[trigger] self@[b]),
                    ),
                forall|t0: int| 0 <= t0 < t ==> seq_views(offspring@).contains(#[trigger] self@[t0]),
            decreases m - t,
        {
            let parent = Solution::new(self.solutions[t].get_arguments());
            let ghost prev = seq_views(offspring@);
            let ghost q = parent@;
            offspring.push(parent);
            proof {
                assert(seq_views(offspring@) =~= prev.push(q));
                lemma_push_contains(prev, q);
                assert(q == self@[t as int]);
                assert(self@.contains(q));
                assert forall|a: int, b: int|
                    0 <= a < b < m implies #[trigger] pair_covered(
                    seq_views(offspring@),
                    self@,
                    a,
                    b,
                ) by {
                    assert(pair_covered(prev, self@, a, b));
                    let qq = choose|qq: Seq<i64>|
                        #[trigger] prev.contains(qq) && spec_mutated_from(
                            qq,
                            spec_avg_seq(self@[a], self@[b]),
                        );
                    assert(seq_views(offspring@).contains(qq));
                }
                if mutation_probability == 0 {
                    assert forall|a: int, b: int| 0 <= a < b < m implies seq_views(
                        offspring@,
                    ).contains(spec_avg_seq(#[trigger] self@[a], #[trigger] self@[b])) by {
                        assert(prev.contains(spec_avg_seq(self@[a], self@[b])));
                    }
                }
            }
            t += 1;
        }
        let p = Solutions::from(offspring);
        proof {
            lemma_dedup_properties(seq_views(offspring@));
            assert forall|a: int, b: int| 0 <= a < b < m implies #[trigger] pair_covered(
                p@,
                self@,
                a,
                b,
            ) by {
                assert(pair_covered(seq_views(offspring@), self@, a, b));
                let qq = choose|qq: Seq<i64>|
                    #[trigger] seq_views(offspring@).contains(qq) && spec_mutated_from(
                        qq,
                        spec_avg_seq(self@[a], self@[b]),
                    );
                assert(p@.contains(qq));
            }
            assert forall|q: Seq<i64>| #[trigger] p@.contains(q) implies exists|t: int|
                0 <= t < self@.len() && q.len() == (#[trigger] self@[t]).len() by {
                assert(seq_views(offspring@).contains(q));
                assert(evolution_member(q, self@));
                if self@.contains(q) {
                    let t = choose|t: int| 0 <= t < self@.len() && self@[t] == q;
                    assert(q.len() == (#[trigger] self@[t]).len());
                } else {
                    let (i, j) = choose|i: int, j: int|
                        0 <= i < j < self@.len() && spec_mutated_from(
                            q,
                            spec_avg_seq(#[trigger] self@[i], #[trigger] self@[j]),
                        );
                    let base = spec_avg_seq(self@[i], self@[j]);
                    if q != base {
                        let (ii, ff) = choose|ii: int, ff: int|
                            0 <= ii < base.len() && valid_factor(ff) && q == base.update(
                                ii,
                                spec_mul_fixed(base[ii] as int, ff) as i64,
                            );
                        assert(q.len() == base.len());
                    }
                    assert(q.len() == (#[trigger] self@[i]).len());
                }
            }
            if m > 0 {
                assert(all_same_length(self@)) by {
                    assert forall|i0: int, j0: int|
                        0 <= i0 < m && 0 <= j0 < m implies (#[trigger] self@[i0]).len() == (
                    #[trigger] self@[j0]).len() by {
                        if i0 < j0 {
                        } else if j0 < i0 {
                        }
                    }
                }
            }
        }
        Ok(p)
    }

    /// Number of members.
    pub fn len(&self) -> (r: usize)
        ensures
            r == self@.len(),
    {
        self.solutions.len()
    }

    /// The members of the population.
    pub fn members(&self) -> (r: &Vec<Solution>)
        ensures
            seq_views(r@) == self@,
    {
        &self.solutions
    }
}

/// Error that aborts a generational run.
#[derive(Debug, Clone, Copy, PartialEq, Eq, Structural)]
pub enum EvolutionError {
    /// The objective rejected a member's dimensionality.
    Function(FunctionError),
    /// Two members of a population could not be crossed.
    Dimension(SolutionError),
}

/// The driver's fixed mutation probability, one half at the canonical scale.
pub const MUTATION_PROBABILITY: i64 = 5_000_000_000;

/// What a finished worker hands back: on success, a list of solutions of the
/// objective's arity that, for a non-empty start and a positive selection
/// size, is non-empty and holds a solution at least as fit as every starting
/// member.
pub open spec fn worker_result_ok<F: Function>(
    function: &F,
    init: Seq<Seq<i64>>,
    size_generation: usize,
    out: Result<Vec<Solution>, EvolutionError>,
) -> bool {
    &&& (out matches Ok(v) ==> ({
        &&& v@.len() <= size_generation
        &&& forall|k: int| 0 <= k < v@.len() ==> (#[trigger] v@[k])@.len() == function.arity()
        &&& init.len() > 0 && size_generation > 0 ==> v@.len() > 0 && (forall|i: int|
            0 <= i < init.len() ==> function.score(v@[0]@) >= function.score(#[trigger] init[i]))
    }))
    &&& (forall|i: int| 0 <= i < init.len() ==> (#[trigger] init[i]).len() == function.arity())
        ==> out is Ok
}

/// One generation of the engine: evolve the population, then keep its
/// `size_generation` fittest members. Succeeds whenever every member has the
/// objective's arity; the result is then a well-formed population of at most
/// `size_generation` members of that arity which, for a non-empty input and
/// a positive selection size, holds a solution at least as fit as every
/// input member.
#[verifier::rlimit(100)]
#[verifier::spinoff_prover]
fn evolution_step<F: Function>(
    pop: Solutions,
    size_generation: usize,
    function: &F,
    rng: &mut RandomSource,
) -> (r: Result<Solutions, EvolutionError>)
    ensures
        r matches Ok(p2) ==> ({
            &&& p2.wf()
            &&& p2@.len() <= size_generation
            &&& forall|k: int|
                0 <= k < p2@.len() ==> (#[trigger] p2@[k]).len() == function.arity()
            &&& pop@.len() > 0 && size_generation > 0 ==> p2@.len() > 0 && (exists|q: Seq<i64>|
                #[trigger] p2@.contains(q) && (forall|i: int|
                    0 <= i < pop@.len() ==> function.score(q) >= function.score(
                        #[trigger] pop@[i],
                    )))
        }),
        (forall|i: int| 0 <= i < pop@.len() ==> (#[trigger] pop@[i]).len() == function.arity())
            ==> r is Ok,
{
    let evolved = match pop.evolve(MUTATION_PROBABILITY, rng) {
        Ok(p) => p,
        Err(e) => {
            proof {
                if forall|i: int|
                    0 <= i < pop@.len() ==> (#[trigger] pop@[i]).len() == function.arity() {
                    assert(all_same_length(pop@));
                    assert(false);
                }
            }
            return Err(EvolutionError::Dimension(e));
        },
    };
    let selected = match evolved.get_fittest_population(size_generation, function) {
        Ok(p) => p,
        Err(e) => {
            proof {
                if forall|i: int|
                    0 <= i < pop@.len() ==> (#[trigger] pop@[i]).len() == function.arity() {
                    let k = choose|k: int|
                        0 <= k < evolved@.len() && (#[trigger] evolved@[k]).len()
                            != function.arity();
                    assert(evolved@.contains(evolved@[k]));
                    let t = choose|t: int|
                        0 <= t < pop@.len() && evolved@[k].len() == (#[trigger] pop@[t]).len();
                    assert(false);
                }
            }
            return Err(EvolutionError::Function(e));
        },
    };
    proof {
        if pop@.len() > 0 && size_generation > 0 {
            assert(evolved@.contains(pop@[0]));
            assert(evolved@.len() > 0);
            let q2 = choose|q2: Seq<i64>|
                #[trigger] selected@.contains(q2) && (forall|i: int|
                    0 <= i < evolved@.len() ==> function.score(q2) >= function.score(
                        #[trigger] evolved@[i],
                    ));
            assert forall|i: int| 0 <= i < pop@.len() implies function.score(q2)
                >= function.score(#[trigger] pop@[i]) by {
                assert(evolved@.contains(pop@[i]));
                let t = choose|t: int| 0 <= t < evolved@.len() && evolved@[t] == pop@[i];
                assert(function.score(q2) >= function.score(evolved@[t]));
            }
            assert(selected@.len() > 0);
        }
        assert forall|k: int| 0 <= k < selected@.len() implies (#[trigger] selected@[k]).len()
            == function.arity() by {
            assert(selected@.contains(selected@[k]));
            let t = choose|t: int| 0 <= t < evolved@.len() && evolved@[t] == selected@[k];
            assert(evolved@[t].len() == function.arity());
        }
    }
    Ok(selected)
}

/// The shared engine of the generational driver: evolve the population and
/// keep the `size_generation` fittest members, `n_generations` times over,
/// on the calling thread. A run over a population whose members all have the
/// objective's arity always succeeds; after at least one generation the
/// result holds at most `size_generation` members; for a non-empty start and
/// a positive selection size, the result holds a solution at least as fit as
/// every starting member.
#[verifier::rlimit(100)]
#[verifier::loop_isolation(false)]
pub fn run_generations<F: Function>(
    initial_population: Solutions,
    n_generations: usize,
    size_generation: usize,
    function: &F,
    rng: &mut RandomSource,
) -> (r: Result<Solutions, EvolutionError>)
    requires
        initial_population.wf(),
    ensures
        r matches Ok(p) ==> p.wf(),
        n_generations == 0 ==> (r matches Ok(p) && p@ == initial_population@),
        r matches Ok(p) ==> (n_generations > 0 ==> p@.len() <= size_generation),
        r matches Ok(p) ==> (initial_population@.len() > 0 && size_generation > 0 ==> p@.len() > 0
            && (exists|q: Seq<i64>|
            #[trigger] p@.contains(q) && (forall|i: int|
                0 <= i < initial_population@.len() ==> function.score(q) >= function.score(
                    #[trigger] initial_population@[i],
                )))),
        r matches Ok(p) ==> (n_generations > 0 ==> forall|k: int|
            0 <= k < p@.len() ==> (#[trigger] p@[k]).len() == function.arity()),
        (forall|i: int|
            0 <= i < initial_population@.len() ==> (#[trigger] initial_population@[i]).len()
                == function.arity()) ==> r is Ok,
{
    let ghost init = initial_population@;
    let mut pop = initial_population;
    let mut g: usize = 0;
    while g < n_generations
        invariant
            pop.wf(),
            g <= n_generations,
            g == 0 ==> pop@ == init,
            g > 0 ==> pop@.len() <= size_generation,
            g > 0 ==> forall|k: int|
                0 <= k < pop@.len() ==> (#[trigger] pop@[k]).len() == function.arity(),
            init.len() > 0 && size_generation > 0 && g > 0 ==> pop@.len() > 0 && (exists|
                q: Seq<i64>,
            |
                #[trigger] pop@.contains(q) && (forall|i: int|
                    0 <= i < init.len() ==> function.score(q) >= function.score(
                        #[trigger] init[i],
                    ))),
        decreases n_generations - g,
    {
        let ghost before = pop@;
        let next = match evolution_step(pop, size_generation, function, rng) {
            Ok(p) => p,
            Err(e) => {
                proof {
                    if forall|i: int|
                        0 <= i < init.len() ==> (#[trigger] init[i]).len() == function.arity() {
                        assert forall|i: int| 0 <= i < before.len() implies (
                        #[trigger] before[i]).len() == function.arity() by {
                            if g == 0 {
                                assert(before == init);
                                assert(init[i].len() == function.arity());
                            }
                        }
                        assert(false);
                    }
                }
                return Err(e);
            },
        };
        proof {
            if init.len() > 0 && size_generation > 0 {
                let q2 = choose|q2: Seq<i64>|
                    #[trigger] next@.contains(q2) && (forall|i: int|
                        0 <= i < before.len() ==> function.score(q2) >= function.score(
                            #[trigger] before[i],
                        ));
                assert forall|i: int| 0 <= i < init.len() implies function.score(q2)
                    >= function.score(#[trigger] init[i]) by {
                    if g == 0 {
                        assert(before == init);
                        assert(function.score(q2) >= function.score(before[i]));
                    } else {
                        let qbest = choose|qbest: Seq<i64>|
                            #[trigger] before.contains(qbest) && (forall|i0: int|
                                0 <= i0 < init.len() ==> function.score(qbest) >= function.score(
                                    #[trigger] init[i0],
                                ));
                        let t = choose|t: int| 0 <= t < before.len() && before[t] == qbest;
                        assert(function.score(q2) >= function.score(before[t]));
                        assert(function.score(qbest) >= function.score(init[i]));
                    }
                }
            }
        }
        pop = next;
        g += 1;
    }
    proof {
        if n_generations == 0 && init.len() > 0 && size_generation > 0 {
            lemma_exists_fittest(function, pop@);
        }
    }
    Ok(pop)
}

/// One worker of a generational run: evolve and truncate the population for
/// `n_generations` generations, then hand back its `size_generation` fittest
/// members, fittest first. The worker draws its randomness from its own
/// generator seeded with `seed`.
#[verifier::rlimit(100)]
pub fn run_worker<F: Function>(
    initial_population: Solutions,
    n_generations: usize,
    size_generation: usize,
    function: &F,
    seed: u64,
) -> (r: Result<Vec<Solution>, EvolutionError>)
    requires
        initial_population.wf(),
    ensures
        worker_result_ok(function, initial_population@, size_generation, r),
{
    let ghost init = initial_population@;
    let mut rng = RandomSource::from_seed(seed);
    let pop = match run_generations(
        initial_population,
        n_generations,
        size_generation,
        function,
        &mut rng,
    ) {
        Ok(p) => p,
        Err(e) => {
            return Err(e);
        },
    };
    let fittest = match pop.get_n_fittest(size_generation, function) {
        Ok(v) => v,
        Err(e) => {
            proof {
                if forall|i: int|
                    0 <= i < init.len() ==> (#[trigger] init[i]).len() == function.arity() {
                    let k = choose|k: int|
                        0 <= k < pop@.len() && (#[trigger] pop@[k]).len() != function.arity();
                    if n_generations == 0 {
                        assert(pop@ == init);
                        assert(init[k].len() == function.arity());
                    }
                    assert(false);
                }
            }
            return Err(EvolutionError::Function(e));
        },
    };
    proof {
        let m = pop@.len() as int;
        let ord = choose|ord: Seq<int>|
            {
                &&& #[trigger] is_perm(ord, m)
                &&& forall|i: int, j: int|
                    0 <= i < j < ord.len() ==> function.score(pop@[ord[i]]) >= function.score(
                        pop@[ord[j]],
                    )
                &&& forall|k0: int|
                    0 <= k0 < fittest@.len() ==> (#[trigger] fittest@[k0])@ == pop@[ord[k0]]
            };
        if init.len() > 0 && size_generation > 0 {
            assert(pop@.len() > 0);
            assert(fittest@.len() > 0);
            let top = fittest@[0]@;
            assert(top == pop@[ord[0]]);
            assert forall|t: int| 0 <= t < m implies function.score(top) >= function.score(
                #[trigger] pop@[t],
            ) by {
                assert(ord.contains(t));
                let u = choose|u: int| 0 <= u < ord.len() && ord[u] == t;
                if u > 0 {
                    assert(function.score(pop@[ord[0]]) >= function.score(pop@[ord[u]]));
                }
            }
            let qbest = choose|qbest: Seq<i64>|
                #[trigger] pop@.contains(qbest) && (forall|i0: int|
                    0 <= i0 < init.len() ==> function.score(qbest) >= function.score(
                        #[trigger] init[i0],
                    ));
            let t = choose|t: int| 0 <= t < pop@.len() && pop@[t] == qbest;
            assert forall|i: int| 0 <= i < init.len() implies function.score(fittest@[0]@)
                >= function.score(#[trigger] init[i]) by {
                assert(function.score(top) >= function.score(pop@[t]));
                assert(function.score(qbest) >= function.score(init[i]));
            }
        }
        assert forall|k: int| 0 <= k < fittest@.len() implies (#[trigger] fittest@[k])@.len()
            == function.arity() by {
            assert(fittest@[k]@ == pop@[ord[k]]);
        }
    }
    Ok(fittest)
}

/// Relies on `crossbeam_utils::thread::scope` and `Scope::spawn`: runs one
/// worker thread per seed, each executing this library's `run_worker` on its
/// own clone of the initial population, and collects the workers' results in
/// seed order after joining them all. A panicking worker (for instance from a
/// panicking outside objective implementation) aborts the whole run.
#[verifier::external_body]
fn run_workers<F: Function + Sync>(
    initial_population: &Solutions,
    n_generations: usize,
    size_generation: usize,
    function: &F,
    seeds: &Vec<u64>,
) -> (r: Vec<Result<Vec<Solution>, EvolutionError>>)
    requires
        initial_population.wf(),
    ensures
        r@.len() == seeds@.len(),
        forall|w: int|
            0 <= w < r@.len() ==> worker_result_ok(
                function,
                initial_population@,
                size_generation,
                #[trigger] r@[w],
            ),
{
    crossbeam_utils::thread::scope(|s| {
        let mut handles = Vec::new();
        for seed in seeds.iter() {
            let pop = initial_population.clone();
            let sd = *seed;
            handles.push(s.spawn(move |_| run_worker(pop, n_generations, size_generation, function, sd)));
        }
        handles.into_iter().map(|h| h.join().unwrap()).collect()
    }).unwrap()
}

/// Evolve a population for `n_generations` generations, keeping the
/// `size_generation` fittest members after each generation.
///
/// With `n_jobs == 0` the driver runs on the calling thread and returns the
/// final population. With `n_jobs > 0` it clones the initial population onto
/// `n_jobs` parallel workers, each of which independently evolves its copy
/// for the ceiling of `n_generations / n_jobs` generations; the workers'
/// fittest members are then merged into one deduplicated population. Either
/// way, a run over a population whose members all have the objective's arity
/// always succeeds, and, for a non-empty start and a positive selection
/// size, a successful run returns a population holding a solution at least
/// as fit as every starting member.
#[verifier::rlimit(100)]
#[verifier::loop_isolation(false)]
pub fn evolve_population<F: Function + Sync>(
    initial_population: Solutions,
    n_generations: usize,
    size_generation: usize,
    function: &F,
    n_jobs: usize,
    seed: u64,
) -> (r: Result<Solutions, EvolutionError>)
    requires
        initial_population.wf(),
    ensures
        r matches Ok(p) ==> p.wf(),
        n_jobs == 0 && n_generations == 0 ==> (r matches Ok(p) && p@ == initial_population@),
        r matches Ok(p) ==> (initial_population@.len() > 0 && size_generation > 0 ==> p@.len() > 0
            && (exists|q: Seq<i64>|
            #[trigger] p@.contains(q) && (forall|i: int|
                0 <= i < initial_population@.len() ==> function.score(q) >= function.score(
                    #[trigger] initial_population@[i],
                )))),
        r matches Ok(p) ==> (n_jobs > 0 || n_generations > 0 ==> forall|k: int|
            0 <= k < p@.len() ==> (#[trigger] p@[k]).len() == function.arity()),
        r matches Ok(p) ==> (n_jobs == 0 && n_generations > 0 ==> p@.len() <= size_generation),
        r matches Ok(p) ==> (n_jobs > 0 ==> p@.len() <= n_jobs * size_generation),
        (forall|i: int|
            0 <= i < initial_population@.len() ==> (#[trigger] initial_population@[i]).len()
                == function.arity()) ==> r is Ok,
{
    let ghost init = initial_population@;
    if n_jobs == 0 {
        let mut rng = RandomSource::from_seed(seed);
        run_generations(initial_population, n_generations, size_generation, function, &mut rng)
    } else {
        let mut seeds: Vec<u64> = Vec::new();
        let mut w: usize = 0;
        while w < n_jobs
            invariant
                w <= n_jobs,
                seeds@.len() == w,
            decreases n_jobs - w,
        {
            seeds.push(seed.wrapping_add(w as u64));
            w += 1;
        }
        let quotient = n_generations / n_jobs;
        let per_worker = if n_generations % n_jobs == 0 {
            quotient
        } else {
            proof {
                assert(n_jobs >= 2);
                vstd::arithmetic::div_mod::lemma_div_is_ordered_by_denominator(
                    n_generations as int,
                    2,
                    n_jobs as int,
                );
            }
            quotient + 1
        };
        let results = run_workers(
            &initial_population,
            per_worker,
            size_generation,
            function,
            &seeds,
        );
        let mut all: Vec<Solution> = Vec::new();
        let n_results = results.len();
        let mut r_idx: usize = 0;
        while r_idx < n_results
            invariant
                n_results == results@.len(),
                results@.len() == n_jobs,
                r_idx <= n_results,
                forall|w0: int|
                    0 <= w0 < results@.len() ==> worker_result_ok(
                        function,
                        init,
                        size_generation,
                        #[trigger] results@[w0],
                    ),
                all@.len() <= r_idx * size_generation,
                forall|k: int|
                    0 <= k < all@.len() ==> (#[trigger] all@[k])@.len() == function.arity(),
                init.len() > 0 && size_generation > 0 && r_idx > 0 ==> all@.len() > 0 && (exists|
                    q: Seq<i64>,
                |
                    #[trigger] seq_views(all@).contains(q) && (forall|i: int|
                        0 <= i < init.len() ==> function.score(q) >= function.score(
                            #[trigger] init[i],
                        ))),
            decreases n_results - r_idx,
        {
            let worker_out = match &results[r_idx] {
                Ok(v) => v,
                Err(e) => {
                    proof {
                        if forall|i: int|
                            0 <= i < init.len() ==> (#[trigger] init[i]).len()
                                == function.arity() {
                            assert(worker_result_ok(
                                function,
                                init,
                                size_generation,
                                results@[r_idx as int],
                            ));
                            assert(false);
                        }
                    }
                    return Err(*e);
                },
            };
            let ghost v0 = worker_out@;
            let ghost all_before = all@.len();
            let mut k2: usize = 0;
            while k2 < worker_out.len()
                invariant
                    worker_out@ == v0,
                    k2 <= v0.len(),
                    all@.len() == all_before + k2,
                    forall|k: int|
                        0 <= k < all@.len() ==> (#[trigger] all@[k])@.len() == function.arity(),
                    forall|k: int|
                        0 <= k < v0.len() ==> (#[trigger] v0[k])@.len() == function.arity(),
                    forall|k: int| 0 <= k < k2 ==> seq_views(all@).contains((#[trigger] v0[k])@),
                    forall|q: Seq<i64>|
                        #[trigger] seq_views(all@).contains(q) ==> q.len() == function.arity(),
                decreases v0.len() - k2,
            {
                let ghost prev = seq_views(all@);
                let copy = Solution::new(worker_out[k2].get_arguments());
                let ghost qv = copy@;
                all.push(copy);
                proof {
                    assert(seq_views(all@) =~= prev.push(qv));
                    lemma_push_contains(prev, qv);
                }
                k2 += 1;
            }
            proof {
                assert(worker_result_ok(function, init, size_generation, results@[r_idx as int]));
                assert(v0.len() <= size_generation);
                assert((r_idx + 1) * size_generation == r_idx * size_generation + size_generation)
                    by (nonlinear_arith);
                assert(all@.len() <= (r_idx + 1) * size_generation);
                if init.len() > 0 && size_generation > 0 {
                    assert(v0.len() > 0);
                    assert(seq_views(all@).contains(v0[0]@));
                }
            }
            r_idx += 1;
        }
        let merged = Solutions::from(all);
        proof {
            lemma_dedup_properties(seq_views(all@));
            assert(merged@.len() <= seq_views(all@).len());
            assert(all@.len() <= n_jobs * size_generation);
            if init.len() > 0 && size_generation > 0 {
                assert(n_jobs > 0);
                let q = choose|q: Seq<i64>|
                    #[trigger] seq_views(all@).contains(q) && (forall|i: int|
                        0 <= i < init.len() ==> function.score(q) >= function.score(
                            #[trigger] init[i],
                        ));
                assert(merged@.contains(q));
            }
            assert forall|k: int| 0 <= k < merged@.len() implies (#[trigger] merged@[k]).len()
                == function.arity() by {
                assert(merged@.contains(merged@[k]));
                assert(seq_views(all@).contains(merged@[k]));
                let t = choose|t: int|
                    0 <= t < seq_views(all@).len() && seq_views(all@)[t] == merged@[k];
                assert(all@[t]@.len() == function.arity());
            }
        }
        Ok(merged)
    }
}
} // verus!
