pub use crate::parser::{Clause, Literal};
use vstd::prelude::*;

verus! {

/// The header of a formula: how many clauses and variables it declares.
#[derive(Debug, Clone, Copy, PartialEq, Eq, Structural)]
pub struct Problem {
    pub clauses_count: u64,
    pub variables_count: u64,
}

/// The clauses of a formula.
pub struct ProblemBody {
    pub clauses: Vec<Clause>,
}

impl View for ProblemBody {
    type V = Seq<Seq<Literal>>;

    open spec fn view(&self) -> Seq<Seq<Literal>> {
        crate::parser::clause_views(self.clauses@)
    }
}

/// The outcome of a search.
pub enum Solution {
    Satisfiable { values: Vec<bool> },
    Unsatisfiable,
}

/// The two interchangeable search strategies.
#[derive(Debug, Clone, Copy, PartialEq, Eq, Structural)]
pub enum Strategy {
    /// Depth-first branching, true before false at every variable.
    Recursion,
    /// Binary-counter enumeration from the all-false assignment upward.
    NoRecursion,
}

/// A literal is true when its variable's value differs from its negation flag.
pub open spec fn literal_value(l: Literal, a: Seq<bool>) -> bool {
    a[l.idx - 1] != l.negated
}

/// Some literal of the clause is true; an empty clause is never satisfied.
pub open spec fn clause_satisfied(c: Seq<Literal>, a: Seq<bool>) -> bool {
    exists|i: int| 0 <= i < c.len() && literal_value(#[trigger] c[i], a)
}

/// Every clause is satisfied; no clauses at all are satisfied by anything.
pub open spec fn problem_satisfied(cs: Seq<Seq<Literal>>, a: Seq<bool>) -> bool {
    forall|j: int| 0 <= j < cs.len() ==> clause_satisfied(#[trigger] cs[j], a)
}

/// Every literal names a variable in `1..=n`.
pub open spec fn literals_in_range(cs: Seq<Seq<Literal>>, n: nat) -> bool {
    forall|j: int, i: int|
        0 <= j < cs.len() && 0 <= i < cs[j].len() ==> 1 <= #[trigger] cs[j][i].idx <= n
}

/// `a` gives every one of `n` variables a value and satisfies every clause.
pub open spec fn is_model(cs: Seq<Seq<Literal>>, n: nat, a: Seq<bool>) -> bool {
    a.len() == n && problem_satisfied(cs, a)
}

/// Some assignment of the `n` variables satisfies every clause.
pub open spec fn satisfiable(cs: Seq<Seq<Literal>>, n: nat) -> bool {
    exists|a: Seq<bool>| is_model(cs, n, a)
}

/// The number that `a` stands for as a binary counter: index 0 is the least
/// significant bit and `true` is a one.
pub open spec fn counter_value(a: Seq<bool>) -> nat
    decreases a.len(),
{
    if a.len() == 0 {
        0
    } else {
        (if a[0] {
            1nat
        } else {
            0nat
        }) + 2 * counter_value(a.drop_first())
    }
}

/// `a` comes before `b` in depth-first order, where the true branch of each
/// variable is explored before the false one.
pub open spec fn explored_before(a: Seq<bool>, b: Seq<bool>) -> bool {
    a.len() == b.len() && exists|k: int|
        0 <= k < a.len() && a.subrange(0, k) == b.subrange(0, k) && a[k] && !b[k]
}

/// What the depth-first search returns: the first model in its order, or
/// `Unsatisfiable` when there is none.
pub open spec fn recursion_outcome(cs: Seq<Seq<Literal>>, n: nat, r: Solution) -> bool {
    match r {
        Solution::Satisfiable { values } => {
            &&& is_model(cs, n, values@)
            &&& forall|a: Seq<bool>|
                a.len() == n && explored_before(a, values@) ==> !problem_satisfied(cs, a)
        },
        Solution::Unsatisfiable => !satisfiable(cs, n),
    }
}

/// What the counter search returns: the model of least counter value, or
/// `Unsatisfiable` when there is none.
pub open spec fn counter_outcome(cs: Seq<Seq<Literal>>, n: nat, r: Solution) -> bool {
    match r {
        Solution::Satisfiable { values } => {
            &&& is_model(cs, n, values@)
            &&& forall|a: Seq<bool>|
                a.len() == n && counter_value(a) < counter_value(values@) ==> !problem_satisfied(
                    cs,
                    a,
                )
        },
        Solution::Unsatisfiable => !satisfiable(cs, n),
    }
}

/// `a` with position `k` set and every position before it cleared.
pub open spec fn carried(a: Seq<bool>, k: int) -> Seq<bool> {
    Seq::new(a.len(), |i: int| if i < k { false } else if i == k { true } else { a[i] })
}

/// The inputs that a search accepts: literals within the declared variables,
/// and an assignment length that fits in memory.
pub open spec fn searchable(problem: &Problem, body: &ProblemBody) -> bool {
    &&& problem.variables_count <= usize::MAX
    &&& literals_in_range(body@, problem.variables_count as nat)
}

fn satisfies(clause: &Clause, values: &Vec<bool>) -> (r: bool)
    requires
        forall|i: int| 0 <= i < clause@.len() ==> 1 <= #[trigger] clause@[i].idx <= values@.len(),
    ensures
        r == clause_satisfied(clause@, values@),
{
    let mut i: usize = 0;
    while i < clause.var_idxs.len()
        invariant
            i <= clause@.len(),
            forall|i: int| 0 <= i < clause@.len() ==> 1 <= #[trigger] clause@[i].idx <= values@.len(),
            forall|j: int| 0 <= j < i ==> !literal_value(#[trigger] clause@[j], values@),
        decreases clause@.len() - i,
    {
        let literal = clause.var_idxs[i];
        assert(literal == clause@[i as int]);
        assert(literal.idx - 1 < values.len());
        let k: usize = (literal.idx - 1) as usize;
        if values[k] != literal.negated {
            assert(literal_value(clause@[i as int], values@));
            return true;
        }
        i = i + 1;
    }
    false
}

fn is_solution(body: &ProblemBody, values: &Vec<bool>) -> (r: bool)
    requires
        literals_in_range(body@, values@.len()),
    ensures
        r == problem_satisfied(body@, values@),
{
    let mut j: usize = 0;
    while j < body.clauses.len()
        invariant
            j <= body@.len(),
            body@.len() == body.clauses@.len(),
            literals_in_range(body@, values@.len()),
            forall|k: int| 0 <= k < j ==> clause_satisfied(#[trigger] body@[k], values@),
        decreases body@.len() - j,
    {
        assert(body@[j as int] == body.clauses@[j as int]@);
        if !satisfies(&body.clauses[j], values) {
            return false;
        }
        j = j + 1;
    }
    true
}

/// Setting the first false position and clearing those before it adds one
/// to the counter.
proof fn lemma_carry_increments(a: Seq<bool>, k: int)
    requires
        0 <= k < a.len(),
        !a[k],
        forall|i: int| 0 <= i < k ==> a[i],
    ensures
        counter_value(carried(a, k)) == counter_value(a) + 1,
    decreases k,
{
    let c = carried(a, k);
    if k == 0 {
        assert(c.drop_first() =~= a.drop_first());
    } else {
        let a1 = a.drop_first();
        lemma_carry_increments(a1, k - 1);
        assert(c.drop_first() =~= carried(a1, k - 1));
    }
}

/// Two assignments of one length with the same counter value are equal.
proof fn lemma_counter_injective(a: Seq<bool>, b: Seq<bool>)
    requires
        a.len() == b.len(),
        counter_value(a) == counter_value(b),
    ensures
        a == b,
    decreases a.len(),
{
    if a.len() > 0 {
        lemma_counter_injective(a.drop_first(), b.drop_first());
        assert(a =~= b) by {
            assert(a =~= seq![a[0]] + a.drop_first());
            assert(b =~= seq![b[0]] + b.drop_first());
        }
    } else {
        assert(a =~= b);
    }
}

/// The all-true assignment has the greatest counter value of its length.
proof fn lemma_counter_at_most_full(a: Seq<bool>, top: Seq<bool>)
    requires
        a.len() == top.len(),
        forall|i: int| 0 <= i < top.len() ==> top[i],
    ensures
        counter_value(a) <= counter_value(top),
    decreases a.len(),
{
    if a.len() > 0 {
        lemma_counter_at_most_full(a.drop_first(), top.drop_first());
    }
}

// Turns `proposal` into the next assignment in counter order. Returns `Err`,
// leaving it unchanged, when every position is already true.
fn set_next_proposal(proposal: &mut Vec<bool>) -> (r: Result<(), ()>)
    ensures
        r is Err <==> forall|i: int| 0 <= i < old(proposal)@.len() ==> old(proposal)@[i],
        r is Err ==> final(proposal)@ == old(proposal)@,
        final(proposal)@.len() == old(proposal)@.len(),
        r is Ok ==> exists|k: int|
            0 <= k < old(proposal)@.len() && !old(proposal)@[k] && (forall|i: int|
                0 <= i < k ==> old(proposal)@[i]) && final(proposal)@ == carried(
                old(proposal)@,
                k,
            ),
        r is Ok ==> counter_value(final(proposal)@) == counter_value(old(proposal)@) + 1,
{
    if proposal.is_empty() {
        return Err(());
    }
    let mut maybe_first_zero_idx: Option<usize> = None;
    let mut idx: usize = 0;
    while idx < proposal.len()
        invariant_except_break
            maybe_first_zero_idx is None,
        invariant
            idx <= proposal@.len(),
            forall|i: int| 0 <= i < idx ==> proposal@[i],
        ensures
            maybe_first_zero_idx is None ==> forall|i: int| 0 <= i < proposal@.len() ==> proposal@[i],
            maybe_first_zero_idx matches Some(k) ==> k < proposal@.len() && !proposal@[k as int] && forall|i: int| 0 <= i < k ==> proposal@[i],
        decreases proposal@.len() - idx,
    {
        if proposal[idx] == false {
            maybe_first_zero_idx = Some(idx);
            break;
        }
        idx = idx + 1;
    }
    let first_zero_idx = match maybe_first_zero_idx {
        None => return Err(()),
        Some(idx) => idx,
    };
    let ghost start = proposal@;
    proposal.set(first_zero_idx, true);
    let mut idx: usize = 0;
    while idx < first_zero_idx
        invariant
            idx <= first_zero_idx < start.len(),
            proposal@.len() == start.len(),
            forall|i: int| 0 <= i < idx ==> !proposal@[i],
            forall|i: int| idx <= i < start.len() ==> proposal@[i] == if i == first_zero_idx { true } else { start[i] },
        decreases first_zero_idx - idx,
    {
        proposal.set(idx, false);
        idx = idx + 1;
    }
    assert(proposal@ =~= carried(start, first_zero_idx as int));
    proof {
        lemma_carry_increments(start, first_zero_idx as int);
    }
    Ok(())
}

/// Binary-counter search: tries the assignments from all-false upward in
/// counter order and returns the first that satisfies every clause.
pub fn solve_no_recursion(problem: &Problem, body: &ProblemBody) -> (r: Solution)
    requires
        searchable(problem, body),
    ensures
        counter_outcome(body@, problem.variables_count as nat, r),
{
    let ghost n = problem.variables_count as nat;
    let ghost top = Seq::new(n, |i: int| true);
    let mut proposal: Vec<bool> = Vec::new();
    let vec_size = problem.variables_count;
    proposal.resize(vec_size as usize, false);
    assert(proposal@ =~= Seq::new(n, |i: int| false));
    proof {
        lemma_counter_at_most_full(proposal@, top);
        assert forall|a: Seq<bool>|
            a.len() == n && counter_value(a) < counter_value(proposal@) implies !problem_satisfied(
            body@,
            a,
        ) by {
            lemma_counter_zero(proposal@);
        }
    }
    loop
        invariant
            n == problem.variables_count,
            top.len() == n,
            forall|i: int| 0 <= i < n ==> top[i],
            proposal@.len() == n,
            literals_in_range(body@, n),
            counter_value(proposal@) <= counter_value(top),
            forall|a: Seq<bool>|
                a.len() == n && counter_value(a) < counter_value(proposal@) ==> !problem_satisfied(
                    body@,
                    a,
                ),
        ensures
            !satisfiable(body@, n),
        decreases counter_value(top) - counter_value(proposal@),
    {
        if is_solution(body, &proposal) {
            let r = Solution::Satisfiable { values: proposal };
            assert(counter_outcome(body@, n, r));
            return r;
        }
        let ghost before = proposal@;
        let has_next = set_next_proposal(&mut proposal).is_ok();
        if !has_next {
            proof {
                assert(before =~= top);
                assert forall|a: Seq<bool>| a.len() == n implies !problem_satisfied(body@, a) by {
                    lemma_counter_at_most_full(a, top);
                    if counter_value(a) == counter_value(top) {
                        lemma_counter_injective(a, top);
                    }
                }
            }
            break;
        }
        proof {
            lemma_counter_at_most_full(proposal@, top);
            assert forall|a: Seq<bool>|
                a.len() == n && counter_value(a) < counter_value(proposal@) implies !problem_satisfied(
                body@,
                a,
            ) by {
                if counter_value(a) == counter_value(before) {
                    lemma_counter_injective(a, before);
                }
            }
        }
    }
    Solution::Unsatisfiable
}

/// Depth-first search below the prefix `cur_values`: tries the remaining
/// variables true first, then false, and returns the first model found.
fn solve_rec(problem: &Problem, body: &ProblemBody, cur_idx: usize, cur_values: Vec<bool>) -> (r:
    Solution)
    requires
        searchable(problem, body),
        cur_values@.len() == cur_idx <= problem.variables_count,
    ensures
        match r {
            Solution::Satisfiable { values } => {
                &&& is_model(body@, problem.variables_count as nat, values@)
                &&& values@.subrange(0, cur_idx as int) == cur_values@
                &&& forall|a: Seq<bool>|
                    a.len() == problem.variables_count && a.subrange(0, cur_idx as int)
                        == cur_values@ && explored_before(a, values@) ==> !problem_satisfied(
                        body@,
                        a,
                    )
            },
            Solution::Unsatisfiable => forall|a: Seq<bool>|
                a.len() == problem.variables_count && a.subrange(0, cur_idx as int)
                    == cur_values@ ==> !problem_satisfied(body@, a),
        },
    decreases problem.variables_count - cur_idx,
{
    let ghost n = problem.variables_count as nat;
    if problem.variables_count as usize == cur_idx {
        proof {
            assert(cur_values@.subrange(0, cur_idx as int) =~= cur_values@);
            assert forall|a: Seq<bool>|
                a.len() == n && a.subrange(0, cur_idx as int) == cur_values@ implies a
                == cur_values@ by {
                assert(a =~= a.subrange(0, cur_idx as int));
            }
        }
        if is_solution(body, &cur_values) {
            return Solution::Satisfiable { values: cur_values };
        }
        return Solution::Unsatisfiable;
    }
    let mut next_true = cur_values.clone();
    assert(next_true@ =~= cur_values@);
    next_true.push(true);
    let next_true_solution = solve_rec(problem, body, cur_idx + 1, next_true);
    let ghost with_true = cur_values@.push(true);
    let ghost with_false = cur_values@.push(false);
    match &next_true_solution {
        Solution::Satisfiable { values } => {
            proof {
                assert(values@.subrange(0, cur_idx as int) =~= values@.subrange(
                    0,
                    cur_idx + 1,
                ).subrange(0, cur_idx as int));
                assert forall|a: Seq<bool>|
                    a.len() == n && a.subrange(0, cur_idx as int) == cur_values@
                        && explored_before(a, values@) implies !problem_satisfied(body@, a) by {
                    let k = choose|k: int|
                        0 <= k < a.len() && a.subrange(0, k) == values@.subrange(0, k) && a[k]
                            && !values@[k];
                    if a[cur_idx as int] {
                        assert(a.subrange(0, cur_idx + 1) =~= with_true);
                    } else {
                        assert(values@[cur_idx as int] == values@.subrange(
                            0,
                            cur_idx + 1,
                        )[cur_idx as int]);
                        assert(values@[cur_idx as int]);
                        if k < cur_idx {
                            assert(a.subrange(0, cur_idx as int)[k] == a[k]);
                            assert(values@.subrange(0, cur_idx as int)[k] == values@[k]);
                        }
                        if k > cur_idx {
                            assert(a.subrange(0, k)[cur_idx as int] == values@.subrange(
                                0,
                                k,
                            )[cur_idx as int]);
                        }
                        assert(false);
                    }
                }
            }
            return next_true_solution;
        },
        Solution::Unsatisfiable => {},
    }
    let mut next_false = cur_values.clone();
    assert(next_false@ =~= cur_values@);
    next_false.push(false);
    let next_false_solution = solve_rec(problem, body, cur_idx + 1, next_false);
    match &next_false_solution {
        Solution::Satisfiable { values } => {
            proof {
                assert(values@.subrange(0, cur_idx as int) =~= values@.subrange(
                    0,
                    cur_idx + 1,
                ).subrange(0, cur_idx as int));
                assert forall|a: Seq<bool>|
                    a.len() == n && a.subrange(0, cur_idx as int) == cur_values@
                        && explored_before(a, values@) implies !problem_satisfied(body@, a) by {
                    let k = choose|k: int|
                        0 <= k < a.len() && a.subrange(0, k) == values@.subrange(0, k) && a[k]
                            && !values@[k];
                    if a[cur_idx as int] {
                        assert(a.subrange(0, cur_idx + 1) =~= with_true);
                    } else {
                        assert(a.subrange(0, cur_idx + 1) =~= with_false);
                        assert(values@.subrange(0, cur_idx + 1) =~= with_false);
                        assert(a.subrange(0, cur_idx + 1) == values@.subrange(0, cur_idx + 1));
                    }
                }
            }
            return next_false_solution;
        },
        Solution::Unsatisfiable => {},
    }
    proof {
        assert forall|a: Seq<bool>|
            a.len() == n && a.subrange(0, cur_idx as int) == cur_values@ implies !problem_satisfied(
            body@,
            a,
        ) by {
            if a[cur_idx as int] {
                assert(a.subrange(0, cur_idx + 1) =~= with_true);
            } else {
                assert(a.subrange(0, cur_idx + 1) =~= with_false);
            }
        }
    }
    Solution::Unsatisfiable
}

/// Depth-first search: tries the variables in order, true before false, and
/// returns the first assignment that satisfies every clause.
pub fn solve_with_recursion(problem: &Problem, body: &ProblemBody) -> (r: Solution)
    requires
        searchable(problem, body),
    ensures
        recursion_outcome(body@, problem.variables_count as nat, r),
{
    let r = solve_rec(problem, body, 0, Vec::new());
    proof {
        assert forall|a: Seq<bool>| a.len() == problem.variables_count implies a.subrange(0, 0)
            == Seq::<bool>::empty() by {
            assert(a.subrange(0, 0) =~= Seq::<bool>::empty());
        }
    }
    r
}

/// Tells whether a search accepts the formula.
pub fn is_searchable(problem: &Problem, body: &ProblemBody) -> (r: bool)
    ensures
        r == searchable(problem, body),
{
    if problem.variables_count > usize::MAX as u64 {
        return false;
    }
    let n = problem.variables_count;
    let mut j: usize = 0;
    while j < body.clauses.len()
        invariant
            j <= body@.len(),
            body@.len() == body.clauses@.len(),
            n == problem.variables_count,
            forall|k: int, i: int|
                0 <= k < j && 0 <= i < body@[k].len() ==> 1 <= #[trigger] body@[k][i].idx <= n,
        decreases body@.len() - j,
    {
        let clause = &body.clauses[j];
        assert(body@[j as int] == clause@);
        let mut i: usize = 0;
        while i < clause.var_idxs.len()
            invariant
                i <= clause@.len(),
                j < body@.len(),
                body@[j as int] == clause@,
                n == problem.variables_count,
                forall|k: int, m: int|
                    0 <= k < j && 0 <= m < body@[k].len() ==> 1 <= #[trigger] body@[k][m].idx <= n,
                forall|m: int| 0 <= m < i ==> 1 <= #[trigger] clause@[m].idx <= n,
            decreases clause@.len() - i,
        {
            let idx = clause.var_idxs[i].idx;
            if idx == 0 || idx > n {
                assert(clause@[i as int].idx == idx);
                return false;
            }
            i = i + 1;
        }
        j = j + 1;
    }
    true
}

/// The signed form of each variable's value: `i + 1` when variable `i + 1`
/// is true, its negation when false.
pub open spec fn signed_form(values: Seq<bool>, i: int) -> int {
    if values[i] {
        i + 1
    } else {
        -(i + 1)
    }
}

/// The assignment written as signed literals, one per variable in order.
pub fn literal_forms(values: &Vec<bool>) -> (r: Vec<i64>)
    requires
        values@.len() <= i64::MAX,
    ensures
        r@.len() == values@.len(),
        forall|i: int| 0 <= i < r@.len() ==> #[trigger] r@[i] == signed_form(values@, i),
{
    let mut out: Vec<i64> = Vec::new();
    let mut i: usize = 0;
    while i < values.len()
        invariant
            i <= values@.len() <= i64::MAX,
            out@.len() == i,
            forall|k: int| 0 <= k < i ==> #[trigger] out@[k] == signed_form(values@, k),
        decreases values@.len() - i,
    {
        let position = (i + 1) as i64;
        if values[i] {
            out.push(position);
        } else {
            out.push(-position);
        }
        i = i + 1;
    }
    out
}

/// Runs the chosen search strategy.
pub fn solve(problem: &Problem, body: &ProblemBody, strategy: Strategy) -> (r: Solution)
    requires
        searchable(problem, body),
    ensures
        strategy == Strategy::Recursion ==> recursion_outcome(
            body@,
            problem.variables_count as nat,
            r,
        ),
        strategy == Strategy::NoRecursion ==> counter_outcome(
            body@,
            problem.variables_count as nat,
            r,
        ),
{
    match strategy {
        Strategy::Recursion => solve_with_recursion(problem, body),
        Strategy::NoRecursion => solve_no_recursion(problem, body),
    }
}

/// Both strategies agree on satisfiability: one returns an assignment
/// exactly when the other does.
pub proof fn lemma_strategies_agree(
    cs: Seq<Seq<Literal>>,
    n: nat,
    by_recursion: Solution,
    by_counter: Solution,
)
    requires
        recursion_outcome(cs, n, by_recursion),
        counter_outcome(cs, n, by_counter),
    ensures
        (by_recursion is Satisfiable) == (by_counter is Satisfiable),
{
    match by_recursion {
        Solution::Satisfiable { values } => {
            assert(is_model(cs, n, values@));
        },
        Solution::Unsatisfiable => {
            match by_counter {
                Solution::Satisfiable { values } => {
                    assert(is_model(cs, n, values@));
                },
                Solution::Unsatisfiable => {},
            }
        },
    }
}

/// A formula without clauses is satisfiable, whatever its number of
/// variables, under either strategy.
pub proof fn lemma_no_clauses_satisfiable(n: nat, r: Solution)
    requires
        recursion_outcome(Seq::empty(), n, r) || counter_outcome(Seq::empty(), n, r),
    ensures
        r is Satisfiable,
{
    let all_false = Seq::new(n, |i: int| false);
    assert(is_model(Seq::empty(), n, all_false));
}

/// The all-false assignment counts zero.
proof fn lemma_counter_zero(a: Seq<bool>)
    requires
        forall|i: int| 0 <= i < a.len() ==> !a[i],
    ensures
        counter_value(a) == 0,
    decreases a.len(),
{
    if a.len() > 0 {
        lemma_counter_zero(a.drop_first());
    }
}

} // verus!
