//! Depth-first search over an explicit stack of boards.

use crate::error::SudokuError;
use crate::model::board::{
    box_group, column_group, grid_complete, grid_valid, group_valid, row_group, SudokuProblem,
};
use crate::model::cell::{candidate_seq, SudokuValue};
use vstd::prelude::*;

verus! {

/// `c` keeps every digit that `p` already holds; only blanks of `p` may differ.
pub open spec fn extends(p: Seq<SudokuValue>, c: Seq<SudokuValue>) -> bool {
    &&& p.len() == c.len()
    &&& forall|i: int| 0 <= i < p.len() && p[i] != SudokuValue::Unknown ==> c[i] == p[i]
}

/// `c` solves `p`: it fills every blank of `p` and breaks no constraint.
pub open spec fn is_solution(p: Seq<SudokuValue>, c: Seq<SudokuValue>) -> bool {
    &&& c.len() == 81
    &&& extends(p, c)
    &&& grid_complete(c)
    &&& grid_valid(c)
}

/// At the first cell where the two grids differ, `a` holds the smaller digit.
pub open spec fn precedes(a: Seq<SudokuValue>, b: Seq<SudokuValue>) -> bool {
    exists|k: int|
        {
            &&& 0 <= k < a.len()
            &&& k < b.len()
            &&& #[trigger] a[k].digit() < b[k].digit()
            &&& forall|i: int| 0 <= i < k ==> a[i] == b[i]
        }
}

/// `c` solves `p`, and every other solution of `p` precedes it. The search
/// tries the highest digit first at each blank, so this is the solution it
/// meets first.
pub open spec fn is_greatest_solution(p: Seq<SudokuValue>, c: Seq<SudokuValue>) -> bool {
    &&& is_solution(p, c)
    &&& forall|d: Seq<SudokuValue>| #[trigger] is_solution(p, d) && d != c ==> precedes(d, c)
}

/// The number of blank cells.
pub open spec fn unknowns(s: Seq<SudokuValue>) -> nat
    decreases s.len(),
{
    if s.len() == 0 {
        0
    } else {
        unknowns(s.drop_last()) + if s.last() == SudokuValue::Unknown {
            1nat
        } else {
            0nat
        }
    }
}

spec fn pow10(n: nat) -> nat
    decreases n,
{
    if n == 0 {
        1
    } else {
        10 * pow10((n - 1) as nat)
    }
}

/// What is left to explore: a board with `u` blanks counts for `10^u`, which
/// is more than its nine children together.
spec fn weight(stack: Seq<SudokuProblem>) -> nat
    decreases stack.len(),
{
    if stack.len() == 0 {
        0
    } else {
        weight(stack.drop_last()) + pow10(unknowns(stack.last()@))
    }
}

/// Every board on the stack extends the puzzle.
spec fn sound(p: Seq<SudokuValue>, stack: Seq<SudokuProblem>) -> bool {
    forall|i: int| 0 <= i < stack.len() ==> extends(p, #[trigger] stack[i]@)
}

/// Every solution of the puzzle extends some board on the stack.
spec fn covers(p: Seq<SudokuValue>, stack: Seq<SudokuProblem>) -> bool {
    forall|c: Seq<SudokuValue>| #[trigger]
        is_solution(p, c) ==> exists|i: int|
            0 <= i < stack.len() && extends(#[trigger] stack[i]@, c)
}

/// The solutions of a board higher on the stack come after those of a board
/// below it.
spec fn ordered(stack: Seq<SudokuProblem>) -> bool {
    forall|i: int, j: int, a: Seq<SudokuValue>, b: Seq<SudokuValue>|
        0 <= i < j < stack.len() && #[trigger] is_solution(stack[i]@, a) && #[trigger] is_solution(
            stack[j]@,
            b,
        ) ==> precedes(a, b)
}

proof fn lemma_pow10_positive(n: nat)
    ensures
        pow10(n) >= 1,
    decreases n,
{
    if n > 0 {
        lemma_pow10_positive((n - 1) as nat);
    }
}

proof fn lemma_weight_push(stack: Seq<SudokuProblem>, b: SudokuProblem)
    ensures
        weight(stack.push(b)) == weight(stack) + pow10(unknowns(b@)),
{
    assert(stack.push(b).drop_last() =~= stack);
}

/// Filling a blank leaves one blank fewer.
pub proof fn lemma_unknowns_fill(s: Seq<SudokuValue>, k: int, v: SudokuValue)
    requires
        0 <= k < s.len(),
        s[k] == SudokuValue::Unknown,
        v != SudokuValue::Unknown,
    ensures
        unknowns(s.update(k, v)) + 1 == unknowns(s),
    decreases s.len(),
{
    let t = s.update(k, v);
    if k == s.len() - 1 {
        assert(t.drop_last() =~= s.drop_last());
    } else {
        assert(t.drop_last() =~= s.drop_last().update(k, v));
        lemma_unknowns_fill(s.drop_last(), k, v);
    }
}

/// A grid that extends a grid with a repeated digit repeats that digit too.
pub proof fn lemma_extends_valid(b: Seq<SudokuValue>, c: Seq<SudokuValue>)
    requires
        b.len() == 81,
        extends(b, c),
        grid_valid(c),
    ensures
        grid_valid(b),
{
    assert forall|k: int| 0 <= k < 9 implies group_valid(#[trigger] row_group(b, k)) by {
        let g = row_group(b, k);
        let h = row_group(c, k);
        assert(group_valid(h));
        assert forall|i: int, j: int|
            0 <= i < j < g.len() && g[i] != SudokuValue::Unknown implies g[i] != g[j] by {
            if g[i] == g[j] {
                assert(h[i] == g[i] && h[j] == g[j]);
            }
        }
    }
    assert forall|k: int| 0 <= k < 9 implies group_valid(#[trigger] column_group(b, k)) by {
        let g = column_group(b, k);
        let h = column_group(c, k);
        assert(group_valid(h));
        assert forall|i: int, j: int|
            0 <= i < j < g.len() && g[i] != SudokuValue::Unknown implies g[i] != g[j] by {
            if g[i] == g[j] {
                assert(h[i] == g[i] && h[j] == g[j]);
            }
        }
    }
    assert forall|k: int| 0 <= k < 9 implies group_valid(#[trigger] box_group(b, k)) by {
        let g = box_group(b, k);
        let h = box_group(c, k);
        assert(group_valid(h));
        assert forall|i: int, j: int|
            0 <= i < j < g.len() && g[i] != SudokuValue::Unknown implies g[i] != g[j] by {
            if g[i] == g[j] {
                assert(h[i] == g[i] && h[j] == g[j]);
            }
        }
    }
}

/// A puzzle that already repeats a digit has no solution.
pub proof fn lemma_invalid_unsolvable(p: Seq<SudokuValue>)
    requires
        p.len() == 81,
        !grid_valid(p),
    ensures
        forall|c: Seq<SudokuValue>| !is_solution(p, c),
{
    assert forall|c: Seq<SudokuValue>| !is_solution(p, c) by {
        if is_solution(p, c) {
            lemma_extends_valid(p, c);
        }
    }
}

/// A puzzle has at most one greatest solution, so the outcome of a search is
/// determined by the puzzle alone.
pub proof fn lemma_greatest_unique(p: Seq<SudokuValue>, a: Seq<SudokuValue>, b: Seq<SudokuValue>)
    requires
        is_greatest_solution(p, a),
        is_greatest_solution(p, b),
    ensures
        a == b,
{
    if a != b {
        assert(precedes(a, b));
        assert(precedes(b, a));
        let m = choose|k: int|
            {
                &&& 0 <= k < a.len()
                &&& k < b.len()
                &&& #[trigger] a[k].digit() < b[k].digit()
                &&& forall|i: int| 0 <= i < k ==> a[i] == b[i]
            };
        let n = choose|k: int|
            {
                &&& 0 <= k < b.len()
                &&& k < a.len()
                &&& #[trigger] b[k].digit() < a[k].digit()
                &&& forall|i: int| 0 <= i < k ==> b[i] == a[i]
            };
        if m < n {
            assert(b[m] == a[m]);
        } else if n < m {
            assert(a[n] == b[n]);
        }
    }
}

/// A full, valid board on top of the stack is the greatest solution.
proof fn lemma_found(p: Seq<SudokuValue>, stack: Seq<SudokuProblem>)
    requires
        p.len() == 81,
        stack.len() > 0,
        sound(p, stack),
        covers(p, stack),
        ordered(stack),
        grid_complete(stack.last()@),
        grid_valid(stack.last()@),
    ensures
        is_greatest_solution(p, stack.last()@),
{
    let top = stack.len() - 1;
    let cur = stack[top]@;
    assert(extends(p, cur));
    assert(is_solution(cur, cur));
    assert forall|d: Seq<SudokuValue>| #[trigger] is_solution(p, d) && d != cur implies precedes(
        d,
        cur,
    ) by {
        let i = choose|i: int| 0 <= i < stack.len() && extends(#[trigger] stack[i]@, d);
        if i == top {
            assert(d =~= cur);
        } else {
            assert(is_solution(stack[i]@, d));
            assert(is_solution(stack[top]@, cur));
        }
    }
}

/// Dropping a board that no solution extends loses nothing.
proof fn lemma_dead(p: Seq<SudokuValue>, stack: Seq<SudokuProblem>)
    requires
        p.len() == 81,
        stack.len() > 0,
        sound(p, stack),
        covers(p, stack),
        ordered(stack),
        forall|c: Seq<SudokuValue>| !is_solution(stack.last()@, c),
    ensures
        sound(p, stack.drop_last()),
        covers(p, stack.drop_last()),
        ordered(stack.drop_last()),
{
    let rest = stack.drop_last();
    assert forall|i: int| 0 <= i < rest.len() implies extends(p, #[trigger] rest[i]@) by {
        assert(rest[i] == stack[i]);
    }
    assert forall|c: Seq<SudokuValue>| #[trigger] is_solution(p, c) implies exists|i: int|
        0 <= i < rest.len() && extends(#[trigger] rest[i]@, c) by {
        let i = choose|i: int| 0 <= i < stack.len() && extends(#[trigger] stack[i]@, c);
        if i == stack.len() - 1 {
            assert(is_solution(stack.last()@, c));
        } else {
            assert(rest[i] == stack[i]);
        }
    }
    assert forall|i: int, j: int, a: Seq<SudokuValue>, b: Seq<SudokuValue>|
        0 <= i < j < rest.len() && #[trigger] is_solution(rest[i]@, a) && #[trigger] is_solution(
            rest[j]@,
            b,
        ) implies precedes(a, b) by {
        assert(rest[i] == stack[i] && rest[j] == stack[j]);
        assert(is_solution(stack[i]@, a) && is_solution(stack[j]@, b));
    }
}

/// `b` is `cur` with the blank at `k` filled in.
spec fn is_child(cur: Seq<SudokuValue>, k: int, b: Seq<SudokuValue>) -> bool {
    b == cur.update(k, b[k]) && b[k] != SudokuValue::Unknown
}

/// From `from` upwards the stack holds children of `cur`, in ascending order
/// of the digit at `k`, and they account for every solution of `cur` whose
/// digit at `k` is at most `limit`.
spec fn children(
    cur: Seq<SudokuValue>,
    k: int,
    stack: Seq<SudokuProblem>,
    from: int,
    limit: int,
) -> bool {
    &&& forall|i: int|
        from <= i < stack.len() ==> is_child(cur, k, #[trigger] stack[i]@) && stack[i]@[k].digit()
            <= limit
    &&& forall|i: int, j: int|
        from <= i < j < stack.len() ==> (#[trigger] stack[i]@)[k].digit() < (
        #[trigger] stack[j]@)[k].digit()
    &&& forall|c: Seq<SudokuValue>| #[trigger]
        is_solution(cur, c) && c[k].digit() <= limit ==> exists|i: int|
            from <= i < stack.len() && extends(#[trigger] stack[i]@, c)
}

/// Two values with the same number are the same value.
proof fn lemma_digit_injective(a: SudokuValue, b: SudokuValue)
    requires
        a.digit() == b.digit(),
    ensures
        a == b,
{
}

/// Pushing the child for the next candidate accounts for that candidate.
proof fn lemma_child_pushed(
    cur: Seq<SudokuValue>,
    k: int,
    stack: Seq<SudokuProblem>,
    from: int,
    t: int,
    child: SudokuProblem,
    v: SudokuValue,
)
    requires
        cur.len() == 81,
        0 <= k < 81,
        0 <= from <= stack.len(),
        0 <= t,
        children(cur, k, stack, from, t),
        v.digit() == t + 1,
        child@ == cur.update(k, v),
    ensures
        children(cur, k, stack.push(child), from, t + 1),
{
    let next = stack.push(child);
    assert forall|i: int| from <= i < next.len() implies is_child(cur, k, #[trigger] next[i]@)
        && next[i]@[k].digit() <= t + 1 by {
        if i < stack.len() {
            assert(next[i] == stack[i]);
            assert(is_child(cur, k, stack[i]@));
        }
    }
    assert forall|i: int, j: int| from <= i < j < next.len() implies (#[trigger] next[i]@)[k].digit()
        < (#[trigger] next[j]@)[k].digit() by {
        assert(next[i] == stack[i]);
        assert(is_child(cur, k, stack[i]@) && stack[i]@[k].digit() <= t);
        if j < stack.len() {
            assert(next[j] == stack[j]);
        }
    }
    assert forall|c: Seq<SudokuValue>| #[trigger]
        is_solution(cur, c) && c[k].digit() <= t + 1 implies exists|i: int|
        from <= i < next.len() && extends(#[trigger] next[i]@, c) by {
        if c[k].digit() <= t {
            let i = choose|i: int| from <= i < stack.len() && extends(#[trigger] stack[i]@, c);
            assert(next[i] == stack[i]);
            assert(from <= i < next.len() && extends(next[i]@, c));
        } else {
            lemma_digit_injective(c[k], v);
            let i = stack.len() as int;
            assert(next[i] == child);
            assert(extends(next[i]@, c));
        }
    }
}

/// A candidate whose child breaks a constraint leads to no solution.
proof fn lemma_child_pruned(
    cur: Seq<SudokuValue>,
    k: int,
    stack: Seq<SudokuProblem>,
    from: int,
    t: int,
    v: SudokuValue,
)
    requires
        cur.len() == 81,
        0 <= k < 81,
        children(cur, k, stack, from, t),
        v.digit() == t + 1,
        !grid_valid(cur.update(k, v)),
    ensures
        children(cur, k, stack, from, t + 1),
{
    assert forall|c: Seq<SudokuValue>| #[trigger]
        is_solution(cur, c) && c[k].digit() <= t + 1 implies exists|i: int|
        from <= i < stack.len() && extends(#[trigger] stack[i]@, c) by {
        if c[k].digit() == t + 1 {
            lemma_digit_injective(c[k], v);
            assert(extends(cur.update(k, v), c));
            lemma_extends_valid(cur.update(k, v), c);
        }
    }
}

/// Once all nine candidates of the first blank of the top board have been
/// tried, the children that were kept take the place of that board.
proof fn lemma_expanded(
    p: Seq<SudokuValue>,
    before: Seq<SudokuProblem>,
    after: Seq<SudokuProblem>,
    k: int,
)
    requires
        p.len() == 81,
        before.len() > 0,
        sound(p, before),
        covers(p, before),
        ordered(before),
        0 <= k < 81,
        before.last()@[k] == SudokuValue::Unknown,
        forall|i: int| 0 <= i < k ==> before.last()@[i] != SudokuValue::Unknown,
        after.len() >= before.len() - 1,
        forall|i: int| 0 <= i < before.len() - 1 ==> after[i] == before[i],
        children(before.last()@, k, after, before.len() - 1, 9),
    ensures
        sound(p, after),
        covers(p, after),
        ordered(after),
{
    let top = before.len() - 1;
    let cur = before[top]@;
    assert(extends(p, cur));
    assert forall|i: int| top <= i < after.len() implies extends(cur, #[trigger] after[i]@) by {
        assert(is_child(cur, k, after[i]@));
    }
    assert forall|i: int| 0 <= i < after.len() implies extends(p, #[trigger] after[i]@) by {
        if i < top {
            assert(after[i] == before[i]);
        } else {
            assert(extends(cur, after[i]@));
        }
    }
    assert forall|c: Seq<SudokuValue>| #[trigger] is_solution(p, c) implies exists|i: int|
        0 <= i < after.len() && extends(#[trigger] after[i]@, c) by {
        let i = choose|i: int| 0 <= i < before.len() && extends(#[trigger] before[i]@, c);
        if i < top {
            assert(after[i] == before[i]);
            assert(extends(after[i]@, c));
        } else {
            assert(is_solution(cur, c));
            assert(c[k] != SudokuValue::Unknown);
            assert(c[k].digit() <= 9);
            let j = choose|j: int| top <= j < after.len() && extends(#[trigger] after[j]@, c);
            assert(0 <= j < after.len() && extends(after[j]@, c));
        }
    }
    assert forall|i: int, j: int, a: Seq<SudokuValue>, b: Seq<SudokuValue>|
        0 <= i < j < after.len() && #[trigger] is_solution(after[i]@, a) && #[trigger] is_solution(
            after[j]@,
            b,
        ) implies precedes(a, b) by {
        if j < top {
            assert(after[i] == before[i] && after[j] == before[j]);
            assert(is_solution(before[i]@, a) && is_solution(before[j]@, b));
        } else if i < top {
            assert(after[i] == before[i]);
            assert(extends(cur, after[j]@));
            assert(is_solution(before[i]@, a) && is_solution(before[top]@, b));
        } else {
            assert(is_child(cur, k, after[i]@) && is_child(cur, k, after[j]@));
            assert(after[i]@[k].digit() < after[j]@[k].digit());
            assert(a[k] == after[i]@[k] && b[k] == after[j]@[k]);
            assert forall|m: int| 0 <= m < k implies a[m] == b[m] by {
                assert(after[i]@[m] == cur[m] && after[j]@[m] == cur[m]);
            }
            assert(a[k].digit() < b[k].digit());
        }
    }
}

/// The state of a search: the puzzle it was given.
#[derive(Debug)]
pub struct Search {
    problem: SudokuProblem,
}

impl View for Search {
    type V = Seq<SudokuValue>;

    /// The grid of the puzzle to solve.
    closed spec fn view(&self) -> Seq<SudokuValue> {
        self.problem@
    }
}

impl Search {
    /// A search for a solution of `problem`.
    pub fn new(problem: SudokuProblem) -> (r: Search)
        ensures
            r@ == problem@,
    {
        Search { problem }
    }

    /// Solves the puzzle, or reports that it has no solution.
    ///
    /// Boards wait on a stack. The board on top is taken off; if it has a
    /// blank, the first one is filled with each digit from 1 to 9 in turn and
    /// the boards that break no constraint go onto the stack, so the highest
    /// digit is looked at next. The first full, valid board that comes off
    /// the stack is the answer: among all solutions it is the one that holds
    /// the highest digit at the first cell where solutions differ. When the
    /// stack runs empty the puzzle has no solution at all.
    pub fn run(&self) -> (r: Result<SudokuProblem, SudokuError>)
        ensures
            r is Ok <==> exists|c: Seq<SudokuValue>| is_solution(self@, c),
            match r {
                Ok(solved) => is_greatest_solution(self@, solved@),
                Err(e) => e == SudokuError::NoSolution && forall|c: Seq<SudokuValue>|
                    !is_solution(self@, c),
            },
    {
        let candidates = SudokuValue::candidates();
        let mut stack: Vec<SudokuProblem> = Vec::new();
        stack.push(self.problem.clone());
        proof {
            self.problem.lemma_len();
            SudokuValue::lemma_candidate_digits();
            assert(extends(self@, stack@[0]@));
            assert forall|c: Seq<SudokuValue>| #[trigger] is_solution(self@, c) implies exists|
                i: int,
            |
                0 <= i < stack@.len() && extends(#[trigger] stack@[i]@, c) by {
                assert(extends(stack@[0]@, c));
            }
        }
        while stack.len() > 0
            invariant
                self@.len() == 81,
                candidates@ == candidate_seq(),
                sound(self@, stack@),
                covers(self@, stack@),
                ordered(stack@),
            decreases weight(stack@),
        {
            let ghost before = stack@;
            let current = stack.pop().unwrap();
            let ghost rest = stack@;
            let ghost cur = current@;
            proof {
                assert(rest =~= before.drop_last());
                assert(current == before.last());
                assert(extends(self@, before[before.len() - 1]@));
                lemma_pow10_positive(unknowns(cur));
            }
            match current.position(&SudokuValue::Unknown) {
                Some(cell) => {
                    let ghost k = cell.spec_index() as int;
                    let ghost share = pow10((unknowns(cur) - 1) as nat);
                    proof {
                        lemma_unknowns_fill(cur, k, SudokuValue::One);
                        lemma_pow10_positive((unknowns(cur) - 1) as nat);
                        assert(pow10(unknowns(cur)) == 10 * share);
                    }
                    let mut t: usize = 0;
                    while t < 9
                        invariant
                            t <= 9,
                            candidates@ == candidate_seq(),
                            cur == current@,
                            cur.len() == 81,
                            0 <= k < 81,
                            k == cell.spec_index(),
                            cur[k] == SudokuValue::Unknown,
                            share == pow10((unknowns(cur) - 1) as nat),
                            stack@.len() >= rest.len(),
                            forall|i: int| 0 <= i < rest.len() ==> stack@[i] == rest[i],
                            children(cur, k, stack@, rest.len() as int, t as int),
                            weight(stack@) <= weight(rest) + t * share,
                        decreases 9 - t,
                    {
                        let candidate = candidates[t];
                        let problem = current.replace(&cell, candidate);
                        proof {
                            SudokuValue::lemma_candidate_digits();
                            assert(candidate == candidate_seq()[t as int]);
                            assert(candidate.digit() == t + 1);
                            assert((t + 1) * share == t * share + share) by (nonlinear_arith);
                        }
                        if problem.is_valid() {
                            proof {
                                lemma_child_pushed(
                                    cur,
                                    k,
                                    stack@,
                                    rest.len() as int,
                                    t as int,
                                    problem,
                                    candidate,
                                );
                                lemma_weight_push(stack@, problem);
                                lemma_unknowns_fill(cur, k, candidate);
                            }
                            stack.push(problem);
                        } else {
                            proof {
                                lemma_child_pruned(
                                    cur,
                                    k,
                                    stack@,
                                    rest.len() as int,
                                    t as int,
                                    candidate,
                                );
                            }
                        }
                        t += 1;
                    }
                    proof {
                        assert forall|i: int| 0 <= i < before.len() - 1 implies stack@[i]
                            == before[i] by {
                            assert(stack@[i] == rest[i]);
                        }
                        lemma_expanded(self@, before, stack@, k);
                    }
                },
                None => {
                    if current.is_complete() && current.is_valid() {
                        proof {
                            lemma_found(self@, before);
                        }
                        return Ok(current);
                    }
                    proof {
                        assert(grid_complete(cur));
                        assert forall|c: Seq<SudokuValue>| !is_solution(cur, c) by {
                            if is_solution(cur, c) {
                                assert(c =~= cur);
                            }
                        }
                        lemma_dead(self@, before);
                    }
                },
            }
        }
        proof {
            assert forall|c: Seq<SudokuValue>| !is_solution(self@, c) by {
                if is_solution(self@, c) {
                    let i = choose|i: int| 0 <= i < stack@.len() && extends(#[trigger] stack@[i]@, c);
                }
            }
        }
        Err(SudokuError::NoSolution)
    }
}

} // verus!
