//! Bracket matching, stated over the bracket structure of a program alone.
//!
//! A program's bracket structure is its sequence of *steps*: `1` where a loop
//! opens, `-1` where one closes, `0` anywhere else. The nesting depth before
//! position `k` is the sum of the first `k` steps. Everything the parser and
//! the linker promise about loops is phrased with these two notions.

use vstd::prelude::*;

verus! {

/// The nesting depth just before position `k`: opens minus closes among the
/// first `k` steps.
pub open spec fn depth(steps: Seq<int>, k: int) -> int
    decreases k,
{
    if k <= 0 {
        0
    } else {
        depth(steps, k - 1) + steps[k - 1]
    }
}

/// No prefix closes more loops than it has opened.
pub open spec fn never_negative(steps: Seq<int>) -> bool {
    forall|k: int| 0 <= k <= steps.len() ==> depth(steps, k) >= 0
}

/// Every bracket has its partner: no close comes before its open, and no
/// open is left at the end.
pub open spec fn balanced(steps: Seq<int>) -> bool {
    never_negative(steps) && depth(steps, steps.len() as int) == 0
}

/// Some prefix closes a loop that was never opened.
pub open spec fn closes_unopened(steps: Seq<int>) -> bool {
    exists|k: int| 0 <= k <= steps.len() && depth(steps, k) < 0
}

/// No close comes before its open, but some loop is still open at the end.
pub open spec fn leaves_open(steps: Seq<int>) -> bool {
    never_negative(steps) && depth(steps, steps.len() as int) > 0
}

/// The depth stays above `level` at every position after `from`, up to and
/// including `to`.
pub open spec fn stays_above(steps: Seq<int>, from: int, to: int, level: int) -> bool {
    forall|k: int| from < k <= to ==> depth(steps, k) > level
}

/// The bracket at `close` closes the loop that the bracket at `open` opens:
/// the depth returns to what it was before `open` right after `close`, and
/// not earlier.
pub open spec fn matching(steps: Seq<int>, open: int, close: int) -> bool {
    &&& 0 <= open < close < steps.len()
    &&& steps[open] == 1
    &&& steps[close] == -1
    &&& depth(steps, close + 1) == depth(steps, open)
    &&& stays_above(steps, open, close, depth(steps, open))
}

/// The loop opened at `open` is not closed anywhere in `steps`.
pub open spec fn pending(steps: Seq<int>, open: int) -> bool {
    stays_above(steps, open, steps.len() as int, depth(steps, open))
}

/// Each opening bracket records where its loop closes, and each closing
/// bracket where its loop opened.
pub open spec fn linked(steps: Seq<int>, targets: Seq<int>) -> bool {
    &&& steps.len() == targets.len()
    &&& forall|i: int|
        #![trigger steps[i]]
        0 <= i < steps.len() && steps[i] == 1 ==> matching(steps, i, targets[i])
    &&& forall|i: int|
        #![trigger steps[i]]
        0 <= i < steps.len() && steps[i] == -1 ==> matching(steps, targets[i], i)
}

/// What holds while brackets are being linked from left to right with a
/// stack: the stack lists the loops that are still open, innermost last, and
/// every bracket of a loop that is already closed records its partner.
pub closed spec fn linking(steps: Seq<int>, targets: Seq<int>, stack: Seq<int>) -> bool {
    &&& steps.len() == targets.len()
    &&& never_negative(steps)
    &&& stack.len() == depth(steps, steps.len() as int)
    &&& forall|d: int|
        0 <= d < stack.len() ==> {
            &&& 0 <= #[trigger] stack[d] < steps.len()
            &&& steps[stack[d]] == 1
            &&& depth(steps, stack[d]) == d
            &&& pending(steps, stack[d])
        }
    &&& forall|i: int|
        #![trigger steps[i]]
        0 <= i < steps.len() && steps[i] == 1 ==> pending(steps, i) || matching(
            steps,
            i,
            targets[i],
        )
    &&& forall|i: int|
        #![trigger steps[i]]
        0 <= i < steps.len() && steps[i] == -1 ==> matching(steps, targets[i], i)
}

/// The depth before `k` depends on the first `k` steps only.
pub proof fn lemma_depth_agrees(a: Seq<int>, b: Seq<int>, k: int)
    requires
        k <= a.len(),
        k <= b.len(),
        forall|i: int| 0 <= i < k ==> a[i] == b[i],
    ensures
        depth(a, k) == depth(b, k),
    decreases k,
{
    if k > 0 {
        lemma_depth_agrees(a, b, k - 1);
    }
}

/// Appending a step leaves every earlier depth as it was and moves the final
/// depth by that step.
pub proof fn lemma_depth_push(steps: Seq<int>, step: int)
    ensures
        forall|k: int|
            k <= steps.len() ==> #[trigger] depth(steps.push(step), k) == depth(steps, k),
        depth(steps.push(step), steps.len() as int + 1) == depth(steps, steps.len() as int) + step,
{
    let longer = steps.push(step);
    assert forall|k: int| k <= steps.len() implies #[trigger] depth(longer, k) == depth(
        steps,
        k,
    ) by {
        lemma_depth_agrees(longer, steps, k);
    }
    assert(depth(longer, steps.len() as int) == depth(steps, steps.len() as int));
}

/// Behind a first part, the depth is the depth of the whole first part plus
/// the depth within what follows it.
pub proof fn lemma_depth_concat(first: Seq<int>, second: Seq<int>, k: int)
    requires
        0 <= k <= second.len(),
    ensures
        depth(first + second, first.len() + k) == depth(first, first.len() as int) + depth(
            second,
            k,
        ),
    decreases k,
{
    if k == 0 {
        lemma_depth_agrees(first + second, first, first.len() as int);
    } else {
        lemma_depth_concat(first, second, k - 1);
        assert((first + second)[first.len() + k - 1] == second[k - 1]);
    }
}

/// A loop has one opening bracket and one closing bracket.
pub proof fn lemma_matching_is_unique(steps: Seq<int>, a: int, b: int, c: int, d: int)
    requires
        matching(steps, a, b),
        matching(steps, c, d),
    ensures
        a == c <==> b == d,
{
    if a == c && b != d {
        // The depth is back at its level after the earlier close, but must
        // stay above it until the later one.
        if b < d {
            assert(depth(steps, b + 1) > depth(steps, c));
        } else {
            assert(depth(steps, d + 1) > depth(steps, a));
        }
    }
    if b == d && a != c {
        if a < c {
            assert(depth(steps, c) > depth(steps, a));
        } else {
            assert(depth(steps, a) > depth(steps, c));
        }
    }
}

/// In linked brackets the two brackets of a loop record each other.
pub proof fn lemma_linked_is_mutual(steps: Seq<int>, targets: Seq<int>, i: int)
    requires
        linked(steps, targets),
        0 <= i < steps.len(),
        steps[i] == 1 || steps[i] == -1,
    ensures
        0 <= targets[i] < steps.len(),
        steps[targets[i]] == -steps[i],
        targets[targets[i]] == i,
        steps[i] == 1 ==> i < targets[i],
        steps[i] == -1 ==> targets[i] < i,
{
    let j = targets[i];
    if steps[i] == 1 {
        assert(steps[j] == -1);
        lemma_matching_is_unique(steps, i, j, targets[j], j);
    } else {
        assert(steps[j] == 1);
        lemma_matching_is_unique(steps, j, i, j, targets[j]);
    }
}

/// Linking starts at the empty program with an empty stack.
pub proof fn lemma_linking_start()
    ensures
        linking(Seq::<int>::empty(), Seq::<int>::empty(), Seq::<int>::empty()),
{
}

/// While linking, the stack is as deep as the nesting, its top is a position
/// of the program, and no prefix has closed more than it opened.
pub proof fn lemma_linking_facts(steps: Seq<int>, targets: Seq<int>, stack: Seq<int>)
    requires
        linking(steps, targets, stack),
    ensures
        steps.len() == targets.len(),
        never_negative(steps),
        stack.len() == depth(steps, steps.len() as int),
        stack.len() > 0 ==> 0 <= stack.last() < steps.len(),
{
    if stack.len() > 0 {
        assert(0 <= stack[stack.len() - 1] < steps.len());
    }
}

/// An open bracket that is still pending is on the stack, at its own depth.
proof fn lemma_pending_is_on_stack(steps: Seq<int>, targets: Seq<int>, stack: Seq<int>, i: int)
    requires
        linking(steps, targets, stack),
        0 <= i < steps.len(),
        steps[i] == 1,
        pending(steps, i),
    ensures
        0 <= depth(steps, i) < stack.len(),
        stack[depth(steps, i)] == i,
{
    let d = depth(steps, i);
    assert(depth(steps, steps.len() as int) > d);
    assert(d >= 0);
    let s = stack[d];
    assert(pending(steps, s));
    if s < i {
        assert(depth(steps, i) > depth(steps, s));
    } else if s > i {
        assert(depth(steps, s) > depth(steps, i));
    }
}

/// Linking goes on past an opening bracket by pushing its position.
pub proof fn lemma_linking_open(steps: Seq<int>, targets: Seq<int>, stack: Seq<int>, target: int)
    requires
        linking(steps, targets, stack),
    ensures
        linking(steps.push(1), targets.push(target), stack.push(steps.len() as int)),
{
    let n = steps.len() as int;
    let steps2 = steps.push(1);
    let targets2 = targets.push(target);
    let stack2 = stack.push(n);
    lemma_depth_push(steps, 1);
    assert forall|d: int| 0 <= d < stack2.len() implies {
        &&& 0 <= #[trigger] stack2[d] < steps2.len()
        &&& steps2[stack2[d]] == 1
        &&& depth(steps2, stack2[d]) == d
        &&& pending(steps2, stack2[d])
    } by {
        if d < stack.len() {
            assert(stack2[d] == stack[d]);
            assert(pending(steps, stack[d]));
        }
    }
    assert forall|i: int| #![trigger steps2[i]] 0 <= i < steps2.len() && steps2[i] == 1 implies (
    pending(steps2, i) || matching(steps2, i, targets2[i])) by {
        if i < n {
            assert(steps[i] == 1);
            if pending(steps, i) {
                assert(depth(steps, n) > depth(steps, i));
            } else {
                assert(matching(steps, i, targets[i]));
            }
        }
    }
    assert forall|i: int| #![trigger steps2[i]] 0 <= i < steps2.len() && steps2[i] == -1 implies (
    matching(steps2, targets2[i], i)) by {
        assert(steps[i] == -1);
        assert(matching(steps, targets[i], i));
    }
}

/// Linking goes on past a closing bracket by popping the innermost open
/// loop and letting the two brackets record each other.
pub proof fn lemma_linking_close(steps: Seq<int>, targets: Seq<int>, stack: Seq<int>)
    requires
        linking(steps, targets, stack),
        stack.len() > 0,
    ensures
        0 <= stack.last() < steps.len(),
        steps[stack.last()] == 1,
        linking(
            steps.push(-1),
            targets.update(stack.last(), steps.len() as int).push(stack.last()),
            stack.drop_last(),
        ),
{
    let n = steps.len() as int;
    let top = stack.len() - 1;
    let open = stack.last();
    assert(open == stack[top]);
    let steps2 = steps.push(-1);
    let targets2 = targets.update(open, n).push(open);
    let stack2 = stack.drop_last();
    lemma_depth_push(steps, -1);
    assert(pending(steps, open));
    assert(matching(steps2, open, n));
    assert forall|d: int| 0 <= d < stack2.len() implies {
        &&& 0 <= #[trigger] stack2[d] < steps2.len()
        &&& steps2[stack2[d]] == 1
        &&& depth(steps2, stack2[d]) == d
        &&& pending(steps2, stack2[d])
    } by {
        assert(stack2[d] == stack[d]);
        assert(pending(steps, stack[d]));
    }
    assert forall|i: int| #![trigger steps2[i]] 0 <= i < steps2.len() && steps2[i] == 1 implies (
    pending(steps2, i) || matching(steps2, i, targets2[i])) by {
        assert(steps[i] == 1);
        if i == open {
        } else if pending(steps, i) {
            lemma_pending_is_on_stack(steps, targets, stack, i);
            assert(depth(steps, i) < top);
        } else {
            assert(matching(steps, i, targets[i]));
        }
    }
    assert forall|i: int| #![trigger steps2[i]] 0 <= i < steps2.len() && steps2[i] == -1 implies (
    matching(steps2, targets2[i], i)) by {
        if i < n {
            assert(steps[i] == -1);
            assert(matching(steps, targets[i], i));
        }
    }
}

/// Linking goes on unchanged past anything that is no bracket.
pub proof fn lemma_linking_other(steps: Seq<int>, targets: Seq<int>, stack: Seq<int>, target: int)
    requires
        linking(steps, targets, stack),
    ensures
        linking(steps.push(0), targets.push(target), stack),
{
    let n = steps.len() as int;
    let steps2 = steps.push(0);
    let targets2 = targets.push(target);
    lemma_depth_push(steps, 0);
    assert forall|d: int| 0 <= d < stack.len() implies {
        &&& 0 <= #[trigger] stack[d] < steps2.len()
        &&& steps2[stack[d]] == 1
        &&& depth(steps2, stack[d]) == d
        &&& pending(steps2, stack[d])
    } by {
        assert(pending(steps, stack[d]));
    }
    assert forall|i: int| #![trigger steps2[i]] 0 <= i < steps2.len() && steps2[i] == 1 implies (
    pending(steps2, i) || matching(steps2, i, targets2[i])) by {
        assert(steps[i] == 1);
        if pending(steps, i) {
        } else {
            assert(matching(steps, i, targets[i]));
        }
    }
    assert forall|i: int| #![trigger steps2[i]] 0 <= i < steps2.len() && steps2[i] == -1 implies (
    matching(steps2, targets2[i], i)) by {
        assert(steps[i] == -1);
        assert(matching(steps, targets[i], i));
    }
}

/// What is recorded at a position that holds no bracket does not matter to
/// linking.
pub proof fn lemma_linking_retarget(
    steps: Seq<int>,
    targets: Seq<int>,
    stack: Seq<int>,
    at: int,
    target: int,
)
    requires
        linking(steps, targets, stack),
        0 <= at < steps.len(),
        steps[at] == 0,
    ensures
        linking(steps, targets.update(at, target), stack),
{
    let targets2 = targets.update(at, target);
    assert forall|i: int| #![trigger steps[i]] 0 <= i < steps.len() && steps[i] == 1 implies (
    pending(steps, i) || matching(steps, i, targets2[i])) by {
        assert(targets2[i] == targets[i]);
    }
    assert forall|i: int| #![trigger steps[i]] 0 <= i < steps.len() && steps[i] == -1 implies (
    matching(steps, targets2[i], i)) by {
        assert(targets2[i] == targets[i]);
    }
}

/// Once the stack is empty at the end of the program, the brackets are
/// balanced and linked.
pub proof fn lemma_linking_done(steps: Seq<int>, targets: Seq<int>, stack: Seq<int>)
    requires
        linking(steps, targets, stack),
        stack.len() == 0,
    ensures
        balanced(steps),
        linked(steps, targets),
{
    assert forall|i: int| #![trigger steps[i]] 0 <= i < steps.len() && steps[i] == 1 implies (
    matching(steps, i, targets[i])) by {
        if pending(steps, i) {
            assert(depth(steps, steps.len() as int) > depth(steps, i));
            assert(depth(steps, i) >= 0);
        }
    }
}

} // verus!
