//! Work stealing between the queues of a set of nodes: the order in which
//! a node whose queue ran dry visits the others.
use vstd::prelude::*;

verus! {

/// The `i`-th queue that node `node_idx` of `n` tries to steal from: the
/// nodes after it, round robin.
pub open spec fn steal_target(node_idx: int, n: int, i: int) -> int {
    (node_idx + i + 1) % n
}

/// Node `node_idx` of `n` tries the queue of node `j` at some step.
pub open spec fn tries_queue_of(node_idx: int, n: int, j: int) -> bool {
    exists|i: int| 0 <= i < n - 1 && #[trigger] steal_target(node_idx, n, i) == j
}

/// The queues node `node_idx` of `n` tries, in order.
pub fn steal_targets(node_idx: usize, n: usize) -> (t: Vec<usize>)
    requires
        node_idx + n <= usize::MAX,
    ensures
        t@.len() == if n == 0 { 0 } else { n - 1 },
        forall|i: int| 0 <= i < t@.len() ==> t@[i] == steal_target(node_idx as int, n as int, i),
{
    let mut t: Vec<usize> = Vec::new();
    let mut i: usize = 1;
    while i < n
        invariant
            node_idx + n <= usize::MAX,
            1 <= i,
            i <= n || (n == 0 && i == 1),
            t@.len() == i - 1,
            forall|j: int| 0 <= j < t@.len() ==> t@[j] == steal_target(node_idx as int, n as int, j),
        decreases n - i,
    {
        t.push((node_idx + i) % n);
        i = i + 1;
    }
    t
}

proof fn lemma_wrap(x: int, n: int)
    requires
        0 <= x < 2 * n,
    ensures
        x % n == if x < n { x } else { x - n },
{
    if x < n {
        vstd::arithmetic::div_mod::lemma_small_mod(x as nat, n as nat);
    } else {
        vstd::arithmetic::div_mod::lemma_small_mod((x - n) as nat, n as nat);
        vstd::arithmetic::div_mod::lemma_mod_sub_multiples_vanish(x, n);
    }
}

/// A node that finds its queue empty tries every other node's queue once
/// and never its own.
pub proof fn law_steal_visits_every_other_node_once(node_idx: int, n: int)
    requires
        0 <= node_idx < n,
    ensures
        forall|i: int| 0 <= i < n - 1 ==> #[trigger] steal_target(node_idx, n, i) != node_idx,
        forall|i: int, k: int|
            0 <= i < k < n - 1 ==> steal_target(node_idx, n, i) != steal_target(node_idx, n, k),
        forall|j: int| 0 <= j < n && j != node_idx ==> #[trigger] tries_queue_of(node_idx, n, j),
{
    assert forall|i: int| 0 <= i < n - 1 implies #[trigger] steal_target(node_idx, n, i) != node_idx by {
        lemma_wrap(node_idx + i + 1, n);
    }
    assert forall|i: int, k: int|
        0 <= i < k < n - 1 implies steal_target(node_idx, n, i) != steal_target(node_idx, n, k) by {
        lemma_wrap(node_idx + i + 1, n);
        lemma_wrap(node_idx + k + 1, n);
    }
    assert forall|j: int| 0 <= j < n && j != node_idx implies #[trigger] tries_queue_of(
        node_idx,
        n,
        j,
    ) by {
        let i = if j > node_idx { j - node_idx - 1 } else { j + n - node_idx - 1 };
        lemma_wrap(node_idx + i + 1, n);
        assert(steal_target(node_idx, n, i) == j);
    }
}

} // verus!
