//! Placing worker threads on a machine with several memory nodes.

use vstd::prelude::*;

use crate::knobs;

verus! {

/// The CPU worker `worker` is pinned to: node by node, so consecutive workers
/// share a node first. `None` where no CPU is known.
pub fn worker_cpu(cpus: &Vec<u32>, worker: usize) -> (cpu: Option<u32>)
    ensures
        cpu is Some <==> cpus@.len() > 0,
        cpu is Some ==> cpu->0 == cpus@[worker as int % cpus@.len() as int],
{
    if cpus.len() == 0 {
        return None;
    }
    Some(cpus[worker % cpus.len()])
}

/// How many workers the pool runs: what the setting spells, at least one; else
/// what the machine offers, sixteen at most, or four where it does not say.
pub fn pool_workers(value: Option<&str>, available: Option<usize>) -> (n: usize)
    ensures
        n == match knobs::trimmed_number(knobs::setting(value), usize::MAX as int) {
            Some(asked) => if asked >= 1 {
                asked
            } else {
                offered(available)
            },
            None => offered(available),
        },
{
    let own: usize = match available {
        Some(n) => if n < 16 {
            n
        } else {
            16
        },
        None => 4,
    };
    match knobs::number(value) {
        Some(n) => if n >= 1 {
            n
        } else {
            own
        },
        None => own,
    }
}

/// The workers a machine's own word comes to.
pub open spec fn offered(available: Option<usize>) -> int {
    match available {
        Some(n) => if n < 16 {
            n as int
        } else {
            16
        },
        None => 4,
    }
}

/// The node each worker's CPU belongs to, for a pool that hands out work node by
/// node. `node_of[i]` is the node of the `i`-th CPU. Empty where pinning is off,
/// there is one node only, or no CPU is known.
pub fn worker_groups(pin: bool, nodes: usize, node_of: &Vec<usize>, workers: usize) -> (groups: Vec<usize>)
    ensures
        !pin || nodes < 2 || node_of@.len() == 0 ==> groups@.len() == 0,
        pin && nodes >= 2 && node_of@.len() > 0 ==> groups@ == Seq::new(
            workers as nat,
            |w: int| node_of@[w % node_of@.len() as int],
        ),
{
    let mut groups: Vec<usize> = Vec::new();
    if !pin || nodes < 2 || node_of.len() == 0 {
        return groups;
    }
    let mut w: usize = 0;
    while w < workers
        invariant
            w <= workers,
            node_of@.len() > 0,
            groups@ == Seq::new(w as nat, |v: int| node_of@[v % node_of@.len() as int]),
        decreases workers - w,
    {
        groups.push(node_of[w % node_of.len()]);
        w = w + 1;
        assert(groups@ =~= Seq::new(w as nat, |v: int| node_of@[v % node_of@.len() as int]));
    }
    groups
}

/// The workers offered are those available, sixteen at most, and four where their
/// number is not known.
pub proof fn lemma_workers_offered(n: usize)
    ensures
        n <= 16 ==> offered(Some(n)) == n,
        n >= 16 ==> offered(Some(n)) == 16,
        offered(None) == 4,
{
}

} // verus!
