use vstd::prelude::*;
use crate::error::Error;
use crate::util::{share, prefix_of_shares, lemma_prefix_step, lemma_prefix_total};
use crate::topology::SLOT_COUNT;

verus! {

/// Each share of a non-negative total is non-negative.
pub proof fn lemma_share_nonneg(total: int, parts: int, i: int)
    requires
        total >= 0,
        parts > 0,
    ensures
        share(total, parts, i) >= 0,
{
    vstd::arithmetic::div_mod::lemma_div_is_ordered(0, total, parts);
}

/// With no more parts than the total, every share is at least one.
pub proof fn lemma_share_pos(total: int, parts: int, i: int)
    requires
        0 < parts <= total,
    ensures
        share(total, parts, i) >= 1,
{
    vstd::arithmetic::div_mod::lemma_div_non_zero(total, parts);
}

/// Prefixes of the share sequence grow with their length.
pub proof fn lemma_prefix_mono(total: int, parts: int, a: int, b: int)
    requires
        total >= 0,
        parts > 0,
        0 <= a <= b,
    ensures
        prefix_of_shares(total, parts, a) <= prefix_of_shares(total, parts, b),
    decreases b - a,
{
    if a < b {
        lemma_prefix_mono(total, parts, a, b - 1);
        lemma_prefix_step(total, parts, b - 1);
        lemma_share_nonneg(total, parts, b - 1);
    }
}

/// Any value below the total lies in exactly one window of the share
/// sequence, scanning from `k` on.
proof fn lemma_locate_window(total: int, parts: int, s: int, k: int)
    requires
        total >= 0,
        parts > 0,
        0 <= k < parts,
        prefix_of_shares(total, parts, k) <= s,
        s < prefix_of_shares(total, parts, parts),
    ensures
        exists|i: int|
            k <= i < parts && #[trigger] prefix_of_shares(total, parts, i) <= s
                < prefix_of_shares(total, parts, i + 1),
    decreases parts - k,
{
    if s < prefix_of_shares(total, parts, k + 1) {
        assert(prefix_of_shares(total, parts, k) <= s < prefix_of_shares(total, parts, k + 1));
    } else {
        lemma_prefix_mono(total, parts, k + 1, parts);
        assert(k + 1 < parts);
        lemma_locate_window(total, parts, s, k + 1);
    }
}

/// The slot ranges handed to the masters at cluster creation: master `i`
/// gets the contiguous inclusive range from the `i`-th prefix of shares of
/// the whole keyspace to the next one. Together the ranges cover every slot
/// exactly once (`lemma_init_slots_partition`). More masters than slots is
/// invalid input.
pub fn init_slots(masters: usize) -> (r: Result<Vec<(u16, u16)>, Error>)
    ensures
        (masters == 0 || masters > SLOT_COUNT) ==> r == Result::<Vec<(u16, u16)>, Error>::Err(
            Error::InvalidInput,
        ),
        (1 <= masters <= SLOT_COUNT) ==> {
            &&& r is Ok
            &&& r->Ok_0@.len() == masters
            &&& forall|i: int|
                0 <= i < masters ==> (#[trigger] r->Ok_0@[i]).0 == prefix_of_shares(
                    SLOT_COUNT as int,
                    masters as int,
                    i,
                ) && r->Ok_0@[i].1 == prefix_of_shares(SLOT_COUNT as int, masters as int, i + 1)
                    - 1
        },
{
    if masters == 0 || masters > (SLOT_COUNT as usize) {
        return Err(Error::InvalidInput);
    }
    let counts = match crate::util::divide(SLOT_COUNT as usize, masters) {
        Ok(c) => c,
        Err(e) => {
            return Err(e);
        },
    };
    let ghost t = SLOT_COUNT as int;
    let ghost p = masters as int;
    let mut r: Vec<(u16, u16)> = Vec::new();
    let mut start: u16 = 0;
    let mut i: usize = 0;
    proof {
        lemma_prefix_total(t, p);
    }
    while i < masters
        invariant
            t == SLOT_COUNT as int,
            p == masters as int,
            0 < masters <= SLOT_COUNT,
            i <= masters,
            counts@.len() == masters,
            forall|j: int| 0 <= j < masters ==> #[trigger] counts@[j] == share(t, p, j),
            start == prefix_of_shares(t, p, i as int),
            prefix_of_shares(t, p, p) == t,
            r@.len() == i,
            forall|j: int|
                0 <= j < i ==> (#[trigger] r@[j]).0 == prefix_of_shares(t, p, j) && r@[j].1
                    == prefix_of_shares(t, p, j + 1) - 1,
        decreases masters - i,
    {
        proof {
            lemma_prefix_step(t, p, i as int);
            lemma_share_pos(t, p, i as int);
            lemma_prefix_mono(t, p, i as int + 1, p);
        }
        let count = counts[i];
        let end: u16 = start + (count as u16) - 1;
        r.push((start, end));
        start = end + 1;
        i = i + 1;
    }
    Ok(r)
}

/// The ranges computed by `init_slots` partition the keyspace: the given
/// slot lies inside at least one range, and never inside two different ones.
/// Quantified over every slot by its `s` parameter, this is the statement
/// that the union of the ranges is exactly the keyspace, with no overlap.
pub proof fn lemma_init_slots_partition(masters: usize, r: Seq<(u16, u16)>, s: int)
    requires
        1 <= masters <= SLOT_COUNT,
        r.len() == masters,
        forall|i: int|
            0 <= i < masters ==> (#[trigger] r[i]).0 == prefix_of_shares(
                SLOT_COUNT as int,
                masters as int,
                i,
            ) && r[i].1 == prefix_of_shares(SLOT_COUNT as int, masters as int, i + 1) - 1,
        0 <= s < SLOT_COUNT,
    ensures
        exists|i: int| 0 <= i < masters && (#[trigger] r[i]).0 <= s <= r[i].1,
        forall|i: int, j: int|
            0 <= i < masters && 0 <= j < masters && i != j && (#[trigger] r[i]).0 <= s
                <= r[i].1 ==> !((#[trigger] r[j]).0 <= s <= r[j].1),
{
    let t = SLOT_COUNT as int;
    let p = masters as int;
    lemma_prefix_total(t, p);
    assert(prefix_of_shares(t, p, 0) == 0) by {
        assert(0 * (t / p) == 0);
    }
    lemma_locate_window(t, p, s, 0);
    let i = choose|i: int|
        0 <= i < p && #[trigger] prefix_of_shares(t, p, i) <= s < prefix_of_shares(t, p, i + 1);
    assert(r[i].0 <= s <= r[i].1);
    assert forall|i2: int, j: int|
        0 <= i2 < masters && 0 <= j < masters && i2 != j && (#[trigger] r[i2]).0 <= s
            <= r[i2].1 implies !((#[trigger] r[j]).0 <= s <= r[j].1) by {
        if i2 < j {
            lemma_prefix_mono(t, p, i2 + 1, j);
        } else {
            lemma_prefix_mono(t, p, j + 1, i2);
        }
    }
}

/// What a cluster bootstrap will do, computed up front from the node count
/// and the requested shape: which nodes become masters, the slot range and
/// config epoch of each, and the master each remaining node replicates.
pub struct CreatePlan {
    /// How many of the nodes, taken from the front of the list, are masters.
    pub master_count: usize,
    /// Per master, its contiguous inclusive slot range.
    pub ranges: Vec<(u16, u16)>,
    /// Per master, its distinct config epoch.
    pub epochs: Vec<u64>,
    /// Per remaining node, in order, the index of the master it replicates.
    pub replica_of: Vec<usize>,
}

/// Plans a fresh cluster over `node_count` empty nodes: `master_count`
/// masters (zero means all nodes become masters) each expected to carry
/// `replica_factor` replicas, the remaining nodes assigned round-robin as
/// replicas. The plan is rejected when the node list cannot hold the
/// requested shape.
pub fn plan_create(node_count: usize, master_count: usize, replica_factor: usize) -> (r: Result<
    CreatePlan,
    Error,
>)
    ensures
        match r {
            Ok(plan) => {
                &&& plan.master_count == (if master_count == 0 {
                    node_count
                } else {
                    master_count
                })
                &&& 1 <= plan.master_count <= SLOT_COUNT
                &&& plan.master_count <= node_count
                &&& master_count != 0 ==> node_count >= master_count + master_count
                    * replica_factor
                &&& plan.ranges@.len() == plan.master_count
                &&& forall|i: int|
                    0 <= i < plan.master_count ==> (#[trigger] plan.ranges@[i]).0
                        == prefix_of_shares(SLOT_COUNT as int, plan.master_count as int, i)
                        && plan.ranges@[i].1 == prefix_of_shares(
                        SLOT_COUNT as int,
                        plan.master_count as int,
                        i + 1,
                    ) - 1
                &&& plan.epochs@.len() == plan.master_count
                &&& forall|i: int|
                    0 <= i < plan.master_count ==> #[trigger] plan.epochs@[i] == i + 1
                &&& plan.replica_of@.len() == node_count - plan.master_count
                &&& forall|k: int|
                    0 <= k < plan.replica_of@.len() ==> #[trigger] plan.replica_of@[k] == k as int
                        % plan.master_count as int
            },
            Err(e) => e == Error::InvalidInput,
        },
        r is Err <==> (node_count == 0 || (if master_count == 0 {
            node_count
        } else {
            master_count
        }) > SLOT_COUNT || (master_count != 0 && node_count < master_count + master_count
            * replica_factor)),
{
    if node_count == 0 {
        return Err(Error::InvalidInput);
    }
    let m: usize = if master_count == 0 {
        node_count
    } else {
        master_count
    };
    if m > (SLOT_COUNT as usize) {
        return Err(Error::InvalidInput);
    }
    if master_count != 0 {
        let need = match master_count.checked_mul(replica_factor) {
            Some(v) => match master_count.checked_add(v) {
                Some(w) => w,
                None => {
                    return Err(Error::InvalidInput);
                },
            },
            None => {
                return Err(Error::InvalidInput);
            },
        };
        if node_count < need {
            return Err(Error::InvalidInput);
        }
    }
    let ranges = match init_slots(m) {
        Ok(v) => v,
        Err(e) => {
            return Err(Error::InvalidInput);
        },
    };
    let mut epochs: Vec<u64> = Vec::new();
    let mut i: usize = 0;
    while i < m
        invariant
            m <= SLOT_COUNT,
            i <= m,
            epochs@.len() == i,
            forall|j: int| 0 <= j < i ==> #[trigger] epochs@[j] == j + 1,
        decreases m - i,
    {
        epochs.push((i as u64) + 1);
        i = i + 1;
    }
    let mut replica_of: Vec<usize> = Vec::new();
    let mut k: usize = 0;
    let rest = node_count - m;
    while k < rest
        invariant
            m >= 1,
            k <= rest,
            replica_of@.len() == k,
            forall|j: int| 0 <= j < k ==> #[trigger] replica_of@[j] == j as int % m as int,
        decreases rest - k,
    {
        replica_of.push(k % m);
        k = k + 1;
    }
    Ok(CreatePlan { master_count: m, ranges, epochs, replica_of })
}

} // verus!
