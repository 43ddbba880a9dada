use vstd::prelude::*;
use crate::error::Error;
use crate::topology::{
    Role,
    Cluster, Node, SLOT_COUNT, owner_count, lemma_owner_count_nonneg, lemma_owner_count_exists,
    lemma_owner_count_pointwise,
};

verus! {

/// Some master in the table is importing slot `s`.
pub open spec fn has_importer(nodes: Seq<Node>, s: u16) -> bool {
    exists|i: int| 0 <= i < nodes.len() && (#[trigger] nodes[i]).is_importing_for(s)
}

/// Some master in the table is migrating slot `s` away.
pub open spec fn has_migrator(nodes: Seq<Node>, s: u16) -> bool {
    exists|i: int| 0 <= i < nodes.len() && (#[trigger] nodes[i]).is_migrating_for(s)
}

/// A master the gossip layer reports as usable: not flagged failed, link
/// connected.
pub open spec fn healthy_master(n: Node) -> bool {
    n.role is Master && !n.fail && n.link_connected
}

/// Some master of the table is healthy.
pub open spec fn has_healthy_master(nodes: Seq<Node>) -> bool {
    exists|i: int| 0 <= i < nodes.len() && healthy_master(#[trigger] nodes[i])
}

/// The repair preference for an unassigned slot: a master still importing
/// it, then a master still migrating it, then a live master, and only when
/// none of those exists any master.
pub open spec fn preferred_owner(nodes: Seq<Node>, s: u16, j: int) -> bool {
    if has_importer(nodes, s) {
        nodes[j].is_importing_for(s)
    } else if has_migrator(nodes, s) {
        nodes[j].is_migrating_for(s)
    } else if has_healthy_master(nodes) {
        healthy_master(nodes[j])
    } else {
        nodes[j].role is Master
    }
}

/// Tables of the same shape agree on who is preferred.
pub proof fn lemma_preferred_same_shape(a: Seq<Node>, b: Seq<Node>, s: u16, j: int)
    requires
        a.len() == b.len(),
        forall|k: int| 0 <= k < a.len() ==> (#[trigger] a[k]).same_shape(b[k]),
        0 <= j < a.len(),
    ensures
        preferred_owner(a, s, j) == preferred_owner(b, s, j),
{
    assert forall|k: int| 0 <= k < a.len() implies (#[trigger] a[k]).is_importing_for(s)
        == b[k].is_importing_for(s) && a[k].is_migrating_for(s) == b[k].is_migrating_for(s) by {
        assert(a[k].importing == b[k].importing);
        assert(a[k].migrating == b[k].migrating);
    }
    if has_importer(a, s) {
        let k = choose|k: int| 0 <= k < a.len() && (#[trigger] a[k]).is_importing_for(s);
        assert(b[k].is_importing_for(s));
    }
    if has_importer(b, s) {
        let k = choose|k: int| 0 <= k < b.len() && (#[trigger] b[k]).is_importing_for(s);
        assert(a[k].is_importing_for(s));
    }
    if has_migrator(a, s) {
        let k = choose|k: int| 0 <= k < a.len() && (#[trigger] a[k]).is_migrating_for(s);
        assert(b[k].is_migrating_for(s));
    }
    if has_migrator(b, s) {
        let k = choose|k: int| 0 <= k < b.len() && (#[trigger] b[k]).is_migrating_for(s);
        assert(a[k].is_migrating_for(s));
    }
    if has_healthy_master(a) {
        let k = choose|k: int| 0 <= k < a.len() && healthy_master(#[trigger] a[k]);
        assert(healthy_master(b[k]));
    }
    if has_healthy_master(b) {
        let k = choose|k: int| 0 <= k < b.len() && healthy_master(#[trigger] b[k]);
        assert(healthy_master(a[k]));
    }
}

/// If exactly the node at `j` owns `s`, the owner count of `s` is one.
pub proof fn lemma_owner_count_unique(nodes: Seq<Node>, s: u16, j: int)
    requires
        0 <= j < nodes.len(),
        nodes[j].owns(s),
        forall|k: int| 0 <= k < nodes.len() && k != j ==> !(#[trigger] nodes[k]).owns(s),
    ensures
        owner_count(nodes, s) == 1,
    decreases nodes.len(),
{
    if j == nodes.len() - 1 {
        lemma_owner_count_exists(nodes.drop_last(), s);
        lemma_owner_count_nonneg(nodes.drop_last(), s);
        assert forall|k: int| 0 <= k < nodes.drop_last().len()
            implies !(#[trigger] nodes.drop_last()[k]).owns(s) by {
            assert(nodes.drop_last()[k] == nodes[k]);
        }
    } else {
        assert(nodes.drop_last()[j] == nodes[j]);
        lemma_owner_count_unique(nodes.drop_last(), s, j);
        assert(!nodes.last().owns(s));
    }
}

/// Whether node `n` is a master importing slot `s`.
fn node_importing(n: &Node, s: u16) -> (r: bool)
    ensures
        r == n.is_importing_for(s),
{
    if !n.is_master() {
        return false;
    }
    let mut k: usize = 0;
    while k < n.importing.len()
        invariant
            n.role is Master,
            k <= n.importing@.len(),
            forall|j: int| 0 <= j < k ==> (#[trigger] n.importing@[j]).0 != s,
        decreases n.importing@.len() - k,
    {
        if n.importing[k].0 == s {
            proof {
                assert((n.importing@[k as int]).0 == s);
            }
            return true;
        }
        k = k + 1;
    }
    false
}

/// Whether node `n` is a master migrating slot `s` away.
fn node_migrating(n: &Node, s: u16) -> (r: bool)
    ensures
        r == n.is_migrating_for(s),
{
    if !n.is_master() {
        return false;
    }
    let mut k: usize = 0;
    while k < n.migrating.len()
        invariant
            n.role is Master,
            k <= n.migrating@.len(),
            forall|j: int| 0 <= j < k ==> (#[trigger] n.migrating@[j]).0 != s,
        decreases n.migrating@.len() - k,
    {
        if n.migrating[k].0 == s {
            proof {
                assert((n.migrating@[k as int]).0 == s);
            }
            return true;
        }
        k = k + 1;
    }
    false
}

/// Picks the node an unassigned slot should be repaired to: an importing
/// master first, a migrating master second, a live master third, any master
/// last. `None` exactly when the view has no master at all.
pub fn pick_owner(c: &Cluster, s: u16) -> (r: Option<usize>)
    ensures
        match r {
            Some(i) => i < c.nodes@.len() && c.nodes@[i as int].role
                is Master && preferred_owner(c.nodes@, s, i as int),
            None => forall|j: int|
                0 <= j < c.nodes@.len() ==> !((#[trigger] c.nodes@[j]).role
                    is Master),
        },
{
    let mut i: usize = 0;
    while i < c.nodes.len()
        invariant
            i <= c.nodes@.len(),
            forall|k: int| 0 <= k < i ==> !(#[trigger] c.nodes@[k]).is_importing_for(s),
        decreases c.nodes@.len() - i,
    {
        if node_importing(&c.nodes[i], s) {
            return Some(i);
        }
        i = i + 1;
    }
    let mut i2: usize = 0;
    while i2 < c.nodes.len()
        invariant
            i2 <= c.nodes@.len(),
            !has_importer(c.nodes@, s),
            forall|k: int| 0 <= k < i2 ==> !(#[trigger] c.nodes@[k]).is_migrating_for(s),
        decreases c.nodes@.len() - i2,
    {
        if node_migrating(&c.nodes[i2], s) {
            return Some(i2);
        }
        i2 = i2 + 1;
    }
    let mut ih: usize = 0;
    while ih < c.nodes.len()
        invariant
            ih <= c.nodes@.len(),
            !has_importer(c.nodes@, s),
            !has_migrator(c.nodes@, s),
            forall|k: int| 0 <= k < ih ==> !healthy_master(#[trigger] c.nodes@[k]),
        decreases c.nodes@.len() - ih,
    {
        if c.nodes[ih].is_master() && !c.nodes[ih].fail && c.nodes[ih].link_connected {
            return Some(ih);
        }
        ih = ih + 1;
    }
    let mut i3: usize = 0;
    while i3 < c.nodes.len()
        invariant
            i3 <= c.nodes@.len(),
            !has_importer(c.nodes@, s),
            !has_migrator(c.nodes@, s),
            !has_healthy_master(c.nodes@),
            forall|k: int|
                0 <= k < i3 ==> !((#[trigger] c.nodes@[k]).role
                    is Master),
        decreases c.nodes@.len() - i3,
    {
        if c.nodes[i3].is_master() {
            return Some(i3);
        }
        i3 = i3 + 1;
    }
    None
}

/// Adds slot `s` to the slot list of the node at `i`, leaving everything
/// else of the view unchanged.
pub fn apply_assign(c: &mut Cluster, i: usize, s: u16)
    requires
        i < old(c).nodes@.len(),
    ensures
        final(c).nodes@.len() == old(c).nodes@.len(),
        forall|j: int| 0 <= j < old(c).nodes@.len() && j != i ==> final(c).nodes@[j] == old(c).nodes@[j],
        final(c).nodes@[i as int].same_shape(old(c).nodes@[i as int]),
        final(c).nodes@[i as int].slots@ == old(c).nodes@[i as int].slots@.push(s),
        final(c).nodes@[i as int].role == old(c).nodes@[i as int].role,
{
    let mut n = c.nodes.remove(i);
    n.slots.push(s);
    c.nodes.insert(i, n);
    proof {
        assert(final(c).nodes@ =~= old(c).nodes@.update(
            i as int,
            final(c).nodes@[i as int],
        ));
    }
}

/// After `apply_assign(c, i, s)`, a node owns a slot `t` other than `s`
/// exactly as before, and the node at `i` also owns `s`.
pub proof fn lemma_assign_owns(pre: Seq<Node>, post: Seq<Node>, i: int, s: u16)
    requires
        0 <= i < pre.len(),
        post.len() == pre.len(),
        forall|j: int| 0 <= j < pre.len() && j != i ==> post[j] == pre[j],
        post[i].same_shape(pre[i]),
        post[i].slots@ == pre[i].slots@.push(s),
    ensures
        forall|j: int, t: u16|
            0 <= j < pre.len() && t != s ==> (#[trigger] post[j].owns(t)) == pre[j].owns(t),
        forall|j: int, t: u16|
            0 <= j < pre.len() && (#[trigger] pre[j].owns(t)) ==> post[j].owns(t),
        pre[i].role is Master ==> post[i].owns(s),
{
    assert forall|j: int, t: u16| 0 <= j < pre.len() && t != s implies (#[trigger] post[j].owns(t)) == pre[j].owns(t) by {
        if j == i {
            assert(post[i].slots@.len() == pre[i].slots@.len() + 1);
            if pre[i].slots@.contains(t) {
                let k = choose|k: int| 0 <= k < pre[i].slots@.len() && pre[i].slots@[k] == t;
                assert(post[i].slots@[k] == t);
            }
            if post[i].slots@.contains(t) {
                let k = choose|k: int| 0 <= k < post[i].slots@.len() && post[i].slots@[k] == t;
                assert(k < pre[i].slots@.len());
                assert(pre[i].slots@[k] == t);
            }
        }
    }
    assert forall|j: int, t: u16| 0 <= j < pre.len() && (#[trigger] pre[j].owns(t))
        implies post[j].owns(t) by {
        if j == i {
            let k = choose|k: int| 0 <= k < pre[i].slots@.len() && pre[i].slots@[k] == t;
            assert(post[i].slots@[k] == t);
        }
    }
    assert(post[i].slots@[pre[i].slots@.len() as int] == s);
}

/// Repairs every unassigned slot: each slot no master claims is assigned to
/// one repair target, chosen by the preference of `pick_owner`, so that
/// afterwards every slot is covered. Slots that already had an owner keep
/// exactly the owners they had; owned slots are never taken away. Fails with
/// `NotFound` only when some slot is unassigned and the view has no master
/// at all.
pub fn fix_slots(c: &mut Cluster) -> (r: Result<(), Error>)
    ensures
        final(c).nodes@.len() == old(c).nodes@.len(),
        forall|j: int|
            0 <= j < old(c).nodes@.len() ==> (#[trigger] final(c).nodes@[j]).same_shape(
                old(c).nodes@[j],
            ),
        forall|j: int, t: u16|
            0 <= j < old(c).nodes@.len() && (#[trigger] old(c).nodes@[j].owns(t)) ==> final(c).nodes@[j].owns(t),
        forall|j: int, t: u16|
            0 <= j < old(c).nodes@.len() && owner_count(old(c).nodes@, t) >= 1 ==> ((#[trigger] final(c).nodes@[j].owns(t)) <==> old(c).nodes@[j].owns(t)),
        forall|j: int, t: u16|
            0 <= j < old(c).nodes@.len() && owner_count(old(c).nodes@, t) == 0 && (#[trigger] final(c).nodes@[j].owns(t)) ==> preferred_owner(old(c).nodes@, t, j),
        r is Ok ==> forall|s: u16| s < SLOT_COUNT ==> owner_count(final(c).nodes@, s) >= 1,
        r is Ok ==> forall|s: u16|
            s < SLOT_COUNT && owner_count(old(c).nodes@, s) == 0 ==> owner_count(
                final(c).nodes@,
                s,
            ) == 1,
        r is Err ==> r == Result::<(), Error>::Err(Error::NotFound) && (forall|j: int|
            0 <= j < old(c).nodes@.len() ==> !((#[trigger] old(c).nodes@[j]).role
                is Master)),
{
    let ghost orig = old(c).nodes@;
    proof {
        assert forall|j: int, t: u16|
            0 <= j < orig.len() && owner_count(orig, t) == 0 && (#[trigger] c.nodes@[j].owns(t))
            implies preferred_owner(orig, t, j) by {
            lemma_owner_count_exists(orig, t);
        }
    }
    let mut s: u16 = 0;
    while s < SLOT_COUNT
        invariant
            orig == old(c).nodes@,
            s <= SLOT_COUNT,
            c.nodes@.len() == orig.len(),
            forall|j: int|
                0 <= j < orig.len() ==> (#[trigger] c.nodes@[j]).same_shape(orig[j]),
            forall|j: int, t: u16|
                0 <= j < orig.len() && (#[trigger] orig[j].owns(t)) ==> c.nodes@[j].owns(t),
            forall|j: int, t: u16|
                0 <= j < orig.len() && owner_count(orig, t) >= 1 ==> ((#[trigger] c.nodes@[j].owns(t)) <==> orig[j].owns(t)),
            forall|j: int, t: u16|
                0 <= j < orig.len() && t >= s ==> (#[trigger] c.nodes@[j].owns(t)) == orig[j].owns(t),
            forall|t: u16| t < s ==> owner_count(c.nodes@, t) >= 1,
            forall|t: u16|
                t < s && owner_count(orig, t) == 0 ==> owner_count(c.nodes@, t) == 1,
            forall|j: int, t: u16|
                0 <= j < orig.len() && owner_count(orig, t) == 0 && (#[trigger] c.nodes@[j].owns(t)) ==> preferred_owner(orig, t, j),
        decreases SLOT_COUNT - s,
    {
        let cnt = c.count_owners(s);
        proof {
            lemma_owner_count_pointwise(c.nodes@, orig, s);
        }
        if cnt == 0 {
            match pick_owner(c, s) {
                Some(i) => {
                    let ghost pre = c.nodes@;
                    apply_assign(c, i, s);
                    proof {
                        lemma_assign_owns(pre, c.nodes@, i as int, s);
                        lemma_preferred_same_shape(pre, orig, s, i as int);
                        assert forall|t: u16| t != s implies #[trigger] owner_count(c.nodes@, t)
                            == owner_count(pre, t) by {
                            lemma_owner_count_pointwise(c.nodes@, pre, t);
                        }
                        lemma_owner_count_exists(pre, s);
                        lemma_owner_count_unique(c.nodes@, s, i as int);
                    }
                },
                None => {
                    proof {
                        lemma_owner_count_exists(orig, s);
                        assert forall|j: int| 0 <= j < orig.len() implies !((#[trigger] orig[j]).role
                            is Master) by {
                            assert(c.nodes@[j].same_shape(orig[j]));
                        }
                    }
                    return Err(Error::NotFound);
                },
            }
        }
        proof {
            lemma_owner_count_nonneg(c.nodes@, s);
        }
        s = s + 1;
    }
    Ok(())
}

/// The pure coverage pass: every slot no master claims is assigned to one
/// master of the view — a live one whenever the view has any — with the
/// same preservation guarantees as `fix_slots` but no marker preference.
pub fn fill_slots(c: &mut Cluster) -> (r: Result<(), Error>)
    ensures
        final(c).nodes@.len() == old(c).nodes@.len(),
        forall|j: int|
            0 <= j < old(c).nodes@.len() ==> (#[trigger] final(c).nodes@[j]).same_shape(
                old(c).nodes@[j],
            ),
        forall|j: int, t: u16|
            0 <= j < old(c).nodes@.len() && (#[trigger] old(c).nodes@[j].owns(t)) ==> final(c).nodes@[j].owns(t),
        forall|j: int, t: u16|
            0 <= j < old(c).nodes@.len() && owner_count(old(c).nodes@, t) >= 1 ==> ((#[trigger] final(c).nodes@[j].owns(t)) <==> old(c).nodes@[j].owns(t)),
        r is Ok ==> forall|s: u16| s < SLOT_COUNT ==> owner_count(final(c).nodes@, s) >= 1,
        r is Ok ==> forall|s: u16|
            s < SLOT_COUNT && owner_count(old(c).nodes@, s) == 0 ==> owner_count(
                final(c).nodes@,
                s,
            ) == 1,
        r is Err ==> r == Result::<(), Error>::Err(Error::NotFound) && (forall|j: int|
            0 <= j < old(c).nodes@.len() ==> !((#[trigger] old(c).nodes@[j]).role
                is Master)),
        has_healthy_master(old(c).nodes@) ==> forall|j: int, t: u16|
            0 <= j < old(c).nodes@.len() && owner_count(old(c).nodes@, t) == 0 && (
            #[trigger] final(c).nodes@[j].owns(t)) && !old(c).nodes@[j].owns(t)
                ==> healthy_master(old(c).nodes@[j]),
{
    let ghost orig = old(c).nodes@;
    let mut first: Option<usize> = None;
    let mut first_healthy: Option<usize> = None;
    let mut i: usize = 0;
    while i < c.nodes.len()
        invariant
            i <= c.nodes@.len(),
            c == old(c),
            match first {
                Some(k) => k < c.nodes@.len() && c.nodes@[k as int].role
                    is Master,
                None => forall|j: int|
                    0 <= j < i ==> !((#[trigger] c.nodes@[j]).role
                        is Master),
            },
            match first_healthy {
                Some(k) => k < c.nodes@.len() && healthy_master(c.nodes@[k as int]),
                None => forall|j: int|
                    0 <= j < i ==> !healthy_master(#[trigger] c.nodes@[j]),
            },
        decreases c.nodes@.len() - i,
    {
        if first.is_none() && c.nodes[i].is_master() {
            first = Some(i);
        }
        if first_healthy.is_none() && c.nodes[i].is_master() && !c.nodes[i].fail
            && c.nodes[i].link_connected {
            first_healthy = Some(i);
        }
        i = i + 1;
    }
    let first: Option<usize> = match first_healthy {
        Some(k) => Some(k),
        None => first,
    };
    let target: usize = match first {
        Some(k) => k,
        None => {
            let mut s: u16 = 0;
            let mut uncovered = false;
            while s < SLOT_COUNT
                invariant
                    s <= SLOT_COUNT,
                    c == old(c),
                    !uncovered ==> forall|t: u16| t < s ==> owner_count(c.nodes@, t) >= 1,
                    uncovered ==> exists|t: u16|
                        t < SLOT_COUNT && #[trigger] owner_count(c.nodes@, t) == 0,
                decreases SLOT_COUNT - s,
            {
                proof {
                    lemma_owner_count_nonneg(c.nodes@, s);
                }
                if c.count_owners(s) == 0 {
                    uncovered = true;
                }
                s = s + 1;
            }
            if uncovered {
                return Err(Error::NotFound);
            }
            return Ok(());
        },
    };
    let mut s: u16 = 0;
    while s < SLOT_COUNT
        invariant
            orig == old(c).nodes@,
            s <= SLOT_COUNT,
            target < orig.len(),
            c.nodes@.len() == orig.len(),
            c.nodes@[target as int].role is Master,
            has_healthy_master(orig) ==> healthy_master(orig[target as int]),
            forall|j: int, t: u16|
                0 <= j < orig.len() && owner_count(orig, t) == 0 && (
                #[trigger] c.nodes@[j].owns(t)) && !orig[j].owns(t) ==> j == target,
            forall|j: int|
                0 <= j < orig.len() ==> (#[trigger] c.nodes@[j]).same_shape(orig[j]),
            forall|j: int, t: u16|
                0 <= j < orig.len() && (#[trigger] orig[j].owns(t)) ==> c.nodes@[j].owns(t),
            forall|j: int, t: u16|
                0 <= j < orig.len() && owner_count(orig, t) >= 1 ==> ((#[trigger] c.nodes@[j].owns(t)) <==> orig[j].owns(t)),
            forall|j: int, t: u16|
                0 <= j < orig.len() && t >= s ==> (#[trigger] c.nodes@[j].owns(t)) == orig[j].owns(t),
            forall|t: u16| t < s ==> owner_count(c.nodes@, t) >= 1,
            forall|t: u16|
                t < s && owner_count(orig, t) == 0 ==> owner_count(c.nodes@, t) == 1,
        decreases SLOT_COUNT - s,
    {
        let cnt = c.count_owners(s);
        proof {
            lemma_owner_count_pointwise(c.nodes@, orig, s);
        }
        if cnt == 0 {
            let ghost pre = c.nodes@;
            apply_assign(c, target, s);
            proof {
                lemma_assign_owns(pre, c.nodes@, target as int, s);
                assert forall|t: u16| t != s implies #[trigger] owner_count(c.nodes@, t)
                    == owner_count(pre, t) by {
                    lemma_owner_count_pointwise(c.nodes@, pre, t);
                }
                lemma_owner_count_exists(pre, s);
                lemma_owner_count_unique(c.nodes@, s, target as int);
            }
        }
        proof {
            lemma_owner_count_nonneg(c.nodes@, s);
        }
        s = s + 1;
    }
    Ok(())
}

/// Resolves a multiply-claimed slot: every master other than `keep` that
/// claims `s` stops claiming it and has its now-stale migration markers for
/// `s` cleared, `keep` goes on claiming it, every other node and every other
/// slot is untouched, so `s` ends with exactly one owner.
pub fn resolve_duplicate(c: &mut Cluster, s: u16, keep: usize)
    requires
        keep < old(c).nodes@.len(),
        old(c).nodes@[keep as int].owns(s),
    ensures
        final(c).nodes@.len() == old(c).nodes@.len(),
        forall|j: int|
            0 <= j < old(c).nodes@.len() ==> (#[trigger] final(c).nodes@[j]).same_identity(
                old(c).nodes@[j],
            ),
        forall|j: int|
            0 <= j < old(c).nodes@.len() && !(j != keep && old(c).nodes@[j].owns(s))
                ==> #[trigger] final(c).nodes@[j] == old(c).nodes@[j],
        forall|j: int, t: u16|
            0 <= j < old(c).nodes@.len() && t != s ==> ((#[trigger] final(c).nodes@[j].owns(t))
                <==> old(c).nodes@[j].owns(t)),
        forall|j: int, t: u16, id: Seq<char>|
            #![trigger crate::parse::has_pair(final(c).nodes@[j].migrating@, t, id)]
            0 <= j < old(c).nodes@.len() ==> (crate::parse::has_pair(
                final(c).nodes@[j].migrating@,
                t,
                id,
            ) <==> (crate::parse::has_pair(old(c).nodes@[j].migrating@, t, id) && !(t == s && j
                != keep && old(c).nodes@[j].owns(s)))),
        forall|j: int, t: u16, id: Seq<char>|
            #![trigger crate::parse::has_pair(final(c).nodes@[j].importing@, t, id)]
            0 <= j < old(c).nodes@.len() ==> (crate::parse::has_pair(
                final(c).nodes@[j].importing@,
                t,
                id,
            ) <==> (crate::parse::has_pair(old(c).nodes@[j].importing@, t, id) && !(t == s && j
                != keep && old(c).nodes@[j].owns(s)))),
        final(c).nodes@[keep as int].owns(s),
        forall|j: int|
            0 <= j < old(c).nodes@.len() && j != keep ==> !(#[trigger] final(c).nodes@[j]).owns(
                s,
            ),
        owner_count(final(c).nodes@, s) == 1,
{
    let ghost orig = old(c).nodes@;
    let mut j: usize = 0;
    while j < c.nodes.len()
        invariant
            orig == old(c).nodes@,
            keep < orig.len(),
            orig[keep as int].owns(s),
            j <= c.nodes@.len(),
            c.nodes@.len() == orig.len(),
            forall|k: int|
                0 <= k < orig.len() ==> (#[trigger] c.nodes@[k]).same_identity(orig[k]),
            forall|k: int|
                0 <= k < orig.len() && !(k != keep && orig[k].owns(s)) ==> #[trigger] c.nodes@[k]
                    == orig[k],
            forall|k: int, t: u16|
                0 <= k < orig.len() && t != s ==> ((#[trigger] c.nodes@[k].owns(t)) <==> orig[
                    k
                ].owns(t)),
            forall|k: int, t: u16, id: Seq<char>|
                #![trigger crate::parse::has_pair(c.nodes@[k].migrating@, t, id)]
                0 <= k < orig.len() ==> (crate::parse::has_pair(
                    c.nodes@[k].migrating@,
                    t,
                    id,
                ) <==> (crate::parse::has_pair(orig[k].migrating@, t, id) && !(t == s && k
                    != keep && orig[k].owns(s) && k < j))),
            forall|k: int, t: u16, id: Seq<char>|
                #![trigger crate::parse::has_pair(c.nodes@[k].importing@, t, id)]
                0 <= k < orig.len() ==> (crate::parse::has_pair(
                    c.nodes@[k].importing@,
                    t,
                    id,
                ) <==> (crate::parse::has_pair(orig[k].importing@, t, id) && !(t == s && k
                    != keep && orig[k].owns(s) && k < j))),
            c.nodes@[keep as int].owns(s),
            forall|k: int|
                0 <= k < j && k != keep ==> !(#[trigger] c.nodes@[k]).owns(s),
            forall|k: int|
                j <= k < orig.len() ==> (#[trigger] c.nodes@[k]).owns(s) == orig[k].owns(s),
        decreases c.nodes@.len() - j,
    {
        let owns_s = c.nodes[j].is_master() && crate::topology::contains_slot(
            &c.nodes[j].slots,
            s,
        );
        if j != keep && owns_s {
            let ghost pre = c.nodes@;
            let mut n = c.nodes.remove(j);
            let ghost pren = pre[j as int];
            let slots = remove_slot(&n.slots, s);
            n.slots = slots;
            let migr = remove_marker(&n.migrating, s);
            n.migrating = migr;
            let impo = remove_marker(&n.importing, s);
            n.importing = impo;
            c.nodes.insert(j, n);
            proof {
                assert(c.nodes@ =~= pre.update(j as int, c.nodes@[j as int]));
                assert(c.nodes@[j as int].same_identity(pren));
                assert forall|k: int, t: u16| 0 <= k < orig.len() && t != s implies ((
                #[trigger] c.nodes@[k].owns(t)) <==> orig[k].owns(t)) by {
                    if k == j {
                        assert(c.nodes@[k].slots@.contains(t) <==> (pren.slots@.contains(t) && t
                            != s));
                        assert(pre[k].owns(t) <==> orig[k].owns(t));
                    } else {
                        assert(c.nodes@[k] == pre[k]);
                    }
                }
                assert(!c.nodes@[j as int].slots@.contains(s));
            }
        }
        j = j + 1;
    }
    proof {
        lemma_owner_count_unique(c.nodes@, s, keep as int);
    }
}

/// A copy of a marker list with every entry for slot `s` left out.
pub fn remove_marker(pairs: &Vec<(u16, String)>, s: u16) -> (r: Vec<(u16, String)>)
    ensures
        forall|t: u16, id: Seq<char>|
            crate::parse::has_pair(r@, t, id) <==> (crate::parse::has_pair(pairs@, t, id) && t
                != s),
{
    let mut r: Vec<(u16, String)> = Vec::new();
    let mut i: usize = 0;
    while i < pairs.len()
        invariant
            i <= pairs@.len(),
            forall|t: u16, id: Seq<char>|
                crate::parse::has_pair(r@, t, id) <==> (crate::parse::has_pair(
                    pairs@.take(i as int),
                    t,
                    id,
                ) && t != s),
        decreases pairs@.len() - i,
    {
        let keep_it = pairs[i].0 != s;
        let ghost pre = r@;
        if keep_it {
            let slot = pairs[i].0;
            let id = pairs[i].1.clone();
            r.push((slot, id));
        }
        proof {
            let p1 = pairs@.take(i as int);
            let p2 = pairs@.take(i + 1);
            assert(p2.drop_last() =~= p1);
            assert(p2.last() == pairs@[i as int]);
            assert forall|t: u16, id: Seq<char>|
                crate::parse::has_pair(r@, t, id) <==> (crate::parse::has_pair(p2, t, id) && t
                    != s) by {
                if keep_it {
                    crate::parse::lemma_push_has_pair(
                        pre,
                        (pairs@[i as int].0, r@[r@.len() - 1].1),
                        t,
                        id,
                    );
                    assert(r@[r@.len() - 1].1@ == pairs@[i as int].1@);
                }
                if crate::parse::has_pair(p2, t, id) && t != s {
                    let kk = choose|kk: int|
                        0 <= kk < p2.len() && (#[trigger] p2[kk]).0 == t && p2[kk].1@ == id;
                    if kk < p1.len() {
                        assert(p1[kk].0 == t && p1[kk].1@ == id);
                        assert(crate::parse::has_pair(p1, t, id));
                    } else {
                        assert(pairs@[i as int].0 == t);
                        assert(keep_it);
                        assert(r@[r@.len() - 1].0 == t && r@[r@.len() - 1].1@ == id);
                        assert(crate::parse::has_pair(r@, t, id));
                    }
                }
                if crate::parse::has_pair(p1, t, id) {
                    let kk = choose|kk: int|
                        0 <= kk < p1.len() && (#[trigger] p1[kk]).0 == t && p1[kk].1@ == id;
                    assert(p2[kk].0 == t && p2[kk].1@ == id);
                    assert(crate::parse::has_pair(p2, t, id));
                }
            }
        }
        i = i + 1;
    }
    proof {
        assert(pairs@.take(pairs@.len() as int) =~= pairs@);
    }
    r
}

/// A copy of `slots` with every occurrence of `s` left out.
pub fn remove_slot(slots: &Vec<u16>, s: u16) -> (r: Vec<u16>)
    ensures
        forall|t: u16| r@.contains(t) <==> (slots@.contains(t) && t != s),
        r@.len() <= slots@.len(),
        slots@.contains(s) ==> r@.len() < slots@.len(),
{
    let mut r: Vec<u16> = Vec::new();
    let mut i: usize = 0;
    while i < slots.len()
        invariant
            i <= slots@.len(),
            r@.len() <= i,
            slots@.take(i as int).contains(s) ==> r@.len() < i,
            forall|t: u16|
                #![trigger r@.contains(t)]
                #![trigger slots@.take(i as int).contains(t)]
                r@.contains(t) <==> (slots@.take(i as int).contains(t) && t != s),
        decreases slots@.len() - i,
    {
        let v = slots[i];
        let ghost pre = r@;
        if v != s {
            r.push(v);
        }
        proof {
            let s1 = slots@.take(i as int);
            let s2 = slots@.take(i + 1);
            assert(s2.drop_last() =~= s1);
            assert(s2.last() == v);
            assert forall|t: u16| r@.contains(t) implies (s2.contains(t) && t != s) by {
                let k = choose|k: int| 0 <= k < r@.len() && r@[k] == t;
                if k < pre.len() {
                    assert(pre[k] == t);
                    assert(pre.contains(t));
                    assert(s1.contains(t) && t != s);
                    let k2 = choose|k2: int| 0 <= k2 < s1.len() && s1[k2] == t;
                    assert(s2[k2] == t);
                } else {
                    assert(t == v && v != s);
                    assert(s2[s2.len() - 1] == v);
                }
            }
            if s1.contains(s) {
                let k = choose|k: int| 0 <= k < s1.len() && s1[k] == s;
                assert(s2[k] == s);
            }
            if s2.contains(s) && !s1.contains(s) {
                let k = choose|k: int| 0 <= k < s2.len() && s2[k] == s;
                assert(k == s2.len() - 1);
                assert(v == s);
            }
            assert forall|t: u16| s2.contains(t) && t != s implies r@.contains(t) by {
                let k = choose|k: int| 0 <= k < s2.len() && s2[k] == t;
                if k < s1.len() {
                    assert(s1[k] == t);
                    assert(s1.contains(t));
                    assert(pre.contains(t));
                    let k2 = choose|k2: int| 0 <= k2 < pre.len() && pre[k2] == t;
                    assert(r@[k2] == t);
                } else {
                    assert(t == v);
                    assert(r@[r@.len() - 1] == v);
                }
            }
        }
        i = i + 1;
    }
    proof {
        assert(slots@.take(slots@.len() as int) =~= slots@);
    }
    r
}

/// Among candidate owners of a contested slot, each an index into the node
/// table paired with its observed key count, picks the position of the
/// first candidate holding the most keys; `None` exactly when there is no
/// candidate.
pub fn pick_by_key_count(cands: &Vec<(usize, u64)>) -> (r: Option<usize>)
    ensures
        match r {
            Some(k) => k < cands@.len() && (forall|j: int|
                0 <= j < cands@.len() ==> (#[trigger] cands@[j]).1 <= cands@[k as int].1) && (
            forall|j: int| 0 <= j < k ==> (#[trigger] cands@[j]).1 < cands@[k as int].1),
            None => cands@.len() == 0,
        },
{
    if cands.len() == 0 {
        return None;
    }
    let mut best: usize = 0;
    let mut j: usize = 1;
    while j < cands.len()
        invariant
            cands@.len() > 0,
            best < j <= cands@.len(),
            forall|k: int| 0 <= k < j ==> (#[trigger] cands@[k]).1 <= cands@[best as int].1,
            forall|k: int| 0 <= k < best ==> (#[trigger] cands@[k]).1 < cands@[best as int].1,
        decreases cands@.len() - j,
    {
        if cands[j].1 > cands[best].1 {
            best = j;
        }
        j = j + 1;
    }
    Some(best)
}

} // verus!
