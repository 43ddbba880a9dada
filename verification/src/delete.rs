use vstd::prelude::*;
use crate::error::Error;
use crate::topology::{Cluster, Node, owner_count};
use crate::migrate::apply_slot_move;

verus! {

/// Whether node `n` neither is the node with id `del` nor replicates it.
pub open spec fn keeps(n: Node, del: Seq<char>) -> bool {
    &&& n.id@ != del
    &&& match n.master_id {
        Some(m) => m@ != del,
        None => true,
    }
}

/// `n` stands, up to its slot list, for one of the old nodes other than the
/// deleted one.
pub open spec fn from_survivor(n: Node, olds: Seq<Node>, idx: int) -> bool {
    exists|k: int| 0 <= k < olds.len() && k != idx && n.same_shape(#[trigger] olds[k])
}

/// Some node of the final view stands, up to its slot list, for the old
/// node at `k`.
pub open spec fn still_present(olds: Seq<Node>, k: int, finals: Seq<Node>) -> bool {
    exists|j: int| 0 <= j < finals.len() && (#[trigger] finals[j]).same_shape(olds[k])
}

/// The exact node value `v` stands in the table.
pub open spec fn present_value(v: Node, finals: Seq<Node>) -> bool {
    exists|j: int| 0 <= j < finals.len() && (#[trigger] finals[j]) == v
}

/// Some node of the table other than the one at `excl` owns slot `t` under
/// this id.
pub open spec fn owner_with_id(nodes: Seq<Node>, t: u16, id: String, excl: int) -> bool {
    exists|k: int|
        0 <= k < nodes.len() && k != excl && (#[trigger] nodes[k].owns(t)) && nodes[k].id == id
}

/// Removes the node at `idx` from the cluster view. A replica is dropped
/// directly. A master first has every owned slot migrated to the other
/// masters, sized by the divider, so no coverage is lost; its replicas are
/// dropped with it, and no surviving node carries the deleted id or
/// references it as its master. Deleting a slot-owning master is refused
/// when no other master exists to take the slots.
#[verifier::rlimit(100)]
pub fn delete_node(c: &mut Cluster, idx: usize) -> (r: Result<(), Error>)
    requires
        idx < old(c).nodes@.len(),
        old(c).wf(),
        forall|j: int|
            0 <= j < old(c).nodes@.len() && j != idx ==> (#[trigger] old(c).nodes@[j]).id@ != old(
                c,
            ).nodes@[idx as int].id@,
    ensures
        r is Err <==> (old(c).nodes@[idx as int].role is Master && old(
            c,
        ).nodes@[idx as int].slots@.len() > 0 && (forall|j: int|
            0 <= j < old(c).nodes@.len() && j != idx ==> !((#[trigger] old(c).nodes@[j]).role
                is Master))),
        r is Err ==> r == Result::<(), Error>::Err(Error::InvalidInput) && *final(c) == *old(c),
        r is Ok ==> {
            &&& forall|j: int|
                0 <= j < final(c).nodes@.len() ==> keeps(
                    #[trigger] final(c).nodes@[j],
                    old(c).nodes@[idx as int].id@,
                )
            &&& forall|t: u16|
                owner_count(old(c).nodes@, t) >= 1 ==> #[trigger] owner_count(
                    final(c).nodes@,
                    t,
                ) >= 1
            &&& forall|j: int|
                0 <= j < final(c).nodes@.len() ==> from_survivor(
                    #[trigger] final(c).nodes@[j],
                    old(c).nodes@,
                    idx as int,
                )
            &&& forall|k: int|
                0 <= k < old(c).nodes@.len() && keeps(
                    #[trigger] old(c).nodes@[k],
                    old(c).nodes@[idx as int].id@,
                ) ==> still_present(old(c).nodes@, k, final(c).nodes@)
            &&& forall|j: int, t: u16|
                #![trigger final(c).nodes@[j].owns(t)]
                0 <= j < final(c).nodes@.len() && !old(c).nodes@[idx as int].owns(t)
                    && final(c).nodes@[j].owns(t) ==> owner_with_id(
                    old(c).nodes@,
                    t,
                    final(c).nodes@[j].id,
                    idx as int,
                )
            &&& forall|k: int, t: u16|
                #![trigger old(c).nodes@[k].owns(t)]
                0 <= k < old(c).nodes@.len() && k != idx && old(c).nodes@[k].owns(t)
                    && !old(c).nodes@[idx as int].owns(t) ==> owner_with_id(
                    final(c).nodes@,
                    t,
                    old(c).nodes@[k].id,
                    -1,
                )
        },
{
    let ghost orig = old(c).nodes@;
    let ghost del = orig[idx as int].id@;
    let deleted_id = c.nodes[idx].id.clone();
    if c.nodes[idx].is_master() && c.nodes[idx].slots.len() > 0 {
        let mut others: Vec<usize> = Vec::new();
        let mut i: usize = 0;
        while i < c.nodes.len()
            invariant
                c == old(c),
                idx < c.nodes@.len(),
                i <= c.nodes@.len(),
                forall|k: int|
                    0 <= k < others@.len() ==> #[trigger] others@[k] < c.nodes@.len()
                        && others@[k] != idx && c.nodes@[others@[k] as int].role is Master,
                others@.len() == 0 ==> forall|j: int|
                    0 <= j < i && j != idx ==> !((#[trigger] c.nodes@[j]).role is Master),
            decreases c.nodes@.len() - i,
        {
            if i != idx && c.nodes[i].is_master() {
                others.push(i);
            }
            i = i + 1;
        }
        if others.len() == 0 {
            return Err(Error::InvalidInput);
        }
        let total = c.nodes[idx].slots.len();
        let dist = match crate::util::divide(total, others.len()) {
            Ok(d) => d,
            Err(_) => {
                return Err(Error::InvalidInput);
            },
        };
        let mut k: usize = 0;
        while k < others.len()
            invariant
                orig == old(c).nodes@,
                del == orig[idx as int].id@,
                orig.len() == c.nodes@.len(),
                idx < orig.len(),
                orig[idx as int].role is Master,
                k <= others@.len(),
                dist@.len() == others@.len(),
                forall|k2: int|
                    0 <= k2 < others@.len() ==> #[trigger] others@[k2] < orig.len()
                        && others@[k2] != idx && orig[others@[k2] as int].role is Master,
                forall|j: int|
                    0 <= j < orig.len() ==> (#[trigger] c.nodes@[j]).same_shape(orig[j]),
                forall|t: u16|
                    owner_count(orig, t) >= 1 ==> #[trigger] owner_count(c.nodes@, t) >= 1,
                forall|j: int|
                    0 <= j < orig.len() && (#[trigger] c.nodes@[j]).role is Replica
                        ==> c.nodes@[j].slots@.len() == 0,
                forall|j: int, t: u16|
                    0 <= j < orig.len() && !orig[idx as int].owns(t) ==> ((
                    #[trigger] c.nodes@[j].owns(t)) <==> orig[j].owns(t)),
            decreases others@.len() - k,
        {
            let target = others[k];
            let goal = dist[k];
            let mut moved: usize = 0;
            while moved < goal && c.nodes[idx].slots.len() > 0
                invariant
                    orig == old(c).nodes@,
                    del == orig[idx as int].id@,
                    orig.len() == c.nodes@.len(),
                    idx < orig.len(),
                    orig[idx as int].role is Master,
                    target < orig.len(),
                    target != idx,
                    orig[target as int].role is Master,
                    moved <= goal,
                    forall|j: int|
                        0 <= j < orig.len() ==> (#[trigger] c.nodes@[j]).same_shape(orig[j]),
                    forall|t: u16|
                        owner_count(orig, t) >= 1 ==> #[trigger] owner_count(c.nodes@, t) >= 1,
                    forall|j: int|
                        0 <= j < orig.len() && (#[trigger] c.nodes@[j]).role is Replica
                            ==> c.nodes@[j].slots@.len() == 0,
                    forall|j: int, t: u16|
                        0 <= j < orig.len() && !orig[idx as int].owns(t) ==> ((
                        #[trigger] c.nodes@[j].owns(t)) <==> orig[j].owns(t)),
                decreases goal - moved,
            {
                let li = c.nodes[idx].slots.len() - 1;
                let s = c.nodes[idx].slots[li];
                proof {
                    assert(c.nodes@[idx as int].slots@[li as int] == s);
                    assert(c.nodes@[idx as int].slots@.contains(s));
                    assert(c.nodes@[idx as int].owns(s));
                    assert(orig[idx as int].owns(s));
                }
                apply_slot_move(c, s, idx, target);
                moved = moved + 1;
            }
            k = k + 1;
        }
        let target0 = others[0];
        while c.nodes[idx].slots.len() > 0
            invariant
                orig == old(c).nodes@,
                del == orig[idx as int].id@,
                orig.len() == c.nodes@.len(),
                idx < orig.len(),
                orig[idx as int].role is Master,
                target0 < orig.len(),
                target0 != idx,
                orig[target0 as int].role is Master,
                forall|j: int|
                    0 <= j < orig.len() ==> (#[trigger] c.nodes@[j]).same_shape(orig[j]),
                forall|t: u16|
                    owner_count(orig, t) >= 1 ==> #[trigger] owner_count(c.nodes@, t) >= 1,
                forall|j: int|
                    0 <= j < orig.len() && (#[trigger] c.nodes@[j]).role is Replica
                        ==> c.nodes@[j].slots@.len() == 0,
                forall|j: int, t: u16|
                    0 <= j < orig.len() && !orig[idx as int].owns(t) ==> ((
                    #[trigger] c.nodes@[j].owns(t)) <==> orig[j].owns(t)),
            decreases c.nodes@[idx as int].slots@.len(),
        {
            let li = c.nodes[idx].slots.len() - 1;
            let s = c.nodes[idx].slots[li];
            proof {
                assert(c.nodes@[idx as int].slots@[li as int] == s);
                assert(c.nodes@[idx as int].slots@.contains(s));
                assert(c.nodes@[idx as int].owns(s));
                assert(orig[idx as int].owns(s));
            }
            apply_slot_move(c, s, idx, target0);
        }
    }
    let ghost evac = c.nodes@;
    proof {
        assert(c.nodes@[idx as int].slots@.len() == 0);
    }
    let mut out: Vec<Node> = Vec::new();
    let ghost mut p: int = 0;
    let ghost mut wit: Seq<int> = Seq::empty();
    while c.nodes.len() > 0
        invariant
            orig == old(c).nodes@,
            del == orig[idx as int].id@,
            idx < orig.len(),
            evac.len() == orig.len(),
            forall|j: int| 0 <= j < orig.len() ==> (#[trigger] evac[j]).same_shape(orig[j]),
            forall|j: int|
                0 <= j < orig.len() && j != idx ==> (#[trigger] orig[j]).id@ != del,
            evac[idx as int].slots@.len() == 0,
            forall|j: int|
                0 <= j < orig.len() && (#[trigger] evac[j]).role is Replica ==> evac[
                    j
                ].slots@.len() == 0,
            forall|j: int|
                0 <= j < orig.len() ==> ((#[trigger] orig[j]).role is Replica <==> orig[
                    j
                ].master_id is Some),
            0 <= p <= evac.len(),
            c.nodes@ == evac.skip(p),
            deleted_id@ == del,
            forall|j: int| 0 <= j < out@.len() ==> keeps(#[trigger] out@[j], del),
            wit.len() == out@.len(),
            forall|j: int|
                0 <= j < out@.len() ==> 0 <= #[trigger] wit[j] < orig.len() && wit[j] != idx
                    && out@[j].same_shape(orig[wit[j]]) && out@[j] == evac[wit[j]],
            forall|k: int|
                0 <= k < p && keeps(#[trigger] evac[k], del) ==> still_present(orig, k, out@),
            forall|k: int|
                0 <= k < p && keeps(#[trigger] evac[k], del) ==> present_value(evac[k], out@),
            forall|j: int, t: u16|
                0 <= j < orig.len() && !orig[idx as int].owns(t) ==> ((
                #[trigger] evac[j].owns(t)) <==> orig[j].owns(t)),
            forall|t: u16|
                #[trigger] owner_count(out@, t) == owner_count(evac.take(p), t),
        decreases c.nodes@.len(),
    {
        let n = c.nodes.remove(0);
        proof {
            assert(c.nodes@ =~= evac.skip(p + 1));
            assert(n == evac[p]);
            assert(evac.take(p + 1).drop_last() =~= evac.take(p));
            assert(evac.take(p + 1).last() == evac[p]);
        }
        let mut keep = !(n.id == deleted_id);
        if keep {
            match &n.master_id {
                Some(m) => {
                    if *m == deleted_id {
                        keep = false;
                    }
                },
                None => {},
            }
        }
        proof {
            assert(keep == keeps(evac[p], del));
        }
        if keep {
            let ghost preout = out@;
            out.push(n);
            proof {
                assert(out@.drop_last() =~= preout);
                assert(out@.last() == evac[p]);
                assert(evac[p].same_shape(orig[p]));
                assert(orig[p].id@ == evac[p].id@);
                assert(p != idx);
                wit = wit.push(p);
                assert forall|j: int|
                    0 <= j < out@.len() implies 0 <= #[trigger] wit[j] < orig.len() && wit[j]
                        != idx && out@[j].same_shape(orig[wit[j]]) && out@[j] == evac[wit[j]] by {
                    if j < preout.len() {
                        assert(out@[j] == preout[j]);
                    } else {
                        assert(out@[j] == evac[p]);
                        assert(wit[j] == p);
                    }
                }
                assert forall|k2: int|
                    0 <= k2 < p + 1 && keeps(#[trigger] evac[k2], del) implies present_value(
                    evac[k2],
                    out@,
                ) by {
                    if k2 < p {
                        let j = choose|j: int|
                            0 <= j < preout.len() && (#[trigger] preout[j]) == evac[k2];
                        assert(out@[j] == evac[k2]);
                    } else {
                        assert(out@[out@.len() - 1] == evac[p]);
                    }
                }
                assert forall|k: int|
                    0 <= k < p + 1 && keeps(#[trigger] evac[k], del) implies still_present(
                    orig,
                    k,
                    out@,
                ) by {
                    if k < p {
                        let j = choose|j: int|
                            0 <= j < preout.len() && (#[trigger] preout[j]).same_shape(orig[k]);
                        assert(out@[j] == preout[j]);
                        assert(out@[j].same_shape(orig[k]));
                    } else {
                        assert(out@[out@.len() - 1].same_shape(orig[p]));
                    }
                }
                assert forall|t: u16| #[trigger] owner_count(out@, t) == owner_count(
                    evac.take(p + 1),
                    t,
                ) by {
                    assert(owner_count(out@, t) == owner_count(preout, t) + (if evac[p].owns(t) {
                        1int
                    } else {
                        0int
                    }));
                }
            }
        } else {
            proof {
                assert(!keeps(evac[p], del));
                assert forall|t: u16| !(#[trigger] evac[p].owns(t)) by {
                    if evac[p].id@ == del {
                        assert(p == idx || orig[p].id@ != del);
                        assert(evac[p].slots@.len() == 0);
                    } else {
                        assert(evac[p].master_id is Some);
                        assert(evac[p].role is Replica);
                        assert(evac[p].slots@.len() == 0);
                    }
                }
                assert forall|t: u16| #[trigger] owner_count(out@, t) == owner_count(
                    evac.take(p + 1),
                    t,
                ) by {
                    assert(!evac.take(p + 1).last().owns(t));
                }
            }
        }
        proof {
            p = p + 1;
        }
    }
    proof {
        assert(evac.take(p) =~= evac);
        assert forall|t: u16|
            owner_count(orig, t) >= 1 implies #[trigger] owner_count(out@, t) >= 1 by {
            assert(owner_count(out@, t) == owner_count(evac, t));
        }
        assert forall|k: int|
            0 <= k < orig.len() implies keeps(#[trigger] orig[k], del) == keeps(evac[k], del) by {
            assert(evac[k].same_shape(orig[k]));
        }
    }
    c.nodes = out;
    proof {
        assert forall|j: int, t: u16|
            #![trigger c.nodes@[j].owns(t)]
            0 <= j < c.nodes@.len() && !old(c).nodes@[idx as int].owns(t) && c.nodes@[j].owns(
                t,
            ) implies owner_with_id(old(c).nodes@, t, c.nodes@[j].id, idx as int) by {
            assert(c.nodes@[j] == evac[wit[j]]);
            assert(evac[wit[j]].owns(t));
            assert(orig[wit[j]].owns(t));
            assert(evac[wit[j]].same_shape(orig[wit[j]]));
            assert(orig[wit[j]].id == c.nodes@[j].id);
            assert(orig[wit[j]].owns(t) && wit[j] != idx);
        }
        assert forall|k: int, t: u16|
            #![trigger old(c).nodes@[k].owns(t)]
            0 <= k < old(c).nodes@.len() && k != idx && old(c).nodes@[k].owns(t) && !old(
                c,
            ).nodes@[idx as int].owns(t) implies owner_with_id(
            c.nodes@,
            t,
            old(c).nodes@[k].id,
            -1,
        ) by {
            assert(orig[k].role is Master);
            assert(orig[k].master_id is None);
            assert(orig[k].id@ != del);
            assert(evac[k].same_shape(orig[k]));
            assert(keeps(evac[k], del));
            assert(present_value(evac[k], c.nodes@));
            let j = choose|j: int| 0 <= j < c.nodes@.len() && (#[trigger] c.nodes@[j]) == evac[k];
            assert(evac[k].owns(t));
            assert(c.nodes@[j].owns(t));
            assert(c.nodes@[j].id == orig[k].id);
        }
        assert forall|j: int|
            0 <= j < c.nodes@.len() implies from_survivor(
            #[trigger] c.nodes@[j],
            old(c).nodes@,
            idx as int,
        ) by {
            assert(0 <= wit[j] < orig.len() && wit[j] != idx);
            assert(c.nodes@[j].same_shape(orig[wit[j]]));
        }
        assert forall|k: int|
            0 <= k < old(c).nodes@.len() && keeps(
                #[trigger] old(c).nodes@[k],
                old(c).nodes@[idx as int].id@,
            ) implies still_present(old(c).nodes@, k, c.nodes@) by {
            assert(keeps(evac[k], del));
            assert(still_present(orig, k, c.nodes@));
        }
    }
    Ok(())
}

} // verus!
