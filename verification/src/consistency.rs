use vstd::prelude::*;
use crate::error::Error;
use crate::topology::{Cluster, Node, Role, SLOT_COUNT, contains_slot};

verus! {

/// Two member records describe the same member: same id, same epoch.
pub open spec fn member_match(x: Node, y: Node) -> bool {
    x.id@ == y.id@ && x.config_epoch == y.config_epoch
}

/// Some record of `b` describes the same member as `x`.
pub open spec fn member_covered(x: Node, b: Seq<Node>) -> bool {
    exists|j: int| 0 <= j < b.len() && member_match(x, #[trigger] b[j])
}

/// Every member of `a` appears in `b` with the same config epoch.
pub open spec fn members_cover(a: Seq<Node>, b: Seq<Node>) -> bool {
    forall|i: int| 0 <= i < a.len() ==> member_covered(#[trigger] a[i], b)
}

/// Every slot owner of `a` is reported as an owner of the same slot, under
/// the same id, by `b`.
pub open spec fn owners_cover(a: Seq<Node>, b: Seq<Node>) -> bool {
    forall|s: u16, i: int|
        #![trigger a[i].owns(s)]
        s < SLOT_COUNT && 0 <= i < a.len() && a[i].owns(s) ==> exists|j: int|
            #![trigger b[j].owns(s)]
            0 <= j < b.len() && b[j].owns(s) && b[j].id@ == a[i].id@
}

/// Two topology views agree: same members with the same epochs, and the
/// same owner ids for every slot.
pub open spec fn views_agree_spec(a: Cluster, b: Cluster) -> bool {
    &&& members_cover(a.nodes@, b.nodes@)
    &&& members_cover(b.nodes@, a.nodes@)
    &&& owners_cover(a.nodes@, b.nodes@)
    &&& owners_cover(b.nodes@, a.nodes@)
}

/// The index in `b` of a member with this id and epoch, if any.
fn find_member(b: &Cluster, n: &Node) -> (r: Option<usize>)
    ensures
        match r {
            Some(j) => j < b.nodes@.len() && member_match(*n, b.nodes@[j as int]),
            None => !member_covered(*n, b.nodes@),
        },
{
    let mut j: usize = 0;
    while j < b.nodes.len()
        invariant
            j <= b.nodes@.len(),
            forall|k: int| 0 <= k < j ==> !member_match(*n, #[trigger] b.nodes@[k]),
        decreases b.nodes@.len() - j,
    {
        if b.nodes[j].id == n.id && b.nodes[j].config_epoch == n.config_epoch {
            return Some(j);
        }
        j = j + 1;
    }
    proof {
        if member_covered(*n, b.nodes@) {
            let jj = choose|jj: int|
                0 <= jj < b.nodes@.len() && member_match(*n, #[trigger] b.nodes@[jj]);
        }
    }
    None
}

/// Whether `b` reports a master with this id owning slot `s`.
fn find_owner(b: &Cluster, s: u16, id: &String) -> (r: bool)
    ensures
        r == exists|j: int|
            0 <= j < b.nodes@.len() && (#[trigger] b.nodes@[j]).owns(s) && b.nodes@[j].id@
                == id@,
{
    let mut j: usize = 0;
    while j < b.nodes.len()
        invariant
            j <= b.nodes@.len(),
            forall|k: int|
                0 <= k < j ==> !((#[trigger] b.nodes@[k]).owns(s) && b.nodes@[k].id@ == id@),
        decreases b.nodes@.len() - j,
    {
        if b.nodes[j].is_master() && contains_slot(&b.nodes[j].slots, s) && b.nodes[j].id
            == *id {
            return true;
        }
        j = j + 1;
    }
    false
}

/// Whether every member of `a` appears in `b` with the same epoch.
fn check_members_cover(a: &Cluster, b: &Cluster) -> (r: bool)
    ensures
        r == members_cover(a.nodes@, b.nodes@),
{
    let ghost mut wit: Seq<int> = Seq::empty();
    let mut i: usize = 0;
    while i < a.nodes.len()
        invariant
            i <= a.nodes@.len(),
            wit.len() == i,
            forall|k: int|
                0 <= k < i ==> 0 <= #[trigger] wit[k] < b.nodes@.len() && member_match(
                    a.nodes@[k],
                    b.nodes@[wit[k]],
                ),
        decreases a.nodes@.len() - i,
    {
        match find_member(b, &a.nodes[i]) {
            Some(j) => {
                proof {
                    wit = wit.push(j as int);
                }
            },
            None => {
                proof {
                    assert(!member_covered(a.nodes@[i as int], b.nodes@));
                }
                return false;
            },
        }
        i = i + 1;
    }
    proof {
        assert forall|k: int|
            0 <= k < a.nodes@.len() implies member_covered(#[trigger] a.nodes@[k], b.nodes@) by {
            assert(member_match(a.nodes@[k], b.nodes@[wit[k]]));
        }
    }
    true
}

/// Whether every owner reported by `a` is reported the same way by `b`.
fn check_owners_cover(a: &Cluster, b: &Cluster) -> (r: bool)
    ensures
        r == owners_cover(a.nodes@, b.nodes@),
{
    let mut i: usize = 0;
    while i < a.nodes.len()
        invariant
            i <= a.nodes@.len(),
            forall|s: u16, k: int|
                s < SLOT_COUNT && 0 <= k < i && (#[trigger] a.nodes@[k].owns(s)) ==> exists|
                    j: int,
                |
                    0 <= j < b.nodes@.len() && (#[trigger] b.nodes@[j].owns(s)) && b.nodes@[j].id@
                        == a.nodes@[k].id@,
        decreases a.nodes@.len() - i,
    {
        if a.nodes[i].is_master() {
            let mut x: usize = 0;
            while x < a.nodes[i].slots.len()
                invariant
                    i < a.nodes@.len(),
                    x <= a.nodes@[i as int].slots@.len(),
                    a.nodes@[i as int].role is Master,
                    forall|s: u16|
                        s < SLOT_COUNT && #[trigger] a.nodes@[i as int].slots@.take(
                            x as int,
                        ).contains(s) ==> exists|j: int|
                            0 <= j < b.nodes@.len() && (#[trigger] b.nodes@[j].owns(s))
                                && b.nodes@[j].id@ == a.nodes@[i as int].id@,
                decreases a.nodes@[i as int].slots@.len() - x,
            {
                let s = a.nodes[i].slots[x];
                if s < SLOT_COUNT {
                    if !find_owner(b, s, &a.nodes[i].id) {
                        proof {
                            assert(a.nodes@[i as int].slots@.contains(s));
                            assert(a.nodes@[i as int].owns(s));
                            if owners_cover(a.nodes@, b.nodes@) {
                                let j = choose|j: int|
                                    0 <= j < b.nodes@.len() && (#[trigger] b.nodes@[j].owns(s))
                                        && b.nodes@[j].id@ == a.nodes@[i as int].id@;
                                assert(b.nodes@[j].owns(s));
                            }
                        }
                        return false;
                    }
                }
                proof {
                    let sl = a.nodes@[i as int].slots@;
                    assert(sl.take(x + 1).drop_last() =~= sl.take(x as int));
                    assert(sl.take(x + 1).last() == sl[x as int]);
                    assert forall|t: u16|
                        t < SLOT_COUNT && #[trigger] sl.take(x + 1).contains(t) implies exists|
                        j: int,
                    |
                        0 <= j < b.nodes@.len() && (#[trigger] b.nodes@[j].owns(t))
                            && b.nodes@[j].id@ == a.nodes@[i as int].id@ by {
                        let kk = choose|kk: int| 0 <= kk < x + 1 && #[trigger] sl.take(x + 1)[kk] == t;
                        if kk < x {
                            assert(sl.take(x as int)[kk] == t);
                            assert(sl.take(x as int).contains(t));
                        } else {
                            assert(t == sl[x as int]);
                        }
                    }
                }
                x = x + 1;
            }
            proof {
                let sl = a.nodes@[i as int].slots@;
                assert(sl.take(sl.len() as int) =~= sl);
                assert forall|s: u16, k: int|
                    s < SLOT_COUNT && 0 <= k < i + 1 && (#[trigger] a.nodes@[k].owns(
                        s,
                    )) implies exists|j: int|
                    0 <= j < b.nodes@.len() && (#[trigger] b.nodes@[j].owns(s)) && b.nodes@[j].id@
                        == a.nodes@[k].id@ by {
                    if k == i {
                        assert(sl.contains(s));
                    }
                }
            }
        } else {
            proof {
                assert forall|s: u16, k: int|
                    s < SLOT_COUNT && 0 <= k < i + 1 && (#[trigger] a.nodes@[k].owns(
                        s,
                    )) implies exists|j: int|
                    0 <= j < b.nodes@.len() && (#[trigger] b.nodes@[j].owns(s)) && b.nodes@[j].id@
                        == a.nodes@[k].id@ by {
                    if k == i {
                        assert(!(a.nodes@[k].role is Master));
                    }
                }
            }
        }
        i = i + 1;
    }
    true
}

/// Whether two topology views agree on members, epochs and slot ownership
/// in both directions.
pub fn views_agree(a: &Cluster, b: &Cluster) -> (r: bool)
    ensures
        r == views_agree_spec(*a, *b),
{
    let m1 = check_members_cover(a, b);
    let m2 = check_members_cover(b, a);
    let o1 = check_owners_cover(a, b);
    let o2 = check_owners_cover(b, a);
    m1 && m2 && o1 && o2
}

/// Whether every queried view agrees with the first one; an empty or
/// single-view table is trivially consistent.
pub fn is_consistent(views: &Vec<Cluster>) -> (r: bool)
    ensures
        r == forall|v: int|
            1 <= v < views@.len() ==> views_agree_spec(views@[0], #[trigger] views@[v]),
{
    let mut v: usize = 1;
    while v < views.len()
        invariant
            1 <= v || views@.len() == 0,
            v <= views@.len() || v == 1,
            forall|k: int| 1 <= k < v ==> views_agree_spec(views@[0], #[trigger] views@[k]),
        decreases views@.len() - v,
    {
        if !views_agree(&views[0], &views[v]) {
            return false;
        }
        v = v + 1;
    }
    true
}

/// One consistency-poll round in flight: how many more times the caller may
/// ask before the wait is declared failed.
pub struct Poll {
    pub attempts_left: u32,
}

impl Poll {
    /// A poll with the given attempt budget.
    pub fn new(attempts: u32) -> (r: Poll)
        ensures
            r.attempts_left == attempts,
    {
        Poll { attempts_left: attempts }
    }

    /// One polling decision: a consistent answer ends the wait with success;
    /// an inconsistent answer either spends one attempt and asks the caller
    /// to poll again, or, with the budget exhausted, ends the wait with a
    /// convergence timeout.
    pub fn step(&mut self, consistent: bool) -> (r: Option<Result<(), Error>>)
        ensures
            consistent ==> r == Some(Result::<(), Error>::Ok(())) && *final(self) == *old(self),
            !consistent && old(self).attempts_left == 0 ==> r == Some(
                Result::<(), Error>::Err(Error::ConvergenceTimeout),
            ) && *final(self) == *old(self),
            !consistent && old(self).attempts_left > 0 ==> r
                == Option::<Result<(), Error>>::None && final(self).attempts_left == old(
                self,
            ).attempts_left - 1,
    {
        if consistent {
            Some(Ok(()))
        } else if self.attempts_left == 0 {
            Some(Err(Error::ConvergenceTimeout))
        } else {
            self.attempts_left = self.attempts_left - 1;
            None
        }
    }
}

} // verus!
