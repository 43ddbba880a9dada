use vstd::prelude::*;
use crate::error::{Error, Violation};

verus! {

/// Number of hash slots in the keyspace.
pub const SLOT_COUNT: u16 = 16384;

/// The role a node reports for itself.
#[derive(Debug, Clone, Copy, PartialEq, Eq, Structural)]
pub enum Role {
    Master,
    Replica,
}

/// One cluster member, as decoded from a peer table: plain values only, so
/// every rule about the topology can be stated over them.
#[derive(Debug)]
pub struct Node {
    /// Opaque unique identifier assigned by the member itself.
    pub id: String,
    /// Host of the member.
    pub ip: String,
    /// Client port of the member.
    pub port: String,
    /// Master or replica.
    pub role: Role,
    /// For a replica, the id of its master; `None` for a master.
    pub master_id: Option<String>,
    /// Slots this node claims to own; meaningful only for masters.
    pub slots: Vec<u16>,
    /// Tie-breaking version number; higher wins an ownership conflict.
    pub config_epoch: u64,
    /// Whether peers report the gossip link to this node as connected.
    pub link_connected: bool,
    /// Whether peers flag this node as failed.
    pub fail: bool,
    /// Whether this line described the queried node itself.
    pub myself: bool,
    /// Slots this node is migrating away, with the destination node id.
    pub migrating: Vec<(u16, String)>,
    /// Slots this node is importing, with the source node id.
    pub importing: Vec<(u16, String)>,
}

impl Node {
    /// A node as parsed is well formed: the role matches the master
    /// reference, only masters claim slots, and every slot index is in
    /// range.
    pub open spec fn wf(self) -> bool {
        &&& (self.role is Replica <==> self.master_id is Some)
        &&& (self.role is Replica ==> self.slots@.len() == 0)
        &&& forall|i: int| 0 <= i < self.slots@.len() ==> #[trigger] self.slots@[i] < SLOT_COUNT
    }

    /// Whether this node is a master that claims slot `s`.
    pub open spec fn owns(self, s: u16) -> bool {
        self.role is Master && self.slots@.contains(s)
    }

    /// Whether this node carries a migration marker (either direction) for
    /// slot `s`.
    pub open spec fn has_marker(self, s: u16) -> bool {
        (exists|i: int| 0 <= i < self.migrating@.len() && (#[trigger] self.migrating@[i]).0 == s)
            || (exists|i: int|
            0 <= i < self.importing@.len() && (#[trigger] self.importing@[i]).0 == s)
    }

    /// Two node records that agree on everything except the owned slot
    /// list: identity, role, reference, epoch, health and markers.
    pub open spec fn same_shape(self, other: Node) -> bool {
        &&& self.id == other.id
        &&& self.ip == other.ip
        &&& self.port == other.port
        &&& self.role == other.role
        &&& self.master_id == other.master_id
        &&& self.config_epoch == other.config_epoch
        &&& self.link_connected == other.link_connected
        &&& self.fail == other.fail
        &&& self.myself == other.myself
        &&& self.migrating == other.migrating
        &&& self.importing == other.importing
    }

    /// Two node records that agree on identity and health: everything but
    /// the owned slot list and the migration markers.
    pub open spec fn same_identity(self, other: Node) -> bool {
        &&& self.id == other.id
        &&& self.ip == other.ip
        &&& self.port == other.port
        &&& self.role == other.role
        &&& self.master_id == other.master_id
        &&& self.config_epoch == other.config_epoch
        &&& self.link_connected == other.link_connected
        &&& self.fail == other.fail
        &&& self.myself == other.myself
    }

    /// Whether this node is a master currently importing slot `s`.
    pub open spec fn is_importing_for(self, s: u16) -> bool {
        self.role is Master && exists|k: int|
            0 <= k < self.importing@.len() && (#[trigger] self.importing@[k]).0 == s
    }

    /// Whether this node is a master currently migrating slot `s` away.
    pub open spec fn is_migrating_for(self, s: u16) -> bool {
        self.role is Master && exists|k: int|
            0 <= k < self.migrating@.len() && (#[trigger] self.migrating@[k]).0 == s
    }

    /// True iff this node is a master.
    pub fn is_master(&self) -> (r: bool)
        ensures
            r == (self.role is Master),
    {
        match self.role {
            Role::Master => true,
            Role::Replica => false,
        }
    }
}

/// A point-in-time view of the whole cluster: the node table one member
/// reported, decoded.
#[derive(Debug)]
pub struct Cluster {
    pub nodes: Vec<Node>,
}

/// How many of the nodes in `nodes` are masters claiming slot `s`.
pub open spec fn owner_count(nodes: Seq<Node>, s: u16) -> int
    decreases nodes.len(),
{
    if nodes.len() == 0 {
        0
    } else {
        owner_count(nodes.drop_last(), s) + if nodes.last().owns(s) {
            1int
        } else {
            0int
        }
    }
}

/// Every claimed owner of `s` in a longer prefix is one of the counted ones.
pub proof fn lemma_owner_count_nonneg(nodes: Seq<Node>, s: u16)
    ensures
        owner_count(nodes, s) >= 0,
    decreases nodes.len(),
{
    if nodes.len() > 0 {
        lemma_owner_count_nonneg(nodes.drop_last(), s);
    }
}

/// An owner exists exactly when the count is positive.
pub proof fn lemma_owner_count_exists(nodes: Seq<Node>, s: u16)
    ensures
        (owner_count(nodes, s) > 0) <==> (exists|i: int|
            0 <= i < nodes.len() && (#[trigger] nodes[i]).owns(s)),
    decreases nodes.len(),
{
    lemma_owner_count_nonneg(nodes, s);
    if nodes.len() > 0 {
        lemma_owner_count_exists(nodes.drop_last(), s);
        lemma_owner_count_nonneg(nodes.drop_last(), s);
        if owner_count(nodes, s) > 0 {
            if nodes.last().owns(s) {
                assert(nodes[nodes.len() - 1].owns(s));
            } else {
                let i = choose|i: int|
                    0 <= i < nodes.drop_last().len() && (#[trigger] nodes.drop_last()[i]).owns(s);
                assert(nodes[i].owns(s));
            }
        }
        if exists|i: int| 0 <= i < nodes.len() && (#[trigger] nodes[i]).owns(s) {
            let i = choose|i: int| 0 <= i < nodes.len() && (#[trigger] nodes[i]).owns(s);
            if i < nodes.len() - 1 {
                assert(nodes.drop_last()[i].owns(s));
            }
        }
    }
}

/// Two node tables that agree pointwise on who owns `s` have the same
/// owner count for `s`.
pub proof fn lemma_owner_count_pointwise(a: Seq<Node>, b: Seq<Node>, s: u16)
    requires
        a.len() == b.len(),
        forall|k: int| 0 <= k < a.len() ==> (#[trigger] a[k]).owns(s) == b[k].owns(s),
    ensures
        owner_count(a, s) == owner_count(b, s),
    decreases a.len(),
{
    if a.len() > 0 {
        lemma_owner_count_pointwise(a.drop_last(), b.drop_last(), s);
    }
}

impl Cluster {
    /// Build a topology view from decoded nodes.
    pub fn new(nodes: Vec<Node>) -> (r: Cluster)
        ensures
            r.nodes == nodes,
    {
        Cluster { nodes }
    }

    /// All nodes of the view are well formed.
    pub open spec fn wf(self) -> bool {
        forall|i: int| 0 <= i < self.nodes@.len() ==> (#[trigger] self.nodes@[i]).wf()
    }

    /// The node at index `i`, if a replica, names a master that exists.
    pub open spec fn replica_resolves(self, i: int) -> bool {
        match self.nodes@[i].master_id {
            Some(m) => exists|j: int|
                0 <= j < self.nodes@.len() && (#[trigger] self.nodes@[j]).role is Master
                    && self.nodes@[j].id@ == m@,
            None => false,
        }
    }

    /// Every replica's master reference resolves to a known master.
    pub open spec fn replicas_resolve(self) -> bool {
        forall|i: int|
            0 <= i < self.nodes@.len() && (#[trigger] self.nodes@[i]).role is Replica
                ==> self.replica_resolves(i)
    }

    /// Every slot has at least one owner.
    pub open spec fn covered(self) -> bool {
        forall|s: u16| s < SLOT_COUNT ==> owner_count(self.nodes@, s) >= 1
    }

    /// No slot is claimed by two masters unless some node carries a
    /// migration marker for it.
    pub open spec fn no_stray_duplicates(self) -> bool {
        forall|s: u16|
            s < SLOT_COUNT && owner_count(self.nodes@, s) > 1 ==> exists|i: int|
                0 <= i < self.nodes@.len() && (#[trigger] self.nodes@[i]).has_marker(s)
    }

    /// The structural invariants of a healthy topology.
    pub open spec fn invariants_hold(self) -> bool {
        self.replicas_resolve() && self.covered() && self.no_stray_duplicates()
    }

    /// How many masters claim slot `s` in this view.
    pub fn count_owners(&self, s: u16) -> (r: usize)
        ensures
            r == owner_count(self.nodes@, s),
    {
        proof {
            lemma_owner_count_nonneg(self.nodes@, s);
        }
        let mut r: usize = 0;
        let mut i: usize = 0;
        while i < self.nodes.len()
            invariant
                i <= self.nodes@.len(),
                r == owner_count(self.nodes@.take(i as int), s),
                r <= i,
            decreases self.nodes@.len() - i,
        {
            proof {
                assert(self.nodes@.take(i + 1).drop_last() =~= self.nodes@.take(i as int));
                assert(self.nodes@.take(i + 1).last() == self.nodes@[i as int]);
            }
            if self.nodes[i].is_master() && contains_slot(&self.nodes[i].slots, s) {
                r = r + 1;
            }
            i = i + 1;
        }
        proof {
            assert(self.nodes@.take(self.nodes@.len() as int) =~= self.nodes@);
        }
        r
    }

    /// Index of the master whose id equals `id`, if one exists.
    pub fn find_master(&self, id: &String) -> (r: Option<usize>)
        ensures
            match r {
                Some(j) => j < self.nodes@.len() && self.nodes@[j as int].role is Master
                    && self.nodes@[j as int].id@ == id@,
                None => forall|j: int|
                    0 <= j < self.nodes@.len() ==> !((#[trigger] self.nodes@[j]).role is Master
                        && self.nodes@[j].id@ == id@),
            },
    {
        let mut j: usize = 0;
        while j < self.nodes.len()
            invariant
                j <= self.nodes@.len(),
                forall|k: int|
                    0 <= k < j ==> !((#[trigger] self.nodes@[k]).role is Master
                        && self.nodes@[k].id@ == id@),
            decreases self.nodes@.len() - j,
        {
            if self.nodes[j].is_master() && self.nodes[j].id == *id {
                return Some(j);
            }
            j = j + 1;
        }
        None
    }

    /// Whether some node carries a migration marker for slot `s`.
    pub fn any_marker(&self, s: u16) -> (r: bool)
        ensures
            r == exists|i: int|
                0 <= i < self.nodes@.len() && (#[trigger] self.nodes@[i]).has_marker(s),
    {
        let mut i: usize = 0;
        while i < self.nodes.len()
            invariant
                i <= self.nodes@.len(),
                forall|k: int| 0 <= k < i ==> !(#[trigger] self.nodes@[k]).has_marker(s),
            decreases self.nodes@.len() - i,
        {
            if node_has_marker(&self.nodes[i], s) {
                return true;
            }
            i = i + 1;
        }
        false
    }

    /// The address a node is reached at, as shown to the operator.
    pub open spec fn addr_chars(n: Node) -> Seq<char> {
        n.ip@ + seq![':'] + n.port@
    }

    /// Resolves an operator-supplied node id or `ip:port` address to the
    /// node's index; an unknown key is `NotFound`, exactly when no node
    /// matches either way.
    pub fn find_node(&self, key: &String) -> (r: Result<usize, Error>)
        ensures
            match r {
                Ok(i) => i < self.nodes@.len() && (self.nodes@[i as int].id@ == key@
                    || Cluster::addr_chars(self.nodes@[i as int]) == key@),
                Err(e) => e == Error::NotFound && forall|j: int|
                    0 <= j < self.nodes@.len() ==> !((#[trigger] self.nodes@[j]).id@ == key@
                        || Cluster::addr_chars(self.nodes@[j]) == key@),
            },
    {
        proof {
            reveal_strlit(":");
        }
        let mut i: usize = 0;
        while i < self.nodes.len()
            invariant
                i <= self.nodes@.len(),
                forall|k: int|
                    0 <= k < i ==> !((#[trigger] self.nodes@[k]).id@ == key@
                        || Cluster::addr_chars(self.nodes@[k]) == key@),
            decreases self.nodes@.len() - i,
        {
            if self.nodes[i].id == *key {
                return Ok(i);
            }
            let addr = self.nodes[i].ip.clone().concat(":").concat(self.nodes[i].port.as_str());
            proof {
                reveal_strlit(":");
                assert(":"@ =~= seq![':']);
                assert(addr@ == Cluster::addr_chars(self.nodes@[i as int]));
            }
            if addr == *key {
                return Ok(i);
            }
            i = i + 1;
        }
        Err(Error::NotFound)
    }

    /// Validates the structural invariants: every replica's master reference
    /// resolves, every slot is covered, and no slot has two owners without a
    /// migration marker. The check succeeds exactly when all invariants
    /// hold, and on failure the reported violation really holds of the view.
    pub fn check(&self) -> (r: Result<(), Error>)
        ensures
            r is Ok <==> self.invariants_hold(),
            match r {
                Ok(()) => true,
                Err(e) => match e {
                    Error::BadCluster(v) => match v {
                        Violation::MissingSlot(s) => s < SLOT_COUNT && owner_count(
                            self.nodes@,
                            s,
                        ) == 0,
                        Violation::DuplicateOwner(s) => s < SLOT_COUNT && owner_count(
                            self.nodes@,
                            s,
                        ) > 1 && !(exists|i: int|
                            0 <= i < self.nodes@.len() && (#[trigger] self.nodes@[i]).has_marker(
                                s,
                            )),
                        Violation::DanglingReplica(i) => i < self.nodes@.len()
                            && self.nodes@[i as int].role is Replica && !self.replica_resolves(
                            i as int,
                        ),
                    },
                    _ => false,
                },
            },
    {
        let mut i: usize = 0;
        while i < self.nodes.len()
            invariant
                i <= self.nodes@.len(),
                forall|k: int|
                    0 <= k < i && (#[trigger] self.nodes@[k]).role is Replica
                        ==> self.replica_resolves(k),
            decreases self.nodes@.len() - i,
        {
            if !self.nodes[i].is_master() {
                match &self.nodes[i].master_id {
                    Some(mid) => {
                        if self.find_master(mid).is_none() {
                            return Err(Error::BadCluster(Violation::DanglingReplica(i)));
                        }
                    },
                    None => {
                        return Err(Error::BadCluster(Violation::DanglingReplica(i)));
                    },
                }
            }
            i = i + 1;
        }
        let mut s: u16 = 0;
        while s < SLOT_COUNT
            invariant
                s <= SLOT_COUNT,
                self.replicas_resolve(),
                forall|t: u16| t < s ==> owner_count(self.nodes@, t) >= 1,
                forall|t: u16|
                    t < s && owner_count(self.nodes@, t) > 1 ==> exists|i: int|
                        0 <= i < self.nodes@.len() && (#[trigger] self.nodes@[i]).has_marker(t),
            decreases SLOT_COUNT - s,
        {
            let c = self.count_owners(s);
            if c == 0 {
                return Err(Error::BadCluster(Violation::MissingSlot(s)));
            }
            if c > 1 && !self.any_marker(s) {
                return Err(Error::BadCluster(Violation::DuplicateOwner(s)));
            }
            s = s + 1;
        }
        Ok(())
    }

    /// The masters of this view, as indices into the node table, in
    /// strictly increasing order.
    pub fn master_indexes(&self) -> (r: Vec<usize>)
        ensures
            forall|k: int|
                0 <= k < r@.len() ==> #[trigger] r@[k] < self.nodes@.len() && self.nodes@[r@[k]
                    as int].role is Master,
            forall|j: int|
                0 <= j < self.nodes@.len() && (#[trigger] self.nodes@[j]).role is Master
                    ==> exists|k: int| 0 <= k < r@.len() && r@[k] == j,
            forall|k1: int, k2: int|
                0 <= k1 < k2 < r@.len() ==> #[trigger] r@[k1] < #[trigger] r@[k2],
    {
        let mut r: Vec<usize> = Vec::new();
        let mut i: usize = 0;
        while i < self.nodes.len()
            invariant
                i <= self.nodes@.len(),
                forall|k: int|
                    0 <= k < r@.len() ==> #[trigger] r@[k] < i && self.nodes@[r@[k] as int].role
                        is Master,
                forall|j: int|
                    0 <= j < i && (#[trigger] self.nodes@[j]).role is Master ==> exists|k: int|
                        0 <= k < r@.len() && r@[k] == j,
                forall|k1: int, k2: int|
                    0 <= k1 < k2 < r@.len() ==> #[trigger] r@[k1] < #[trigger] r@[k2],
            decreases self.nodes@.len() - i,
        {
            if self.nodes[i].is_master() {
                let ghost old_r = r@;
                r.push(i);
                proof {
                    assert forall|j: int|
                        0 <= j < i + 1 && (#[trigger] self.nodes@[j]).role is Master
                            implies exists|k: int| 0 <= k < r@.len() && r@[k] == j by {
                        if j == i {
                            assert(r@[r@.len() - 1] == i as usize);
                        } else {
                            let k = choose|k: int| 0 <= k < old_r.len() && old_r[k] == j;
                            assert(r@[k] == j);
                        }
                    }
                }
            }
            i = i + 1;
        }
        r
    }
}

/// Whether the slot list contains `s`.
pub fn contains_slot(slots: &Vec<u16>, s: u16) -> (r: bool)
    ensures
        r == slots@.contains(s),
{
    let mut i: usize = 0;
    while i < slots.len()
        invariant
            i <= slots@.len(),
            forall|k: int| 0 <= k < i ==> slots@[k] != s,
        decreases slots@.len() - i,
    {
        if slots[i] == s {
            return true;
        }
        i = i + 1;
    }
    false
}

/// Whether `n` carries a migration marker (either direction) for slot `s`.
pub fn node_has_marker(n: &Node, s: u16) -> (r: bool)
    ensures
        r == n.has_marker(s),
{
    let mut i: usize = 0;
    while i < n.migrating.len()
        invariant
            i <= n.migrating@.len(),
            forall|k: int| 0 <= k < i ==> (#[trigger] n.migrating@[k]).0 != s,
        decreases n.migrating@.len() - i,
    {
        if n.migrating[i].0 == s {
            return true;
        }
        i = i + 1;
    }
    let mut j: usize = 0;
    while j < n.importing.len()
        invariant
            j <= n.importing@.len(),
            forall|k: int| 0 <= k < i ==> (#[trigger] n.migrating@[k]).0 != s,
            forall|k: int| 0 <= k < n.migrating@.len() ==> (#[trigger] n.migrating@[k]).0 != s,
            forall|k: int| 0 <= k < j ==> (#[trigger] n.importing@[k]).0 != s,
        decreases n.importing@.len() - j,
    {
        if n.importing[j].0 == s {
            return true;
        }
        j = j + 1;
    }
    false
}

} // verus!
