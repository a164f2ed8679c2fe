use vstd::prelude::*;
use ballista_core::consistent_hash::node::Node;
use ballista_core::consistent_hash::ConsistentHash;

verus! {

/// An executor as the hash ring sees it.
#[derive(Debug)]
pub struct TopologyNode {
    pub id: String,
    pub name: String,
    pub last_seen_ts: u64,
    pub available_slots: u32,
}

/// The character of a decimal digit.
pub open spec fn digit(d: nat) -> char {
    if d == 0 {
        '0'
    } else if d == 1 {
        '1'
    } else if d == 2 {
        '2'
    } else if d == 3 {
        '3'
    } else if d == 4 {
        '4'
    } else if d == 5 {
        '5'
    } else if d == 6 {
        '6'
    } else if d == 7 {
        '7'
    } else if d == 8 {
        '8'
    } else {
        '9'
    }
}

/// A number written in decimal, without leading zeros.
pub open spec fn decimal(n: nat) -> Seq<char>
    decreases n,
{
    if n < 10 {
        seq![digit(n)]
    } else {
        decimal(n / 10).push(digit(n % 10))
    }
}

/// The name under which an executor at `host` and `port` stands on the ring.
pub open spec fn network_name(host: Seq<char>, port: u16) -> Seq<char> {
    host + seq![':'] + decimal(port as nat)
}

/// Calls `format!` of std to write `host`, a colon and `port`; the contract
/// claims that std writes a `u16` in decimal without leading zeros.
#[verifier::external_body]
fn format_network_name(host: &str, port: u16) -> (name: String)
    ensures
        name@ == network_name(host@, port),
{
    format!("{host}:{port}")
}

impl TopologyNode {
    /// The node of the executor `id` that listens at `host` and `port`.
    pub fn new(host: &str, port: u16, id: &str, last_seen_ts: u64, available_slots: u32) -> (node:
        TopologyNode)
        ensures
            node.id@ == id@,
            node.name@ == network_name(host@, port),
            node.last_seen_ts == last_seen_ts,
            node.available_slots == available_slots,
    {
        TopologyNode {
            id: id.to_owned(),
            name: format_network_name(host, port),
            last_seen_ts,
            available_slots,
        }
    }

    /// A node can take a task while it has a free slot.
    pub open spec fn valid(&self) -> bool {
        self.available_slots > 0
    }

    /// The node with one slot less.
    pub open spec fn taken(self) -> TopologyNode {
        TopologyNode { available_slots: (self.available_slots - 1) as u32, ..self }
    }

    /// A copy of the node that is equal to it.
    pub fn duplicate(&self) -> (copy: TopologyNode)
        ensures
            copy == *self,
    {
        TopologyNode {
            id: self.id.clone(),
            name: self.name.clone(),
            last_seen_ts: self.last_seen_ts,
            available_slots: self.available_slots,
        }
    }
}

impl Node for TopologyNode {
    fn name(&self) -> (name: &str)
        ensures
            name@ == self.name@,
    {
        self.name.as_str()
    }

    fn is_valid(&self) -> (valid: bool)
        ensures
            valid == self.valid(),
    {
        self.available_slots > 0
    }
}

/// The consistent-hash ring of `ballista_core` over topology nodes
/// (`ConsistentHash<TopologyNode>`). Nothing is proved of its inside: what the
/// ring holds is spoken of through `ring_nodes` and `ring_made`, and what its
/// methods do is claimed, not proved, by the functions below that call them.
#[verifier::external_body]
pub struct RingHandle {
    inner: ConsistentHash<TopologyNode>,
}

/// The nodes that a ring holds, each under the name it was added with.
pub uninterp spec fn ring_nodes(ring: RingHandle) -> Map<Seq<char>, TopologyNode>;

/// What a ring was made with: the names of the nodes in the order in which
/// they were added, and the number of points for each node.
pub uninterp spec fn ring_made(ring: RingHandle) -> (Seq<Seq<char>>, nat);

/// The node names at the points of a ring that was made by adding `names` in
/// order with `num_replicas` points each: one full turn clockwise, starting
/// at the hashed position of `key`.
pub uninterp spec fn ring_points(names: Seq<Seq<char>>, num_replicas: nat, key: Seq<u8>) -> Seq<
    Seq<char>,
>;

/// The names of a list of nodes.
pub open spec fn names_of(nodes: Seq<TopologyNode>) -> Seq<Seq<char>> {
    nodes.map_values(|node: TopologyNode| node.name@)
}

/// The first `upto` nodes of a list by name; of two nodes with one name the
/// later one stays.
pub open spec fn nodes_by_name(nodes: Seq<TopologyNode>, upto: int) -> Map<Seq<char>, TopologyNode>
    decreases upto,
{
    if upto <= 0 {
        Map::empty()
    } else {
        nodes_by_name(nodes, upto - 1).insert(nodes[upto - 1].name@, nodes[upto - 1])
    }
}

/// The name of the first valid node among the points `from..limit` of a
/// turn.
pub open spec fn first_valid(
    nodes: Map<Seq<char>, TopologyNode>,
    turn: Seq<Seq<char>>,
    limit: int,
    from: int,
) -> Option<Seq<char>>
    decreases limit - from,
{
    if from < 0 || from >= limit || from >= turn.len() {
        None
    } else if nodes.contains_key(turn[from]) && nodes[turn[from]].valid() {
        Some(turn[from])
    } else {
        first_valid(nodes, turn, limit, from + 1)
    }
}

/// The node that a lookup with a tolerance hits on a turn: the first valid
/// one among the first `tolerance + 1` points.
pub open spec fn ring_hit(nodes: Map<Seq<char>, TopologyNode>, turn: Seq<Seq<char>>, tolerance: nat) -> Option<
    Seq<char>,
> {
    first_valid(nodes, turn, tolerance as int + 1, 0)
}

/// Calls `ConsistentHash::new` with the same number of points for every
/// node. The contract claims that the ring holds each node under its name,
/// the later of two nodes with one name, and records what it was made with.
#[verifier::external_body]
fn ring_new(nodes: Vec<TopologyNode>, num_replicas: usize) -> (ring: RingHandle)
    ensures
        ring_nodes(ring) == nodes_by_name(nodes@, nodes@.len() as int),
        ring_made(ring) == (names_of(nodes@), num_replicas as nat),
{
    RingHandle {
        inner: ConsistentHash::new(nodes.into_iter().map(|node| (node, num_replicas)).collect()),
    }
}

/// Calls `ConsistentHash::get_mut_with_tolerance`. The contract claims that
/// the call walks the ring's points clockwise from the hashed position of
/// `key`, looks at no more than `tolerance + 1` of them, and hands out the
/// first node met that is valid; that whatever the caller then writes into
/// that node is what the ring holds under its name; and that nothing else of
/// the ring changes. A ring without points that holds nodes is left out.
#[verifier::external_body]
fn ring_get_mut<'a>(ring: &'a mut RingHandle, key: &[u8], tolerance: usize) -> (found: Option<
    &'a mut TopologyNode,
>)
    requires
        ring_made(*old(ring)).1 > 0,
    ensures
        ring_made(*final(ring)) == ring_made(*old(ring)),
        match found {
            Some(node) => {
                let hit = ring_hit(
                    ring_nodes(*old(ring)),
                    ring_points(ring_made(*old(ring)).0, ring_made(*old(ring)).1, key@),
                    tolerance as nat,
                );
                &&& hit is Some
                &&& ring_nodes(*old(ring)).contains_key(hit->0)
                &&& *node == ring_nodes(*old(ring))[hit->0]
                &&& ring_nodes(*final(ring)) == ring_nodes(*old(ring)).insert(hit->0, *final(node))
            },
            None => {
                &&& ring_hit(
                    ring_nodes(*old(ring)),
                    ring_points(ring_made(*old(ring)).0, ring_made(*old(ring)).1, key@),
                    tolerance as nat,
                ) is None
                &&& ring_nodes(*final(ring)) == ring_nodes(*old(ring))
            },
        },
{
    ring.inner.get_mut_with_tolerance(key, tolerance)
}

/// Every node of the ring stands under its own name.
pub open spec fn named(nodes: Map<Seq<char>, TopologyNode>) -> bool {
    forall|name: Seq<char>| nodes.contains_key(name) ==> (#[trigger] nodes[name]).name@ == name
}

/// Calls `ConsistentHash::nodes` and copies each node. The contract claims
/// that the list holds the ring's nodes, each once, in no stated order.
#[verifier::external_body]
fn ring_node_list(ring: &RingHandle) -> (nodes: Vec<TopologyNode>)
    requires
        named(ring_nodes(*ring)),
    ensures
        forall|i: int|
            0 <= i < nodes@.len() ==> ring_nodes(*ring).contains_key((#[trigger] nodes@[i]).name@)
                && ring_nodes(*ring)[nodes@[i].name@] == nodes@[i],
        forall|i: int, j: int|
            0 <= i < j < nodes@.len() ==> (#[trigger] nodes@[i]).name@ != (#[trigger] nodes@[j]).name@,
        forall|name: Seq<char>|
            ring_nodes(*ring).contains_key(name) ==> exists|i: int|
                0 <= i < nodes@.len() && (#[trigger] nodes@[i]).name@ == name,
{
    ring.inner.nodes().into_iter().map(|node| node.duplicate()).collect()
}

/// In the map of a list of nodes every node stands under its own name.
pub proof fn lemma_nodes_by_name(nodes: Seq<TopologyNode>, upto: int)
    requires
        0 <= upto <= nodes.len(),
    ensures
        named(nodes_by_name(nodes, upto)),
        forall|i: int| 0 <= i < upto ==> nodes_by_name(nodes, upto).contains_key((#[trigger] nodes[i]).name@),
        forall|name: Seq<char>|
            nodes_by_name(nodes, upto).contains_key(name) ==> exists|i: int|
                0 <= i < upto && #[trigger] nodes[i] == nodes_by_name(nodes, upto)[name],
    decreases upto,
{
    if upto > 0 {
        lemma_nodes_by_name(nodes, upto - 1);
    }
}

/// A consistent-hash ring of topology nodes: maps a key to a node, and takes
/// a slot of the node that a key hits.
pub struct HashRing {
    handle: RingHandle,
    num_replicas: usize,
}

impl HashRing {
    /// The nodes of the ring by name.
    pub closed spec fn nodes(&self) -> Map<Seq<char>, TopologyNode> {
        ring_nodes(self.handle)
    }

    /// The names of the nodes that the ring was made of, in order.
    pub closed spec fn names(&self) -> Seq<Seq<char>> {
        ring_made(self.handle).0
    }

    /// The number of points that each node has on the ring.
    pub closed spec fn replicas(&self) -> nat {
        ring_made(self.handle).1
    }

    /// The ring knows how many points each node has, and every node stands
    /// under its own name.
    pub closed spec fn wf(&self) -> bool {
        &&& self.num_replicas == ring_made(self.handle).1
        &&& named(ring_nodes(self.handle))
    }

    /// The ring of `nodes`, each with `num_replicas` points.
    pub fn new(nodes: Vec<TopologyNode>, num_replicas: usize) -> (ring: HashRing)
        ensures
            ring.wf(),
            ring.nodes() == nodes_by_name(nodes@, nodes@.len() as int),
            ring.names() == names_of(nodes@),
            ring.replicas() == num_replicas,
    {
        proof {
            lemma_nodes_by_name(nodes@, nodes@.len() as int);
        }
        HashRing { handle: ring_new(nodes, num_replicas), num_replicas }
    }

    /// The number of points that each node has on the ring.
    pub fn num_replicas(&self) -> (n: usize)
        requires
            self.wf(),
        ensures
            n == self.replicas(),
    {
        self.num_replicas
    }

    /// The nodes of the ring, in no stated order.
    pub fn node_list(&self) -> (nodes: Vec<TopologyNode>)
        requires
            self.wf(),
        ensures
            forall|i: int|
                0 <= i < nodes@.len() ==> self.nodes().contains_key((#[trigger] nodes@[i]).name@)
                    && self.nodes()[nodes@[i].name@] == nodes@[i],
            forall|i: int, j: int|
                0 <= i < j < nodes@.len() ==> (#[trigger] nodes@[i]).name@ != (#[trigger] nodes@[j]).name@,
            forall|name: Seq<char>|
                self.nodes().contains_key(name) ==> exists|i: int|
                    0 <= i < nodes@.len() && (#[trigger] nodes@[i]).name@ == name,
    {
        ring_node_list(&self.handle)
    }

    /// Takes one slot of the node that `key` hits within `tolerance`, and
    /// returns that node's executor id; `None`, and no change, where the key
    /// hits no valid node. A ring without points hits nothing.
    pub fn take_slot(&mut self, key: &[u8], tolerance: usize) -> (taken: Option<String>)
        requires
            old(self).wf(),
        ensures
            final(self).wf(),
            final(self).names() == old(self).names(),
            final(self).replicas() == old(self).replicas(),
            shrunk(old(self).nodes(), final(self).nodes()),
            match ring_lookup(
                old(self).nodes(),
                old(self).names(),
                old(self).replicas(),
                key@,
                tolerance as nat,
            ) {
                Some(name) => {
                    &&& old(self).nodes().contains_key(name)
                    &&& old(self).nodes()[name].valid()
                    &&& taken == Some(old(self).nodes()[name].id)
                    &&& final(self).nodes() == old(self).nodes().insert(
                        name,
                        old(self).nodes()[name].taken(),
                    )
                },
                None => taken is None && final(self).nodes() == old(self).nodes(),
            },
    {
        if self.num_replicas == 0 {
            return None;
        }
        proof {
            lemma_first_valid(
                self.nodes(),
                ring_points(self.names(), self.replicas(), key@),
                tolerance + 1,
                0,
            );
        }
        match ring_get_mut(&mut self.handle, key, tolerance) {
            Some(node) => {
                let id = node.id.clone();
                node.available_slots = node.available_slots - 1;
                Some(id)
            },
            None => None,
        }
    }
}

/// The nodes of a ring before and after slots were taken: the same nodes, and
/// no node has more free slots than before.
pub open spec fn shrunk(before: Map<Seq<char>, TopologyNode>, after: Map<Seq<char>, TopologyNode>) -> bool {
    &&& forall|name: Seq<char>| before.contains_key(name) <==> after.contains_key(name)
    &&& forall|name: Seq<char>| #[trigger]
        before.contains_key(name) ==> {
            &&& after[name].id == before[name].id
            &&& after[name].name == before[name].name
            &&& after[name].last_seen_ts == before[name].last_seen_ts
            &&& after[name].available_slots <= before[name].available_slots
        }
}

/// The name of the node that a key hits on a ring made of `names` with
/// `replicas` points each and holding `nodes`, within a tolerance.
pub open spec fn ring_lookup(
    nodes: Map<Seq<char>, TopologyNode>,
    names: Seq<Seq<char>>,
    replicas: nat,
    key: Seq<u8>,
    tolerance: nat,
) -> Option<Seq<char>> {
    if replicas == 0 {
        None
    } else {
        ring_hit(nodes, ring_points(names, replicas, key), tolerance)
    }
}

/// What `first_valid` finds is a valid node of the ring.
pub proof fn lemma_first_valid(
    nodes: Map<Seq<char>, TopologyNode>,
    turn: Seq<Seq<char>>,
    limit: int,
    from: int,
)
    ensures
        first_valid(nodes, turn, limit, from) is Some ==> nodes.contains_key(
            first_valid(nodes, turn, limit, from)->0,
        ) && nodes[first_valid(nodes, turn, limit, from)->0].valid(),
    decreases limit - from,
{
    if !(from < 0 || from >= limit || from >= turn.len()) && !(nodes.contains_key(turn[from])
        && nodes[turn[from]].valid()) {
        lemma_first_valid(nodes, turn, limit, from + 1);
    }
}

} // verus!
