//! The netlist graph: cells, module ports, and the edges between cell ports
//! that share a net.

use crate::seq_util::{first_index, is_first, lemma_first_index_is, lemma_first_index_none};
use crate::text::str_eq;
use crate::yosys_parser::{
    connection, port_c, port_views, spec_connection, spec_split, Module, NamedPort, NamedPortView, Net,
    Node, NodeIdx, Port, PortDirection, YosysCell, YosysDoc,
};
use vstd::prelude::*;
use vstd::std_specs::cmp::PartialEqSpecImpl;

verus! {

/// An edge of the graph: two cell ports that share one net.
///
/// An edge has no direction: two edges are equal when they join the same two
/// cell ports by the same net, whichever end is written first.
#[derive(Debug, Clone)]
pub struct NetAdjPair {
    pub net: Net,
    pub idx1: NodeIdx,
    pub port1: String,
    pub port2: String,
    pub idx2: NodeIdx,
}

impl NetAdjPair {
    /// The edge joins port `p` of node `i` and port `q` of node `j` by `net`,
    /// in either order.
    pub open spec fn joins(self, net: Net, i: int, p: Seq<char>, j: int, q: Seq<char>) -> bool {
        &&& self.net == net
        &&& {
            ||| (self.idx1.0 == i && self.port1@ == p && self.idx2.0 == j && self.port2@ == q)
            ||| (self.idx1.0 == j && self.port1@ == q && self.idx2.0 == i && self.port2@ == p)
        }
    }

    /// Both edges join the same two cell ports by the same net.
    pub open spec fn same_edge(self, other: NetAdjPair) -> bool {
        other.joins(self.net, self.idx1.0 as int, self.port1@, self.idx2.0 as int, self.port2@)
    }

    /// One end of the edge is port `port` of node `idx`.
    pub open spec fn spec_uses_nodeport(self, idx: NodeIdx, port: Seq<char>) -> bool {
        (self.idx1 == idx && self.port1@ == port) || (self.idx2 == idx && self.port2@ == port)
    }

    /// The end of the edge that lies opposite node `idx`: the second end
    /// where the first is at `idx`, else the first where the second is.
    pub open spec fn spec_get_other(self, idx: NodeIdx) -> Option<(NodeIdx, Seq<char>)> {
        if idx == self.idx1 {
            Some((self.idx2, self.port2@))
        } else if idx == self.idx2 {
            Some((self.idx1, self.port1@))
        } else {
            None
        }
    }

    /// An edge between port `port1` of node `idx1` and port `port2` of node
    /// `idx2`, which share `net`.
    pub fn new(net: Net, idx1: NodeIdx, port1: &str, idx2: NodeIdx, port2: &str) -> (r: Self)
        ensures
            r.net == net,
            r.idx1 == idx1,
            r.port1@ == port1@,
            r.idx2 == idx2,
            r.port2@ == port2@,
    {
        NetAdjPair { net, idx1, port1: port1.to_owned(), port2: port2.to_owned(), idx2 }
    }

    /// Whether the edge carries `net`.
    pub fn uses_net(&self, net: &Net) -> (r: bool)
        ensures
            r == (*net == self.net),
    {
        *net == self.net
    }

    /// Whether one end of the edge is port `port` of node `idx`.
    pub fn uses_nodeport(&self, idx: &NodeIdx, port: &str) -> (r: bool)
        ensures
            r == self.spec_uses_nodeport(*idx, port@),
    {
        (self.idx1 == *idx && str_eq(self.port1.as_str(), port)) || (self.idx2 == *idx && str_eq(
            self.port2.as_str(),
            port,
        ))
    }

    /// The node and port at the end opposite `my_idx`, or `None` where the
    /// edge does not touch that node.
    pub fn get_other(&self, my_idx: &NodeIdx) -> (r: Option<(NodeIdx, &str)>)
        ensures
            match r {
                Some((idx, port)) => self.spec_get_other(*my_idx) == Some((idx, port@)),
                None => self.spec_get_other(*my_idx) is None,
            },
    {
        if *my_idx == self.idx1 {
            Some((self.idx2, self.port2.as_str()))
        } else if *my_idx == self.idx2 {
            Some((self.idx1, self.port1.as_str()))
        } else {
            None
        }
    }
}

impl PartialEq for NetAdjPair {
    fn eq(&self, other: &Self) -> (r: bool) {
        if self.net != other.net {
            return false;
        }
        if self.port1 == other.port1 && self.port2 == other.port2 && self.idx1 == other.idx1
            && self.idx2 == other.idx2 {
            return true;
        }
        if self.port1 == other.port2 && self.port2 == other.port1 && self.idx1 == other.idx2
            && self.idx2 == other.idx1 {
            return true;
        }
        false
    }
}

impl Eq for NetAdjPair {

}

impl PartialEqSpecImpl for NetAdjPair {
    open spec fn obeys_eq_spec() -> bool {
        true
    }

    open spec fn eq_spec(&self, other: &NetAdjPair) -> bool {
        self.same_edge(*other)
    }
}

/// An edge equals the edge that joins the same two cell ports by the same
/// net with its ends written in the other order.
pub proof fn lemma_swapped_edge_is_same(e: NetAdjPair, swapped: NetAdjPair)
    requires
        swapped.net == e.net,
        swapped.idx1 == e.idx2,
        swapped.port1@ == e.port2@,
        swapped.idx2 == e.idx1,
        swapped.port2@ == e.port1@,
    ensures
        e.same_edge(swapped),
        swapped.same_edge(e),
{
}

/// The netlist as a graph.
///
/// `adjlist` is derived from `nodelist`: see [`Graph::adjacency_valid`].
#[derive(Debug)]
pub struct Graph {
    pub nodelist: Vec<Node>,
    pub adjlist: Vec<NetAdjPair>,
    pub ports: Vec<NamedPort>,
}

impl Default for Graph {
    fn default() -> (r: Self)
        ensures
            r.nodelist@.len() == 0,
            r.adjlist@.len() == 0,
            r.ports@.len() == 0,
    {
        Graph { nodelist: Vec::new(), adjlist: Vec::new(), ports: Vec::new() }
    }
}

/// Port `p` of node `i` and port `q` of node `j` are on two different nodes
/// of `nodes` and both carry the numbered net `net`.
pub open spec fn shares(nodes: Seq<Node>, net: Net, i: int, p: Seq<char>, j: int, q: Seq<char>) -> bool {
    &&& net is N
    &&& 0 <= i < nodes.len()
    &&& 0 <= j < nodes.len()
    &&& i != j
    &&& nodes[i].port_has_net(p, net)
    &&& nodes[j].port_has_net(q, net)
}

/// Some edge of `adj` joins port `p` of node `i` and port `q` of node `j` by
/// `net`.
pub open spec fn covered(adj: Seq<NetAdjPair>, net: Net, i: int, p: Seq<char>, j: int, q: Seq<char>) -> bool {
    exists|k: int| 0 <= k < adj.len() && (#[trigger] adj[k]).joins(net, i, p, j, q)
}

/// Every edge of `adj` from position `from` on joins two ports of different
/// nodes of `nodes` that share the edge's net.
pub open spec fn sound_from(nodes: Seq<Node>, adj: Seq<NetAdjPair>, from: int) -> bool {
    forall|k: int|
        from <= k < adj.len() ==> shares(
            nodes,
            (#[trigger] adj[k]).net,
            adj[k].idx1.0 as int,
            adj[k].port1@,
            adj[k].idx2.0 as int,
            adj[k].port2@,
        )
}

/// No two edges of `adj` are equal.
pub open spec fn duplicate_free(adj: Seq<NetAdjPair>) -> bool {
    forall|a: int, b: int| 0 <= a < b < adj.len() ==> !(#[trigger] adj[a]).same_edge(#[trigger] adj[b])
}

/// The ports in `ports` that are tied to `net`: the position of the first,
/// if `net` is numbered and some port carries it.
pub open spec fn spec_find_port(ports: Seq<NamedPort>, net: Net) -> Option<int> {
    if net is N {
        first_index(ports, |p: NamedPort| p.net == net)
    } else {
        None
    }
}

impl Graph {
    /// Every edge joins two ports of different nodes that share the edge's
    /// numbered net.
    pub open spec fn adjacency_sound(self) -> bool {
        sound_from(self.nodelist@, self.adjlist@, 0)
    }

    /// Every two ports of different nodes that share a numbered net are
    /// joined by an edge.
    pub open spec fn adjacency_complete(self) -> bool {
        forall|net: Net, i: int, p: Seq<char>, j: int, q: Seq<char>| #[trigger]
            shares(self.nodelist@, net, i, p, j, q) ==> covered(self.adjlist@, net, i, p, j, q)
    }

    /// No edge occurs twice.
    pub open spec fn adjacency_duplicate_free(self) -> bool {
        duplicate_free(self.adjlist@)
    }

    /// The adjacency is exactly the net sharing of the nodes: sound,
    /// complete, and without duplicates.
    pub open spec fn adjacency_valid(self) -> bool {
        &&& self.adjacency_sound()
        &&& self.adjacency_complete()
        &&& self.adjacency_duplicate_free()
    }

    /// The node at `idx`, if the graph has that many nodes.
    pub fn get_node(&self, idx: &NodeIdx) -> (r: Option<&Node>)
        ensures
            r == if idx.0 < self.nodelist@.len() {
                Some(&self.nodelist@[idx.0 as int])
            } else {
                None
            },
    {
        if idx.0 < self.nodelist.len() {
            Some(&self.nodelist[idx.0])
        } else {
            None
        }
    }

    /// The first module port that is tied to `net`. Only a numbered net can
    /// be tied to a port.
    pub fn find_port(&self, net: &Net) -> (r: Option<&NamedPort>)
        ensures
            match r {
                Some(port) => spec_find_port(self.ports@, *net) matches Some(i) && *port
                    == self.ports@[i],
                None => spec_find_port(self.ports@, *net) is None,
            },
    {
        match net {
            Net::N(_) => {
                let ghost p = |p: NamedPort| p.net == *net;
                let mut i: usize = 0;
                while i < self.ports.len()
                    invariant
                        *net is N,
                        i <= self.ports.len(),
                        forall|j: int| 0 <= j < i ==> !p(#[trigger] self.ports@[j]),
                        p == (|p: NamedPort| p.net == *net),
                    decreases self.ports.len() - i,
                {
                    if self.ports[i].net == *net {
                        proof {
                            assert(is_first(self.ports@, p, i as int));
                            lemma_first_index_is(self.ports@, p, i as int);
                        }
                        return Some(&self.ports[i]);
                    }
                    i += 1;
                }
                proof {
                    lemma_first_index_none(self.ports@, p);
                }
                None
            },
            _ => None,
        }
    }
}

/// `after` holds the edges of `before`, in the same places, and perhaps more
/// after them.
pub open spec fn extends(before: Seq<NetAdjPair>, after: Seq<NetAdjPair>) -> bool {
    &&& before.len() <= after.len()
    &&& forall|k: int| 0 <= k < before.len() ==> #[trigger] after[k] == before[k]
}

/// Port `p` of node `i` is joined by `net` to every port of node `j` that
/// carries `net`.
pub open spec fn linked_to_node(
    adj: Seq<NetAdjPair>,
    nodes: Seq<Node>,
    net: Net,
    i: int,
    p: Seq<char>,
    j: int,
) -> bool {
    forall|q: Seq<char>| #[trigger]
        nodes[j].port_has_net(q, net) ==> covered(adj, net, i, p, j, q)
}

/// Port `p` of node `i` is joined by `net` to every port that carries `net`
/// on a node after `i` and before `upto`.
pub open spec fn linked_upto(
    adj: Seq<NetAdjPair>,
    nodes: Seq<Node>,
    net: Net,
    i: int,
    p: Seq<char>,
    upto: int,
) -> bool {
    forall|j: int| i < j < upto ==> #[trigger] linked_to_node(adj, nodes, net, i, p, j)
}

/// Connection `a` of node `i` is joined, by each numbered net among its
/// first `b`, to every port that carries that net on a later node.
pub open spec fn connection_linked(
    adj: Seq<NetAdjPair>,
    nodes: Seq<Node>,
    i: int,
    a: int,
    b: int,
) -> bool {
    forall|k: int|
        0 <= k < b && (#[trigger] nodes[i].spec_connections()[a].1@[k]) is N ==> linked_upto(
            adj,
            nodes,
            nodes[i].spec_connections()[a].1@[k],
            i,
            nodes[i].spec_connections()[a].0@,
            nodes.len() as int,
        )
}

/// Each of the first `a` connections of node `i` is joined, by each of its
/// numbered nets, to every port that carries that net on a later node.
pub open spec fn node_linked(adj: Seq<NetAdjPair>, nodes: Seq<Node>, i: int, a: int) -> bool {
    forall|c: int|
        0 <= c < a ==> #[trigger] connection_linked(
            adj,
            nodes,
            i,
            c,
            nodes[i].spec_connections()[c].1@.len() as int,
        )
}

/// What is covered stays covered when edges are added.
pub proof fn lemma_covered_extends(
    before: Seq<NetAdjPair>,
    after: Seq<NetAdjPair>,
    net: Net,
    i: int,
    p: Seq<char>,
    j: int,
    q: Seq<char>,
)
    requires
        extends(before, after),
        covered(before, net, i, p, j, q),
    ensures
        covered(after, net, i, p, j, q),
{
    let k = choose|k: int| 0 <= k < before.len() && (#[trigger] before[k]).joins(net, i, p, j, q);
    assert(after[k].joins(net, i, p, j, q));
}

/// A link to a node stays when edges are added.
pub proof fn lemma_linked_to_node_extends(
    before: Seq<NetAdjPair>,
    after: Seq<NetAdjPair>,
    nodes: Seq<Node>,
    net: Net,
    i: int,
    p: Seq<char>,
    j: int,
)
    requires
        extends(before, after),
        linked_to_node(before, nodes, net, i, p, j),
    ensures
        linked_to_node(after, nodes, net, i, p, j),
{
    assert forall|q: Seq<char>| #[trigger] nodes[j].port_has_net(q, net) implies covered(
        after,
        net,
        i,
        p,
        j,
        q,
    ) by {
        lemma_covered_extends(before, after, net, i, p, j, q);
    }
}

/// The links of a port stay when edges are added.
pub proof fn lemma_linked_upto_extends(
    before: Seq<NetAdjPair>,
    after: Seq<NetAdjPair>,
    nodes: Seq<Node>,
    net: Net,
    i: int,
    p: Seq<char>,
    upto: int,
)
    requires
        extends(before, after),
        linked_upto(before, nodes, net, i, p, upto),
    ensures
        linked_upto(after, nodes, net, i, p, upto),
{
    assert forall|j: int| i < j < upto implies #[trigger] linked_to_node(
        after,
        nodes,
        net,
        i,
        p,
        j,
    ) by {
        lemma_linked_to_node_extends(before, after, nodes, net, i, p, j);
    }
}

/// The links of a connection stay when edges are added.
pub proof fn lemma_connection_linked_extends(
    before: Seq<NetAdjPair>,
    after: Seq<NetAdjPair>,
    nodes: Seq<Node>,
    i: int,
    a: int,
    b: int,
)
    requires
        extends(before, after),
        connection_linked(before, nodes, i, a, b),
    ensures
        connection_linked(after, nodes, i, a, b),
{
    let nets = nodes[i].spec_connections()[a].1@;
    assert forall|k: int| 0 <= k < b && (#[trigger] nets[k]) is N implies linked_upto(
        after,
        nodes,
        nets[k],
        i,
        nodes[i].spec_connections()[a].0@,
        nodes.len() as int,
    ) by {
        lemma_linked_upto_extends(
            before,
            after,
            nodes,
            nets[k],
            i,
            nodes[i].spec_connections()[a].0@,
            nodes.len() as int,
        );
    }
}

/// The links of a node stay when edges are added.
pub proof fn lemma_node_linked_extends(
    before: Seq<NetAdjPair>,
    after: Seq<NetAdjPair>,
    nodes: Seq<Node>,
    i: int,
    a: int,
)
    requires
        extends(before, after),
        node_linked(before, nodes, i, a),
    ensures
        node_linked(after, nodes, i, a),
{
    assert forall|c: int| 0 <= c < a implies #[trigger] connection_linked(
        after,
        nodes,
        i,
        c,
        nodes[i].spec_connections()[c].1@.len() as int,
    ) by {
        lemma_connection_linked_extends(
            before,
            after,
            nodes,
            i,
            c,
            nodes[i].spec_connections()[c].1@.len() as int,
        );
    }
}

/// Whether `adj` holds an edge equal to `e`.
fn adj_contains(adj: &Vec<NetAdjPair>, e: &NetAdjPair) -> (r: bool)
    ensures
        r == exists|k: int| 0 <= k < adj@.len() && (#[trigger] adj@[k]).same_edge(*e),
{
    let mut k: usize = 0;
    while k < adj.len()
        invariant
            k <= adj.len(),
            forall|m: int| 0 <= m < k ==> !(#[trigger] adj@[m]).same_edge(*e),
        decreases adj.len() - k,
    {
        if adj[k] == *e {
            return true;
        }
        k += 1;
    }
    false
}

/// Adds `e` to `adj` unless an equal edge is there already.
fn add_edge(adj: &mut Vec<NetAdjPair>, e: NetAdjPair)
    requires
        duplicate_free(old(adj)@),
    ensures
        extends(old(adj)@, final(adj)@),
        duplicate_free(final(adj)@),
        forall|k: int| old(adj)@.len() <= k < final(adj)@.len() ==> #[trigger] final(adj)@[k] == e,
        covered(final(adj)@, e.net, e.idx1.0 as int, e.port1@, e.idx2.0 as int, e.port2@),
{
    if !adj_contains(adj, &e) {
        adj.push(e);
        assert(adj@[adj@.len() - 1].joins(
            e.net,
            e.idx1.0 as int,
            e.port1@,
            e.idx2.0 as int,
            e.port2@,
        ));
    } else {
        let ghost k = choose|k: int| 0 <= k < adj@.len() && (#[trigger] adj@[k]).same_edge(e);
        assert(adj@[k].joins(e.net, e.idx1.0 as int, e.port1@, e.idx2.0 as int, e.port2@));
    }
}

/// Joins port `p` of node `i` by `net` to every port of node `j` that
/// carries `net`.
fn link_port_to_node(
    adj: &mut Vec<NetAdjPair>,
    nodes: &Vec<Node>,
    net: Net,
    i: usize,
    p: &str,
    j: usize,
)
    requires
        net is N,
        i < nodes@.len(),
        j < nodes@.len(),
        i != j,
        nodes@[i as int].port_has_net(p@, net),
        duplicate_free(old(adj)@),
    ensures
        extends(old(adj)@, final(adj)@),
        duplicate_free(final(adj)@),
        sound_from(nodes@, final(adj)@, old(adj)@.len() as int),
        linked_to_node(final(adj)@, nodes@, net, i as int, p@, j as int),
{
    let conns = nodes[j].get_connections();
    let mut c: usize = 0;
    while c < conns.len()
        invariant
            net is N,
            i < nodes@.len(),
            j < nodes@.len(),
            i != j,
            nodes@[i as int].port_has_net(p@, net),
            conns@ == nodes@[j as int].spec_connections(),
            c <= conns.len(),
            extends(old(adj)@, adj@),
            duplicate_free(adj@),
            sound_from(nodes@, adj@, old(adj)@.len() as int),
            forall|m: int|
                0 <= m < c && (#[trigger] conns@[m]).1@.contains(net) ==> covered(
                    adj@,
                    net,
                    i as int,
                    p@,
                    j as int,
                    conns@[m].0@,
                ),
        decreases conns.len() - c,
    {
        if crate::yosys_parser::nets_contain(&conns[c].1, &net) {
            let ghost before = adj@;
            let e = NetAdjPair::new(net, NodeIdx(i), p, NodeIdx(j), conns[c].0.as_str());
            add_edge(adj, e);
            proof {
                assert forall|m: int|
                    0 <= m < c && (#[trigger] conns@[m]).1@.contains(net) implies covered(
                    adj@,
                    net,
                    i as int,
                    p@,
                    j as int,
                    conns@[m].0@,
                ) by {
                    lemma_covered_extends(before, adj@, net, i as int, p@, j as int, conns@[m].0@);
                }
                assert(nodes@[j as int].port_has_net(conns@[c as int].0@, net));
            }
        }
        c += 1;
    }
}

/// Joins port `p` of node `i` by `net` to every port that carries `net` on
/// a later node.
fn link_port(adj: &mut Vec<NetAdjPair>, nodes: &Vec<Node>, net: Net, i: usize, p: &str)
    requires
        net is N,
        i < nodes@.len(),
        nodes@[i as int].port_has_net(p@, net),
        duplicate_free(old(adj)@),
    ensures
        extends(old(adj)@, final(adj)@),
        duplicate_free(final(adj)@),
        sound_from(nodes@, final(adj)@, old(adj)@.len() as int),
        linked_upto(final(adj)@, nodes@, net, i as int, p@, nodes@.len() as int),
{
    let n = nodes.len();
    let mut j: usize = i + 1;
    while j < n
        invariant
            net is N,
            n == nodes@.len(),
            i < j <= n,
            nodes@[i as int].port_has_net(p@, net),
            extends(old(adj)@, adj@),
            duplicate_free(adj@),
            sound_from(nodes@, adj@, old(adj)@.len() as int),
            linked_upto(adj@, nodes@, net, i as int, p@, j as int),
        decreases n - j,
    {
        let ghost before = adj@;
        link_port_to_node(adj, nodes, net, i, p, j);
        proof {
            lemma_linked_upto_extends(before, adj@, nodes@, net, i as int, p@, j as int);
        }
        j += 1;
    }
}

/// Joins every port of node `i` to every port of a later node with which
/// it shares a numbered net.
fn link_node(adj: &mut Vec<NetAdjPair>, nodes: &Vec<Node>, i: usize)
    requires
        i < nodes@.len(),
        duplicate_free(old(adj)@),
    ensures
        extends(old(adj)@, final(adj)@),
        duplicate_free(final(adj)@),
        sound_from(nodes@, final(adj)@, old(adj)@.len() as int),
        node_linked(
            final(adj)@,
            nodes@,
            i as int,
            nodes@[i as int].spec_connections().len() as int,
        ),
{
    let conns = nodes[i].get_connections();
    let mut a: usize = 0;
    while a < conns.len()
        invariant
            i < nodes@.len(),
            conns@ == nodes@[i as int].spec_connections(),
            a <= conns.len(),
            extends(old(adj)@, adj@),
            duplicate_free(adj@),
            sound_from(nodes@, adj@, old(adj)@.len() as int),
            node_linked(adj@, nodes@, i as int, a as int),
        decreases conns.len() - a,
    {
        let nets = &conns[a].1;
        let mut b: usize = 0;
        while b < nets.len()
            invariant
                i < nodes@.len(),
                conns@ == nodes@[i as int].spec_connections(),
                a < conns.len(),
                nets@ == conns@[a as int].1@,
                b <= nets.len(),
                extends(old(adj)@, adj@),
                duplicate_free(adj@),
                sound_from(nodes@, adj@, old(adj)@.len() as int),
                node_linked(adj@, nodes@, i as int, a as int),
                connection_linked(adj@, nodes@, i as int, a as int, b as int),
            decreases nets.len() - b,
        {
            let net = nets[b];
            if let Net::N(_) = net {
                let ghost before = adj@;
                proof {
                    assert(nets@.contains(net));
                    assert(nodes@[i as int].port_has_net(conns@[a as int].0@, net));
                }
                link_port(adj, nodes, net, i, conns[a].0.as_str());
                proof {
                    lemma_node_linked_extends(before, adj@, nodes@, i as int, a as int);
                    lemma_connection_linked_extends(
                        before,
                        adj@,
                        nodes@,
                        i as int,
                        a as int,
                        b as int,
                    );
                }
            }
            b += 1;
        }
        a += 1;
    }
}

/// Every node before `upto` is joined to the later nodes with which it
/// shares a numbered net.
pub open spec fn all_linked(adj: Seq<NetAdjPair>, nodes: Seq<Node>, upto: int) -> bool {
    forall|m: int|
        0 <= m < upto ==> #[trigger] node_linked(
            adj,
            nodes,
            m,
            nodes[m].spec_connections().len() as int,
        )
}

/// Where every node is joined to the later ones, every two ports that share
/// a net are covered, the earlier node's port standing first.
proof fn lemma_linked_covers_ordered(
    adj: Seq<NetAdjPair>,
    nodes: Seq<Node>,
    net: Net,
    i: int,
    p: Seq<char>,
    j: int,
    q: Seq<char>,
)
    requires
        all_linked(adj, nodes, nodes.len() as int),
        shares(nodes, net, i, p, j, q),
        i < j,
    ensures
        covered(adj, net, i, p, j, q),
{
    let conns = nodes[i].spec_connections();
    let c = choose|c: int|
        0 <= c < conns.len() && (#[trigger] conns[c]).0@ == p && conns[c].1@.contains(net);
    let nets = conns[c].1@;
    let k = choose|k: int| 0 <= k < nets.len() && nets[k] == net;
    assert(node_linked(adj, nodes, i, conns.len() as int));
    assert(connection_linked(adj, nodes, i, c, nets.len() as int));
    assert(nets[k] is N);
    assert(linked_upto(adj, nodes, net, i, p, nodes.len() as int));
    assert(linked_to_node(adj, nodes, net, i, p, j));
    assert(nodes[j].port_has_net(q, net));
}

/// Where every node is joined to the later ones, every two ports of
/// different nodes that share a numbered net are joined by an edge.
proof fn lemma_linked_covers(
    adj: Seq<NetAdjPair>,
    nodes: Seq<Node>,
    net: Net,
    i: int,
    p: Seq<char>,
    j: int,
    q: Seq<char>,
)
    requires
        all_linked(adj, nodes, nodes.len() as int),
        shares(nodes, net, i, p, j, q),
    ensures
        covered(adj, net, i, p, j, q),
{
    if i < j {
        lemma_linked_covers_ordered(adj, nodes, net, i, p, j, q);
    } else {
        lemma_linked_covers_ordered(adj, nodes, net, j, q, i, p);
        let k = choose|k: int| 0 <= k < adj.len() && (#[trigger] adj[k]).joins(net, j, q, i, p);
        assert(adj[k].joins(net, i, p, j, q));
    }
}

/// The positions, in increasing order, of the nodes before `upto` that
/// satisfy `pred`.
pub open spec fn indices_where(nodes: Seq<Node>, pred: spec_fn(Node) -> bool, upto: int) -> Seq<
    NodeIdx,
>
    decreases upto,
{
    if upto <= 0 {
        Seq::empty()
    } else {
        let before = indices_where(nodes, pred, upto - 1);
        if pred(nodes[upto - 1]) {
            before.push(NodeIdx((upto - 1) as usize))
        } else {
            before
        }
    }
}

impl Graph {
    /// The positions of the nodes that touch `net`, in increasing order.
    pub open spec fn spec_nodes_on_net(self, net: Net) -> Seq<NodeIdx> {
        indices_where(self.nodelist@, |n: Node| n.touches(net), self.nodelist@.len() as int)
    }

    /// The positions of the output macrocells, in increasing order.
    pub open spec fn spec_olmc_idx(self) -> Seq<NodeIdx> {
        indices_where(self.nodelist@, |n: Node| n is Olmc, self.nodelist@.len() as int)
    }

    /// The edges that have port `port` of node `idx` at one end, in the
    /// order of the adjacency list.
    pub open spec fn spec_node_port_conns(self, idx: NodeIdx, port: Seq<char>) -> Seq<NetAdjPair> {
        self.adjlist@.filter(|e: NetAdjPair| e.spec_uses_nodeport(idx, port))
    }

    /// Builds the adjacency anew from the nodes: afterwards it holds one
    /// edge for every two ports of different nodes that share a numbered
    /// net, and nothing else. Nodes and ports stay as they are.
    pub fn generate_adjacency(&mut self)
        ensures
            final(self).nodelist == old(self).nodelist,
            final(self).ports == old(self).ports,
            final(self).adjacency_valid(),
    {
        let mut adj: Vec<NetAdjPair> = Vec::new();
        let n = self.nodelist.len();
        let mut i: usize = 0;
        while i < n
            invariant
                n == self.nodelist@.len(),
                i <= n,
                duplicate_free(adj@),
                sound_from(self.nodelist@, adj@, 0),
                all_linked(adj@, self.nodelist@, i as int),
            decreases n - i,
        {
            let ghost before = adj@;
            link_node(&mut adj, &self.nodelist, i);
            proof {
                let nodes = self.nodelist@;
                assert forall|m: int| 0 <= m < i implies #[trigger] node_linked(
                    adj@,
                    nodes,
                    m,
                    nodes[m].spec_connections().len() as int,
                ) by {
                    lemma_node_linked_extends(
                        before,
                        adj@,
                        nodes,
                        m,
                        nodes[m].spec_connections().len() as int,
                    );
                }
            }
            i += 1;
        }
        proof {
            let nodes = self.nodelist@;
            assert forall|net: Net, x: int, p: Seq<char>, y: int, q: Seq<char>| #[trigger]
                shares(nodes, net, x, p, y, q) implies covered(adj@, net, x, p, y, q) by {
                lemma_linked_covers(adj@, nodes, net, x, p, y, q);
            }
        }
        self.adjlist = adj;
    }

    /// The nodes that have `net` on one of their ports, in the order of the
    /// node list.
    pub fn find_nodes_on_net(&self, net: &Net) -> (r: Vec<NodeIdx>)
        ensures
            r@ == self.spec_nodes_on_net(*net),
    {
        let ghost pred = |n: Node| n.touches(*net);
        let mut res: Vec<NodeIdx> = Vec::new();
        let mut idx: usize = 0;
        while idx < self.nodelist.len()
            invariant
                idx <= self.nodelist.len(),
                pred == (|n: Node| n.touches(*net)),
                res@ == indices_where(self.nodelist@, pred, idx as int),
            decreases self.nodelist.len() - idx,
        {
            if self.nodelist[idx].uses_net(net) {
                res.push(NodeIdx(idx));
            }
            idx += 1;
        }
        res
    }

    /// The positions of the output macrocells, in the order of the node
    /// list.
    pub fn get_olmc_idx(&self) -> (r: Vec<NodeIdx>)
        ensures
            r@ == self.spec_olmc_idx(),
    {
        let ghost pred = |n: Node| n is Olmc;
        let mut res: Vec<NodeIdx> = Vec::new();
        let mut idx: usize = 0;
        while idx < self.nodelist.len()
            invariant
                idx <= self.nodelist.len(),
                pred == (|n: Node| n is Olmc),
                res@ == indices_where(self.nodelist@, pred, idx as int),
            decreases self.nodelist.len() - idx,
        {
            if let Node::Olmc(_) = &self.nodelist[idx] {
                res.push(NodeIdx(idx));
            }
            idx += 1;
        }
        res
    }

    /// The output macrocells, in the order of the node list.
    pub fn get_olmc(&self) -> (r: Vec<&Node>)
        ensures
            r@.len() == self.spec_olmc_idx().len(),
            forall|k: int|
                0 <= k < r@.len() ==> *(#[trigger] r@[k]) == self.nodelist@[self.spec_olmc_idx()[k].0 as int],
    {
        let ghost pred = |n: Node| n is Olmc;
        let mut res: Vec<&Node> = Vec::new();
        let mut idx: usize = 0;
        while idx < self.nodelist.len()
            invariant
                idx <= self.nodelist.len(),
                pred == (|n: Node| n is Olmc),
                res@.len() == indices_where(self.nodelist@, pred, idx as int).len(),
                forall|k: int|
                    0 <= k < res@.len() ==> *(#[trigger] res@[k]) == self.nodelist@[indices_where(
                        self.nodelist@,
                        pred,
                        idx as int,
                    )[k].0 as int],
            decreases self.nodelist.len() - idx,
        {
            if let Node::Olmc(_) = &self.nodelist[idx] {
                res.push(&self.nodelist[idx]);
            }
            idx += 1;
        }
        res
    }

    /// The edges that have port `port` of node `nodeidx` at one end, in the
    /// order of the adjacency list.
    pub fn get_node_port_conns(&self, nodeidx: &NodeIdx, port: &str) -> (r: Vec<&NetAdjPair>)
        ensures
            r@.map_values(|e: &NetAdjPair| *e) == self.spec_node_port_conns(*nodeidx, port@),
    {
        let ghost pred = |e: NetAdjPair| e.spec_uses_nodeport(*nodeidx, port@);
        let ghost deref = |e: &NetAdjPair| *e;
        let mut res: Vec<&NetAdjPair> = Vec::new();
        let mut k: usize = 0;
        proof {
            assert(self.adjlist@.take(0).filter(pred) =~= Seq::empty()) by {
                reveal(Seq::filter);
            }
            assert(res@.map_values(deref) =~= Seq::empty());
        }
        while k < self.adjlist.len()
            invariant
                k <= self.adjlist.len(),
                pred == (|e: NetAdjPair| e.spec_uses_nodeport(*nodeidx, port@)),
                deref == (|e: &NetAdjPair| *e),
                res@.map_values(deref) == self.adjlist@.take(k as int).filter(pred),
            decreases self.adjlist.len() - k,
        {
            let ghost before = res@;
            if self.adjlist[k].uses_nodeport(nodeidx, port) {
                res.push(&self.adjlist[k]);
                proof {
                    assert(res@.map_values(deref) =~= before.map_values(deref).push(
                        self.adjlist@[k as int],
                    ));
                }
            }
            proof {
                assert(self.adjlist@.take(k as int + 1) =~= self.adjlist@.take(k as int).push(
                    self.adjlist@[k as int],
                ));
                self.adjlist@.take(k as int).lemma_filter_push(self.adjlist@[k as int], pred);
            }
            k += 1;
        }
        proof {
            assert(self.adjlist@.take(self.adjlist@.len() as int) =~= self.adjlist@);
        }
        res
    }
}

/// Net sharing has no direction: an edge that joins two ports joins them in
/// the other order too.
pub proof fn lemma_adjacency_symmetric(
    e: NetAdjPair,
    net: Net,
    i: int,
    p: Seq<char>,
    j: int,
    q: Seq<char>,
)
    ensures
        e.joins(net, i, p, j, q) == e.joins(net, j, q, i, p),
{
}

/// In a graph whose adjacency is valid, two edges at different places of
/// the list never have the same net and the same two ends, in either
/// order.
pub proof fn lemma_adjacency_duplicate_free(g: Graph, a: int, b: int)
    requires
        g.adjacency_valid(),
        0 <= a < g.adjlist@.len(),
        0 <= b < g.adjlist@.len(),
        a != b,
    ensures
        !g.adjlist@[a].same_edge(g.adjlist@[b]),
        !g.adjlist@[a].joins(
            g.adjlist@[b].net,
            g.adjlist@[b].idx1.0 as int,
            g.adjlist@[b].port1@,
            g.adjlist@[b].idx2.0 as int,
            g.adjlist@[b].port2@,
        ),
{
    if a < b {
        assert(!g.adjlist@[a].same_edge(g.adjlist@[b]));
    } else {
        assert(!g.adjlist@[b].same_edge(g.adjlist@[a]));
    }
}

/// In a graph whose adjacency is valid, two ports of different nodes that
/// share a numbered net are joined by exactly one edge.
pub proof fn lemma_shared_net_one_edge(
    g: Graph,
    net: Net,
    i: int,
    p: Seq<char>,
    j: int,
    q: Seq<char>,
)
    requires
        g.adjacency_valid(),
        shares(g.nodelist@, net, i, p, j, q),
    ensures
        exists|k: int| 0 <= k < g.adjlist@.len() && (#[trigger] g.adjlist@[k]).joins(net, i, p, j, q),
        forall|k1: int, k2: int|
            0 <= k1 < g.adjlist@.len() && 0 <= k2 < g.adjlist@.len() && (#[trigger] g.adjlist@[k1]).joins(
                net,
                i,
                p,
                j,
                q,
            ) && (#[trigger] g.adjlist@[k2]).joins(net, i, p, j, q) ==> k1 == k2,
{
    assert(covered(g.adjlist@, net, i, p, j, q));
    assert forall|k1: int, k2: int|
        0 <= k1 < g.adjlist@.len() && 0 <= k2 < g.adjlist@.len() && (#[trigger] g.adjlist@[k1]).joins(
            net,
            i,
            p,
            j,
            q,
        ) && (#[trigger] g.adjlist@[k2]).joins(net, i, p, j, q) implies k1 == k2 by {
        if k1 != k2 {
            lemma_adjacency_duplicate_free(g, k1, k2);
        }
    }
}

/// In a graph whose adjacency is valid, every edge joins two ports of
/// different nodes that share the edge's numbered net.
pub proof fn lemma_edge_is_shared_net(g: Graph, k: int)
    requires
        g.adjacency_valid(),
        0 <= k < g.adjlist@.len(),
    ensures
        shares(
            g.nodelist@,
            g.adjlist@[k].net,
            g.adjlist@[k].idx1.0 as int,
            g.adjlist@[k].port1@,
            g.adjlist@[k].idx2.0 as int,
            g.adjlist@[k].port2@,
        ),
{
}

/// The nets on the clock port of an output macrocell; none for a cell
/// that has no such port, or is no macrocell.
pub open spec fn clock_nets(node: Node) -> Seq<Net> {
    match node {
        Node::Olmc(o) => match spec_connection(o.connections@, port_c()) {
            Some(nets) => nets,
            None => Seq::empty(),
        },
        _ => Seq::empty(),
    }
}

/// Some macrocell has more than one net on its clock port.
pub open spec fn too_many_clocks(nodes: Seq<Node>) -> bool {
    exists|i: int| 0 <= i < nodes.len() && clock_nets(#[trigger] nodes[i]).len() > 1
}

/// A clock net may be left unconnected or be a numbered net.
pub open spec fn clock_net_allowed(net: Net) -> bool {
    net is NotConnected || net is N
}

/// Some macrocell has a constant on its clock port.
pub open spec fn invalid_clock(nodes: Seq<Node>) -> bool {
    exists|i: int, k: int|
        0 <= i < nodes.len() && 0 <= k < clock_nets(nodes[i]).len() && !clock_net_allowed(
            #[trigger] clock_nets(nodes[i])[k],
        )
}

/// Two macrocells are clocked by different numbered nets.
pub open spec fn clock_mismatch(nodes: Seq<Node>) -> bool {
    exists|i: int, k: int, j: int, m: int|
        0 <= i < nodes.len() && 0 <= k < clock_nets(nodes[i]).len() && 0 <= j < nodes.len() && 0
            <= m < clock_nets(nodes[j]).len() && (#[trigger] clock_nets(nodes[i])[k]) is N && (
        #[trigger] clock_nets(nodes[j])[m]) is N && clock_nets(nodes[i])[k] != clock_nets(
            nodes[j],
        )[m]
}

/// The outcome of validating `nodes`: the message of the first check that
/// fails, in the order of the checks, or success.
pub open spec fn spec_validate(nodes: Seq<Node>) -> Result<(), Seq<char>> {
    if too_many_clocks(nodes) {
        Err("OLMC has more than one clock input!"@)
    } else if invalid_clock(nodes) {
        Err("invalid clock pin"@)
    } else if clock_mismatch(nodes) {
        Err("clock pin is not shared amongst all OLMCs"@)
    } else {
        Ok(())
    }
}

/// The clock nets of a node.
fn node_clock(node: &Node) -> (r: Option<&Vec<Net>>)
    ensures
        match r {
            Some(nets) => nets@ == clock_nets(*node),
            None => clock_nets(*node).len() == 0,
        },
{
    match node {
        Node::Olmc(o) => connection(&o.connections, "C"),
        _ => None,
    }
}

/// The name of a module that stands for a primitive of the device and
/// holds no logic of the design.
pub open spec fn spec_is_techmap(name: Seq<char>) -> bool {
    name == "DFF_P"@ || name == "GAL_INPUT"@ || name == "GAL_SOP"@ || name == "GAL_OLMC"@ || name
        == "GAL_1SOP"@
}

/// The node that a cell of the document becomes.
pub open spec fn cell_node(cell: YosysCell) -> Node {
    match cell {
        YosysCell::Input(d) => Node::Input(d),
        YosysCell::Sop(s) => Node::Sop(s),
        YosysCell::OLMC(n) => Node::Olmc(n),
    }
}

/// The nodes of a module: one for each cell, in the order of the cells.
pub open spec fn module_nodes(m: Module) -> Seq<Node> {
    m.cells@.map_values(|c: (String, YosysCell)| cell_node(c.1))
}

/// The named ports that one port of a module is split into.
pub open spec fn port_split(name: Seq<char>, port: Port) -> Seq<NamedPortView> {
    match port {
        Port::Output(o) => spec_split(name, o.bits@, PortDirection::Output),
        Port::Input(i) => spec_split(name, i.bits@, PortDirection::Input),
        Port::InOut(io) => spec_split(name, io.bits@, PortDirection::Inout),
    }
}

/// The named ports of a module: those of each of its ports, in order.
pub open spec fn module_ports(m: Module) -> Seq<NamedPortView> {
    m.ports@.map_values(|p: (String, Port)| port_split(p.0@, p.1)).flatten()
}

/// The modules of a document that hold logic of the design.
pub open spec fn design_modules(mods: Seq<(String, Module)>) -> Seq<(String, Module)> {
    mods.filter(|m: (String, Module)| !spec_is_techmap(m.0@))
}

/// The nodes of a document: those of each design module, in order.
pub open spec fn doc_nodes(mods: Seq<(String, Module)>) -> Seq<Node> {
    design_modules(mods).map_values(|m: (String, Module)| module_nodes(m.1)).flatten()
}

/// The named ports of a document: those of each design module, in order.
pub open spec fn doc_ports(mods: Seq<(String, Module)>) -> Seq<NamedPortView> {
    design_modules(mods).map_values(|m: (String, Module)| module_ports(m.1)).flatten()
}

/// Whether a module of this name stands for a primitive of the device.
fn is_techmap(name: &str) -> (r: bool)
    ensures
        r == spec_is_techmap(name@),
{
    str_eq(name, "DFF_P") || str_eq(name, "GAL_INPUT") || str_eq(name, "GAL_SOP") || str_eq(
        name,
        "GAL_OLMC",
    ) || str_eq(name, "GAL_1SOP")
}

/// Moves the cells of a module to the end of `nodes`, and the named ports
/// that its ports split into to the end of `ports`.
fn add_module(nodes: &mut Vec<Node>, ports: &mut Vec<NamedPort>, module: Module)
    ensures
        final(nodes)@ == old(nodes)@ + module_nodes(module),
        port_views(final(ports)@) == port_views(old(ports)@) + module_ports(module),
{
    let ghost cells = module.cells@;
    let ghost mports = module.ports@;
    let ghost to_node = |c: (String, YosysCell)| cell_node(c.1);
    let ghost to_ports = |p: (String, Port)| port_split(p.0@, p.1);
    let Module { ports: module_port_list, cells: module_cell_list } = module;
    for cell in it: module_cell_list.into_iter()
        invariant
            it.seq() == cells,
            to_node == (|c: (String, YosysCell)| cell_node(c.1)),
            nodes@ == old(nodes)@ + cells.take(it.index() as int).map_values(to_node),
    {
        let (_cell_name, cell) = cell;
        let newcell = match cell {
            YosysCell::Input(d) => Node::Input(d),
            YosysCell::Sop(s) => Node::Sop(s),
            YosysCell::OLMC(n) => Node::Olmc(n),
        };
        nodes.push(newcell);
        proof {
            assert(cells.take(it.index() + 1) =~= cells.take(it.index() as int).push(
                cells[it.index() as int],
            ));
            assert(nodes@ =~= old(nodes)@ + cells.take(it.index() + 1).map_values(to_node));
        }
    }
    proof {
        assert(cells.take(cells.len() as int) =~= cells);
        assert(mports.take(0).map_values(to_ports) =~= Seq::empty());
        assert(port_views(ports@) =~= port_views(old(ports)@) + mports.take(0).map_values(
            to_ports,
        ).flatten());
    }
    for port in it: module_port_list.into_iter()
        invariant
            it.seq() == mports,
            to_ports == (|p: (String, Port)| port_split(p.0@, p.1)),
            port_views(ports@) == port_views(old(ports)@) + mports.take(
                it.index() as int,
            ).map_values(to_ports).flatten(),
    {
        let ghost before = ports@;
        let (port_name, port) = port;
        let mut new_ports: Vec<NamedPort> = match port {
            Port::Output(o) => NamedPort::new_split(port_name.as_str(), o, PortDirection::Output),
            Port::Input(i) => NamedPort::new_split(port_name.as_str(), i, PortDirection::Input),
            Port::InOut(io) => NamedPort::new_split(port_name.as_str(), io, PortDirection::Inout),
        };
        let ghost added = new_ports@;
        ports.append(&mut new_ports);
        proof {
            let done = mports.take(it.index() as int);
            let this = mports[it.index() as int];
            assert(mports.take(it.index() + 1) =~= done.push(this));
            assert(done.push(this).map_values(to_ports) =~= done.map_values(to_ports).push(
                to_ports(this),
            ));
            done.map_values(to_ports).lemma_flatten_push(to_ports(this));
            assert(port_views(added) == to_ports(this));
            assert(port_views(before + added) =~= port_views(before) + port_views(added));
        }
    }
    proof {
        assert(mports.take(mports.len() as int) =~= mports);
    }
}

impl Graph {
    /// Checks what must hold of the macrocells of any design, whatever the
    /// device: no macrocell has more than one clock net, no clock net is a
    /// constant, and all numbered clock nets are one and the same. The
    /// first check that fails gives the message.
    pub fn validate(&self) -> (r: Result<(), &'static str>)
        ensures
            match r {
                Ok(()) => spec_validate(self.nodelist@) is Ok,
                Err(msg) => spec_validate(self.nodelist@) == Err::<(), Seq<char>>(msg@),
            },
    {
        let n = self.nodelist.len();
        let mut i: usize = 0;
        while i < n
            invariant
                n == self.nodelist@.len(),
                i <= n,
                forall|a: int| 0 <= a < i ==> clock_nets(#[trigger] self.nodelist@[a]).len() <= 1,
            decreases n - i,
        {
            if let Some(nets) = node_clock(&self.nodelist[i]) {
                if nets.len() > 1 {
                    return Err("OLMC has more than one clock input!");
                }
            }
            i += 1;
        }
        let mut i: usize = 0;
        while i < n
            invariant
                n == self.nodelist@.len(),
                i <= n,
                !too_many_clocks(self.nodelist@),
                forall|a: int, k: int|
                    0 <= a < i && 0 <= k < clock_nets(self.nodelist@[a]).len()
                        ==> clock_net_allowed(#[trigger] clock_nets(self.nodelist@[a])[k]),
            decreases n - i,
        {
            if let Some(nets) = node_clock(&self.nodelist[i]) {
                let mut k: usize = 0;
                while k < nets.len()
                    invariant
                        n == self.nodelist@.len(),
                        i < n,
                        nets@ == clock_nets(self.nodelist@[i as int]),
                        k <= nets.len(),
                        !too_many_clocks(self.nodelist@),
                        forall|m: int| 0 <= m < k ==> clock_net_allowed(#[trigger] nets@[m]),
                    decreases nets.len() - k,
                {
                    match nets[k] {
                        Net::NotConnected => {},
                        Net::N(_) => {},
                        _ => {
                            proof {
                                assert(!clock_net_allowed(
                                    clock_nets(self.nodelist@[i as int])[k as int],
                                ));
                            }
                            return Err("invalid clock pin");
                        },
                    }
                    k += 1;
                }
            }
            i += 1;
        }
        let mut first: Option<Net> = None;
        let ghost seen: (int, int) = (0, 0);
        let mut i: usize = 0;
        while i < n
            invariant
                n == self.nodelist@.len(),
                i <= n,
                !too_many_clocks(self.nodelist@),
                !invalid_clock(self.nodelist@),
                first matches Some(f) ==> f is N && found_at(self.nodelist@, seen.0, seen.1, f),
                forall|a: int, k: int|
                    0 <= a < i && 0 <= k < clock_nets(self.nodelist@[a]).len() && (
                    #[trigger] clock_nets(self.nodelist@[a])[k]) is N ==> first == Some(
                        clock_nets(self.nodelist@[a])[k],
                    ),
            decreases n - i,
        {
            if let Some(nets) = node_clock(&self.nodelist[i]) {
                let mut k: usize = 0;
                while k < nets.len()
                    invariant
                        n == self.nodelist@.len(),
                        i < n,
                        nets@ == clock_nets(self.nodelist@[i as int]),
                        k <= nets.len(),
                        !too_many_clocks(self.nodelist@),
                        !invalid_clock(self.nodelist@),
                        first matches Some(f) ==> f is N && found_at(
                            self.nodelist@,
                            seen.0,
                            seen.1,
                            f,
                        ),
                        forall|a: int, m: int|
                            0 <= a < i && 0 <= m < clock_nets(self.nodelist@[a]).len() && (
                            #[trigger] clock_nets(self.nodelist@[a])[m]) is N ==> first == Some(
                                clock_nets(self.nodelist@[a])[m],
                            ),
                        forall|m: int|
                            0 <= m < k && (#[trigger] nets@[m]) is N ==> first == Some(nets@[m]),
                    decreases nets.len() - k,
                {
                    if let Net::N(_) = nets[k] {
                        match first {
                            None => {
                                first = Some(nets[k]);
                                proof {
                                    seen = (i as int, k as int);
                                }
                            },
                            Some(f) => {
                                if f != nets[k] {
                                    proof {
                                        lemma_mismatch_found(
                                            self.nodelist@,
                                            i as int,
                                            k as int,
                                            seen.0,
                                            seen.1,
                                        );
                                    }
                                    return Err("clock pin is not shared amongst all OLMCs");
                                }
                            },
                        }
                    }
                    k += 1;
                }
            }
            i += 1;
        }
        proof {
            let nodes = self.nodelist@;
            assert forall|a: int, k: int, b: int, m: int|
                0 <= a < nodes.len() && 0 <= k < clock_nets(nodes[a]).len() && 0 <= b < nodes.len()
                    && 0 <= m < clock_nets(nodes[b]).len() && (#[trigger] clock_nets(
                    nodes[a],
                )[k]) is N && (#[trigger] clock_nets(nodes[b])[m]) is N implies clock_nets(
                nodes[a],
            )[k] == clock_nets(nodes[b])[m] by {}
        }
        Ok(())
    }

    /// Builds the graph of a synthesis document. Modules that stand for
    /// primitives of the device are left out. Of every other module, in the
    /// order of the document, each cell becomes a node and each port is
    /// split into one named port per bit. The adjacency is built from the
    /// nodes.
    pub fn from(value: YosysDoc) -> (g: Graph)
        ensures
            g.nodelist@ == doc_nodes(value.modules@),
            port_views(g.ports@) == doc_ports(value.modules@),
            g.adjacency_valid(),
    {
        let ghost mods = value.modules@;
        let ghost keep = |m: (String, Module)| !spec_is_techmap(m.0@);
        let ghost to_nodes = |m: (String, Module)| module_nodes(m.1);
        let ghost to_ports = |m: (String, Module)| module_ports(m.1);
        let mut g = Graph::default();
        proof {
            assert(mods.take(0).filter(keep) =~= Seq::empty()) by {
                reveal(Seq::filter);
            }
            assert(g.nodelist@ =~= doc_nodes(mods.take(0)));
            assert(port_views(g.ports@) =~= doc_ports(mods.take(0)));
        }
        for module in it: value.modules.into_iter()
            invariant
                it.seq() == mods,
                keep == (|m: (String, Module)| !spec_is_techmap(m.0@)),
                to_nodes == (|m: (String, Module)| module_nodes(m.1)),
                to_ports == (|m: (String, Module)| module_ports(m.1)),
                g.nodelist@ == doc_nodes(mods.take(it.index() as int)),
                port_views(g.ports@) == doc_ports(mods.take(it.index() as int)),
        {
            let (mod_name, module) = module;
            proof {
                let done = mods.take(it.index() as int);
                let this = mods[it.index() as int];
                assert(mods.take(it.index() + 1) =~= done.push(this));
                done.lemma_filter_push(this, keep);
                if keep(this) {
                    assert(done.filter(keep).push(this).map_values(to_nodes) =~= done.filter(
                        keep,
                    ).map_values(to_nodes).push(to_nodes(this)));
                    assert(done.filter(keep).push(this).map_values(to_ports) =~= done.filter(
                        keep,
                    ).map_values(to_ports).push(to_ports(this)));
                    done.filter(keep).map_values(to_nodes).lemma_flatten_push(to_nodes(this));
                    done.filter(keep).map_values(to_ports).lemma_flatten_push(to_ports(this));
                }
            }
            if !is_techmap(mod_name.as_str()) {
                add_module(&mut g.nodelist, &mut g.ports, module);
            }
        }
        proof {
            assert(mods.take(mods.len() as int) =~= mods);
        }
        g.generate_adjacency();
        g
    }
}

/// Net `m` on the clock port of node `a` is `net`.
pub open spec fn found_at(nodes: Seq<Node>, a: int, m: int, net: Net) -> bool {
    0 <= a < nodes.len() && 0 <= m < clock_nets(nodes[a]).len() && clock_nets(nodes[a])[m] == net
}

/// Two numbered clock nets that differ show a mismatch.
proof fn lemma_mismatch_found(nodes: Seq<Node>, i: int, k: int, a: int, m: int)
    requires
        0 <= i < nodes.len(),
        0 <= k < clock_nets(nodes[i]).len(),
        clock_nets(nodes[i])[k] is N,
        0 <= a < nodes.len(),
        0 <= m < clock_nets(nodes[a]).len(),
        clock_nets(nodes[a])[m] is N,
        clock_nets(nodes[a])[m] != clock_nets(nodes[i])[k],
    ensures
        clock_mismatch(nodes),
{
}

} // verus!
