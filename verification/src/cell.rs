//! A cell of the netlist in general form: a kind, named connections and
//! named parameters.

use crate::seq_util::{first_index, is_first, lemma_first_index_is, lemma_first_index_none};
use crate::text::str_eq;
use crate::yosys_parser::{
    connection, nets_contain, spec_all_nets, spec_connection, spec_port_for_net, spec_touches, Net,
};
use vstd::prelude::*;

verus! {

/// The kinds of cell that a netlist for these devices holds.
#[derive(Debug, Clone, Copy, PartialEq, Eq, Structural)]
pub enum CellType {
    Input,
    Sop,
    OLMC,
}

/// What every cell of a netlist offers.
pub trait Cell {
    /// The name of the cell.
    fn name(&self) -> &str;

    /// The kind of the cell.
    fn ctype(&self) -> CellType;

    /// The nets on the connection called `conn`.
    fn get_connection(&self, conn: &str) -> Option<&Vec<Net>>;

    /// The value of the parameter called `param`.
    fn get_param(&self, param: &str) -> Option<&String>;

    /// Every net of the cell.
    fn nets(&self) -> Vec<Net>;

    /// Whether the cell has `net` on one of its connections.
    fn uses_net(&self, net: Net) -> bool;
}

/// A cell with its connections and parameters, each a list of names with
/// their values. Of two entries with one name the first counts.
pub struct GalCell {
    name: Option<String>,
    ctype: CellType,
    connections: Vec<(String, Vec<Net>)>,
    params: Vec<(String, String)>,
}

/// The value of the first parameter of `params` called `name`, if there is
/// one.
pub open spec fn spec_param(params: Seq<(String, String)>, name: Seq<char>) -> Option<Seq<char>> {
    match first_index(params, |p: (String, String)| p.0@ == name) {
        Some(i) => Some(params[i].1@),
        None => None,
    }
}

impl GalCell {
    /// The name that the cell was given, if any.
    pub closed spec fn spec_name(self) -> Option<Seq<char>> {
        match self.name {
            Some(n) => Some(n@),
            None => None,
        }
    }

    /// The kind of the cell.
    pub closed spec fn spec_ctype(self) -> CellType {
        self.ctype
    }

    /// The connections of the cell, in order.
    pub closed spec fn spec_connections(self) -> Seq<(String, Vec<Net>)> {
        self.connections@
    }

    /// The parameters of the cell, in order.
    pub closed spec fn spec_params(self) -> Seq<(String, String)> {
        self.params@
    }

    /// A cell of the given kind, with the given connections and parameters.
    pub fn new(
        name: Option<String>,
        ctype: CellType,
        connections: Vec<(String, Vec<Net>)>,
        params: Vec<(String, String)>,
    ) -> (r: Self)
        ensures
            r.spec_name() == match name {
                Some(n) => Some(n@),
                None => None,
            },
            r.spec_ctype() == ctype,
            r.spec_connections() == connections@,
            r.spec_params() == params@,
    {
        GalCell { name, ctype, connections, params }
    }

    /// The name of the cell, or `unnamed` for a cell without one.
    pub fn name(&self) -> (r: String)
        ensures
            r@ == match self.spec_name() {
                Some(n) => n,
                None => "unnamed"@,
            },
    {
        match &self.name {
            Some(n) => n.clone(),
            None => String::from_str("unnamed"),
        }
    }

    /// The nets on the first connection called `conn`.
    pub fn get_connection(&self, conn: &str) -> (r: Option<&Vec<Net>>)
        ensures
            match r {
                Some(nets) => spec_connection(self.spec_connections(), conn@) == Some(nets@),
                None => spec_connection(self.spec_connections(), conn@) is None,
            },
    {
        connection(&self.connections, conn)
    }

    /// The value of the first parameter called `param`, as the netlist
    /// writes it.
    pub fn get_param(&self, param: &str) -> (r: Option<&String>)
        ensures
            match r {
                Some(value) => spec_param(self.spec_params(), param@) == Some(value@),
                None => spec_param(self.spec_params(), param@) is None,
            },
    {
        let ghost p = |e: (String, String)| e.0@ == param@;
        let mut i: usize = 0;
        while i < self.params.len()
            invariant
                i <= self.params.len(),
                p == (|e: (String, String)| e.0@ == param@),
                forall|j: int| 0 <= j < i ==> !p(#[trigger] self.params@[j]),
            decreases self.params.len() - i,
        {
            if str_eq(self.params[i].0.as_str(), param) {
                proof {
                    assert(is_first(self.params@, p, i as int));
                    lemma_first_index_is(self.params@, p, i as int);
                }
                return Some(&self.params[i].1);
            }
            i += 1;
        }
        proof {
            lemma_first_index_none(self.params@, p);
        }
        None
    }

    /// Every net of the cell, connection after connection, repetitions
    /// included.
    pub fn nets(&self) -> (r: Vec<&Net>)
        ensures
            r@.map_values(|n: &Net| *n) == spec_all_nets(self.spec_connections()),
    {
        let conns = &self.connections;
        let ghost f = |c: (String, Vec<Net>)| c.1@;
        let ghost deref = |n: &Net| *n;
        let mut out: Vec<&Net> = Vec::new();
        let mut i: usize = 0;
        proof {
            assert(out@.map_values(deref) =~= conns@.take(0).map_values(f).flatten());
        }
        while i < conns.len()
            invariant
                i <= conns.len(),
                conns@ == self.spec_connections(),
                f == (|c: (String, Vec<Net>)| c.1@),
                deref == (|n: &Net| *n),
                out@.map_values(deref) == conns@.take(i as int).map_values(f).flatten(),
            decreases conns.len() - i,
        {
            let nets = &conns[i].1;
            let ghost before = out@.map_values(deref);
            let mut j: usize = 0;
            while j < nets.len()
                invariant
                    j <= nets.len(),
                    deref == (|n: &Net| *n),
                    out@.map_values(deref) == before + nets@.take(j as int),
                decreases nets.len() - j,
            {
                let ghost so_far = out@;
                out.push(&nets[j]);
                proof {
                    assert(nets@.take(j as int + 1) == nets@.take(j as int).push(nets@[j as int]));
                    assert(out@.map_values(deref) =~= so_far.map_values(deref).push(nets@[j as int]));
                }
                j += 1;
            }
            proof {
                assert(nets@.take(nets.len() as int) == nets@);
                assert(conns@.take(i as int + 1).map_values(f) == conns@.take(i as int).map_values(
                    f,
                ).push(nets@));
                conns@.take(i as int).map_values(f).lemma_flatten_push(nets@);
            }
            i += 1;
        }
        proof {
            assert(conns@.take(conns.len() as int) == conns@);
        }
        out
    }

    /// Whether the cell has `net` on one of its connections.
    pub fn uses_net(&self, net: &Net) -> (r: bool)
        ensures
            r == spec_touches(self.spec_connections(), *net),
    {
        let conns = &self.connections;
        let mut i: usize = 0;
        while i < conns.len()
            invariant
                i <= conns.len(),
                conns@ == self.spec_connections(),
                forall|j: int| 0 <= j < i ==> !(#[trigger] conns@[j]).1@.contains(*net),
            decreases conns.len() - i,
        {
            if nets_contain(&conns[i].1, net) {
                return true;
            }
            i += 1;
        }
        false
    }

    /// The name of the first connection that carries `net`, if any.
    pub fn get_port_for_net(&self, net: &Net) -> (r: Option<&str>)
        ensures
            match r {
                Some(port) => spec_port_for_net(self.spec_connections(), *net) == Some(port@),
                None => spec_port_for_net(self.spec_connections(), *net) is None,
            },
    {
        let conns = &self.connections;
        let ghost p = |c: (String, Vec<Net>)| c.1@.contains(*net);
        let mut i: usize = 0;
        while i < conns.len()
            invariant
                i <= conns.len(),
                conns@ == self.spec_connections(),
                forall|j: int| 0 <= j < i ==> !p(#[trigger] conns@[j]),
                p == (|c: (String, Vec<Net>)| c.1@.contains(*net)),
            decreases conns.len() - i,
        {
            if nets_contain(&conns[i].1, net) {
                proof {
                    assert(is_first(conns@, p, i as int));
                    lemma_first_index_is(conns@, p, i as int);
                }
                return Some(conns[i].0.as_str());
            }
            i += 1;
        }
        proof {
            lemma_first_index_none(conns@, p);
        }
        None
    }

    /// The kind of the cell, which tells the connections that it has.
    pub fn ctype(&self) -> (r: &CellType)
        ensures
            *r == self.spec_ctype(),
    {
        &self.ctype
    }
}

} // verus!
