//! The netlist model: nets, cells, the synthesis document they come from,
//! and the module ports through which a design meets the pins of a device.

use crate::pcf::PcfFile;
use crate::seq_util::{first_index, is_first, lemma_first_index_is, lemma_first_index_none};
use crate::text::{
    chars_of, decimal, decimal_string, indexed_name, spec_indexed_name, str_eq,
};
use vstd::prelude::*;

pub use crate::cell::{Cell, CellType, GalCell};
pub use crate::graph::{Graph, NetAdjPair};

verus! {

/// A signal of the netlist.
///
/// Only numbered nets join cells: an unconnected port and the two constants
/// are shared by nothing.
#[derive(Debug, Clone, Copy, Hash, PartialEq, Eq, PartialOrd, Ord, Structural)]
pub enum Net {
    NotConnected,
    LiteralOne,
    LiteralZero,
    N(u32),
}

/// The name of the port that carries the inputs of a cell.
pub open spec fn port_a() -> Seq<char> {
    "A"@
}

/// The name of the port that carries the output of a cell.
pub open spec fn port_y() -> Seq<char> {
    "Y"@
}

/// The name of the port that carries the clock of a macrocell.
pub open spec fn port_c() -> Seq<char> {
    "C"@
}

/// The nets of the first connection of `conns` called `name`, if there is one.
pub open spec fn spec_connection(conns: Seq<(String, Vec<Net>)>, name: Seq<char>) -> Option<
    Seq<Net>,
> {
    match first_index(conns, |c: (String, Vec<Net>)| c.0@ == name) {
        Some(i) => Some(conns[i].1@),
        None => None,
    }
}

/// Some connection of `conns` called `name` holds `net`.
pub open spec fn spec_port_has_net(conns: Seq<(String, Vec<Net>)>, name: Seq<char>, net: Net) -> bool {
    exists|i: int| 0 <= i < conns.len() && (#[trigger] conns[i]).0@ == name && conns[i].1@.contains(net)
}

/// Some connection of `conns` holds `net`.
pub open spec fn spec_touches(conns: Seq<(String, Vec<Net>)>, net: Net) -> bool {
    exists|i: int| 0 <= i < conns.len() && (#[trigger] conns[i]).1@.contains(net)
}

/// The name of the first connection of `conns` that holds `net`, if any does.
pub open spec fn spec_port_for_net(conns: Seq<(String, Vec<Net>)>, net: Net) -> Option<Seq<char>> {
    match first_index(conns, |c: (String, Vec<Net>)| c.1@.contains(net)) {
        Some(i) => Some(conns[i].0@),
        None => None,
    }
}

/// All nets of `conns`, connection after connection.
pub open spec fn spec_all_nets(conns: Seq<(String, Vec<Net>)>) -> Seq<Net> {
    conns.map_values(|c: (String, Vec<Net>)| c.1@).flatten()
}

/// Whether `net` occurs in `nets`.
pub fn nets_contain(nets: &Vec<Net>, net: &Net) -> (r: bool)
    ensures
        r == nets@.contains(*net),
{
    let mut i: usize = 0;
    while i < nets.len()
        invariant
            i <= nets.len(),
            forall|j: int| 0 <= j < i ==> nets@[j] != *net,
        decreases nets.len() - i,
    {
        if nets[i] == *net {
            return true;
        }
        i += 1;
    }
    false
}

/// The nets of the first connection called `name`.
pub fn connection<'a>(conns: &'a Vec<(String, Vec<Net>)>, name: &str) -> (r: Option<&'a Vec<Net>>)
    ensures
        match r {
            Some(nets) => spec_connection(conns@, name@) == Some(nets@),
            None => spec_connection(conns@, name@) is None,
        },
{
    let ghost p = |c: (String, Vec<Net>)| c.0@ == name@;
    let mut i: usize = 0;
    while i < conns.len()
        invariant
            i <= conns.len(),
            forall|j: int| 0 <= j < i ==> !p(#[trigger] conns@[j]),
            p == (|c: (String, Vec<Net>)| c.0@ == name@),
        decreases conns.len() - i,
    {
        if str_eq(conns[i].0.as_str(), name) {
            proof {
                assert(is_first(conns@, p, i as int));
                lemma_first_index_is(conns@, p, i as int);
            }
            return Some(&conns[i].1);
        }
        i += 1;
    }
    proof {
        lemma_first_index_none(conns@, p);
    }
    None
}

/// The number that a sequence of binary digits denotes.
pub open spec fn bits_value(s: Seq<char>) -> nat
    decreases s.len(),
{
    if s.len() == 0 {
        0
    } else {
        bits_value(s.drop_last()) * 2 + if s.last() == '1' {
            1nat
        } else {
            0nat
        }
    }
}

/// The digits of a number as the netlist writes it: the text without the
/// plus sign that may stand before them.
pub open spec fn binstr_digits(s: Seq<char>) -> Seq<char> {
    if s.len() > 0 && s[0] == '+' {
        s.subrange(1, s.len() as int)
    } else {
        s
    }
}

/// The number that the netlist writes as `s`: one or more binary digits,
/// whose value fits in 32 bits.
pub open spec fn spec_from_binstr(s: Seq<char>) -> Option<u32> {
    let digits = binstr_digits(s);
    if digits.len() > 0 && (forall|i: int|
        0 <= i < digits.len() ==> (#[trigger] digits[i] == '0' || digits[i] == '1'))
        && bits_value(digits) <= u32::MAX {
        Some(bits_value(digits) as u32)
    } else {
        None
    }
}

/// Reads a number that the netlist writes in binary digits, such as
/// `00000000000111` for 7.
pub fn from_binstr(s: &str) -> (r: Option<u32>)
    ensures
        r == spec_from_binstr(s@),
{
    let chars = chars_of(s);
    let start: usize = if chars.len() > 0 && chars[0] == '+' {
        1
    } else {
        0
    };
    let ghost digits = binstr_digits(s@);
    if start == chars.len() {
        return None;
    }
    let mut acc: u64 = 0;
    let mut overflow = false;
    let mut i: usize = start;
    proof {
        assert(digits.take(0) =~= Seq::empty());
    }
    while i < chars.len()
        invariant
            chars@ == s@,
            digits == binstr_digits(s@),
            start <= i <= chars.len(),
            start <= 1,
            digits.len() == chars.len() - start,
            forall|j: int| 0 <= j < digits.len() ==> digits[j] == chars@[j + start],
            forall|j: int| 0 <= j < i - start ==> (#[trigger] digits[j] == '0' || digits[j] == '1'),
            !overflow ==> acc == bits_value(digits.take(i - start)) && acc <= u32::MAX,
            overflow ==> bits_value(digits.take(i - start)) > u32::MAX,
        decreases chars.len() - i,
    {
        let c = chars[i];
        if !(c == '0' || c == '1') {
            proof {
                assert(digits[i - start] == c);
            }
            return None;
        }
        proof {
            assert(digits.take(i - start + 1).drop_last() =~= digits.take(i - start));
            assert(digits.take(i - start + 1).last() == c);
        }
        if !overflow {
            acc = acc * 2 + if c == '1' {
                1
            } else {
                0
            };
            if acc > u32::MAX as u64 {
                overflow = true;
            }
        }
        i += 1;
    }
    proof {
        assert(digits.take(digits.len() as int) =~= digits);
    }
    if overflow {
        None
    } else {
        Some(acc as u32)
    }
}

/// Reads a flag that the netlist writes as a number in binary digits: the
/// flag is set where the number is 1.
pub fn bool_from_binstr(s: &str) -> (r: Option<bool>)
    ensures
        r == match spec_from_binstr(s@) {
            Some(val) => Some(val == 1),
            None => None,
        },
{
    match from_binstr(s) {
        Some(val) => Some(val == 1),
        None => None,
    }
}

/// An input marker cell: it forwards the net that arrives at a pin.
#[derive(Clone, Debug, PartialEq)]
pub struct GalInput {
    pub connections: Vec<(String, Vec<Net>)>,
}

/// The parameters of a sum-of-products cell.
#[derive(Clone, Debug, PartialEq)]
pub struct GalSopParameters {
    /// The number of product terms.
    pub depth: u32,
    /// The packed table: for each term, two characters for each input.
    pub table: String,
    /// The number of inputs of each product term.
    pub width: u32,
}

/// A sum-of-products cell: the OR of `depth` AND-terms over its inputs.
#[derive(Clone, Debug, PartialEq)]
pub struct GalSop {
    pub connections: Vec<(String, Vec<Net>)>,
    pub parameters: GalSopParameters,
}

/// The parameters of an output macrocell.
#[derive(Clone, Debug, PartialEq)]
pub struct GALOLMCParameters {
    /// The output is driven with inverted polarity.
    pub inverted: bool,
    /// The output is clocked rather than combinational.
    pub registered: bool,
}

/// An output macrocell.
#[derive(Clone, Debug, PartialEq)]
pub struct GalOLMC {
    pub parameters: GALOLMCParameters,
    pub connections: Vec<(String, Vec<Net>)>,
}

/// A cell of the netlist graph.
#[derive(Debug, PartialEq, Clone)]
pub enum Node {
    Input(GalInput),
    Sop(GalSop),
    Olmc(GalOLMC),
}

impl Node {
    /// The connections of the cell: port names with the nets on each, in the
    /// order in which the cell lists them.
    pub open spec fn spec_connections(self) -> Seq<(String, Vec<Net>)> {
        match self {
            Node::Input(i) => i.connections@,
            Node::Sop(s) => s.connections@,
            Node::Olmc(o) => o.connections@,
        }
    }

    /// The cell has `net` on one of its ports.
    pub open spec fn touches(self, net: Net) -> bool {
        spec_touches(self.spec_connections(), net)
    }

    /// The cell has `net` on a port called `port`.
    pub open spec fn port_has_net(self, port: Seq<char>, net: Net) -> bool {
        spec_port_has_net(self.spec_connections(), port, net)
    }

    /// The connections of the cell.
    pub fn get_connections(&self) -> (r: &Vec<(String, Vec<Net>)>)
        ensures
            r@ == self.spec_connections(),
    {
        match self {
            Node::Olmc(ol) => &ol.connections,
            Node::Input(i) => &i.connections,
            Node::Sop(s) => &s.connections,
        }
    }

    /// The name of the first port that carries `net`, if any.
    pub fn port_for_net(&self, net: &Net) -> (r: Option<String>)
        ensures
            match r {
                Some(port) => spec_port_for_net(self.spec_connections(), *net) == Some(port@),
                None => spec_port_for_net(self.spec_connections(), *net) is None,
            },
    {
        let conns = self.get_connections();
        let ghost p = |c: (String, Vec<Net>)| c.1@.contains(*net);
        let mut i: usize = 0;
        while i < conns.len()
            invariant
                i <= conns.len(),
                conns@ == self.spec_connections(),
                forall|j: int| 0 <= j < i ==> !p(#[trigger] conns@[j]),
                p == (|c: (String, Vec<Net>)| c.1@.contains(*net)),
            decreases conns.len() - i,
        {
            if nets_contain(&conns[i].1, net) {
                proof {
                    assert(is_first(conns@, p, i as int));
                    lemma_first_index_is(conns@, p, i as int);
                }
                return Some(conns[i].0.clone());
            }
            i += 1;
        }
        proof {
            lemma_first_index_none(conns@, p);
        }
        None
    }

    /// Whether the cell has `net` on one of its ports.
    pub fn uses_net(&self, net: &Net) -> (r: bool)
        ensures
            r == self.touches(*net),
    {
        let conns = self.get_connections();
        let mut i: usize = 0;
        while i < conns.len()
            invariant
                i <= conns.len(),
                conns@ == self.spec_connections(),
                forall|j: int| 0 <= j < i ==> !(#[trigger] conns@[j]).1@.contains(*net),
            decreases conns.len() - i,
        {
            if nets_contain(&conns[i].1, net) {
                return true;
            }
            i += 1;
        }
        false
    }

    /// Every net of the cell, port after port, repetitions included.
    pub fn get_nets(&self) -> (r: Vec<Net>)
        ensures
            r@ == spec_all_nets(self.spec_connections()),
    {
        let conns = self.get_connections();
        let ghost f = |c: (String, Vec<Net>)| c.1@;
        let mut out: Vec<Net> = Vec::new();
        let mut i: usize = 0;
        while i < conns.len()
            invariant
                i <= conns.len(),
                conns@ == self.spec_connections(),
                f == (|c: (String, Vec<Net>)| c.1@),
                out@ == conns@.take(i as int).map_values(f).flatten(),
            decreases conns.len() - i,
        {
            let nets = &conns[i].1;
            let ghost before = out@;
            let mut j: usize = 0;
            while j < nets.len()
                invariant
                    j <= nets.len(),
                    out@ == before + nets@.take(j as int),
                decreases nets.len() - j,
            {
                out.push(nets[j]);
                proof {
                    assert(nets@.take(j as int + 1) == nets@.take(j as int).push(nets@[j as int]));
                }
                j += 1;
            }
            proof {
                assert(nets@.take(nets.len() as int) == nets@);
                assert(conns@.take(i as int + 1).map_values(f) == conns@.take(i as int).map_values(
                    f,
                ).push(nets@));
                conns@.take(i as int).map_values(f).lemma_flatten_push(nets@);
            }
            i += 1;
        }
        proof {
            assert(conns@.take(conns.len() as int) == conns@);
        }
        out
    }
}

/// The direction of a module port.
#[derive(Debug, Clone, Copy, PartialEq, Eq, PartialOrd, Structural)]
pub enum PortDirection {
    Input,
    Output,
    Inout,
}

/// A single-bit signal at the boundary of a module. Its name is the key
/// under which the constraint file gives its pin.
#[derive(Debug, Clone, PartialEq, PartialOrd)]
pub struct NamedPort {
    pub name: String,
    pub net: Net,
    pub direction: PortDirection,
}

/// What a [`NamedPort`] holds, as plain values.
pub struct NamedPortView {
    pub name: Seq<char>,
    pub net: Net,
    pub direction: PortDirection,
}

impl View for NamedPort {
    type V = NamedPortView;

    open spec fn view(&self) -> NamedPortView {
        NamedPortView { name: self.name@, net: self.net, direction: self.direction }
    }
}

/// The ports that a module port of the given bits is split into: a port of
/// one bit keeps the base name, a wider one gives one port per bit, named
/// by the bit's index.
pub open spec fn spec_split(base: Seq<char>, bits: Seq<Net>, dir: PortDirection) -> Seq<
    NamedPortView,
> {
    if bits.len() == 1 {
        seq![NamedPortView { name: base, net: bits[0], direction: dir }]
    } else {
        Seq::new(
            bits.len(),
            |i: int|
                NamedPortView {
                    name: spec_indexed_name(base, i as nat),
                    net: bits[i],
                    direction: dir,
                },
        )
    }
}

/// The pin that `pcf` binds `name` to, if it names it.
pub open spec fn spec_lookup(pcf: Map<Seq<char>, u32>, name: Seq<char>) -> Option<u32> {
    if pcf.contains_key(name) {
        Some(pcf[name])
    } else {
        None
    }
}

/// The views of a sequence of ports.
pub open spec fn port_views(ports: Seq<NamedPort>) -> Seq<NamedPortView> {
    ports.map_values(|p: NamedPort| p@)
}

impl NamedPort {
    /// A port of the given name, net and direction.
    pub fn new(name: &str, net: &Net, dir: &PortDirection) -> (r: Self)
        ensures
            r@ == (NamedPortView { name: name@, net: *net, direction: *dir }),
    {
        NamedPort { name: name.to_owned(), net: *net, direction: *dir }
    }

    /// The pin that the constraints bind this port to, if they name it.
    pub fn lookup(&self, pcf: &PcfFile) -> (r: Option<u32>)
        ensures
            r == spec_lookup(pcf@, self.name@),
    {
        pcf.pin(self.name.as_str())
    }

    /// A copy of this port.
    pub fn duplicate(&self) -> (r: Self)
        ensures
            r == *self,
    {
        NamedPort { name: self.name.clone(), net: self.net, direction: self.direction }
    }

    /// Splits a module port into one named port per bit. The first bit has
    /// index 0.
    pub fn new_split(base_name: &str, port: ModPort, dir: PortDirection) -> (r: Vec<NamedPort>)
        ensures
            port_views(r@) == spec_split(base_name@, port.bits@, dir),
    {
        let mut out: Vec<NamedPort> = Vec::new();
        if port.bits.len() == 1 {
            out.push(NamedPort::new(base_name, &port.bits[0], &dir));
            proof {
                assert(port_views(out@) =~= spec_split(base_name@, port.bits@, dir));
            }
            return out;
        }
        let mut idx: usize = 0;
        while idx < port.bits.len()
            invariant
                idx <= port.bits.len(),
                port.bits.len() != 1,
                out.len() == idx,
                forall|k: int|
                    0 <= k < idx ==> (#[trigger] out@[k])@ == spec_split(
                        base_name@,
                        port.bits@,
                        dir,
                    )[k],
            decreases port.bits.len() - idx,
        {
            let name = indexed_name(base_name, idx);
            out.push(NamedPort { name, net: port.bits[idx], direction: dir });
            idx += 1;
        }
        proof {
            assert(port_views(out@) =~= spec_split(base_name@, port.bits@, dir));
        }
        out
    }
}

/// The position of a cell in the node list of a graph.
#[derive(Debug, Copy, Clone, PartialEq, Eq, PartialOrd, Ord, Structural)]
pub struct NodeIdx(pub usize);

/// The text that names the node at position `index`.
pub open spec fn spec_node_label(index: nat) -> Seq<char> {
    "(Nodeindex: "@ + decimal(index) + ")"@
}

impl NodeIdx {
    /// The text that names this node in messages.
    pub fn to_string(&self) -> (r: String)
        ensures
            r@ == spec_node_label(self.0 as nat),
    {
        let mut label = String::from_str("(Nodeindex: ");
        let digits = decimal_string(self.0);
        label.append(digits.as_str());
        label.append(")");
        label
    }
}

/// The bits of a module port.
#[derive(Clone, Debug)]
pub struct ModPort {
    pub bits: Vec<Net>,
    pub upto: bool,
}

/// A port of a module, by direction.
#[derive(Clone, Debug)]
pub enum Port {
    Input(ModPort),
    Output(ModPort),
    InOut(ModPort),
}

/// A cell as the synthesis document declares it.
#[derive(Clone, Debug)]
pub enum YosysCell {
    Sop(GalSop),
    Input(GalInput),
    OLMC(GalOLMC),
}

/// A module of the synthesis document: its named ports and named cells, in
/// the order of the document.
#[derive(Clone, Debug)]
pub struct Module {
    pub ports: Vec<(String, Port)>,
    pub cells: Vec<(String, YosysCell)>,
}

/// A synthesis document: named modules, in the order of the document.
#[derive(Clone, Debug)]
pub struct YosysDoc {
    pub creator: String,
    pub modules: Vec<(String, Module)>,
}

} // verus!
