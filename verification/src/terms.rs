//! Term extraction: the product terms of every placed macrocell, with each
//! input traced to a pin of the device.

use crate::chips::Chip;
use crate::fitter::{
    chip_to_olmc_offset, get_sop_for_olmc, products_view, rows_view, spec_olmc_offset,
    spec_sop_for_olmc, Blueprint, MappingError, MappingErrorView, OlmcConfig, OlmcConfigView, Pin,
    PinMode, Term,
};
use crate::graph::{spec_find_port, Graph};
use crate::pcf::PcfFile;
use crate::placement::{place, spec_place};
use crate::text::chars_of;
use crate::seq_util::{first_index, is_first, lemma_first_index_is, lemma_first_index_none};
use crate::yosys_parser::{connection, port_a, spec_connection, spec_lookup, GalSop, Net, Node, NodeIdx};
use vstd::arithmetic::mul::{lemma_mul_inequality, lemma_mul_is_distributive_add_other_way};
use vstd::prelude::*;

verus! {

/// The row on which the node at `i` has been placed, if it has.
pub open spec fn spec_row_of(rows: Seq<Option<NodeIdx>>, i: int) -> Option<int> {
    first_index(rows, |r: Option<NodeIdx>| r == Some(NodeIdx(i as usize)))
}

/// The node at `i` can be what drives `net` from a pin: it touches the net
/// and is an input cell, or a macrocell that has a row.
pub open spec fn is_candidate(g: Graph, rows: Seq<Option<NodeIdx>>, net: Net, i: int) -> bool {
    &&& 0 <= i < g.nodelist@.len()
    &&& g.nodelist@[i].touches(net)
    &&& (g.nodelist@[i] is Input || (g.nodelist@[i] is Olmc && spec_row_of(rows, i) is Some))
}

/// The pin of the device behind the node at `i`.
///
/// For an input cell: the pin of the port that is tied to the one net on
/// its port `A`. For a macrocell: the pin under which its row is fed back.
pub open spec fn spec_node_pin(
    g: Graph,
    pcf: Map<Seq<char>, u32>,
    rows: Seq<Option<NodeIdx>>,
    chip: Chip,
    i: int,
) -> Result<u32, MappingErrorView> {
    match g.nodelist@[i] {
        Node::Input(inp) => match spec_connection(inp.connections@, port_a()) {
            None => Err(MappingErrorView::Unknown),
            Some(nets) => if nets.len() != 1 {
                Err(MappingErrorView::Unknown)
            } else {
                match spec_find_port(g.ports@, nets[0]) {
                    None => Err(MappingErrorView::Unknown),
                    Some(pi) => match spec_lookup(pcf, g.ports@[pi].name@) {
                        Some(pin) => Ok(pin),
                        None => Err(MappingErrorView::MissingConstraint(g.ports@[pi]@)),
                    },
                }
            },
        },
        Node::Olmc(_) => match spec_row_of(rows, i) {
            Some(r) => Ok((r + spec_olmc_offset(chip)) as u32),
            None => Err(MappingErrorView::Unknown),
        },
        Node::Sop(_) => Err(MappingErrorView::Unknown),
    }
}

/// The pin of the device from which `net` is driven: that of the one node
/// that can drive it. No such node, or more than one, is a netlist of
/// unexpected shape.
pub open spec fn spec_hwpin(
    g: Graph,
    pcf: Map<Seq<char>, u32>,
    rows: Seq<Option<NodeIdx>>,
    chip: Chip,
    net: Net,
) -> Result<u32, MappingErrorView> {
    if (exists|i: int| is_candidate(g, rows, net, i)) && (forall|i: int, j: int|
        is_candidate(g, rows, net, i) && is_candidate(g, rows, net, j) ==> i == j) {
        spec_node_pin(g, pcf, rows, chip, choose|i: int| is_candidate(g, rows, net, i))
    } else {
        Err(MappingErrorView::Unknown)
    }
}

/// The row on which the node at `i` has been placed.
fn row_of(olmcmap: &[Option<NodeIdx>], i: usize) -> (r: Option<usize>)
    ensures
        match r {
            Some(row) => spec_row_of(olmcmap@, i as int) == Some(row as int) && row < olmcmap@.len(),
            None => spec_row_of(olmcmap@, i as int) is None,
        },
{
    let ghost p = |r: Option<NodeIdx>| r == Some(NodeIdx(i));
    let mut row: usize = 0;
    while row < olmcmap.len()
        invariant
            row <= olmcmap.len(),
            p == (|r: Option<NodeIdx>| r == Some(NodeIdx(i))),
            forall|k: int| 0 <= k < row ==> !p(#[trigger] olmcmap@[k]),
        decreases olmcmap.len() - row,
    {
        if let Some(idx) = olmcmap[row] {
            if idx.0 == i {
                proof {
                    assert(is_first(olmcmap@, p, row as int));
                    lemma_first_index_is(olmcmap@, p, row as int);
                }
                return Some(row);
            }
        }
        row += 1;
    }
    proof {
        lemma_first_index_none(olmcmap@, p);
    }
    None
}

/// The pin of the device behind the node at `i`.
fn node_pin(graph: &Graph, pcf: &PcfFile, olmcmap: &[Option<NodeIdx>], chip: &Chip, i: usize) -> (r:
    Result<u32, MappingError>)
    requires
        i < graph.nodelist@.len(),
        olmcmap@.len() == chip.spec_num_olmcs(),
    ensures
        match r {
            Ok(pin) => spec_node_pin(*graph, pcf@, olmcmap@, *chip, i as int) == Ok::<
                u32,
                MappingErrorView,
            >(pin),
            Err(e) => spec_node_pin(*graph, pcf@, olmcmap@, *chip, i as int) == Err::<
                u32,
                MappingErrorView,
            >(e@),
        },
{
    match &graph.nodelist[i] {
        Node::Input(inp) => {
            let port_nets = match connection(&inp.connections, "A") {
                Some(nets) => nets,
                None => {
                    return Err(MappingError::Unknown);
                },
            };
            if port_nets.len() != 1 {
                return Err(MappingError::Unknown);
            }
            let pnet = &port_nets[0];
            match graph.find_port(pnet) {
                Some(p) => match p.lookup(pcf) {
                    Some(pin) => Ok(pin),
                    None => Err(MappingError::MissingConstraint(p.duplicate())),
                },
                None => Err(MappingError::Unknown),
            }
        },
        Node::Olmc(_) => match row_of(olmcmap, i) {
            Some(row) => {
                let pin = row + chip_to_olmc_offset(chip);
                Ok(pin as u32)
            },
            None => Err(MappingError::Unknown),
        },
        Node::Sop(_) => Err(MappingError::Unknown),
    }
}

/// Traces `net` to the pin of the device from which it is driven.
///
/// Exactly one node on the net must be an input cell or a macrocell that
/// has a row in `olmcmap`. An input cell leads to the port that is tied to
/// its own input net, and on to the pin that the constraints bind the port
/// to; a port without a pin fails with `MissingConstraint`. A macrocell
/// leads to the pin under which its row is fed back: the row's index plus
/// the device's offset. Every other shape fails with `Unknown`.
pub fn find_hwpin_for_net(
    graph: &Graph,
    pcf: &PcfFile,
    olmcmap: &[Option<NodeIdx>],
    chip: &Chip,
    net: &Net,
) -> (r: Result<u32, MappingError>)
    requires
        olmcmap@.len() == chip.spec_num_olmcs(),
    ensures
        match r {
            Ok(pin) => spec_hwpin(*graph, pcf@, olmcmap@, *chip, *net) == Ok::<
                u32,
                MappingErrorView,
            >(pin),
            Err(e) => spec_hwpin(*graph, pcf@, olmcmap@, *chip, *net) == Err::<
                u32,
                MappingErrorView,
            >(e@),
        },
{
    let mut found: Option<usize> = None;
    let n = graph.nodelist.len();
    let mut i: usize = 0;
    while i < n
        invariant
            n == graph.nodelist@.len(),
            i <= n,
            match found {
                Some(c) => c < i && is_candidate(*graph, olmcmap@, *net, c as int),
                None => true,
            },
            forall|k: int|
                0 <= k < i && #[trigger] is_candidate(*graph, olmcmap@, *net, k) ==> found == Some(
                    k as usize,
                ),
        decreases n - i,
    {
        let node = &graph.nodelist[i];
        let candidate = node.uses_net(net) && match node {
            Node::Input(_) => true,
            Node::Olmc(_) => row_of(olmcmap, i).is_some(),
            Node::Sop(_) => false,
        };
        if candidate {
            if found.is_some() {
                proof {
                    assert(is_candidate(*graph, olmcmap@, *net, i as int));
                    assert(is_candidate(*graph, olmcmap@, *net, found->0 as int));
                }
                return Err(MappingError::Unknown);
            }
            found = Some(i);
        }
        i += 1;
    }
    match found {
        Some(c) => {
            proof {
                let chosen = choose|i: int| is_candidate(*graph, olmcmap@, *net, i);
                assert(is_candidate(*graph, olmcmap@, *net, c as int));
                assert(is_candidate(*graph, olmcmap@, *net, chosen));
            }
            node_pin(graph, pcf, olmcmap, chip, c)
        },
        None => Err(MappingError::Unknown),
    }
}

/// The literal that a code of two characters makes of an input: `10` the
/// input as it is, `01` the input negated, anything else no literal.
pub open spec fn spec_code_literal(c0: char, c1: char, pin: usize) -> Option<Pin> {
    if c0 == '0' && c1 == '1' {
        Some(Pin { pin, neg: true })
    } else if c0 == '1' && c1 == '0' {
        Some(Pin { pin, neg: false })
    } else {
        None
    }
}

/// The literal that a code of two characters makes of the input on `pin`.
pub fn table_seg_to_pin(pin: usize, c0: char, c1: char) -> (r: Option<Pin>)
    ensures
        r == spec_code_literal(c0, c1, pin),
{
    if c0 == '0' && c1 == '1' {
        Some(Pin { pin, neg: true })
    } else if c0 == '1' && c1 == '0' {
        Some(Pin { pin, neg: false })
    } else {
        None
    }
}

/// The literals of one product term, from the codes of its first `upto`
/// inputs: input `k` has its code at characters `2k` and `2k + 1` and its
/// pin at `pins[k]`. Inputs without a literal are left out.
pub open spec fn term_literals(codes: Seq<char>, pins: Seq<usize>, upto: int) -> Seq<Pin>
    decreases upto,
{
    if upto <= 0 {
        Seq::empty()
    } else {
        let before = term_literals(codes, pins, upto - 1);
        match spec_code_literal(codes[2 * (upto - 1)], codes[2 * (upto - 1) + 1], pins[upto - 1]) {
            Some(p) => before.push(p),
            None => before,
        }
    }
}

/// The product terms of a table of `depth` terms over `width` inputs: term
/// `t` is read from the `2 * width` characters that start at
/// `t * 2 * width`.
pub open spec fn spec_decode_table(table: Seq<char>, depth: nat, width: nat, pins: Seq<usize>) -> Seq<
    Seq<Pin>,
> {
    Seq::new(
        depth,
        |t: int| term_literals(table.subrange(t * (2 * width), (t + 1) * (2 * width)), pins, width as int),
    )
}

/// The pins of `nets`, in order. The first net that cannot be traced to a
/// pin fails them all, with that net's error.
pub open spec fn spec_input_pins(
    g: Graph,
    pcf: Map<Seq<char>, u32>,
    rows: Seq<Option<NodeIdx>>,
    chip: Chip,
    nets: Seq<Net>,
) -> Result<Seq<usize>, MappingErrorView> {
    match first_index(nets, |n: Net| spec_hwpin(g, pcf, rows, chip, n) is Err) {
        Some(i) => Err(spec_hwpin(g, pcf, rows, chip, nets[i])->Err_0),
        None => Ok(nets.map_values(|n: Net| spec_hwpin(g, pcf, rows, chip, n)->Ok_0 as usize)),
    }
}

/// The product terms of a sum-of-products cell, over pins of the device.
///
/// The cell must have a port `A` with as many nets as its table has inputs,
/// and the table must have two characters for each input of each term: if
/// not, the netlist is of unexpected shape. The codes of a term stand in
/// the reverse order of the nets on `A`. A table without terms gives no
/// terms, and no net is traced.
pub open spec fn spec_make_term(
    g: Graph,
    pcf: Map<Seq<char>, u32>,
    rows: Seq<Option<NodeIdx>>,
    chip: Chip,
    sop: GalSop,
) -> Result<Seq<Seq<Pin>>, MappingErrorView> {
    let depth = sop.parameters.depth as nat;
    let width = sop.parameters.width as nat;
    let table = sop.parameters.table@;
    match spec_connection(sop.connections@, port_a()) {
        None => Err(MappingErrorView::Unknown),
        Some(inputs) => if inputs.len() != width || table.len() != depth * (2 * width) {
            Err(MappingErrorView::Unknown)
        } else if depth == 0 {
            Ok(Seq::empty())
        } else {
            match spec_input_pins(g, pcf, rows, chip, inputs.reverse()) {
                Err(e) => Err(e),
                Ok(pins) => Ok(spec_decode_table(table, depth, width, pins)),
            }
        },
    }
}

/// The number of decoded product terms is the depth that the cell declares.
pub proof fn lemma_term_count(
    g: Graph,
    pcf: Map<Seq<char>, u32>,
    rows: Seq<Option<NodeIdx>>,
    chip: Chip,
    sop: GalSop,
)
    ensures
        spec_make_term(g, pcf, rows, chip, sop) matches Ok(products) ==> products.len()
            == sop.parameters.depth,
{
}

/// The pins of the inputs of a cell, in the reverse order of `inputs`.
fn input_pins(
    graph: &Graph,
    pcf: &PcfFile,
    olmcmap: &[Option<NodeIdx>],
    chip: &Chip,
    inputs: &Vec<Net>,
) -> (r: Result<Vec<usize>, MappingError>)
    requires
        olmcmap@.len() == chip.spec_num_olmcs(),
    ensures
        match r {
            Ok(pins) => spec_input_pins(*graph, pcf@, olmcmap@, *chip, inputs@.reverse()) == Ok::<
                Seq<usize>,
                MappingErrorView,
            >(pins@) && pins@.len() == inputs@.len(),
            Err(e) => spec_input_pins(*graph, pcf@, olmcmap@, *chip, inputs@.reverse()) == Err::<
                Seq<usize>,
                MappingErrorView,
            >(e@),
        },
{
    let ghost nets = inputs@.reverse();
    let ghost fails = |n: Net| spec_hwpin(*graph, pcf@, olmcmap@, *chip, n) is Err;
    let ghost pin_of = |n: Net| spec_hwpin(*graph, pcf@, olmcmap@, *chip, n)->Ok_0 as usize;
    let width = inputs.len();
    let mut pins: Vec<usize> = Vec::new();
    let mut idx: usize = 0;
    while idx < width
        invariant
            width == inputs@.len(),
            idx <= width,
            olmcmap@.len() == chip.spec_num_olmcs(),
            nets == inputs@.reverse(),
            fails == (|n: Net| spec_hwpin(*graph, pcf@, olmcmap@, *chip, n) is Err),
            pin_of == (|n: Net| spec_hwpin(*graph, pcf@, olmcmap@, *chip, n)->Ok_0 as usize),
            pins@.len() == idx,
            forall|k: int| 0 <= k < idx ==> !fails(#[trigger] nets[k]),
            forall|k: int| 0 <= k < idx ==> pins@[k] == pin_of(#[trigger] nets[k]),
        decreases width - idx,
    {
        let net = &inputs[width - 1 - idx];
        proof {
            assert(nets[idx as int] == *net);
        }
        match find_hwpin_for_net(graph, pcf, olmcmap, chip, net) {
            Ok(pin) => {
                pins.push(pin as usize);
            },
            Err(e) => {
                proof {
                    assert(is_first(nets, fails, idx as int));
                    lemma_first_index_is(nets, fails, idx as int);
                }
                return Err(e);
            },
        }
        idx += 1;
    }
    proof {
        lemma_first_index_none(nets, fails);
        assert(pins@ =~= nets.map_values(pin_of));
    }
    Ok(pins)
}

/// Reads the product terms of a table of `depth` terms over the inputs on
/// `pins`.
fn decode_table(table: &Vec<char>, depth: usize, pins: &Vec<usize>) -> (r: Vec<Vec<Pin>>)
    requires
        table@.len() == depth * (2 * pins@.len()),
    ensures
        products_view(r@) == spec_decode_table(table@, depth as nat, pins@.len() as nat, pins@),
{
    let width = pins.len();
    let len = table.len();
    let ghost w2 = 2 * width as int;
    let mut terms: Vec<Vec<Pin>> = Vec::new();
    let mut base: usize = 0;
    let mut t: usize = 0;
    while t < depth
        invariant
            width == pins@.len(),
            w2 == 2 * width,
            len == table@.len(),
            table@.len() == depth * w2,
            t <= depth,
            base == t * w2,
            terms@.len() == t,
            forall|k: int|
                0 <= k < t ==> (#[trigger] terms@[k])@ == term_literals(
                    table@.subrange(k * w2, (k + 1) * w2),
                    pins@,
                    width as int,
                ),
        decreases depth - t,
    {
        proof {
            lemma_mul_is_distributive_add_other_way(w2, t as int, 1);
            lemma_mul_inequality(t as int + 1, depth as int, w2);
        }
        let ghost codes = table@.subrange(t * w2, (t + 1) * w2);
        let mut pins_of_term: Vec<Pin> = Vec::new();
        let mut idx: usize = 0;
        while idx < width
            invariant
                width == pins@.len(),
                w2 == 2 * width,
                idx <= width,
                len == table@.len(),
                base == t * w2,
                base + w2 == (t + 1) * w2,
                base + w2 <= table@.len(),
                codes == table@.subrange(t * w2, (t + 1) * w2),
                pins_of_term@ == term_literals(codes, pins@, idx as int),
            decreases width - idx,
        {
            let c0 = table[base + 2 * idx];
            let c1 = table[base + 2 * idx + 1];
            proof {
                assert(codes[2 * idx as int] == c0);
                assert(codes[2 * idx as int + 1] == c1);
            }
            if let Some(p) = table_seg_to_pin(pins[idx], c0, c1) {
                pins_of_term.push(p);
            }
            idx += 1;
        }
        terms.push(pins_of_term);
        base = base + 2 * width;
        t += 1;
    }
    proof {
        assert(products_view(terms@) =~= spec_decode_table(
            table@,
            depth as nat,
            width as nat,
            pins@,
        ));
    }
    terms
}

/// Decodes the product terms of a sum-of-products cell and traces each
/// input to a pin of the device.
///
/// The result has as many products as the cell declares terms. Each
/// product lists, in the order of the codes, the literals of the inputs
/// that take part in it.
pub fn make_term_from_sop(
    graph: &Graph,
    pcf: &PcfFile,
    olmcmap: &[Option<NodeIdx>],
    chip: &Chip,
    sop: &GalSop,
) -> (r: Result<Term, MappingError>)
    requires
        olmcmap@.len() == chip.spec_num_olmcs(),
    ensures
        match r {
            Ok(term) => spec_make_term(*graph, pcf@, olmcmap@, *chip, *sop) == Ok::<
                Seq<Seq<Pin>>,
                MappingErrorView,
            >(products_view(term.pins@)) && term.line_num == 0 && term.pins@.len()
                == sop.parameters.depth,
            Err(e) => spec_make_term(*graph, pcf@, olmcmap@, *chip, *sop) == Err::<
                Seq<Seq<Pin>>,
                MappingErrorView,
            >(e@),
        },
{
    let inputs = match connection(&sop.connections, "A") {
        Some(nets) => nets,
        None => {
            return Err(MappingError::Unknown);
        },
    };
    let table = chars_of(sop.parameters.table.as_str());
    let depth = sop.parameters.depth;
    let width = sop.parameters.width;
    if inputs.len() as u128 != width as u128 {
        return Err(MappingError::Unknown);
    }
    assert(depth as u128 * (2 * width as u128) <= 0xffff_ffff * (2 * 0xffff_ffff)) by (nonlinear_arith)
        requires
            depth <= 0xffff_ffff,
            width <= 0xffff_ffff,
    ;
    if table.len() as u128 != depth as u128 * (2 * width as u128) {
        return Err(MappingError::Unknown);
    }
    if depth == 0 {
        let pins: Vec<Vec<Pin>> = Vec::new();
        proof {
            assert(products_view(pins@) =~= Seq::empty());
        }
        return Ok(Term { line_num: 0, pins });
    }
    let pins = match input_pins(graph, pcf, olmcmap, chip, inputs) {
        Ok(pins) => pins,
        Err(e) => {
            return Err(e);
        },
    };
    proof {
        assert(depth as int * (2 * width as int) >= 2 * width as int) by (nonlinear_arith)
            requires
                depth >= 1,
                width >= 0,
        ;
    }
    let terms = decode_table(&table, depth as usize, &pins);
    proof {
        assert(pins@.len() == width);
        assert(products_view(terms@).len() == terms@.len());
    }
    Ok(Term { line_num: 0, pins: terms })
}

/// What the macrocell on row `r` is configured to do, or `None` for a row
/// that is free.
///
/// The products are those of the cell that drives the macrocell. The
/// polarity is the macrocell's own, and so is the mode: registered where it
/// says so, else combinational behind a tristate driver. A row that holds
/// what is no macrocell of the graph is a netlist of unexpected shape.
pub open spec fn spec_row_config(
    g: Graph,
    pcf: Map<Seq<char>, u32>,
    chip: Chip,
    rows: Seq<Option<NodeIdx>>,
    r: int,
) -> Result<Option<OlmcConfigView>, MappingErrorView> {
    match rows[r] {
        None => Ok(None),
        Some(node) => match spec_sop_for_olmc(g, node) {
            Err(e) => Err(e),
            Ok(j) => match spec_make_term(g, pcf, rows, chip, g.nodelist@[j]->Sop_0) {
                Err(e) => Err(e),
                Ok(products) => if node.0 < g.nodelist@.len() && g.nodelist@[node.0 as int] is Olmc {
                    let o = g.nodelist@[node.0 as int]->Olmc_0;
                    Ok(
                        Some(
                            OlmcConfigView {
                                neg: o.parameters.inverted,
                                mode: if o.parameters.registered {
                                    PinMode::Registered
                                } else {
                                    PinMode::Tristate
                                },
                                products,
                            },
                        ),
                    )
                } else {
                    Err(MappingErrorView::Unknown)
                },
            },
        },
    }
}

/// The configurations of all rows, in order. The first row that fails
/// fails them all, with that row's error.
pub open spec fn spec_configs(
    g: Graph,
    pcf: Map<Seq<char>, u32>,
    chip: Chip,
    rows: Seq<Option<NodeIdx>>,
) -> Result<Seq<Option<OlmcConfigView>>, MappingErrorView> {
    match first_index(
        Seq::new(rows.len(), |r: int| r),
        |r: int| spec_row_config(g, pcf, chip, rows, r) is Err,
    ) {
        Some(r) => Err(spec_row_config(g, pcf, chip, rows, r)->Err_0),
        None => Ok(Seq::new(rows.len(), |r: int| spec_row_config(g, pcf, chip, rows, r)->Ok_0)),
    }
}

/// The configuration of the device for a design: the macrocells are placed,
/// and then every row is configured.
pub open spec fn spec_graph_convert(g: Graph, pcf: Map<Seq<char>, u32>, chip: Chip) -> Result<
    Seq<Option<OlmcConfigView>>,
    MappingErrorView,
> {
    match spec_place(g, pcf, chip) {
        Err(e) => Err(e),
        Ok(rows) => spec_configs(g, pcf, chip, rows),
    }
}

/// What the macrocell on row `r` is configured to do.
fn row_config(
    graph: &Graph,
    pcf: &PcfFile,
    olmcmap: &[Option<NodeIdx>],
    chip: &Chip,
    r: usize,
) -> (c: Result<Option<OlmcConfig>, MappingError>)
    requires
        olmcmap@.len() == chip.spec_num_olmcs(),
        r < olmcmap@.len(),
    ensures
        match c {
            Ok(Some(config)) => spec_row_config(*graph, pcf@, *chip, olmcmap@, r as int) == Ok::<
                Option<OlmcConfigView>,
                MappingErrorView,
            >(Some(config@)),
            Ok(None) => spec_row_config(*graph, pcf@, *chip, olmcmap@, r as int) == Ok::<
                Option<OlmcConfigView>,
                MappingErrorView,
            >(None),
            Err(e) => spec_row_config(*graph, pcf@, *chip, olmcmap@, r as int) == Err::<
                Option<OlmcConfigView>,
                MappingErrorView,
            >(e@),
        },
{
    let node = match olmcmap[r] {
        Some(node) => node,
        None => {
            return Ok(None);
        },
    };
    let sop = match get_sop_for_olmc(graph, &node) {
        Ok(sop) => sop,
        Err(e) => {
            return Err(e);
        },
    };
    let term = match make_term_from_sop(graph, pcf, olmcmap, chip, sop) {
        Ok(term) => term,
        Err(e) => {
            return Err(e);
        },
    };
    match graph.get_node(&node) {
        Some(Node::Olmc(o)) => {
            let mode = if o.parameters.registered {
                PinMode::Registered
            } else {
                PinMode::Tristate
            };
            Ok(Some(OlmcConfig { neg: o.parameters.inverted, mode, term }))
        },
        _ => Err(MappingError::Unknown),
    }
}

/// Configures every row of the device: for each row that holds a
/// macrocell, the products of the cell that drives it, with the
/// macrocell's polarity and mode.
pub fn extract_terms(graph: &Graph, pcf: &PcfFile, olmcmap: &[Option<NodeIdx>], chip: &Chip) -> (r:
    Result<Vec<Option<OlmcConfig>>, MappingError>)
    requires
        olmcmap@.len() == chip.spec_num_olmcs(),
    ensures
        match r {
            Ok(configs) => spec_configs(*graph, pcf@, *chip, olmcmap@) == Ok::<
                Seq<Option<OlmcConfigView>>,
                MappingErrorView,
            >(rows_view(configs@)) && configs@.len() == olmcmap@.len(),
            Err(e) => spec_configs(*graph, pcf@, *chip, olmcmap@) == Err::<
                Seq<Option<OlmcConfigView>>,
                MappingErrorView,
            >(e@),
        },
{
    let ghost indices = Seq::new(olmcmap@.len(), |r: int| r);
    let ghost fails = |r: int| spec_row_config(*graph, pcf@, *chip, olmcmap@, r) is Err;
    let mut configs: Vec<Option<OlmcConfig>> = Vec::new();
    let mut idx: usize = 0;
    while idx < olmcmap.len()
        invariant
            idx <= olmcmap.len(),
            olmcmap@.len() == chip.spec_num_olmcs(),
            indices == Seq::new(olmcmap@.len(), |r: int| r),
            fails == (|r: int| spec_row_config(*graph, pcf@, *chip, olmcmap@, r) is Err),
            configs@.len() == idx,
            forall|k: int| 0 <= k < idx ==> !fails(#[trigger] indices[k]),
            forall|k: int|
                0 <= k < idx ==> #[trigger] rows_view(configs@)[k] == spec_row_config(
                    *graph,
                    pcf@,
                    *chip,
                    olmcmap@,
                    k,
                )->Ok_0,
        decreases olmcmap.len() - idx,
    {
        let ghost before = configs@;
        match row_config(graph, pcf, olmcmap, chip, idx) {
            Ok(c) => {
                configs.push(c);
                proof {
                    assert forall|k: int| 0 <= k < idx + 1 implies #[trigger] rows_view(
                        configs@,
                    )[k] == spec_row_config(*graph, pcf@, *chip, olmcmap@, k)->Ok_0 by {
                        if k < idx {
                            assert(rows_view(configs@)[k] == rows_view(before)[k]);
                        }
                    }
                }
            },
            Err(e) => {
                proof {
                    assert(indices[idx as int] == idx);
                    assert(is_first(indices, fails, idx as int));
                    lemma_first_index_is(indices, fails, idx as int);
                }
                return Err(e);
            },
        }
        idx += 1;
    }
    proof {
        lemma_first_index_none(indices, fails);
        assert(rows_view(configs@) =~= Seq::new(
            olmcmap@.len(),
            |r: int| spec_row_config(*graph, pcf@, *chip, olmcmap@, r)->Ok_0,
        ));
    }
    Ok(configs)
}

/// Fits the design of `graph` onto `chip` under the constraints `pcf`.
///
/// Every port must be bound to a pin that the device offers. Every output
/// macrocell gets a row: the row behind its pin where its output is bound
/// to one, else the tightest fit among the rows that stay free. The result
/// holds, for each row of the device, the configuration of the macrocell on
/// it, or `None` for a row that is not in use.
pub fn graph_convert(graph: &Graph, pcf: PcfFile, chip: Chip) -> (r: Result<Blueprint, MappingError>)
    ensures
        match r {
            Ok(bp) => spec_graph_convert(*graph, pcf@, chip) == Ok::<
                Seq<Option<OlmcConfigView>>,
                MappingErrorView,
            >(rows_view(bp.olmcs@)) && bp.chip == chip && bp.olmcs@.len() == chip.spec_num_olmcs(),
            Err(e) => spec_graph_convert(*graph, pcf@, chip) == Err::<
                Seq<Option<OlmcConfigView>>,
                MappingErrorView,
            >(e@),
        },
{
    let olmcmap = match place(graph, &pcf, chip) {
        Ok(rows) => rows,
        Err(e) => {
            return Err(e);
        },
    };
    match extract_terms(graph, &pcf, olmcmap.as_slice(), &chip) {
        Ok(olmcs) => Ok(Blueprint { chip, olmcs }),
        Err(e) => Err(e),
    }
}

/// The code of two characters for what an input does in a product term:
/// `Some(false)` for the input as it is, `Some(true)` for the input
/// negated, `None` for an input that takes no part.
pub open spec fn spec_code(choice: Option<bool>) -> (char, char) {
    match choice {
        Some(false) => ('1', '0'),
        Some(true) => ('0', '1'),
        None => ('0', '0'),
    }
}

/// The characters that encode one product term: the codes of its inputs,
/// one after the other.
pub open spec fn spec_encode_term(choices: Seq<Option<bool>>) -> Seq<char> {
    Seq::new(
        2 * choices.len(),
        |n: int|
            if n % 2 == 0 {
                spec_code(choices[n / 2]).0
            } else {
                spec_code(choices[n / 2]).1
            },
    )
}

/// The characters that encode a table: its product terms, one after the
/// other.
pub open spec fn spec_encode_table(terms: Seq<Seq<Option<bool>>>) -> Seq<char> {
    terms.map_values(|t: Seq<Option<bool>>| spec_encode_term(t)).flatten()
}

/// The literals that the first `upto` choices stand for: one for each
/// input that takes part, on that input's pin.
pub open spec fn spec_literals(choices: Seq<Option<bool>>, pins: Seq<usize>, upto: int) -> Seq<Pin>
    decreases upto,
{
    if upto <= 0 {
        Seq::empty()
    } else {
        let before = spec_literals(choices, pins, upto - 1);
        match choices[upto - 1] {
            Some(neg) => before.push(Pin { pin: pins[upto - 1], neg }),
            None => before,
        }
    }
}

/// Decoding the code of a choice gives the choice back.
pub proof fn lemma_decode_code(choice: Option<bool>, pin: usize)
    ensures
        spec_code_literal(spec_code(choice).0, spec_code(choice).1, pin) == match choice {
            Some(neg) => Some(Pin { pin, neg }),
            None => None,
        },
{
}

/// Decoding an encoded product term gives exactly the literals that were
/// encoded.
pub proof fn lemma_decode_encoded_term(choices: Seq<Option<bool>>, pins: Seq<usize>, upto: int)
    requires
        0 <= upto <= choices.len(),
    ensures
        term_literals(spec_encode_term(choices), pins, upto) == spec_literals(choices, pins, upto),
    decreases upto,
{
    if upto > 0 {
        lemma_decode_encoded_term(choices, pins, upto - 1);
        let k = upto - 1;
        let codes = spec_encode_term(choices);
        assert(codes[2 * k] == spec_code(choices[k]).0);
        assert(codes[2 * k + 1] == spec_code(choices[k]).1);
        lemma_decode_code(choices[k], pins[k]);
    }
}

/// In the concatenation of sequences of one length, each of them is found
/// at its place.
proof fn lemma_flatten_uniform(parts: Seq<Seq<char>>, w: int, t: int)
    requires
        0 <= w,
        forall|i: int| 0 <= i < parts.len() ==> (#[trigger] parts[i]).len() == w,
        0 <= t < parts.len(),
    ensures
        parts.flatten().len() == parts.len() * w,
        0 <= t * w <= (t + 1) * w <= parts.flatten().len(),
        parts.flatten().subrange(t * w, (t + 1) * w) == parts[t],
    decreases parts.len(),
{
    let rest = parts.drop_first();
    assert(parts.flatten() == parts.first() + rest.flatten());
    if rest.len() > 0 {
        assert forall|i: int| 0 <= i < rest.len() implies (#[trigger] rest[i]).len() == w by {
            assert(rest[i] == parts[i + 1]);
        }
        lemma_flatten_uniform(rest, w, if t > 0 {
            t - 1
        } else {
            0
        });
    } else {
        assert(rest.flatten() =~= Seq::empty());
    }
    assert(parts.len() * w == w + rest.len() * w) by (nonlinear_arith)
        requires
            parts.len() == rest.len() + 1,
    ;
    assert(t * w + w == (t + 1) * w) by (nonlinear_arith);
    assert(0 <= t * w) by (nonlinear_arith)
        requires
            0 <= t,
            0 <= w,
    ;
    assert((t + 1) * w <= parts.len() * w) by (nonlinear_arith)
        requires
            t + 1 <= parts.len(),
            0 <= w,
    ;
    if t == 0 {
        assert(parts.flatten().subrange(0, w) =~= parts[0]);
    } else {
        assert((t - 1) * w + w == t * w) by (nonlinear_arith);
        assert(rest[t - 1] == parts[t]);
        assert(parts.flatten().subrange(t * w, (t + 1) * w) =~= rest.flatten().subrange(
            (t - 1) * w,
            t * w,
        ));
    }
}

/// Decoding a table that encodes known choices gives, term by term,
/// exactly the literals that were encoded, and as many terms as were
/// encoded.
pub proof fn lemma_decode_encoded_table(terms: Seq<Seq<Option<bool>>>, width: nat, pins: Seq<usize>)
    requires
        forall|t: int| 0 <= t < terms.len() ==> (#[trigger] terms[t]).len() == width,
    ensures
        spec_encode_table(terms).len() == terms.len() * (2 * width),
        spec_decode_table(spec_encode_table(terms), terms.len(), width, pins).len() == terms.len(),
        forall|t: int|
            0 <= t < terms.len() ==> #[trigger] spec_decode_table(
                spec_encode_table(terms),
                terms.len(),
                width,
                pins,
            )[t] == spec_literals(terms[t], pins, width as int),
{
    let parts = terms.map_values(|t: Seq<Option<bool>>| spec_encode_term(t));
    let table = spec_encode_table(terms);
    let w = 2 * width as int;
    if terms.len() == 0 {
        assert(parts.flatten() =~= Seq::empty());
        assert(terms.len() * (2 * width) == 0) by (nonlinear_arith)
            requires
                terms.len() == 0,
        ;
    } else {
        lemma_flatten_uniform(parts, w, 0);
    }
    assert forall|t: int| 0 <= t < terms.len() implies #[trigger] spec_decode_table(
        table,
        terms.len(),
        width,
        pins,
    )[t] == spec_literals(terms[t], pins, width as int) by {
        lemma_flatten_uniform(parts, w, t);
        assert(table.subrange(t * w, (t + 1) * w) == spec_encode_term(terms[t]));
        lemma_decode_encoded_term(terms[t], pins, width as int);
    }
}

} // verus!
