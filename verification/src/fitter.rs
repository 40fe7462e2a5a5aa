//! Fitting a netlist graph onto a device.
//!
//! Every output macrocell of the graph is given a row of the device: first
//! those whose output is bound to a pin, on the row behind that pin, then
//! the others, each on the smallest free row that is large enough. For every
//! row in use the product terms of its macrocell are decoded, with every
//! input traced to a pin of the device.

use crate::chips::Chip;
use crate::graph::{covered, shares, Graph};
use crate::yosys_parser::{
    port_a, port_y, spec_node_label, GalSop, NamedPort, NamedPortView, Net, Node, NodeIdx,
};
use vstd::prelude::*;

pub use crate::placement::{check_constraints, place, unused_rows};
pub use crate::terms::{
    extract_terms, find_hwpin_for_net, graph_convert, make_term_from_sop, table_seg_to_pin,
};

verus! {

/// Why a design could not be fitted.
#[derive(Debug)]
pub enum MappingError {
    /// The macrocell named here has no output net.
    OLMCMissingOutput(String),
    /// The port has no pin, or a pin that the device does not offer.
    MissingConstraint(NamedPort),
    /// No sum-of-products cell drives the macrocell.
    MissingSOP,
    /// No free row is large enough for the macrocell named here, which
    /// needs more than the given number of product terms.
    SopTooBig(String, usize),
    /// Two macrocells are bound to the row given here.
    PlacementConflict(usize),
    /// The netlist is not of the expected shape.
    Unknown,
}

/// What a [`MappingError`] holds, as plain values.
pub enum MappingErrorView {
    OLMCMissingOutput(Seq<char>),
    MissingConstraint(NamedPortView),
    MissingSOP,
    SopTooBig(Seq<char>, usize),
    PlacementConflict(usize),
    Unknown,
}

impl View for MappingError {
    type V = MappingErrorView;

    open spec fn view(&self) -> MappingErrorView {
        match *self {
            MappingError::OLMCMissingOutput(name) => MappingErrorView::OLMCMissingOutput(name@),
            MappingError::MissingConstraint(port) => MappingErrorView::MissingConstraint(port@),
            MappingError::MissingSOP => MappingErrorView::MissingSOP,
            MappingError::SopTooBig(name, size) => MappingErrorView::SopTooBig(name@, size),
            MappingError::PlacementConflict(row) => MappingErrorView::PlacementConflict(row),
            MappingError::Unknown => MappingErrorView::Unknown,
        }
    }
}

/// A literal of a product term: a pin of the device, plain or negated.
#[derive(Clone, Copy, Debug, PartialEq, Eq, Structural)]
pub struct Pin {
    pub pin: usize,
    pub neg: bool,
}

/// A sum of products: each inner list is one product of literals.
#[derive(Clone, Debug, PartialEq)]
pub struct Term {
    pub line_num: u32,
    pub pins: Vec<Vec<Pin>>,
}

/// The products of a list of terms, as plain values.
pub open spec fn products_view(pins: Seq<Vec<Pin>>) -> Seq<Seq<Pin>> {
    pins.map_values(|t: Vec<Pin>| t@)
}

/// How a macrocell drives its pin.
#[derive(Clone, Copy, Debug, PartialEq, Eq, Structural)]
pub enum PinMode {
    Combinatorial,
    Tristate,
    Registered,
}

/// The configuration of one row of the device.
#[derive(Clone, Debug, PartialEq)]
pub struct OlmcConfig {
    /// The output is driven with inverted polarity.
    pub neg: bool,
    /// Clocked, or combinational behind a tristate driver.
    pub mode: PinMode,
    /// The sum of products that the macrocell computes.
    pub term: Term,
}

/// What an [`OlmcConfig`] holds, as plain values.
pub struct OlmcConfigView {
    pub neg: bool,
    pub mode: PinMode,
    pub products: Seq<Seq<Pin>>,
}

impl View for OlmcConfig {
    type V = OlmcConfigView;

    open spec fn view(&self) -> OlmcConfigView {
        OlmcConfigView { neg: self.neg, mode: self.mode, products: products_view(self.term.pins@) }
    }
}

/// The configuration of a device: for each row, what its macrocell does,
/// or `None` for a row that is not in use.
#[derive(Debug)]
pub struct Blueprint {
    pub chip: Chip,
    pub olmcs: Vec<Option<OlmcConfig>>,
}

/// The rows of a blueprint, as plain values.
pub open spec fn rows_view(olmcs: Seq<Option<OlmcConfig>>) -> Seq<Option<OlmcConfigView>> {
    olmcs.map_values(
        |o: Option<OlmcConfig>|
            match o {
                Some(c) => Some(c@),
                None => None,
            },
    )
}

/// The pins of the device that a signal can be bound to.
pub open spec fn spec_valid_inputs(chip: Chip) -> Seq<u32> {
    match chip {
        Chip::GAL16V8 => seq![1u32, 2, 3, 4, 5, 6, 7, 8, 9, 11, 12, 13, 14, 15, 16, 17, 18, 19],
        Chip::GAL22V10 => seq![
            1u32,
            2,
            3,
            4,
            5,
            6,
            7,
            8,
            9,
            10,
            11,
            13,
            14,
            15,
            16,
            17,
            18,
            19,
            20,
            21,
            22,
            23,
        ],
    }
}

/// The pin number under which the output of row 0 is fed back as an input;
/// later rows follow one by one.
pub open spec fn spec_olmc_offset(chip: Chip) -> usize {
    match chip {
        Chip::GAL16V8 => 12,
        Chip::GAL22V10 => 14,
    }
}

/// The pin number under which the output of row 0 is fed back as an input.
pub fn chip_to_olmc_offset(chip: &Chip) -> (r: usize)
    ensures
        r == spec_olmc_offset(*chip),
{
    match chip {
        Chip::GAL16V8 => 12,
        Chip::GAL22V10 => 14,
    }
}

/// The pins of the device that a signal can be bound to.
pub fn valid_inputs(chip: Chip) -> (r: Vec<u32>)
    ensures
        r@ == spec_valid_inputs(chip),
{
    match chip {
        Chip::GAL16V8 => {
            let v = vec![1u32, 2, 3, 4, 5, 6, 7, 8, 9, 11, 12, 13, 14, 15, 16, 17, 18, 19];
            assert(v@ =~= spec_valid_inputs(chip));
            v
        },
        Chip::GAL22V10 => {
            let v = vec![
                1u32,
                2,
                3,
                4,
                5,
                6,
                7,
                8,
                9,
                10,
                11,
                13,
                14,
                15,
                16,
                17,
                18,
                19,
                20,
                21,
                22,
                23,
            ];
            assert(v@ =~= spec_valid_inputs(chip));
            v
        },
    }
}

/// The node whose output edge `k` of the graph ties to the input of
/// macrocell `olmc`: the edge has port `A` of `olmc` at one end and, at the
/// other, port `Y` of a sum-of-products cell.
pub open spec fn edge_driver(g: Graph, olmc: NodeIdx, k: int) -> Option<int> {
    let e = g.adjlist@[k];
    match e.spec_get_other(olmc) {
        Some((other, port)) => if e.spec_uses_nodeport(olmc, port_a()) && port == port_y()
            && other.0 < g.nodelist@.len() && g.nodelist@[other.0 as int] is Sop {
            Some(other.0 as int)
        } else {
            None
        },
        None => None,
    }
}

/// Node `j` drives macrocell `olmc`: some edge ties its output to the
/// macrocell's input.
pub open spec fn is_driver(g: Graph, olmc: NodeIdx, j: int) -> bool {
    exists|k: int| 0 <= k < g.adjlist@.len() && #[trigger] edge_driver(g, olmc, k) == Some(j)
}

/// The sum-of-products cell that drives macrocell `olmc`: the one node that
/// drives it. No driver at all is a missing cell; two different drivers are
/// a netlist of unexpected shape.
pub open spec fn spec_sop_for_olmc(g: Graph, olmc: NodeIdx) -> Result<int, MappingErrorView> {
    if !exists|j: int| is_driver(g, olmc, j) {
        Err(MappingErrorView::MissingSOP)
    } else if exists|j1: int, j2: int| is_driver(g, olmc, j1) && is_driver(g, olmc, j2) && j1 != j2 {
        Err(MappingErrorView::Unknown)
    } else {
        Ok(choose|j: int| is_driver(g, olmc, j))
    }
}

/// The sum-of-products cell that drives the macrocell at `olmc_idx`.
///
/// Fails with `MissingSOP` where no edge ties the output of such a cell to
/// the macrocell's input, and with `Unknown` where two different cells
/// drive it.
pub fn get_sop_for_olmc<'a>(graph: &'a Graph, olmc_idx: &NodeIdx) -> (r: Result<
    &'a GalSop,
    MappingError,
>)
    ensures
        match r {
            Ok(sop) => spec_sop_for_olmc(*graph, *olmc_idx) matches Ok(j) && 0 <= j
                < graph.nodelist@.len() && graph.nodelist@[j] == Node::Sop(*sop),
            Err(e) => spec_sop_for_olmc(*graph, *olmc_idx) == Err::<int, MappingErrorView>(e@),
        },
{
    let mut found: Option<usize> = None;
    let mut k: usize = 0;
    while k < graph.adjlist.len()
        invariant
            k <= graph.adjlist.len(),
            match found {
                Some(j) => is_driver(*graph, *olmc_idx, j as int) && j < graph.nodelist@.len()
                    && graph.nodelist@[j as int] is Sop,
                None => true,
            },
            forall|m: int|
                0 <= m < k ==> (#[trigger] edge_driver(*graph, *olmc_idx, m) matches Some(j)
                    ==> found == Some(j as usize)),
        decreases graph.adjlist.len() - k,
    {
        let e = &graph.adjlist[k];
        if e.uses_nodeport(olmc_idx, "A") {
            if let Some((other, port)) = e.get_other(olmc_idx) {
                if crate::text::str_eq(port, "Y") && other.0 < graph.nodelist.len() {
                    if let Node::Sop(_) = &graph.nodelist[other.0] {
                        proof {
                            assert(edge_driver(*graph, *olmc_idx, k as int) == Some(other.0 as int));
                        }
                        match found {
                            None => {
                                found = Some(other.0);
                            },
                            Some(j) => {
                                if j != other.0 {
                                    proof {
                                        assert(is_driver(*graph, *olmc_idx, j as int));
                                        assert(is_driver(*graph, *olmc_idx, other.0 as int));
                                    }
                                    return Err(MappingError::Unknown);
                                }
                            },
                        }
                    }
                }
            }
        }
        k += 1;
    }
    match found {
        None => {
            proof {
                assert forall|j: int| !is_driver(*graph, *olmc_idx, j) by {
                    if is_driver(*graph, *olmc_idx, j) {
                        let m = choose|m: int|
                            0 <= m < graph.adjlist@.len() && #[trigger] edge_driver(
                                *graph,
                                *olmc_idx,
                                m,
                            ) == Some(j);
                        assert(edge_driver(*graph, *olmc_idx, m) is Some);
                    }
                }
            }
            Err(MappingError::MissingSOP)
        },
        Some(j) => {
            proof {
                lemma_only_driver(*graph, *olmc_idx, j as int);
            }
            match &graph.nodelist[j] {
                Node::Sop(s) => Ok(s),
                _ => vstd::pervasive::unreached(),
            }
        },
    }
}

/// A driver besides which every edge leads to no other is the driver that
/// the search gives.
proof fn lemma_only_driver(g: Graph, olmc: NodeIdx, j: int)
    requires
        is_driver(g, olmc, j),
        forall|m: int|
            0 <= m < g.adjlist@.len() ==> (#[trigger] edge_driver(g, olmc, m) matches Some(j2)
                ==> j2 == j),
    ensures
        spec_sop_for_olmc(g, olmc) == Ok::<int, MappingErrorView>(j),
{
    assert forall|j2: int| is_driver(g, olmc, j2) implies j2 == j by {
        let m = choose|m: int|
            0 <= m < g.adjlist@.len() && #[trigger] edge_driver(g, olmc, m) == Some(j2);
        assert(edge_driver(g, olmc, m) == Some(j2));
    }
    let c = choose|j: int| is_driver(g, olmc, j);
    assert(is_driver(g, olmc, c));
}

/// Entry `k` of `unused` is a row that holds more than `need` product
/// terms.
pub open spec fn fits(unused: Seq<(usize, usize)>, need: usize, k: int) -> bool {
    0 <= k < unused.len() && unused[k].1 > need
}

/// Entry `k` of `unused` is the tightest fit for `need` product terms: no
/// row that fits is smaller, and none of the same size comes before it.
pub open spec fn is_best_fit(unused: Seq<(usize, usize)>, need: usize, k: int) -> bool {
    &&& fits(unused, need, k)
    &&& forall|m: int| #[trigger]
        fits(unused, need, m) ==> unused[k].1 <= unused[m].1 && (unused[m].1 == unused[k].1 ==> k
            <= m)
}

/// The entry of `unused` that is the tightest fit for `need` product terms,
/// if any row fits.
pub open spec fn spec_best_fit(unused: Seq<(usize, usize)>, need: usize) -> Option<int> {
    if exists|k: int| is_best_fit(unused, need, k) {
        Some(choose|k: int| is_best_fit(unused, need, k))
    } else {
        None
    }
}

/// The tightest fit is the one entry that `spec_best_fit` gives.
pub proof fn lemma_best_fit_is(unused: Seq<(usize, usize)>, need: usize, k: int)
    requires
        is_best_fit(unused, need, k),
    ensures
        spec_best_fit(unused, need) == Some(k),
{
    let c = choose|k: int| is_best_fit(unused, need, k);
    assert(is_best_fit(unused, need, c));
    assert(fits(unused, need, k));
    assert(fits(unused, need, c));
}

/// Where no row fits there is no tightest fit.
pub proof fn lemma_best_fit_none(unused: Seq<(usize, usize)>, need: usize)
    requires
        forall|m: int| !fits(unused, need, m),
    ensures
        spec_best_fit(unused, need) is None,
{
    assert forall|k: int| !is_best_fit(unused, need, k) by {
        assert(!fits(unused, need, k));
    }
}

/// The row chosen for a macrocell is tight: no unused row holds more
/// product terms than are needed and fewer than the chosen row. And where
/// none is chosen, no unused row holds more than are needed.
pub proof fn lemma_best_fit_tight(unused: Seq<(usize, usize)>, need: usize)
    ensures
        match spec_best_fit(unused, need) {
            Some(k) => 0 <= k < unused.len() && unused[k].1 > need && forall|m: int|
                0 <= m < unused.len() ==> !(need < (#[trigger] unused[m]).1 < unused[k].1),
            None => forall|m: int| 0 <= m < unused.len() ==> (#[trigger] unused[m]).1 <= need,
        },
{
    match spec_best_fit(unused, need) {
        Some(k) => {
            assert(is_best_fit(unused, need, k));
            assert forall|m: int| 0 <= m < unused.len() implies !(need < (#[trigger] unused[m]).1
                < unused[k].1) by {
                if need < unused[m].1 {
                    assert(fits(unused, need, m));
                }
            }
        },
        None => {
            assert forall|m: int| 0 <= m < unused.len() implies (#[trigger] unused[m]).1
                <= need by {
                if unused[m].1 > need {
                    assert(fits(unused, need, m));
                    lemma_fit_has_best(unused, need, unused.len() as int);
                    let k = choose|k: int| best_in_prefix(unused, need, k, unused.len() as int);
                    assert(is_best_fit(unused, need, k));
                }
            }
        },
    }
}

/// Entry `k` is the tightest fit among the first `upto` entries of
/// `unused`.
pub open spec fn best_in_prefix(unused: Seq<(usize, usize)>, need: usize, k: int, upto: int) -> bool {
    &&& 0 <= k < upto
    &&& fits(unused, need, k)
    &&& forall|n: int|
        0 <= n < upto && #[trigger] fits(unused, need, n) ==> unused[k].1 <= unused[n].1 && (
        unused[n].1 == unused[k].1 ==> k <= n)
}

/// Among the first `upto` entries either none fits or one is the tightest
/// fit.
proof fn lemma_fit_has_best(unused: Seq<(usize, usize)>, need: usize, upto: int)
    requires
        0 <= upto <= unused.len(),
    ensures
        (forall|n: int| 0 <= n < upto ==> !#[trigger] fits(unused, need, n)) || (exists|k: int|
            best_in_prefix(unused, need, k, upto)),
    decreases upto,
{
    if upto > 0 {
        lemma_fit_has_best(unused, need, upto - 1);
        let last = upto - 1;
        if exists|k: int| best_in_prefix(unused, need, k, last) {
            let k0 = choose|k: int| best_in_prefix(unused, need, k, last);
            if fits(unused, need, last) && unused[last].1 < unused[k0].1 {
                assert(best_in_prefix(unused, need, last, upto));
            } else {
                assert(best_in_prefix(unused, need, k0, upto));
            }
        } else {
            if fits(unused, need, last) {
                assert(best_in_prefix(unused, need, last, upto));
            }
        }
    }
}

/// The row that a macrocell which is bound to no pin gets: of the unused
/// rows that hold more product terms than its driving cell has, the
/// smallest, and of several of that size the first in `unused`.
pub open spec fn spec_map_remaining(g: Graph, olmc: NodeIdx, unused: Seq<(usize, usize)>) -> Result<
    (usize, usize),
    MappingErrorView,
> {
    match spec_sop_for_olmc(g, olmc) {
        Err(e) => Err(e),
        Ok(j) => {
            let need = g.nodelist@[j]->Sop_0.parameters.depth as usize;
            match spec_best_fit(unused, need) {
                Some(k) => Ok(unused[k]),
                None => Err(MappingErrorView::SopTooBig(spec_node_label(olmc.0 as nat), need)),
            }
        },
    }
}

/// Chooses a row for the macrocell `olmc`, which is bound to no pin, among
/// the rows of `unused`, each given by its index and its size.
///
/// The row has to hold more product terms than the cell that drives the
/// macrocell has. Of the rows that do, the smallest is chosen, and of
/// several of that size the first. Where none does, the error is
/// `SopTooBig` with the macrocell's label and the number of terms needed.
pub fn map_remaining_olmc(graph: &Graph, olmc: NodeIdx, unused: &Vec<(usize, usize)>) -> (r: Result<
    (usize, usize),
    MappingError,
>)
    ensures
        match r {
            Ok(row) => spec_map_remaining(*graph, olmc, unused@) == Ok::<
                (usize, usize),
                MappingErrorView,
            >(row),
            Err(e) => spec_map_remaining(*graph, olmc, unused@) == Err::<
                (usize, usize),
                MappingErrorView,
            >(e@),
        },
{
    let sop = match get_sop_for_olmc(graph, &olmc) {
        Ok(sop) => sop,
        Err(e) => {
            return Err(e);
        },
    };
    let sopsize: usize = sop.parameters.depth as usize;
    let mut chosen: Option<usize> = None;
    let mut k: usize = 0;
    while k < unused.len()
        invariant
            k <= unused.len(),
            match chosen {
                Some(c) => c < k && fits(unused@, sopsize, c as int) && forall|m: int|
                    0 <= m < k && #[trigger] fits(unused@, sopsize, m) ==> unused@[c as int].1
                        <= unused@[m].1 && (unused@[m].1 == unused@[c as int].1 ==> c <= m),
                None => forall|m: int| 0 <= m < k ==> !#[trigger] fits(unused@, sopsize, m),
            },
        decreases unused.len() - k,
    {
        let size = unused[k].1;
        match chosen {
            None => {
                if size > sopsize {
                    chosen = Some(k);
                }
            },
            Some(c) => {
                if size < unused[c].1 && size > sopsize {
                    chosen = Some(k);
                }
            },
        }
        k += 1;
    }
    match chosen {
        Some(c) => {
            proof {
                assert(is_best_fit(unused@, sopsize, c as int));
                lemma_best_fit_is(unused@, sopsize, c as int);
            }
            Ok(unused[c])
        },
        None => {
            proof {
                lemma_best_fit_none(unused@, sopsize);
            }
            Err(MappingError::SopTooBig(olmc.to_string(), sopsize))
        },
    }
}

/// The row that is chosen for a macrocell is one of the unused rows.
pub proof fn lemma_map_remaining_row(g: Graph, olmc: NodeIdx, unused: Seq<(usize, usize)>)
    ensures
        spec_map_remaining(g, olmc, unused) matches Ok(row) ==> unused.contains(row),
{
    if let Ok(j) = spec_sop_for_olmc(g, olmc) {
        let need = g.nodelist@[j]->Sop_0.parameters.depth as usize;
        if let Some(k) = spec_best_fit(unused, need) {
            assert(is_best_fit(unused, need, k));
            assert(unused[k] == unused[k]);
        }
    }
}

/// The row that a waiting macrocell gets is tight: it is one of the unused
/// rows, it holds more product terms than the driving cell has, and no
/// unused row holds more than that cell has and fewer than the row that was
/// chosen.
pub proof fn lemma_map_remaining_tight(g: Graph, olmc: NodeIdx, unused: Seq<(usize, usize)>)
    ensures
        spec_map_remaining(g, olmc, unused) matches Ok(row) ==> {
            let need = g.nodelist@[spec_sop_for_olmc(g, olmc)->Ok_0]->Sop_0.parameters.depth;
            &&& unused.contains(row)
            &&& row.1 > need
            &&& forall|m: int| 0 <= m < unused.len() ==> !(need < (#[trigger] unused[m]).1 < row.1)
        },
{
    lemma_map_remaining_row(g, olmc, unused);
    if let Ok(j) = spec_sop_for_olmc(g, olmc) {
        let need = g.nodelist@[j]->Sop_0.parameters.depth as usize;
        lemma_best_fit_tight(unused, need);
    }
}

/// In a graph whose adjacency is valid, the cells that drive a macrocell are
/// the sum-of-products cells that have on their port `Y` a numbered net
/// which the macrocell has on its port `A`.
pub proof fn lemma_driver_shares_net(g: Graph, olmc: NodeIdx, j: int)
    requires
        g.adjacency_valid(),
    ensures
        is_driver(g, olmc, j) <==> (0 <= j < g.nodelist@.len() && g.nodelist@[j] is Sop && exists|
            net: Net,
        | #[trigger] shares(g.nodelist@, net, olmc.0 as int, port_a(), j, port_y())),
{
    if is_driver(g, olmc, j) {
        let k = choose|k: int|
            0 <= k < g.adjlist@.len() && #[trigger] edge_driver(g, olmc, k) == Some(j);
        let e = g.adjlist@[k];
        assert(shares(
            g.nodelist@,
            e.net,
            e.idx1.0 as int,
            e.port1@,
            e.idx2.0 as int,
            e.port2@,
        ));
        assert(shares(g.nodelist@, e.net, olmc.0 as int, port_a(), j, port_y()));
    }
    if 0 <= j < g.nodelist@.len() && g.nodelist@[j] is Sop && exists|net: Net| #[trigger]
        shares(g.nodelist@, net, olmc.0 as int, port_a(), j, port_y()) {
        let net = choose|net: Net| #[trigger]
            shares(g.nodelist@, net, olmc.0 as int, port_a(), j, port_y());
        assert(covered(g.adjlist@, net, olmc.0 as int, port_a(), j, port_y()));
        let k = choose|k: int|
            0 <= k < g.adjlist@.len() && (#[trigger] g.adjlist@[k]).joins(
                net,
                olmc.0 as int,
                port_a(),
                j,
                port_y(),
            );
        assert(edge_driver(g, olmc, k) == Some(j));
    }
}

} // verus!
