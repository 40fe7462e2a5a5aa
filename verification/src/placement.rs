//! Placement: which row of the device each output macrocell gets.

use crate::chips::Chip;
use crate::fitter::{
    map_remaining_olmc, spec_map_remaining, spec_valid_inputs, valid_inputs, MappingError,
    MappingErrorView,
};
use crate::graph::{spec_find_port, Graph};
use crate::pcf::PcfFile;
use crate::seq_util::{first_index, is_first, lemma_first_index_is, lemma_first_index_none};
use crate::yosys_parser::{
    connection, port_y, spec_connection, spec_lookup, spec_node_label, NamedPort, Net, Node, NodeIdx,
};
use vstd::prelude::*;

verus! {

/// The constraints bind `port` to a pin that the device offers.
pub open spec fn port_admissible(pcf: Map<Seq<char>, u32>, chip: Chip, port: NamedPort) -> bool {
    spec_lookup(pcf, port.name@) matches Some(pin) && spec_valid_inputs(chip).contains(pin)
}

/// Whether every port is bound to a pin that the device offers; if not,
/// the first port that is not.
pub open spec fn spec_check_constraints(
    ports: Seq<NamedPort>,
    pcf: Map<Seq<char>, u32>,
    chip: Chip,
) -> Result<(), MappingErrorView> {
    match first_index(ports, |p: NamedPort| !port_admissible(pcf, chip, p)) {
        Some(i) => Err(MappingErrorView::MissingConstraint(ports[i]@)),
        None => Ok(()),
    }
}

/// Whether `pin` is among `pins`.
fn pins_contain(pins: &Vec<u32>, pin: u32) -> (r: bool)
    ensures
        r == pins@.contains(pin),
{
    let mut i: usize = 0;
    while i < pins.len()
        invariant
            i <= pins.len(),
            forall|j: int| 0 <= j < i ==> pins@[j] != pin,
        decreases pins.len() - i,
    {
        if pins[i] == pin {
            return true;
        }
        i += 1;
    }
    false
}

/// Checks that the constraints bind every port of the design to a pin that
/// the device offers. The first port that has no pin, or a pin that the
/// device lacks, fails the check with `MissingConstraint`.
pub fn check_constraints(graph: &Graph, pcf: &PcfFile, chip: Chip) -> (r: Result<(), MappingError>)
    ensures
        match r {
            Ok(()) => spec_check_constraints(graph.ports@, pcf@, chip) is Ok,
            Err(e) => spec_check_constraints(graph.ports@, pcf@, chip) == Err::<
                (),
                MappingErrorView,
            >(e@),
        },
{
    let valid_inp = valid_inputs(chip);
    let ghost bad = |p: NamedPort| !port_admissible(pcf@, chip, p);
    let mut i: usize = 0;
    while i < graph.ports.len()
        invariant
            i <= graph.ports.len(),
            valid_inp@ == spec_valid_inputs(chip),
            bad == (|p: NamedPort| !port_admissible(pcf@, chip, p)),
            forall|j: int| 0 <= j < i ==> !bad(#[trigger] graph.ports@[j]),
        decreases graph.ports.len() - i,
    {
        let port = &graph.ports[i];
        let admissible = match port.lookup(pcf) {
            Some(pin) => pins_contain(&valid_inp, pin),
            None => false,
        };
        if !admissible {
            proof {
                assert(is_first(graph.ports@, bad, i as int));
                lemma_first_index_is(graph.ports@, bad, i as int);
            }
            return Err(MappingError::MissingConstraint(port.duplicate()));
        }
        i += 1;
    }
    proof {
        lemma_first_index_none(graph.ports@, bad);
    }
    Ok(())
}

/// The rows of the device with the macrocell on each, and the macrocells
/// that wait for a row.
pub struct Placement {
    pub rows: Seq<Option<NodeIdx>>,
    pub deferred: Seq<NodeIdx>,
}

/// The output net of a cell: the first net on its port `Y`.
pub open spec fn spec_output_net(node: Node) -> Option<Net> {
    match spec_connection(node.spec_connections(), port_y()) {
        Some(nets) => if nets.len() > 0 {
            Some(nets[0])
        } else {
            None
        },
        None => None,
    }
}

/// The row that the constraints give to the macrocell at `i`, or `None`
/// where its output is tied to no port of the design.
///
/// The macrocell must have an output net. Where a port is tied to that
/// net, the port must be bound to a pin, and the pin must be backed by a
/// macrocell of the device.
pub open spec fn spec_direct_row(g: Graph, pcf: Map<Seq<char>, u32>, chip: Chip, i: int) -> Result<
    Option<usize>,
    MappingErrorView,
> {
    match spec_output_net(g.nodelist@[i]) {
        None => Err(MappingErrorView::OLMCMissingOutput(spec_node_label(i as nat))),
        Some(n) => match spec_find_port(g.ports@, n) {
            None => Ok(None),
            Some(pi) => match spec_lookup(pcf, g.ports@[pi].name@) {
                None => Err(MappingErrorView::MissingConstraint(g.ports@[pi]@)),
                Some(pin) => match chip.spec_pin_to_olmc(pin as int) {
                    None => Err(MappingErrorView::Unknown),
                    Some(row) => Ok(Some(row)),
                },
            },
        },
    }
}

/// The placement after node `i` has been looked at. A node that is no
/// macrocell changes nothing. A macrocell with a row of its own takes it,
/// unless the row is taken: that is a conflict. A macrocell without one
/// joins those that wait.
pub open spec fn spec_place_step(
    g: Graph,
    pcf: Map<Seq<char>, u32>,
    chip: Chip,
    st: Placement,
    i: int,
) -> Result<Placement, MappingErrorView> {
    if !(g.nodelist@[i] is Olmc) {
        Ok(st)
    } else {
        match spec_direct_row(g, pcf, chip, i) {
            Err(e) => Err(e),
            Ok(None) => Ok(
                Placement { rows: st.rows, deferred: st.deferred.push(NodeIdx(i as usize)) },
            ),
            Ok(Some(row)) => if st.rows[row as int] is Some {
                Err(MappingErrorView::PlacementConflict(row))
            } else {
                Ok(
                    Placement {
                        rows: st.rows.update(row as int, Some(NodeIdx(i as usize))),
                        deferred: st.deferred,
                    },
                )
            },
        }
    }
}

/// The placement after the first `upto` nodes have been looked at in
/// order, starting from a device with every row free. The first failure
/// ends it.
pub open spec fn spec_place_direct(g: Graph, pcf: Map<Seq<char>, u32>, chip: Chip, upto: int) -> Result<
    Placement,
    MappingErrorView,
>
    decreases upto,
{
    if upto <= 0 {
        Ok(
            Placement {
                rows: Seq::new(chip.spec_num_olmcs(), |r: int| None::<NodeIdx>),
                deferred: Seq::empty(),
            },
        )
    } else {
        match spec_place_direct(g, pcf, chip, upto - 1) {
            Err(e) => Err(e),
            Ok(st) => spec_place_step(g, pcf, chip, st, upto - 1),
        }
    }
}

/// The first net on port `Y` of a macrocell.
fn output_net(node: &Node) -> (r: Option<Net>)
    ensures
        r == spec_output_net(*node),
{
    match connection(node.get_connections(), "Y") {
        Some(nets) => if nets.len() > 0 {
            Some(nets[0])
        } else {
            None
        },
        None => None,
    }
}

/// The row that the constraints give to the macrocell at `i`.
fn direct_row(graph: &Graph, pcf: &PcfFile, chip: Chip, i: usize) -> (r: Result<
    Option<usize>,
    MappingError,
>)
    requires
        i < graph.nodelist@.len(),
    ensures
        match r {
            Ok(row) => spec_direct_row(*graph, pcf@, chip, i as int) == Ok::<
                Option<usize>,
                MappingErrorView,
            >(row),
            Err(e) => spec_direct_row(*graph, pcf@, chip, i as int) == Err::<
                Option<usize>,
                MappingErrorView,
            >(e@),
        },
{
    let n = match output_net(&graph.nodelist[i]) {
        Some(n) => n,
        None => {
            return Err(MappingError::OLMCMissingOutput(NodeIdx(i).to_string()));
        },
    };
    match graph.find_port(&n) {
        None => Ok(None),
        Some(port) => {
            let pin = match port.lookup(pcf) {
                Some(pin) => pin,
                None => {
                    return Err(MappingError::MissingConstraint(port.duplicate()));
                },
            };
            match chip.pin_to_olmc(pin as usize) {
                Some(row) => Ok(Some(row)),
                None => Err(MappingError::Unknown),
            }
        },
    }
}

/// Every row of a placement that went well so far is a row of the device.
pub proof fn lemma_place_direct_rows(g: Graph, pcf: Map<Seq<char>, u32>, chip: Chip, upto: int)
    ensures
        spec_place_direct(g, pcf, chip, upto) matches Ok(st) ==> st.rows.len()
            == chip.spec_num_olmcs(),
    decreases upto,
{
    if upto > 0 {
        lemma_place_direct_rows(g, pcf, chip, upto - 1);
    }
}

/// Gives every macrocell whose output is bound to a pin the row behind
/// that pin, and collects the others in the order of the node list.
fn place_direct(graph: &Graph, pcf: &PcfFile, chip: Chip) -> (r: Result<
    (Vec<Option<NodeIdx>>, Vec<NodeIdx>),
    MappingError,
>)
    ensures
        match r {
            Ok((rows, deferred)) => spec_place_direct(
                *graph,
                pcf@,
                chip,
                graph.nodelist@.len() as int,
            ) == Ok::<Placement, MappingErrorView>(
                Placement { rows: rows@, deferred: deferred@ },
            ),
            Err(e) => spec_place_direct(*graph, pcf@, chip, graph.nodelist@.len() as int) == Err::<
                Placement,
                MappingErrorView,
            >(e@),
        },
{
    let num = chip.num_olmcs();
    let mut olmcmap: Vec<Option<NodeIdx>> = Vec::new();
    let mut r: usize = 0;
    while r < num
        invariant
            r <= num,
            olmcmap@ == Seq::new(r as nat, |r: int| None::<NodeIdx>),
        decreases num - r,
    {
        olmcmap.push(None);
        r += 1;
        proof {
            assert(olmcmap@ =~= Seq::new(r as nat, |r: int| None::<NodeIdx>));
        }
    }
    let mut deferrals: Vec<NodeIdx> = Vec::new();
    proof {
        assert(deferrals@ =~= Seq::empty());
    }
    let n = graph.nodelist.len();
    let mut i: usize = 0;
    while i < n
        invariant
            n == graph.nodelist@.len(),
            i <= n,
            num == chip.spec_num_olmcs(),
            olmcmap@.len() == num,
            spec_place_direct(*graph, pcf@, chip, i as int) == Ok::<Placement, MappingErrorView>(
                Placement { rows: olmcmap@, deferred: deferrals@ },
            ),
        decreases n - i,
    {
        if let Node::Olmc(_) = &graph.nodelist[i] {
            match direct_row(graph, pcf, chip, i) {
                Err(e) => {
                    proof {
                        lemma_place_direct_fails(*graph, pcf@, chip, i as int + 1, n as int);
                    }
                    return Err(e);
                },
                Ok(None) => {
                    deferrals.push(NodeIdx(i));
                },
                Ok(Some(row)) => {
                    if olmcmap[row].is_some() {
                        proof {
                            lemma_place_direct_fails(*graph, pcf@, chip, i as int + 1, n as int);
                        }
                        return Err(MappingError::PlacementConflict(row));
                    }
                    olmcmap[row] = Some(NodeIdx(i));
                },
            }
        }
        i += 1;
    }
    Ok((olmcmap, deferrals))
}

/// A placement that has failed stays failed, with the same error, however
/// many more nodes are looked at.
pub proof fn lemma_place_direct_fails(
    g: Graph,
    pcf: Map<Seq<char>, u32>,
    chip: Chip,
    upto: int,
    later: int,
)
    requires
        upto <= later,
        spec_place_direct(g, pcf, chip, upto) is Err,
    ensures
        spec_place_direct(g, pcf, chip, later) == spec_place_direct(g, pcf, chip, upto),
    decreases later - upto,
{
    if upto < later {
        lemma_place_direct_fails(g, pcf, chip, upto, later - 1);
    }
}

/// The free rows among the first `upto`, in order: each with its index and
/// the number of product terms that it holds.
pub open spec fn spec_unused_rows(rows: Seq<Option<NodeIdx>>, chip: Chip, upto: int) -> Seq<
    (usize, usize),
>
    decreases upto,
{
    if upto <= 0 {
        Seq::empty()
    } else {
        let before = spec_unused_rows(rows, chip, upto - 1);
        if rows[upto - 1] is None {
            before.push(((upto - 1) as usize, chip.spec_num_rows_for_olmc(upto - 1)))
        } else {
            before
        }
    }
}

/// Every free row that is listed is one of the first `upto` and holds
/// nothing; it is listed with its size, and the rows are listed in the order
/// of their indices.
pub proof fn lemma_unused_rows_free(rows: Seq<Option<NodeIdx>>, chip: Chip, upto: int)
    requires
        0 <= upto <= usize::MAX,
    ensures
        forall|k: int|
            0 <= k < spec_unused_rows(rows, chip, upto).len() ==> {
                let row = #[trigger] spec_unused_rows(rows, chip, upto)[k];
                &&& row.0 < upto
                &&& rows[row.0 as int] is None
                &&& row.1 == chip.spec_num_rows_for_olmc(row.0 as int)
            },
        forall|a: int, b: int|
            0 <= a < b < spec_unused_rows(rows, chip, upto).len() ==> (#[trigger] spec_unused_rows(
                rows,
                chip,
                upto,
            )[a]).0 < (#[trigger] spec_unused_rows(rows, chip, upto)[b]).0,
    decreases upto,
{
    if upto > 0 {
        lemma_unused_rows_free(rows, chip, upto - 1);
        let before = spec_unused_rows(rows, chip, upto - 1);
        let now = spec_unused_rows(rows, chip, upto);
        assert forall|k: int| 0 <= k < now.len() implies {
            let row = #[trigger] now[k];
            &&& row.0 < upto
            &&& rows[row.0 as int] is None
            &&& row.1 == chip.spec_num_rows_for_olmc(row.0 as int)
        } by {
            if k < before.len() {
                assert(now[k] == before[k]);
            }
        }
        assert forall|a: int, b: int| 0 <= a < b < now.len() implies (#[trigger] now[a]).0 < (
        #[trigger] now[b]).0 by {
            assert(now[a] == before[a]);
            if b < before.len() {
                assert(now[b] == before[b]);
            }
        }
    }
}

/// Once a free row is taken, the free rows are those of before without
/// that row.
pub proof fn lemma_unused_rows_taken(
    rows: Seq<Option<NodeIdx>>,
    chip: Chip,
    upto: int,
    r: int,
    olmc: NodeIdx,
)
    requires
        0 <= upto <= rows.len() <= usize::MAX,
        0 <= r < rows.len(),
    ensures
        spec_unused_rows(rows.update(r, Some(olmc)), chip, upto) == spec_unused_rows(
            rows,
            chip,
            upto,
        ).filter(|row: (usize, usize)| row != (r as usize, chip.spec_num_rows_for_olmc(r))),
    decreases upto,
{
    let taken = (r as usize, chip.spec_num_rows_for_olmc(r));
    let keep = |row: (usize, usize)| row != taken;
    let after = rows.update(r, Some(olmc));
    if upto <= 0 {
        assert(spec_unused_rows(rows, chip, upto).filter(keep) =~= Seq::empty()) by {
            reveal(Seq::filter);
        }
    } else {
        lemma_unused_rows_taken(rows, chip, upto - 1, r, olmc);
        let before = spec_unused_rows(rows, chip, upto - 1);
        let last = ((upto - 1) as usize, chip.spec_num_rows_for_olmc(upto - 1));
        before.lemma_filter_push(last, keep);
        if upto - 1 != r {
            assert(after[upto - 1] == rows[upto - 1]);
            assert(keep(last));
        } else {
            assert(!keep(last));
        }
    }
}

/// The free rows of the device, in the order of their indices, each with
/// the number of product terms that it holds.
pub fn unused_rows(olmcmap: &Vec<Option<NodeIdx>>, chip: Chip) -> (r: Vec<(usize, usize)>)
    requires
        olmcmap@.len() <= chip.spec_num_olmcs(),
    ensures
        r@ == spec_unused_rows(olmcmap@, chip, olmcmap@.len() as int),
{
    let mut out: Vec<(usize, usize)> = Vec::new();
    let mut i: usize = 0;
    while i < olmcmap.len()
        invariant
            i <= olmcmap.len(),
            olmcmap@.len() <= chip.spec_num_olmcs(),
            out@ == spec_unused_rows(olmcmap@, chip, i as int),
        decreases olmcmap.len() - i,
    {
        if olmcmap[i].is_none() {
            out.push((i, chip.num_rows_for_olmc(i)));
        }
        i += 1;
    }
    out
}

/// The rows after the waiting macrocell `olmc` has got its row: the
/// tightest fit among the rows that hold nothing.
pub open spec fn spec_defer_step(g: Graph, chip: Chip, rows: Seq<Option<NodeIdx>>, olmc: NodeIdx) -> Result<
    Seq<Option<NodeIdx>>,
    MappingErrorView,
> {
    match spec_map_remaining(g, olmc, spec_unused_rows(rows, chip, rows.len() as int)) {
        Err(e) => Err(e),
        Ok(row) => Ok(rows.update(row.0 as int, Some(olmc))),
    }
}

/// The rows after the first `upto` waiting macrocells have got their rows,
/// one after the other. The first failure ends it.
pub open spec fn spec_place_deferred(
    g: Graph,
    chip: Chip,
    start: Seq<Option<NodeIdx>>,
    deferred: Seq<NodeIdx>,
    upto: int,
) -> Result<Seq<Option<NodeIdx>>, MappingErrorView>
    decreases upto,
{
    if upto <= 0 {
        Ok(start)
    } else {
        match spec_place_deferred(g, chip, start, deferred, upto - 1) {
            Err(e) => Err(e),
            Ok(rows) => spec_defer_step(g, chip, rows, deferred[upto - 1]),
        }
    }
}

/// A failure to place a waiting macrocell stays, with the same error.
pub proof fn lemma_place_deferred_fails(
    g: Graph,
    chip: Chip,
    start: Seq<Option<NodeIdx>>,
    deferred: Seq<NodeIdx>,
    upto: int,
    later: int,
)
    requires
        upto <= later,
        spec_place_deferred(g, chip, start, deferred, upto) is Err,
    ensures
        spec_place_deferred(g, chip, start, deferred, later) == spec_place_deferred(
            g,
            chip,
            start,
            deferred,
            upto,
        ),
    decreases later - upto,
{
    if upto < later {
        lemma_place_deferred_fails(g, chip, start, deferred, upto, later - 1);
    }
}

/// The row that a waiting macrocell gets is a row of the device that holds
/// nothing.
pub proof fn lemma_defer_step_row(g: Graph, chip: Chip, rows: Seq<Option<NodeIdx>>, olmc: NodeIdx)
    requires
        rows.len() <= usize::MAX,
    ensures
        spec_map_remaining(g, olmc, spec_unused_rows(rows, chip, rows.len() as int)) matches Ok(row)
            ==> row.0 < rows.len() && rows[row.0 as int] is None && row.1
            == chip.spec_num_rows_for_olmc(row.0 as int),
{
    let unused = spec_unused_rows(rows, chip, rows.len() as int);
    lemma_unused_rows_free(rows, chip, rows.len() as int);
    crate::fitter::lemma_map_remaining_row(g, olmc, unused);
    if let Ok(row) = spec_map_remaining(g, olmc, unused) {
        let k = choose|k: int| 0 <= k < unused.len() && unused[k] == row;
        assert(unused[k] == row);
    }
}

/// Placing the waiting macrocells leaves the number of rows as it is.
pub proof fn lemma_place_deferred_rows(
    g: Graph,
    chip: Chip,
    start: Seq<Option<NodeIdx>>,
    deferred: Seq<NodeIdx>,
    upto: int,
)
    requires
        start.len() <= usize::MAX,
    ensures
        spec_place_deferred(g, chip, start, deferred, upto) matches Ok(rows) ==> rows.len()
            == start.len(),
    decreases upto,
{
    if upto > 0 {
        lemma_place_deferred_rows(g, chip, start, deferred, upto - 1);
        if let Ok(rows) = spec_place_deferred(g, chip, start, deferred, upto - 1) {
            lemma_defer_step_row(g, chip, rows, deferred[upto - 1]);
        }
    }
}

/// The rows of `unused` without `row`.
fn without_row(unused: &Vec<(usize, usize)>, row: (usize, usize)) -> (r: Vec<(usize, usize)>)
    ensures
        r@ == unused@.filter(|r: (usize, usize)| r != row),
{
    let ghost keep = |r: (usize, usize)| r != row;
    let mut out: Vec<(usize, usize)> = Vec::new();
    let mut k: usize = 0;
    proof {
        assert(unused@.take(0).filter(keep) =~= Seq::empty()) by {
            reveal(Seq::filter);
        }
    }
    while k < unused.len()
        invariant
            k <= unused.len(),
            keep == (|r: (usize, usize)| r != row),
            out@ == unused@.take(k as int).filter(keep),
        decreases unused.len() - k,
    {
        proof {
            assert(unused@.take(k as int + 1) =~= unused@.take(k as int).push(unused@[k as int]));
            unused@.take(k as int).lemma_filter_push(unused@[k as int], keep);
        }
        let entry = unused[k];
        if !(entry.0 == row.0 && entry.1 == row.1) {
            out.push(entry);
        }
        k += 1;
    }
    proof {
        assert(unused@.take(unused@.len() as int) =~= unused@);
    }
    out
}

/// Gives each waiting macrocell, in order, the tightest fit among the rows
/// that are still free, and takes that row from the free rows.
fn place_deferred(
    graph: &Graph,
    chip: Chip,
    olmcmap: &mut Vec<Option<NodeIdx>>,
    unused: Vec<(usize, usize)>,
    deferrals: &Vec<NodeIdx>,
) -> (r: Result<(), MappingError>)
    requires
        unused@ == spec_unused_rows(old(olmcmap)@, chip, old(olmcmap)@.len() as int),
    ensures
        final(olmcmap)@.len() == old(olmcmap)@.len(),
        match r {
            Ok(()) => spec_place_deferred(
                *graph,
                chip,
                old(olmcmap)@,
                deferrals@,
                deferrals@.len() as int,
            ) == Ok::<Seq<Option<NodeIdx>>, MappingErrorView>(final(olmcmap)@),
            Err(e) => spec_place_deferred(
                *graph,
                chip,
                old(olmcmap)@,
                deferrals@,
                deferrals@.len() as int,
            ) == Err::<Seq<Option<NodeIdx>>, MappingErrorView>(e@),
        },
{
    let mut unused_rows = unused;
    let rows = olmcmap.len();
    let mut d: usize = 0;
    while d < deferrals.len()
        invariant
            d <= deferrals.len(),
            rows == olmcmap@.len(),
            olmcmap@.len() == old(olmcmap)@.len(),
            unused_rows@ == spec_unused_rows(olmcmap@, chip, rows as int),
            spec_place_deferred(*graph, chip, old(olmcmap)@, deferrals@, d as int) == Ok::<
                Seq<Option<NodeIdx>>,
                MappingErrorView,
            >(olmcmap@),
        decreases deferrals.len() - d,
    {
        let olmc = deferrals[d];
        let row = match map_remaining_olmc(graph, olmc, &unused_rows) {
            Ok(row) => row,
            Err(e) => {
                proof {
                    lemma_place_deferred_fails(
                        *graph,
                        chip,
                        old(olmcmap)@,
                        deferrals@,
                        d as int + 1,
                        deferrals@.len() as int,
                    );
                }
                return Err(e);
            },
        };
        proof {
            lemma_defer_step_row(*graph, chip, olmcmap@, olmc);
            lemma_unused_rows_taken(olmcmap@, chip, rows as int, row.0 as int, olmc);
        }
        olmcmap[row.0] = Some(olmc);
        unused_rows = without_row(&unused_rows, row);
        d += 1;
    }
    Ok(())
}

/// The rows of the device with the macrocell on each, once every macrocell
/// has a row.
///
/// First the constraints are checked. Then the nodes are looked at in
/// order: macrocells with a pin take the row behind it, the others wait.
/// Then those that wait get the tightest fit among the free rows, in the
/// order in which they were found.
pub open spec fn spec_place(g: Graph, pcf: Map<Seq<char>, u32>, chip: Chip) -> Result<
    Seq<Option<NodeIdx>>,
    MappingErrorView,
> {
    match spec_check_constraints(g.ports@, pcf, chip) {
        Err(e) => Err(e),
        Ok(()) => match spec_place_direct(g, pcf, chip, g.nodelist@.len() as int) {
            Err(e) => Err(e),
            Ok(st) => spec_place_deferred(g, chip, st.rows, st.deferred, st.deferred.len() as int),
        },
    }
}

/// What a run of the placement returns: the rows that `spec_place` gives,
/// or its error.
pub open spec fn place_result(
    g: Graph,
    pcf: Map<Seq<char>, u32>,
    chip: Chip,
    r: Result<Vec<Option<NodeIdx>>, MappingError>,
) -> bool {
    match r {
        Ok(rows) => spec_place(g, pcf, chip) == Ok::<Seq<Option<NodeIdx>>, MappingErrorView>(rows@),
        Err(e) => spec_place(g, pcf, chip) == Err::<Seq<Option<NodeIdx>>, MappingErrorView>(e@),
    }
}

/// Assigns every output macrocell of the graph to a row of the device.
///
/// The result has one entry for each row of the device: the macrocell on
/// that row, or `None` for a row that stays free.
pub fn place(graph: &Graph, pcf: &PcfFile, chip: Chip) -> (r: Result<
    Vec<Option<NodeIdx>>,
    MappingError,
>)
    ensures
        place_result(*graph, pcf@, chip, r),
        r matches Ok(rows) ==> rows@.len() == chip.spec_num_olmcs(),
{
    match check_constraints(graph, pcf, chip) {
        Ok(()) => {},
        Err(e) => {
            return Err(e);
        },
    }
    let (mut olmcmap, deferrals) = match place_direct(graph, pcf, chip) {
        Ok(placed) => placed,
        Err(e) => {
            return Err(e);
        },
    };
    proof {
        lemma_place_direct_rows(*graph, pcf@, chip, graph.nodelist@.len() as int);
    }
    let unused = unused_rows(&olmcmap, chip);
    match place_deferred(graph, chip, &mut olmcmap, unused, &deferrals) {
        Ok(()) => Ok(olmcmap),
        Err(e) => Err(e),
    }
}

/// Running the placement twice on one graph, one set of constraints and
/// one device gives the same rows, or the same error.
pub proof fn lemma_placement_deterministic(
    g: Graph,
    pcf: Map<Seq<char>, u32>,
    chip: Chip,
    first: Result<Vec<Option<NodeIdx>>, MappingError>,
    second: Result<Vec<Option<NodeIdx>>, MappingError>,
)
    requires
        place_result(g, pcf, chip, first),
        place_result(g, pcf, chip, second),
    ensures
        first matches Ok(a) ==> second matches Ok(b) && a@ == b@,
        first matches Err(e) ==> second matches Err(f) && e@ == f@,
{
}

/// Where the direct placement has gone well for the first `upto` nodes,
/// every macrocell among them that the constraints give a row is on that
/// row.
pub proof fn lemma_direct_rows_kept(
    g: Graph,
    pcf: Map<Seq<char>, u32>,
    chip: Chip,
    upto: int,
    i: int,
)
    requires
        0 <= i < upto <= g.nodelist@.len(),
        g.nodelist@.len() <= usize::MAX,
        g.nodelist@[i] is Olmc,
        spec_direct_row(g, pcf, chip, i) matches Ok(Some(_)),
        spec_place_direct(g, pcf, chip, upto) is Ok,
    ensures
        spec_place_direct(g, pcf, chip, upto)->Ok_0.rows[spec_direct_row(
            g,
            pcf,
            chip,
            i,
        )->Ok_0->Some_0 as int] == Some(NodeIdx(i as usize)),
    decreases upto,
{
    lemma_place_direct_rows(g, pcf, chip, upto - 1);
    if i < upto - 1 {
        lemma_direct_rows_kept(g, pcf, chip, upto - 1, i);
    }
}

/// Two macrocells that the constraints give one and the same row are never
/// both placed: the placement fails. It fails with the conflict at that
/// row when the second of the two is looked at, unless it has failed before.
pub proof fn lemma_conflict_detected(
    g: Graph,
    pcf: Map<Seq<char>, u32>,
    chip: Chip,
    i: int,
    j: int,
    row: usize,
)
    requires
        0 <= i < j < g.nodelist@.len(),
        g.nodelist@.len() <= usize::MAX,
        g.nodelist@[i] is Olmc,
        g.nodelist@[j] is Olmc,
        spec_direct_row(g, pcf, chip, i) == Ok::<Option<usize>, MappingErrorView>(Some(row)),
        spec_direct_row(g, pcf, chip, j) == Ok::<Option<usize>, MappingErrorView>(Some(row)),
    ensures
        spec_place_direct(g, pcf, chip, j) is Ok ==> spec_place_direct(g, pcf, chip, j + 1) == Err::<
            Placement,
            MappingErrorView,
        >(MappingErrorView::PlacementConflict(row)),
        spec_place_direct(g, pcf, chip, g.nodelist@.len() as int) is Err,
        spec_place(g, pcf, chip) is Err,
{
    if spec_place_direct(g, pcf, chip, j) is Ok {
        lemma_direct_rows_kept(g, pcf, chip, j, i);
    }
    lemma_place_direct_fails(g, pcf, chip, j + 1, g.nodelist@.len() as int);
}

/// The row that the constraints give to the macrocell at `i`, if they give
/// it one.
pub open spec fn bound_row(g: Graph, pcf: Map<Seq<char>, u32>, chip: Chip, i: int) -> Option<usize> {
    match spec_direct_row(g, pcf, chip, i) {
        Ok(Some(row)) => Some(row),
        _ => None,
    }
}

/// The macrocell at `i` waits for a row: the constraints give it none.
pub open spec fn waits(g: Graph, pcf: Map<Seq<char>, u32>, chip: Chip, i: int) -> bool {
    spec_direct_row(g, pcf, chip, i) == Ok::<Option<usize>, MappingErrorView>(None)
}

/// What holds of a direct placement that has gone well for the first `upto`
/// nodes: every row in use holds a macrocell that the constraints bind to
/// it, the macrocells that wait are those without a row of their own, in
/// the order of the nodes, and every macrocell is on its row or waits.
pub open spec fn direct_placed(
    g: Graph,
    pcf: Map<Seq<char>, u32>,
    chip: Chip,
    st: Placement,
    upto: int,
) -> bool {
    &&& st.rows.len() == chip.spec_num_olmcs()
    &&& forall|r: int|
        0 <= r < st.rows.len() ==> (#[trigger] st.rows[r] matches Some(idx) ==> idx.0 < upto
            && g.nodelist@[idx.0 as int] is Olmc && bound_row(g, pcf, chip, idx.0 as int) == Some(
            r as usize,
        ))
    &&& forall|k: int|
        0 <= k < st.deferred.len() ==> (#[trigger] st.deferred[k]).0 < upto
            && g.nodelist@[st.deferred[k].0 as int] is Olmc && waits(
            g,
            pcf,
            chip,
            st.deferred[k].0 as int,
        )
    &&& forall|a: int, b: int|
        0 <= a < b < st.deferred.len() ==> (#[trigger] st.deferred[a]).0 < (
        #[trigger] st.deferred[b]).0
    &&& forall|i: int|
        0 <= i < upto && (#[trigger] g.nodelist@[i]) is Olmc ==> macrocell_known(
            g,
            pcf,
            chip,
            st,
            i,
        )
}

/// The macrocell at `i` is on the row that the constraints give it, or
/// waits for one.
pub open spec fn macrocell_known(
    g: Graph,
    pcf: Map<Seq<char>, u32>,
    chip: Chip,
    st: Placement,
    i: int,
) -> bool {
    match spec_direct_row(g, pcf, chip, i) {
        Ok(Some(row)) => row < st.rows.len() && st.rows[row as int] == Some(NodeIdx(i as usize)),
        Ok(None) => st.deferred.contains(NodeIdx(i as usize)),
        Err(_) => false,
    }
}

/// A direct placement that has gone well has the shape that
/// `direct_placed` describes.
pub proof fn lemma_direct_placed(g: Graph, pcf: Map<Seq<char>, u32>, chip: Chip, upto: int)
    requires
        0 <= upto <= g.nodelist@.len() <= usize::MAX,
    ensures
        spec_place_direct(g, pcf, chip, upto) matches Ok(st) ==> direct_placed(g, pcf, chip, st, upto),
    decreases upto,
{
    if upto > 0 {
        lemma_direct_placed(g, pcf, chip, upto - 1);
        let i = upto - 1;
        if let Ok(before) = spec_place_direct(g, pcf, chip, i) {
            if let Ok(st) = spec_place_step(g, pcf, chip, before, i) {
                assert(direct_placed(g, pcf, chip, before, i));
                assert forall|n: int| 0 <= n < upto && (#[trigger] g.nodelist@[n]) is Olmc implies macrocell_known(
                    g,
                    pcf,
                    chip,
                    st,
                    n,
                ) by {
                    if n < i {
                        assert(macrocell_known(g, pcf, chip, before, n));
                        if let Ok(None) = spec_direct_row(g, pcf, chip, n) {
                            let k = choose|k: int|
                                0 <= k < before.deferred.len() && before.deferred[k] == NodeIdx(
                                    n as usize,
                                );
                            assert(st.deferred[k] == NodeIdx(n as usize));
                        }
                    } else {
                        if let Ok(None) = spec_direct_row(g, pcf, chip, n) {
                            assert(st.deferred[before.deferred.len() as int] == NodeIdx(n as usize));
                        }
                    }
                }
                assert forall|k: int| 0 <= k < st.deferred.len() implies (#[trigger] st.deferred[k]).0
                    < upto && g.nodelist@[st.deferred[k].0 as int] is Olmc && waits(
                    g,
                    pcf,
                    chip,
                    st.deferred[k].0 as int,
                ) by {
                    if k < before.deferred.len() {
                        assert(st.deferred[k] == before.deferred[k]);
                    }
                }
                assert forall|a: int, b: int| 0 <= a < b < st.deferred.len() implies (
                #[trigger] st.deferred[a]).0 < (#[trigger] st.deferred[b]).0 by {
                    assert(st.deferred[a] == before.deferred[a]);
                    if b < before.deferred.len() {
                        assert(st.deferred[b] == before.deferred[b]);
                    }
                }
                assert forall|r: int| 0 <= r < st.rows.len() implies (#[trigger] st.rows[r] matches Some(
                    idx,
                ) ==> idx.0 < upto && g.nodelist@[idx.0 as int] is Olmc && bound_row(
                    g,
                    pcf,
                    chip,
                    idx.0 as int,
                ) == Some(r as usize)) by {
                    if st.rows[r] != before.rows[r] {
                        assert(st.rows[r] == Some(NodeIdx(i as usize)));
                    } else {
                        assert(before.rows[r] == st.rows[r]);
                    }
                }
            }
        }
    }
}

/// What holds of the rows once the first `upto` waiting macrocells have
/// got theirs: rows that were in use are as they were, every row that has
/// come into use holds one of those macrocells, each of which is on one
/// such row, and no two such rows hold the same.
pub open spec fn deferred_placed(
    start: Seq<Option<NodeIdx>>,
    deferred: Seq<NodeIdx>,
    rows: Seq<Option<NodeIdx>>,
    upto: int,
) -> bool {
    &&& rows.len() == start.len()
    &&& forall|r: int| 0 <= r < start.len() && (#[trigger] start[r]) is Some ==> rows[r] == start[r]
    &&& forall|r: int|
        0 <= r < start.len() && start[r] is None && (#[trigger] rows[r]) is Some ==> taken_by(
            deferred,
            rows,
            upto,
            r,
        )
    &&& forall|k: int| 0 <= k < upto ==> #[trigger] has_row(start, deferred, rows, k)
    &&& forall|r1: int, r2: int|
        0 <= r1 < start.len() && 0 <= r2 < start.len() && r1 != r2 && start[r1] is None
            && start[r2] is None && (#[trigger] rows[r1]) is Some ==> rows[r1] != #[trigger] rows[r2]
}

/// Row `r` holds one of the first `upto` waiting macrocells.
pub open spec fn taken_by(
    deferred: Seq<NodeIdx>,
    rows: Seq<Option<NodeIdx>>,
    upto: int,
    r: int,
) -> bool {
    exists|k: int| 0 <= k < upto && rows[r] == Some(#[trigger] deferred[k])
}

/// The waiting macrocell `k` is on a row that was free at the start.
pub open spec fn has_row(
    start: Seq<Option<NodeIdx>>,
    deferred: Seq<NodeIdx>,
    rows: Seq<Option<NodeIdx>>,
    k: int,
) -> bool {
    exists|r: int| 0 <= r < start.len() && start[r] is None && #[trigger] rows[r] == Some(deferred[k])
}

/// Once the waiting macrocells have got their rows, the rows have the shape
/// that `deferred_placed` describes.
pub proof fn lemma_deferred_placed(
    g: Graph,
    chip: Chip,
    start: Seq<Option<NodeIdx>>,
    deferred: Seq<NodeIdx>,
    upto: int,
)
    requires
        0 <= upto <= deferred.len(),
        start.len() <= usize::MAX,
        forall|a: int, b: int|
            0 <= a < b < deferred.len() ==> (#[trigger] deferred[a]) != (#[trigger] deferred[b]),
    ensures
        spec_place_deferred(g, chip, start, deferred, upto) matches Ok(rows) ==> deferred_placed(
            start,
            deferred,
            rows,
            upto,
        ),
    decreases upto,
{
    if upto > 0 {
        lemma_deferred_placed(g, chip, start, deferred, upto - 1);
        lemma_place_deferred_rows(g, chip, start, deferred, upto - 1);
        if let Ok(before) = spec_place_deferred(g, chip, start, deferred, upto - 1) {
            let olmc = deferred[upto - 1];
            if let Ok(rows) = spec_defer_step(g, chip, before, olmc) {
                lemma_defer_step_row(g, chip, before, olmc);
                let row = spec_map_remaining(
                    g,
                    olmc,
                    spec_unused_rows(before, chip, before.len() as int),
                )->Ok_0;
                let x = row.0 as int;
                assert(before[x] is None);
                assert(rows == before.update(x, Some(olmc)));
                assert(start[x] is None);
                assert forall|r: int|
                    0 <= r < start.len() && start[r] is None && (#[trigger] rows[r]) is Some implies taken_by(
                    deferred,
                    rows,
                    upto,
                    r,
                ) by {
                    if r == x {
                        assert(rows[r] == Some(deferred[upto - 1]));
                    } else {
                        assert(taken_by(deferred, before, upto - 1, r));
                        let k = choose|k: int|
                            0 <= k < upto - 1 && before[r] == Some(#[trigger] deferred[k]);
                        assert(rows[r] == Some(deferred[k]));
                    }
                }
                assert forall|k: int| 0 <= k < upto implies #[trigger] has_row(
                    start,
                    deferred,
                    rows,
                    k,
                ) by {
                    if k == upto - 1 {
                        assert(rows[x] == Some(deferred[k]));
                    } else {
                        assert(has_row(start, deferred, before, k));
                        let r = choose|r: int|
                            0 <= r < start.len() && start[r] is None && #[trigger] before[r] == Some(
                                deferred[k],
                            );
                        assert(rows[r] == Some(deferred[k]));
                    }
                }
                assert forall|r1: int, r2: int|
                    0 <= r1 < start.len() && 0 <= r2 < start.len() && r1 != r2 && start[r1] is None
                        && start[r2] is None && (#[trigger] rows[r1]) is Some implies rows[r1]
                    != #[trigger] rows[r2] by {
                    if r1 == x {
                        if rows[r2] is Some {
                            assert(before[r2] is Some);
                            assert(taken_by(deferred, before, upto - 1, r2));
                        }
                    } else if r2 == x {
                        assert(before[r1] is Some);
                        assert(taken_by(deferred, before, upto - 1, r1));
                    } else {
                        assert(before[r1] is Some);
                        assert(before[r1] != before[r2]);
                    }
                }
            }
        }
    }
}

/// A row, once it holds a macrocell, holds that macrocell to the end: the
/// macrocells that wait are put on rows that hold nothing.
pub proof fn lemma_rows_never_reassigned(
    g: Graph,
    chip: Chip,
    start: Seq<Option<NodeIdx>>,
    deferred: Seq<NodeIdx>,
    upto: int,
    later: int,
    r: int,
)
    requires
        0 <= upto <= later,
        start.len() <= usize::MAX,
        0 <= r < start.len(),
        spec_place_deferred(g, chip, start, deferred, upto) matches Ok(rows) && rows[r] is Some,
        spec_place_deferred(g, chip, start, deferred, later) is Ok,
    ensures
        spec_place_deferred(g, chip, start, deferred, later)->Ok_0[r] == spec_place_deferred(
            g,
            chip,
            start,
            deferred,
            upto,
        )->Ok_0[r],
    decreases later - upto,
{
    if upto < later {
        if spec_place_deferred(g, chip, start, deferred, later - 1) is Err {
            lemma_place_deferred_fails(g, chip, start, deferred, later - 1, later);
        }
        lemma_rows_never_reassigned(g, chip, start, deferred, upto, later - 1, r);
        lemma_place_deferred_rows(g, chip, start, deferred, later - 1);
        let before = spec_place_deferred(g, chip, start, deferred, later - 1)->Ok_0;
        lemma_defer_step_row(g, chip, before, deferred[later - 1]);
    }
}

/// Where the placement goes well, every output macrocell of the graph is
/// on exactly one row of the device, and every row in use holds an output
/// macrocell of the graph.
pub proof fn lemma_every_macrocell_placed(g: Graph, pcf: Map<Seq<char>, u32>, chip: Chip)
    requires
        g.nodelist@.len() <= usize::MAX,
    ensures
        spec_place(g, pcf, chip) matches Ok(rows) ==> {
            &&& rows.len() == chip.spec_num_olmcs()
            &&& forall|i: int|
                0 <= i < g.nodelist@.len() && (#[trigger] g.nodelist@[i]) is Olmc ==> exists|r: int|
                    0 <= r < rows.len() && #[trigger] rows[r] == Some(NodeIdx(i as usize))
            &&& forall|r1: int, r2: int|
                0 <= r1 < rows.len() && 0 <= r2 < rows.len() && r1 != r2 && (#[trigger] rows[r1]) is Some
                    ==> rows[r1] != #[trigger] rows[r2]
            &&& forall|r: int|
                0 <= r < rows.len() ==> (#[trigger] rows[r] matches Some(idx) ==> idx.0
                    < g.nodelist@.len() && g.nodelist@[idx.0 as int] is Olmc)
        },
{
    let n = g.nodelist@.len() as int;
    if let Ok(rows) = spec_place(g, pcf, chip) {
        let st = spec_place_direct(g, pcf, chip, n)->Ok_0;
        lemma_direct_placed(g, pcf, chip, n);
        lemma_deferred_placed(g, chip, st.rows, st.deferred, st.deferred.len() as int);
        assert(direct_placed(g, pcf, chip, st, n));
        assert(deferred_placed(st.rows, st.deferred, rows, st.deferred.len() as int));
        assert forall|i: int| 0 <= i < n && (#[trigger] g.nodelist@[i]) is Olmc implies exists|r: int|
            0 <= r < rows.len() && #[trigger] rows[r] == Some(NodeIdx(i as usize)) by {
            assert(macrocell_known(g, pcf, chip, st, i));
            match spec_direct_row(g, pcf, chip, i) {
                Ok(Some(row)) => {
                    assert(st.rows[row as int] is Some);
                    assert(rows[row as int] == Some(NodeIdx(i as usize)));
                },
                Ok(None) => {
                    let k = choose|k: int|
                        0 <= k < st.deferred.len() && st.deferred[k] == NodeIdx(i as usize);
                    assert(has_row(st.rows, st.deferred, rows, k));
                    let r = choose|r: int|
                        0 <= r < st.rows.len() && st.rows[r] is None && #[trigger] rows[r] == Some(
                            st.deferred[k],
                        );
                    assert(rows[r] == Some(NodeIdx(i as usize)));
                },
                Err(_) => {},
            }
        }
        assert forall|r: int| 0 <= r < rows.len() implies (#[trigger] rows[r] matches Some(idx)
            ==> idx.0 < n && g.nodelist@[idx.0 as int] is Olmc) by {
            if rows[r] is Some {
                if st.rows[r] is Some {
                    assert(rows[r] == st.rows[r]);
                } else {
                    assert(taken_by(st.deferred, rows, st.deferred.len() as int, r));
                    let k = choose|k: int|
                        0 <= k < st.deferred.len() && rows[r] == Some(#[trigger] st.deferred[k]);
                    assert(st.deferred[k].0 < n);
                }
            }
        }
        assert forall|r1: int, r2: int|
            0 <= r1 < rows.len() && 0 <= r2 < rows.len() && r1 != r2 && (#[trigger] rows[r1]) is Some implies rows[r1]
            != #[trigger] rows[r2] by {
            if rows[r1] == rows[r2] {
                if st.rows[r1] is Some && st.rows[r2] is Some {
                    assert(rows[r1] == st.rows[r1]);
                    assert(rows[r2] == st.rows[r2]);
                } else if st.rows[r1] is Some {
                    assert(rows[r1] == st.rows[r1]);
                    assert(taken_by(st.deferred, rows, st.deferred.len() as int, r2));
                    let k = choose|k: int|
                        0 <= k < st.deferred.len() && rows[r2] == Some(#[trigger] st.deferred[k]);
                    assert(waits(g, pcf, chip, st.deferred[k].0 as int));
                } else if st.rows[r2] is Some {
                    assert(rows[r2] == st.rows[r2]);
                    assert(taken_by(st.deferred, rows, st.deferred.len() as int, r1));
                    let k = choose|k: int|
                        0 <= k < st.deferred.len() && rows[r1] == Some(#[trigger] st.deferred[k]);
                    assert(waits(g, pcf, chip, st.deferred[k].0 as int));
                }
            }
        }
    }
}

} // verus!
