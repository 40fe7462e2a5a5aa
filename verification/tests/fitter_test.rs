use ver2gal::chips::Chip;
use ver2gal::fitter::{
    check_constraints, chip_to_olmc_offset, extract_terms, find_hwpin_for_net, get_sop_for_olmc,
    graph_convert, make_term_from_sop, map_remaining_olmc, place, table_seg_to_pin, unused_rows,
    valid_inputs, MappingError, Pin, PinMode,
};
use ver2gal::pcf::parse_pcf;
use ver2gal::yosys_parser::{
    GALOLMCParameters, GalInput, GalOLMC, GalSop, GalSopParameters, Graph, ModPort, Module,
    NamedPort, Net, Node, NodeIdx, Port, PortDirection, YosysCell, YosysDoc,
};

fn conn(port: &str, nets: Vec<Net>) -> (String, Vec<Net>) {
    (port.to_string(), nets)
}

fn input(a: u32, y: u32) -> GalInput {
    GalInput { connections: vec![conn("A", vec![Net::N(a)]), conn("Y", vec![Net::N(y)])] }
}

fn sop(inputs: Vec<u32>, y: u32, depth: u32, table: &str) -> GalSop {
    let width = inputs.len() as u32;
    GalSop {
        connections: vec![
            conn("A", inputs.into_iter().map(Net::N).collect()),
            conn("Y", vec![Net::N(y)]),
        ],
        parameters: GalSopParameters { depth, table: table.to_string(), width },
    }
}

fn olmc(a: u32, y: u32, inverted: bool, registered: bool) -> GalOLMC {
    GalOLMC {
        parameters: GALOLMCParameters { inverted, registered },
        connections: vec![
            conn("A", vec![Net::N(a)]),
            conn("C", vec![Net::NotConnected]),
            conn("Y", vec![Net::N(y)]),
        ],
    }
}

fn port(name: &str, net: u32, dir: PortDirection) -> NamedPort {
    NamedPort::new(name, &Net::N(net), &dir)
}

fn graph_of(nodes: Vec<Node>, ports: Vec<NamedPort>) -> Graph {
    let mut g = Graph { nodelist: nodes, adjlist: Vec::new(), ports };
    g.generate_adjacency();
    g
}

fn lit(pin: usize, neg: bool) -> Pin {
    Pin { pin, neg }
}

/// Two inputs `a` and `b`, a cell over both, and a macrocell with its
/// output on port `y`.
fn small_design(table: &str, depth: u32) -> Graph {
    graph_of(
        vec![
            Node::Input(input(1, 10)),
            Node::Input(input(2, 11)),
            Node::Sop(sop(vec![10, 11], 20, depth, table)),
            Node::Olmc(olmc(20, 30, false, false)),
        ],
        vec![
            port("a", 1, PortDirection::Input),
            port("b", 2, PortDirection::Input),
            port("y", 30, PortDirection::Output),
        ],
    )
}

#[test]
fn test_sop_to_term() {
    let pct = "set_io pinName 1";
    let pcf = parse_pcf(pct);
    let g = graph_of(
        vec![Node::Input(input(1, 10)), Node::Sop(sop(vec![10], 20, 2, "1001"))],
        vec![port("pinName", 1, PortDirection::Input)],
    );
    let olmcmap: Vec<Option<NodeIdx>> = vec![None; 8];
    let cell = sop(vec![10], 20, 2, "1001");
    let term = make_term_from_sop(&g, &pcf, &olmcmap, &Chip::GAL16V8, &cell).unwrap();
    assert_eq!(term.line_num, 0);
    assert_eq!(term.pins, vec![vec![lit(1, false)], vec![lit(1, true)]]);
}

#[test]
fn device_tables() {
    assert_eq!(chip_to_olmc_offset(&Chip::GAL16V8), 12);
    assert_eq!(chip_to_olmc_offset(&Chip::GAL22V10), 14);
    assert_eq!(
        valid_inputs(Chip::GAL16V8),
        vec![1, 2, 3, 4, 5, 6, 7, 8, 9, 11, 12, 13, 14, 15, 16, 17, 18, 19]
    );
    assert_eq!(
        valid_inputs(Chip::GAL22V10),
        vec![1, 2, 3, 4, 5, 6, 7, 8, 9, 10, 11, 13, 14, 15, 16, 17, 18, 19, 20, 21, 22, 23]
    );
}

#[test]
fn free_rows_with_their_sizes() {
    let free: Vec<Option<NodeIdx>> = vec![None; 10];
    assert_eq!(
        unused_rows(&free, Chip::GAL22V10),
        vec![(0, 9), (1, 11), (2, 13), (3, 15), (4, 17), (5, 17), (6, 15), (7, 13), (8, 11), (9, 9)]
    );
    let mut some: Vec<Option<NodeIdx>> = vec![None; 8];
    some[0] = Some(NodeIdx(4));
    some[5] = Some(NodeIdx(2));
    assert_eq!(
        unused_rows(&some, Chip::GAL16V8),
        vec![(1, 8), (2, 8), (3, 8), (4, 8), (6, 8), (7, 8)]
    );
    let full: Vec<Option<NodeIdx>> = (0..8).map(|i| Some(NodeIdx(i))).collect();
    assert!(unused_rows(&full, Chip::GAL16V8).is_empty());
}

#[test]
fn code_of_two_characters() {
    assert_eq!(table_seg_to_pin(5, '1', '0'), Some(lit(5, false)));
    assert_eq!(table_seg_to_pin(5, '0', '1'), Some(lit(5, true)));
    assert_eq!(table_seg_to_pin(5, '0', '0'), None);
    assert_eq!(table_seg_to_pin(5, '1', '1'), None);
    assert_eq!(table_seg_to_pin(5, 'x', '1'), None);
}

#[test]
fn driver_of_a_macrocell() {
    let g = small_design("1010", 1);
    let found = get_sop_for_olmc(&g, &NodeIdx(3)).unwrap();
    assert_eq!(found, &sop(vec![10, 11], 20, 1, "1010"));
    assert!(matches!(get_sop_for_olmc(&g, &NodeIdx(2)), Err(MappingError::MissingSOP)));
    assert!(matches!(get_sop_for_olmc(&g, &NodeIdx(0)), Err(MappingError::MissingSOP)));
    assert!(matches!(get_sop_for_olmc(&g, &NodeIdx(17)), Err(MappingError::MissingSOP)));
}

#[test]
fn macrocell_without_driver() {
    let g = graph_of(
        vec![Node::Input(input(1, 20)), Node::Olmc(olmc(20, 30, false, false))],
        Vec::new(),
    );
    assert!(matches!(get_sop_for_olmc(&g, &NodeIdx(1)), Err(MappingError::MissingSOP)));
    let fed_into_sop = graph_of(
        vec![Node::Sop(sop(vec![20], 21, 1, "10")), Node::Olmc(olmc(20, 30, false, false))],
        Vec::new(),
    );
    assert!(matches!(get_sop_for_olmc(&fed_into_sop, &NodeIdx(1)), Err(MappingError::MissingSOP)));
}

#[test]
fn macrocell_with_two_drivers() {
    let g = graph_of(
        vec![
            Node::Sop(sop(vec![1], 20, 1, "10")),
            Node::Sop(sop(vec![2], 20, 1, "10")),
            Node::Olmc(olmc(20, 30, false, false)),
        ],
        Vec::new(),
    );
    assert!(matches!(get_sop_for_olmc(&g, &NodeIdx(2)), Err(MappingError::Unknown)));
}

#[test]
fn one_driver_over_two_nets_is_one_driver() {
    let wide = GalSop {
        connections: vec![conn("A", vec![Net::N(1)]), conn("Y", vec![Net::N(20), Net::N(21)])],
        parameters: GalSopParameters { depth: 3, table: "100110".to_string(), width: 1 },
    };
    let macrocell = GalOLMC {
        parameters: GALOLMCParameters { inverted: false, registered: false },
        connections: vec![conn("A", vec![Net::N(20), Net::N(21)]), conn("Y", vec![Net::N(30)])],
    };
    let g = graph_of(vec![Node::Sop(wide.clone()), Node::Olmc(macrocell)], Vec::new());
    assert_eq!(get_sop_for_olmc(&g, &NodeIdx(1)).unwrap(), &wide);
}

/// A macrocell driven by a cell of `depth` terms.
fn deferred_design(depth: u32) -> Graph {
    let table = "10".repeat(depth as usize);
    graph_of(
        vec![Node::Sop(sop(vec![1], 20, depth, &table)), Node::Olmc(olmc(20, 30, false, false))],
        Vec::new(),
    )
}

#[test]
fn deferred_macrocell_gets_the_row_that_is_large_enough() {
    let g = deferred_design(4);
    let unused = vec![(0, 2), (1, 8)];
    assert_eq!(map_remaining_olmc(&g, NodeIdx(1), &unused).unwrap(), (1, 8));
    let only_small = vec![(0, 2)];
    match map_remaining_olmc(&g, NodeIdx(1), &only_small) {
        Err(MappingError::SopTooBig(name, size)) => {
            assert_eq!(name, "(Nodeindex: 1)");
            assert_eq!(size, 4);
        },
        other => panic!("{:?}", other),
    }
    let none: Vec<(usize, usize)> = Vec::new();
    assert!(matches!(
        map_remaining_olmc(&g, NodeIdx(1), &none),
        Err(MappingError::SopTooBig(_, 4))
    ));
}

#[test]
fn best_fit_is_the_smallest_row_that_fits() {
    let g = deferred_design(4);
    let unused = vec![(0, 17), (1, 4), (2, 9), (3, 5), (4, 13), (5, 5)];
    assert_eq!(map_remaining_olmc(&g, NodeIdx(1), &unused).unwrap(), (3, 5));
    let ties = vec![(7, 8), (2, 8), (5, 8)];
    assert_eq!(map_remaining_olmc(&g, NodeIdx(1), &ties).unwrap(), (7, 8));
}

#[test]
fn row_must_hold_more_terms_than_needed() {
    let g = deferred_design(8);
    let unused = vec![(0, 8), (1, 8)];
    assert!(matches!(
        map_remaining_olmc(&g, NodeIdx(1), &unused),
        Err(MappingError::SopTooBig(_, 8))
    ));
    let unused = vec![(0, 8), (1, 9)];
    assert_eq!(map_remaining_olmc(&g, NodeIdx(1), &unused).unwrap(), (1, 9));
    let g = deferred_design(0);
    assert_eq!(map_remaining_olmc(&g, NodeIdx(1), &vec![(0, 0), (1, 1)]).unwrap(), (1, 1));
}

#[test]
fn deferred_macrocell_needs_a_driver() {
    let g = graph_of(vec![Node::Olmc(olmc(20, 30, false, false))], Vec::new());
    assert!(matches!(
        map_remaining_olmc(&g, NodeIdx(0), &vec![(0, 8)]),
        Err(MappingError::MissingSOP)
    ));
}

#[test]
fn constraints_must_name_every_port() {
    let g = small_design("1010", 1);
    let pcf = parse_pcf("set_io a 2\nset_io b 3\nset_io y 14\n");
    assert!(check_constraints(&g, &pcf, Chip::GAL16V8).is_ok());
    let pcf = parse_pcf("set_io a 2\nset_io y 14\n");
    match check_constraints(&g, &pcf, Chip::GAL16V8) {
        Err(MappingError::MissingConstraint(p)) => {
            assert_eq!(p, port("b", 2, PortDirection::Input))
        },
        other => panic!("{:?}", other),
    }
    match graph_convert(&g, pcf, Chip::GAL16V8) {
        Err(MappingError::MissingConstraint(p)) => assert_eq!(p.name, "b"),
        other => panic!("{:?}", other),
    }
}

#[test]
fn constraints_must_name_pins_of_the_device() {
    let g = small_design("1010", 1);
    for bad in ["0", "10", "20", "21", "4000000000"] {
        let pcf = parse_pcf(&format!("set_io a {bad}\nset_io b 3\nset_io y 14\n"));
        match check_constraints(&g, &pcf, Chip::GAL16V8) {
            Err(MappingError::MissingConstraint(p)) => assert_eq!(p.name, "a"),
            other => panic!("{:?}", other),
        }
    }
    let pcf = parse_pcf("set_io a 10\nset_io b 3\nset_io y 14\n");
    assert!(check_constraints(&g, &pcf, Chip::GAL22V10).is_ok());
    let pcf = parse_pcf("set_io a 12\nset_io b 3\nset_io y 14\n");
    assert!(check_constraints(&g, &pcf, Chip::GAL22V10).is_err());
}

#[test]
fn macrocell_bound_to_pin_14_is_placed_on_its_row() {
    let top = Module {
        ports: vec![
            ("a".to_string(), Port::Input(ModPort { bits: vec![Net::N(1)], upto: false })),
            ("b".to_string(), Port::Input(ModPort { bits: vec![Net::N(2)], upto: false })),
            ("y".to_string(), Port::Output(ModPort { bits: vec![Net::N(30)], upto: false })),
        ],
        cells: vec![
            ("in_a".to_string(), YosysCell::Input(input(1, 10))),
            ("in_b".to_string(), YosysCell::Input(input(2, 11))),
            ("and".to_string(), YosysCell::Sop(sop(vec![10, 11], 20, 1, "1001"))),
            ("out".to_string(), YosysCell::OLMC(olmc(20, 30, true, false))),
        ],
    };
    let g = Graph::from(YosysDoc { creator: String::new(), modules: vec![("top".to_string(), top)] });
    assert_eq!(g.validate(), Ok(()));
    let text = "set_io a 2\nset_io b 3\nset_io y 14\n";

    let rows = place(&g, &parse_pcf(text), Chip::GAL16V8).unwrap();
    assert_eq!(rows.len(), 8);
    for (r, row) in rows.iter().enumerate() {
        assert_eq!(*row, if r == 2 { Some(NodeIdx(3)) } else { None });
    }

    let bp = graph_convert(&g, parse_pcf(text), Chip::GAL16V8).unwrap();
    assert_eq!(bp.chip, Chip::GAL16V8);
    assert_eq!(bp.olmcs.len(), 8);
    for (r, row) in bp.olmcs.iter().enumerate() {
        assert_eq!(row.is_some(), r == 2);
    }
    let config = bp.olmcs[2].as_ref().unwrap();
    assert!(config.neg);
    assert_eq!(config.mode, PinMode::Tristate);
    assert_eq!(config.term.line_num, 0);
    assert_eq!(config.term.pins.len(), 1);
    assert_eq!(config.term.pins[0].len(), 2);
    assert_eq!(config.term.pins, vec![vec![lit(3, false), lit(2, true)]]);
}

#[test]
fn same_design_on_the_larger_device() {
    let g = small_design("1010", 1);
    let bp = graph_convert(&g, parse_pcf("set_io a 2\nset_io b 3\nset_io y 14\n"), Chip::GAL22V10)
        .unwrap();
    assert_eq!(bp.olmcs.len(), 10);
    for (r, row) in bp.olmcs.iter().enumerate() {
        assert_eq!(row.is_some(), r == 0);
    }
    assert_eq!(bp.olmcs[0].as_ref().unwrap().term.pins, vec![vec![lit(3, false), lit(2, false)]]);
}

#[test]
fn registered_macrocell() {
    let g = graph_of(
        vec![
            Node::Input(input(1, 10)),
            Node::Sop(sop(vec![10], 20, 1, "10")),
            Node::Olmc(olmc(20, 30, false, true)),
        ],
        vec![port("a", 1, PortDirection::Input), port("q", 30, PortDirection::Output)],
    );
    let bp = graph_convert(&g, parse_pcf("set_io a 9\nset_io q 19\n"), Chip::GAL16V8).unwrap();
    let config = bp.olmcs[7].as_ref().unwrap();
    assert!(!config.neg);
    assert_eq!(config.mode, PinMode::Registered);
    assert_eq!(config.term.pins, vec![vec![lit(9, false)]]);
}

#[test]
fn two_macrocells_on_one_pin_are_a_conflict() {
    let g = graph_of(
        vec![
            Node::Input(input(1, 10)),
            Node::Sop(sop(vec![10], 20, 1, "10")),
            Node::Olmc(olmc(20, 30, false, false)),
            Node::Sop(sop(vec![10], 21, 1, "01")),
            Node::Olmc(olmc(21, 31, false, false)),
        ],
        vec![
            port("a", 1, PortDirection::Input),
            port("y", 30, PortDirection::Output),
            port("z", 31, PortDirection::Output),
        ],
    );
    let text = "set_io a 2\nset_io y 15\nset_io z 15\n";
    assert!(matches!(
        place(&g, &parse_pcf(text), Chip::GAL16V8),
        Err(MappingError::PlacementConflict(3))
    ));
    assert!(matches!(
        graph_convert(&g, parse_pcf(text), Chip::GAL16V8),
        Err(MappingError::PlacementConflict(3))
    ));
    let apart = "set_io a 2\nset_io y 15\nset_io z 16\n";
    let rows = place(&g, &parse_pcf(apart), Chip::GAL16V8).unwrap();
    assert_eq!(rows[3], Some(NodeIdx(2)));
    assert_eq!(rows[4], Some(NodeIdx(4)));
}

#[test]
fn output_on_a_pin_without_macrocell() {
    let g = small_design("1010", 1);
    let pcf = parse_pcf("set_io a 2\nset_io b 3\nset_io y 4\n");
    assert!(matches!(place(&g, &pcf, Chip::GAL16V8), Err(MappingError::Unknown)));
}

#[test]
fn macrocell_without_output() {
    let bare = GalOLMC {
        parameters: GALOLMCParameters { inverted: false, registered: false },
        connections: vec![conn("A", vec![Net::N(20)])],
    };
    let empty = GalOLMC {
        parameters: GALOLMCParameters { inverted: false, registered: false },
        connections: vec![conn("A", vec![Net::N(20)]), conn("Y", Vec::new())],
    };
    for cell in [bare, empty] {
        let g = graph_of(
            vec![Node::Sop(sop(vec![1], 20, 1, "10")), Node::Olmc(cell)],
            Vec::new(),
        );
        match place(&g, &parse_pcf(""), Chip::GAL16V8) {
            Err(MappingError::OLMCMissingOutput(name)) => assert_eq!(name, "(Nodeindex: 1)"),
            other => panic!("{:?}", other),
        }
    }
}

/// Macrocells that are bound to no pin, each driven by a cell of the given
/// number of terms over one input.
fn internal_design(depths: &[u32]) -> Graph {
    let mut nodes = vec![Node::Input(input(1, 10))];
    for (k, depth) in depths.iter().enumerate() {
        let k = k as u32;
        nodes.push(Node::Sop(sop(vec![10], 100 + k, *depth, &"10".repeat(*depth as usize))));
        nodes.push(Node::Olmc(olmc(100 + k, 200 + k, false, false)));
    }
    graph_of(nodes, vec![port("a", 1, PortDirection::Input)])
}

#[test]
fn deferred_macrocells_take_the_tightest_rows_in_order() {
    let g = internal_design(&[12, 9, 16, 8]);
    let rows = place(&g, &parse_pcf("set_io a 2\n"), Chip::GAL22V10).unwrap();
    let mut expected: Vec<Option<NodeIdx>> = vec![None; 10];
    expected[2] = Some(NodeIdx(2));
    expected[1] = Some(NodeIdx(4));
    expected[4] = Some(NodeIdx(6));
    expected[0] = Some(NodeIdx(8));
    assert_eq!(rows, expected);
}

#[test]
fn placement_is_the_same_every_time() {
    let g = internal_design(&[3, 10, 3, 16, 12, 1]);
    let pcf = parse_pcf("set_io a 2\n");
    let first = place(&g, &pcf, Chip::GAL22V10).unwrap();
    let second = place(&g, &pcf, Chip::GAL22V10).unwrap();
    assert_eq!(first, second);
    let mut expected: Vec<Option<NodeIdx>> = vec![None; 10];
    expected[0] = Some(NodeIdx(2));
    expected[1] = Some(NodeIdx(4));
    expected[9] = Some(NodeIdx(6));
    expected[4] = Some(NodeIdx(8));
    expected[2] = Some(NodeIdx(10));
    expected[8] = Some(NodeIdx(12));
    assert_eq!(first, expected);
}

#[test]
fn deferred_macrocell_that_fits_nowhere() {
    let g = internal_design(&[17]);
    match place(&g, &parse_pcf("set_io a 2\n"), Chip::GAL22V10) {
        Err(MappingError::SopTooBig(name, size)) => {
            assert_eq!(name, "(Nodeindex: 2)");
            assert_eq!(size, 17);
        },
        other => panic!("{:?}", other),
    }
    let g = internal_design(&[8]);
    assert!(matches!(
        place(&g, &parse_pcf("set_io a 2\n"), Chip::GAL16V8),
        Err(MappingError::SopTooBig(_, 8))
    ));
    let g = internal_design(&[7, 7, 7, 7, 7, 7, 7, 7]);
    let rows = place(&g, &parse_pcf("set_io a 2\n"), Chip::GAL16V8).unwrap();
    assert!(rows.iter().all(|r| r.is_some()));
    let g = internal_design(&[7, 7, 7, 7, 7, 7, 7, 7, 7]);
    assert!(matches!(
        place(&g, &parse_pcf("set_io a 2\n"), Chip::GAL16V8),
        Err(MappingError::SopTooBig(_, 7))
    ));
}

#[test]
fn rows_taken_by_pins_are_not_given_again() {
    let mut g = internal_design(&[9]);
    g.nodelist.push(Node::Sop(sop(vec![10], 300, 1, "10")));
    g.nodelist.push(Node::Olmc(olmc(300, 301, false, false)));
    g.ports.push(port("y", 301, PortDirection::Output));
    g.generate_adjacency();
    let rows = place(&g, &parse_pcf("set_io a 2\nset_io y 15\n"), Chip::GAL22V10).unwrap();
    assert_eq!(rows[1], Some(NodeIdx(4)));
    assert_eq!(rows[8], Some(NodeIdx(2)));
    assert_eq!(rows.iter().filter(|r| r.is_some()).count(), 2);
}

#[test]
fn feedback_is_traced_to_the_row_of_the_macrocell() {
    let g = graph_of(
        vec![
            Node::Input(input(1, 10)),
            Node::Sop(sop(vec![10], 20, 1, "10")),
            Node::Olmc(olmc(20, 30, false, false)),
            Node::Sop(sop(vec![30, 10], 21, 2, "10010110")),
            Node::Olmc(olmc(21, 31, false, false)),
        ],
        vec![port("a", 1, PortDirection::Input), port("z", 31, PortDirection::Output)],
    );
    let pcf = parse_pcf("set_io a 3\nset_io z 23\n");
    let rows = place(&g, &pcf, Chip::GAL22V10).unwrap();
    assert_eq!(rows[9], Some(NodeIdx(4)));
    assert_eq!(rows[0], Some(NodeIdx(2)));
    assert_eq!(find_hwpin_for_net(&g, &pcf, &rows, &Chip::GAL22V10, &Net::N(30)).unwrap(), 14);
    assert_eq!(find_hwpin_for_net(&g, &pcf, &rows, &Chip::GAL22V10, &Net::N(31)).unwrap(), 23);
    assert_eq!(find_hwpin_for_net(&g, &pcf, &rows, &Chip::GAL22V10, &Net::N(10)).unwrap(), 3);
    let bp = graph_convert(&g, pcf, Chip::GAL22V10).unwrap();
    assert_eq!(bp.olmcs[0].as_ref().unwrap().term.pins, vec![vec![lit(3, false)]]);
    assert_eq!(
        bp.olmcs[9].as_ref().unwrap().term.pins,
        vec![vec![lit(3, false), lit(14, true)], vec![lit(3, true), lit(14, false)]]
    );
}

#[test]
fn net_without_one_driver_is_not_traced() {
    let g = graph_of(
        vec![
            Node::Input(input(1, 10)),
            Node::Input(input(2, 10)),
            Node::Sop(sop(vec![10, 12], 20, 1, "1010")),
            Node::Olmc(olmc(20, 30, false, false)),
            Node::Input(GalInput { connections: vec![conn("Y", vec![Net::N(13)])] }),
            Node::Input(GalInput {
                connections: vec![conn("A", vec![Net::N(1), Net::N(2)]), conn("Y", vec![Net::N(14)])],
            }),
            Node::Input(input(7, 15)),
            Node::Input(input(8, 16)),
        ],
        vec![port("a", 1, PortDirection::Input), port("c", 8, PortDirection::Input)],
    );
    let pcf = parse_pcf("set_io a 3\n");
    let rows: Vec<Option<NodeIdx>> = vec![None; 8];
    let chip = Chip::GAL16V8;
    assert!(matches!(find_hwpin_for_net(&g, &pcf, &rows, &chip, &Net::N(10)), Err(MappingError::Unknown)));
    assert!(matches!(find_hwpin_for_net(&g, &pcf, &rows, &chip, &Net::N(12)), Err(MappingError::Unknown)));
    assert!(matches!(find_hwpin_for_net(&g, &pcf, &rows, &chip, &Net::N(20)), Err(MappingError::Unknown)));
    assert!(matches!(find_hwpin_for_net(&g, &pcf, &rows, &chip, &Net::N(30)), Err(MappingError::Unknown)));
    assert!(matches!(find_hwpin_for_net(&g, &pcf, &rows, &chip, &Net::N(13)), Err(MappingError::Unknown)));
    assert!(matches!(find_hwpin_for_net(&g, &pcf, &rows, &chip, &Net::N(14)), Err(MappingError::Unknown)));
    assert!(matches!(find_hwpin_for_net(&g, &pcf, &rows, &chip, &Net::N(15)), Err(MappingError::Unknown)));
    match find_hwpin_for_net(&g, &pcf, &rows, &chip, &Net::N(16)) {
        Err(MappingError::MissingConstraint(p)) => assert_eq!(p.name, "c"),
        other => panic!("{:?}", other),
    }
    let mut placed = rows.clone();
    placed[5] = Some(NodeIdx(3));
    assert_eq!(find_hwpin_for_net(&g, &pcf, &placed, &chip, &Net::N(30)).unwrap(), 17);
    assert_eq!(find_hwpin_for_net(&g, &pcf, &placed, &chip, &Net::N(20)).unwrap(), 17);
    placed[0] = Some(NodeIdx(3));
    assert_eq!(find_hwpin_for_net(&g, &pcf, &placed, &chip, &Net::N(30)).unwrap(), 12);
}

#[test]
fn table_is_decoded_term_by_term() {
    let g = graph_of(
        vec![Node::Input(input(1, 10)), Node::Input(input(2, 11)), Node::Input(input(3, 12))],
        vec![
            port("a", 1, PortDirection::Input),
            port("b", 2, PortDirection::Input),
            port("c", 3, PortDirection::Input),
        ],
    );
    let pcf = parse_pcf("set_io a 4\nset_io b 5\nset_io c 6\n");
    let rows: Vec<Option<NodeIdx>> = vec![None; 8];
    let chip = Chip::GAL16V8;
    let cell = sop(vec![10, 11, 12], 20, 4, "100100000000011010110010");
    let term = make_term_from_sop(&g, &pcf, &rows, &chip, &cell).unwrap();
    assert_eq!(
        term.pins,
        vec![
            vec![lit(6, false), lit(5, true)],
            vec![],
            vec![lit(6, true), lit(5, false), lit(4, false)],
            vec![lit(4, false)],
        ]
    );
}

#[test]
fn table_without_terms_or_inputs() {
    let g = graph_of(vec![Node::Input(input(1, 10))], vec![port("a", 1, PortDirection::Input)]);
    let pcf = parse_pcf("set_io a 4\n");
    let rows: Vec<Option<NodeIdx>> = vec![None; 8];
    let chip = Chip::GAL16V8;
    let no_terms = sop(vec![10], 20, 0, "");
    assert!(make_term_from_sop(&g, &pcf, &rows, &chip, &no_terms).unwrap().pins.is_empty());
    let untraced = sop(vec![99], 20, 0, "");
    assert!(make_term_from_sop(&g, &pcf, &rows, &chip, &untraced).unwrap().pins.is_empty());
    let no_inputs = sop(Vec::new(), 20, 3, "");
    let empty: Vec<Pin> = Vec::new();
    assert_eq!(
        make_term_from_sop(&g, &pcf, &rows, &chip, &no_inputs).unwrap().pins,
        vec![empty.clone(), empty.clone(), empty]
    );
}

#[test]
fn table_that_does_not_match_the_cell() {
    let g = graph_of(
        vec![Node::Input(input(1, 10)), Node::Input(input(2, 11))],
        vec![port("a", 1, PortDirection::Input), port("b", 2, PortDirection::Input)],
    );
    let pcf = parse_pcf("set_io a 4\nset_io b 5\n");
    let rows: Vec<Option<NodeIdx>> = vec![None; 8];
    let chip = Chip::GAL16V8;
    for table in ["", "10", "101", "10101", "101010"] {
        let cell = sop(vec![10, 11], 20, 1, table);
        assert!(matches!(
            make_term_from_sop(&g, &pcf, &rows, &chip, &cell),
            Err(MappingError::Unknown)
        ));
    }
    let mut narrow = sop(vec![10, 11], 20, 1, "10");
    narrow.parameters.width = 1;
    assert!(matches!(
        make_term_from_sop(&g, &pcf, &rows, &chip, &narrow),
        Err(MappingError::Unknown)
    ));
    let no_port = GalSop {
        connections: vec![conn("Y", vec![Net::N(20)])],
        parameters: GalSopParameters { depth: 0, table: String::new(), width: 0 },
    };
    assert!(matches!(
        make_term_from_sop(&g, &pcf, &rows, &chip, &no_port),
        Err(MappingError::Unknown)
    ));
    let untraced = sop(vec![10, 99], 20, 1, "0000");
    assert!(matches!(
        make_term_from_sop(&g, &pcf, &rows, &chip, &untraced),
        Err(MappingError::Unknown)
    ));
    let wide = sop(vec![10, 11], 20, 1, "\u{e9}\u{e9}10");
    assert_eq!(
        make_term_from_sop(&g, &pcf, &rows, &chip, &wide).unwrap().pins,
        vec![vec![lit(4, false)]]
    );
}

#[test]
fn every_row_is_configured() {
    let g = small_design("01011010", 2);
    let pcf = parse_pcf("set_io a 2\nset_io b 3\nset_io y 12\n");
    let mut rows: Vec<Option<NodeIdx>> = vec![None; 8];
    rows[6] = Some(NodeIdx(3));
    let configs = extract_terms(&g, &pcf, &rows, &Chip::GAL16V8).unwrap();
    assert_eq!(configs.len(), 8);
    assert_eq!(configs.iter().filter(|c| c.is_some()).count(), 1);
    assert_eq!(
        configs[6].as_ref().unwrap().term.pins,
        vec![vec![lit(3, true), lit(2, true)], vec![lit(3, false), lit(2, false)]]
    );
    rows[1] = Some(NodeIdx(2));
    assert!(matches!(
        extract_terms(&g, &pcf, &rows, &Chip::GAL16V8),
        Err(MappingError::MissingSOP)
    ));
}

#[test]
fn placed_macrocell_without_driver_fails() {
    let g = graph_of(
        vec![Node::Input(input(1, 10)), Node::Olmc(olmc(10, 30, false, false))],
        vec![port("a", 1, PortDirection::Input), port("y", 30, PortDirection::Output)],
    );
    assert!(matches!(
        graph_convert(&g, parse_pcf("set_io a 2\nset_io y 12\n"), Chip::GAL16V8),
        Err(MappingError::MissingSOP)
    ));
}

#[test]
fn design_without_macrocells_uses_no_row() {
    let g = graph_of(vec![Node::Input(input(1, 10))], vec![port("a", 1, PortDirection::Input)]);
    let bp = graph_convert(&g, parse_pcf("set_io a 2\n"), Chip::GAL16V8).unwrap();
    assert_eq!(bp.olmcs.len(), 8);
    assert!(bp.olmcs.iter().all(|o| o.is_none()));
}

#[test]
fn one_input_on_both_inputs_of_a_cell() {
    let top = Module {
        ports: vec![
            ("a".to_string(), Port::Input(ModPort { bits: vec![Net::N(1)], upto: false })),
            ("y".to_string(), Port::Output(ModPort { bits: vec![Net::N(30)], upto: false })),
        ],
        cells: vec![
            ("in_a".to_string(), YosysCell::Input(input(1, 10))),
            ("both".to_string(), YosysCell::Sop(sop(vec![10, 10], 20, 1, "1001"))),
            ("out".to_string(), YosysCell::OLMC(olmc(20, 30, false, false))),
        ],
    };
    let g = Graph::from(YosysDoc { creator: String::new(), modules: vec![("top".to_string(), top)] });
    let bp = graph_convert(&g, parse_pcf("set_io a 2\nset_io y 14\n"), Chip::GAL16V8).unwrap();
    for (r, row) in bp.olmcs.iter().enumerate() {
        assert_eq!(row.is_some(), r == 2);
    }
    let term = &bp.olmcs[2].as_ref().unwrap().term;
    assert_eq!(term.pins.len(), 1);
    assert_eq!(term.pins[0], vec![lit(2, false), lit(2, true)]);
}

#[test]
fn every_macrocell_gets_one_row() {
    let mut g = internal_design(&[3, 10, 3, 16, 12, 1]);
    g.nodelist.push(Node::Sop(sop(vec![10], 300, 1, "10")));
    g.nodelist.push(Node::Olmc(olmc(300, 301, false, false)));
    g.ports.push(port("y", 301, PortDirection::Output));
    g.generate_adjacency();
    let rows = place(&g, &parse_pcf("set_io a 2\nset_io y 18\n"), Chip::GAL22V10).unwrap();
    for idx in g.get_olmc_idx() {
        assert_eq!(rows.iter().filter(|r| **r == Some(idx)).count(), 1);
    }
    assert_eq!(rows.iter().filter(|r| r.is_some()).count(), 7);
    assert_eq!(rows[4], Some(NodeIdx(14)));
}

#[test]
fn every_output_pin_has_its_row() {
    let g = small_design("1010", 1);
    for (chip, first, last) in [(Chip::GAL16V8, 12u32, 19u32), (Chip::GAL22V10, 14, 23)] {
        for pin in first..=last {
            let pcf = parse_pcf(&format!("set_io a 2\nset_io b 3\nset_io y {pin}\n"));
            let rows = place(&g, &pcf, chip).unwrap();
            assert_eq!(rows.len(), (last - first + 1) as usize);
            for (r, row) in rows.iter().enumerate() {
                assert_eq!(*row, if r == (pin - first) as usize { Some(NodeIdx(3)) } else { None });
            }
        }
    }
    let pcf = parse_pcf("set_io a 2\nset_io b 3\nset_io y 13\n");
    assert!(matches!(place(&g, &pcf, Chip::GAL22V10), Err(MappingError::Unknown)));
    let pcf = parse_pcf("set_io a 2\nset_io b 3\nset_io y 11\n");
    assert!(matches!(place(&g, &pcf, Chip::GAL16V8), Err(MappingError::Unknown)));
}
