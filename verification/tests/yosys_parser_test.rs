use ver2gal::pcf::parse_pcf;
use ver2gal::yosys_parser::{
    bool_from_binstr, connection, from_binstr, nets_contain, CellType, GalCell, GALOLMCParameters, GalInput, GalOLMC, GalSop, GalSopParameters, Graph,
    ModPort, Module, NamedPort, Net, NetAdjPair, Node, NodeIdx, Port, PortDirection, YosysCell,
    YosysDoc,
};

fn conn(port: &str, nets: Vec<Net>) -> (String, Vec<Net>) {
    (port.to_string(), nets)
}

fn input(a: u32, y: u32) -> GalInput {
    GalInput { connections: vec![conn("A", vec![Net::N(a)]), conn("Y", vec![Net::N(y)])] }
}

fn sop(inputs: Vec<Net>, y: u32, depth: u32, width: u32, table: &str) -> GalSop {
    GalSop {
        connections: vec![conn("A", inputs), conn("Y", vec![Net::N(y)])],
        parameters: GalSopParameters { depth, table: table.to_string(), width },
    }
}

fn olmc(a: u32, y: u32, clock: Net) -> GalOLMC {
    GalOLMC {
        parameters: GALOLMCParameters { inverted: false, registered: false },
        connections: vec![
            conn("A", vec![Net::N(a)]),
            conn("C", vec![clock]),
            conn("Y", vec![Net::N(y)]),
        ],
    }
}

fn graph_of(nodes: Vec<Node>) -> Graph {
    let mut g = Graph { nodelist: nodes, adjlist: Vec::new(), ports: Vec::new() };
    g.generate_adjacency();
    g
}

fn has_edge(g: &Graph, e: &NetAdjPair) -> usize {
    g.adjlist.iter().filter(|x| *x == e).count()
}

#[test]
fn net_compares_by_value() {
    assert_eq!(Net::N(23), Net::N(23));
    assert_ne!(Net::N(23), Net::N(24));
    assert_ne!(Net::N(0), Net::LiteralZero);
    assert_ne!(Net::N(1), Net::LiteralOne);
    assert_ne!(Net::NotConnected, Net::LiteralZero);
    assert_eq!(Net::NotConnected, Net::NotConnected);
}

#[test]
fn nets_contain_finds_a_net() {
    let nets = vec![Net::N(1), Net::LiteralOne, Net::N(7)];
    assert!(nets_contain(&nets, &Net::N(7)));
    assert!(nets_contain(&nets, &Net::LiteralOne));
    assert!(!nets_contain(&nets, &Net::N(2)));
    assert!(!nets_contain(&nets, &Net::LiteralZero));
    assert!(!nets_contain(&Vec::new(), &Net::N(1)));
}

#[test]
fn connection_is_found_by_exact_name() {
    let conns = vec![conn("A", vec![Net::N(1)]), conn("Y", vec![Net::N(2)]), conn("A", vec![Net::N(3)])];
    assert_eq!(connection(&conns, "A"), Some(&vec![Net::N(1)]));
    assert_eq!(connection(&conns, "Y"), Some(&vec![Net::N(2)]));
    assert_eq!(connection(&conns, "C"), None);
    assert_eq!(connection(&conns, "a"), None);
    assert_eq!(connection(&conns, ""), None);
}

#[test]
fn node_exposes_connections_nets_and_ports() {
    let node = Node::Sop(sop(vec![Net::N(4), Net::N(5), Net::LiteralOne], 9, 1, 3, "101010"));
    assert_eq!(node.get_connections().len(), 2);
    assert_eq!(node.get_connections()[0].0, "A");
    assert_eq!(node.get_nets(), vec![Net::N(4), Net::N(5), Net::LiteralOne, Net::N(9)]);
    assert_eq!(node.port_for_net(&Net::N(5)), Some("A".to_string()));
    assert_eq!(node.port_for_net(&Net::N(9)), Some("Y".to_string()));
    assert_eq!(node.port_for_net(&Net::LiteralOne), Some("A".to_string()));
    assert_eq!(node.port_for_net(&Net::N(6)), None);
    assert!(node.uses_net(&Net::N(4)));
    assert!(!node.uses_net(&Net::N(6)));
}

#[test]
fn port_for_net_gives_the_first_port() {
    let node = Node::Input(GalInput {
        connections: vec![conn("Y", vec![Net::N(3)]), conn("A", vec![Net::N(3)])],
    });
    assert_eq!(node.port_for_net(&Net::N(3)), Some("Y".to_string()));
    assert_eq!(node.get_nets(), vec![Net::N(3), Net::N(3)]);
}

#[test]
fn node_without_connections() {
    let node = Node::Input(GalInput { connections: Vec::new() });
    assert!(node.get_nets().is_empty());
    assert_eq!(node.port_for_net(&Net::N(1)), None);
    assert!(!node.uses_net(&Net::N(1)));
}

#[test]
fn named_port_keeps_what_it_is_made_of() {
    let p = NamedPort::new("clk", &Net::N(2), &PortDirection::Input);
    assert_eq!(p.name, "clk");
    assert_eq!(p.net, Net::N(2));
    assert_eq!(p.direction, PortDirection::Input);
    assert_eq!(p.duplicate(), p);
}

#[test]
fn single_bit_port_keeps_its_name() {
    let ports = NamedPort::new_split(
        "clk",
        ModPort { bits: vec![Net::N(2)], upto: false },
        PortDirection::Input,
    );
    assert_eq!(ports, vec![NamedPort::new("clk", &Net::N(2), &PortDirection::Input)]);
}

#[test]
fn wide_port_is_split_by_index() {
    let bits: Vec<Net> = (0..12).map(|i| Net::N(100 + i)).collect();
    let ports = NamedPort::new_split("data", ModPort { bits, upto: false }, PortDirection::Output);
    assert_eq!(ports.len(), 12);
    assert_eq!(ports[0].name, "data[0]");
    assert_eq!(ports[0].net, Net::N(100));
    assert_eq!(ports[1].name, "data[1]");
    assert_eq!(ports[9].name, "data[9]");
    assert_eq!(ports[10].name, "data[10]");
    assert_eq!(ports[11].name, "data[11]");
    assert_eq!(ports[11].net, Net::N(111));
    for p in &ports {
        assert_eq!(p.direction, PortDirection::Output);
    }
}

#[test]
fn port_without_bits_gives_no_ports() {
    let ports = NamedPort::new_split(
        "none",
        ModPort { bits: Vec::new(), upto: false },
        PortDirection::Inout,
    );
    assert!(ports.is_empty());
}

#[test]
fn split_name_is_the_key_of_the_constraint() {
    let pcf = parse_pcf("set_io data[0] 4\nset_io data[1] 5\nset_io clk 1\n");
    let ports = NamedPort::new_split(
        "data",
        ModPort { bits: vec![Net::N(8), Net::N(9)], upto: false },
        PortDirection::Input,
    );
    assert_eq!(ports[0].lookup(&pcf), Some(4));
    assert_eq!(ports[1].lookup(&pcf), Some(5));
    let clk = NamedPort::new("clk", &Net::N(2), &PortDirection::Input);
    assert_eq!(clk.lookup(&pcf), Some(1));
    let other = NamedPort::new("data", &Net::N(2), &PortDirection::Input);
    assert_eq!(other.lookup(&pcf), None);
}

#[test]
fn node_index_label() {
    assert_eq!(NodeIdx(0).to_string(), "(Nodeindex: 0)");
    assert_eq!(NodeIdx(7).to_string(), "(Nodeindex: 7)");
    assert_eq!(NodeIdx(1234567890).to_string(), "(Nodeindex: 1234567890)");
}

#[test]
fn edge_equality_has_no_direction() {
    let e = NetAdjPair::new(Net::N(5), NodeIdx(0), "Y", NodeIdx(1), "A");
    let same = NetAdjPair::new(Net::N(5), NodeIdx(0), "Y", NodeIdx(1), "A");
    let swapped = NetAdjPair::new(Net::N(5), NodeIdx(1), "A", NodeIdx(0), "Y");
    assert!(e == same);
    assert!(e == swapped);
    assert!(swapped == e);
    assert!(e != NetAdjPair::new(Net::N(6), NodeIdx(0), "Y", NodeIdx(1), "A"));
    assert!(e != NetAdjPair::new(Net::N(5), NodeIdx(0), "A", NodeIdx(1), "Y"));
    assert!(e != NetAdjPair::new(Net::N(5), NodeIdx(0), "Y", NodeIdx(2), "A"));
    assert!(e != NetAdjPair::new(Net::N(5), NodeIdx(1), "Y", NodeIdx(0), "A"));
    assert!(e != NetAdjPair::new(Net::N(5), NodeIdx(0), "Y", NodeIdx(1), "Y"));
}

#[test]
fn edge_queries() {
    let e = NetAdjPair::new(Net::N(5), NodeIdx(0), "Y", NodeIdx(1), "A");
    assert!(e.uses_net(&Net::N(5)));
    assert!(!e.uses_net(&Net::N(6)));
    assert!(e.uses_nodeport(&NodeIdx(0), "Y"));
    assert!(e.uses_nodeport(&NodeIdx(1), "A"));
    assert!(!e.uses_nodeport(&NodeIdx(0), "A"));
    assert!(!e.uses_nodeport(&NodeIdx(1), "Y"));
    assert!(!e.uses_nodeport(&NodeIdx(2), "A"));
    assert_eq!(e.get_other(&NodeIdx(0)), Some((NodeIdx(1), "A")));
    assert_eq!(e.get_other(&NodeIdx(1)), Some((NodeIdx(0), "Y")));
    assert_eq!(e.get_other(&NodeIdx(2)), None);
}

#[test]
fn adjacency_joins_every_shared_net_once() {
    let g = graph_of(vec![
        Node::Input(input(1, 10)),
        Node::Input(input(2, 11)),
        Node::Sop(sop(vec![Net::N(10), Net::N(11)], 20, 1, 2, "1010")),
        Node::Olmc(olmc(20, 30, Net::NotConnected)),
    ]);
    assert_eq!(g.adjlist.len(), 3);
    assert_eq!(has_edge(&g, &NetAdjPair::new(Net::N(10), NodeIdx(0), "Y", NodeIdx(2), "A")), 1);
    assert_eq!(has_edge(&g, &NetAdjPair::new(Net::N(10), NodeIdx(2), "A", NodeIdx(0), "Y")), 1);
    assert_eq!(has_edge(&g, &NetAdjPair::new(Net::N(11), NodeIdx(1), "Y", NodeIdx(2), "A")), 1);
    assert_eq!(has_edge(&g, &NetAdjPair::new(Net::N(20), NodeIdx(2), "Y", NodeIdx(3), "A")), 1);
    assert_eq!(has_edge(&g, &NetAdjPair::new(Net::N(20), NodeIdx(2), "A", NodeIdx(3), "A")), 0);
}

#[test]
fn adjacency_has_no_duplicates() {
    let g = graph_of(vec![
        Node::Sop(sop(vec![Net::N(5), Net::N(5)], 6, 1, 2, "1010")),
        Node::Sop(sop(vec![Net::N(5), Net::N(5), Net::N(6)], 7, 1, 3, "101010")),
        Node::Input(input(9, 5)),
    ]);
    for (i, a) in g.adjlist.iter().enumerate() {
        for (j, b) in g.adjlist.iter().enumerate() {
            if i != j {
                assert!(a != b);
            }
        }
    }
    assert_eq!(has_edge(&g, &NetAdjPair::new(Net::N(5), NodeIdx(0), "A", NodeIdx(1), "A")), 1);
    assert_eq!(has_edge(&g, &NetAdjPair::new(Net::N(5), NodeIdx(0), "A", NodeIdx(2), "Y")), 1);
    assert_eq!(has_edge(&g, &NetAdjPair::new(Net::N(5), NodeIdx(1), "A", NodeIdx(2), "Y")), 1);
    assert_eq!(has_edge(&g, &NetAdjPair::new(Net::N(6), NodeIdx(0), "Y", NodeIdx(1), "A")), 1);
    assert_eq!(g.adjlist.len(), 4);
}

#[test]
fn adjacency_covers_every_port_that_carries_the_net() {
    let both = Node::Input(GalInput {
        connections: vec![conn("A", vec![Net::N(3)]), conn("Y", vec![Net::N(3)])],
    });
    let g = graph_of(vec![both, Node::Olmc(olmc(3, 4, Net::NotConnected))]);
    assert_eq!(g.adjlist.len(), 2);
    assert_eq!(has_edge(&g, &NetAdjPair::new(Net::N(3), NodeIdx(0), "A", NodeIdx(1), "A")), 1);
    assert_eq!(has_edge(&g, &NetAdjPair::new(Net::N(3), NodeIdx(0), "Y", NodeIdx(1), "A")), 1);
}

#[test]
fn constants_and_open_ports_join_nothing() {
    let a = Node::Sop(sop(vec![Net::LiteralOne, Net::LiteralZero, Net::NotConnected], 6, 1, 3, "000000"));
    let b = Node::Sop(sop(vec![Net::LiteralOne, Net::LiteralZero, Net::NotConnected], 7, 1, 3, "000000"));
    let g = graph_of(vec![a, b]);
    assert!(g.adjlist.is_empty());
}

#[test]
fn net_on_one_node_only_joins_nothing() {
    let g = graph_of(vec![Node::Input(input(1, 2)), Node::Input(input(3, 4))]);
    assert!(g.adjlist.is_empty());
    let empty = graph_of(Vec::new());
    assert!(empty.adjlist.is_empty());
}

#[test]
fn adjacency_is_built_anew() {
    let mut g = graph_of(vec![Node::Input(input(1, 10)), Node::Olmc(olmc(10, 30, Net::NotConnected))]);
    assert_eq!(g.adjlist.len(), 1);
    g.adjlist.push(NetAdjPair::new(Net::N(99), NodeIdx(0), "A", NodeIdx(1), "Y"));
    g.nodelist.push(Node::Input(input(30, 40)));
    g.generate_adjacency();
    assert_eq!(g.adjlist.len(), 2);
    assert_eq!(has_edge(&g, &NetAdjPair::new(Net::N(99), NodeIdx(0), "A", NodeIdx(1), "Y")), 0);
    assert_eq!(has_edge(&g, &NetAdjPair::new(Net::N(30), NodeIdx(1), "Y", NodeIdx(2), "A")), 1);
    assert_eq!(g.nodelist.len(), 3);
}

#[test]
fn graph_queries() {
    let mut g = graph_of(vec![
        Node::Input(input(1, 10)),
        Node::Olmc(olmc(20, 30, Net::NotConnected)),
        Node::Sop(sop(vec![Net::N(10), Net::N(31)], 20, 1, 2, "1010")),
        Node::Olmc(olmc(21, 31, Net::NotConnected)),
    ]);
    g.ports.push(NamedPort::new("in", &Net::N(1), &PortDirection::Input));
    g.ports.push(NamedPort::new("out", &Net::N(30), &PortDirection::Output));
    g.ports.push(NamedPort::new("again", &Net::N(30), &PortDirection::Output));
    g.ports.push(NamedPort::new("one", &Net::LiteralOne, &PortDirection::Input));

    assert_eq!(g.find_nodes_on_net(&Net::N(10)), vec![NodeIdx(0), NodeIdx(2)]);
    assert_eq!(g.find_nodes_on_net(&Net::N(31)), vec![NodeIdx(2), NodeIdx(3)]);
    assert_eq!(g.find_nodes_on_net(&Net::NotConnected), vec![NodeIdx(1), NodeIdx(3)]);
    assert!(g.find_nodes_on_net(&Net::N(77)).is_empty());

    assert_eq!(g.get_node(&NodeIdx(0)), Some(&Node::Input(input(1, 10))));
    assert_eq!(g.get_node(&NodeIdx(3)), Some(&Node::Olmc(olmc(21, 31, Net::NotConnected))));
    assert_eq!(g.get_node(&NodeIdx(4)), None);
    assert_eq!(g.get_node(&NodeIdx(usize::MAX)), None);

    assert_eq!(g.get_olmc_idx(), vec![NodeIdx(1), NodeIdx(3)]);
    let olmcs = g.get_olmc();
    assert_eq!(olmcs.len(), 2);
    assert_eq!(olmcs[0], &Node::Olmc(olmc(20, 30, Net::NotConnected)));
    assert_eq!(olmcs[1], &Node::Olmc(olmc(21, 31, Net::NotConnected)));

    assert_eq!(g.find_port(&Net::N(1)).map(|p| p.name.as_str()), Some("in"));
    assert_eq!(g.find_port(&Net::N(30)).map(|p| p.name.as_str()), Some("out"));
    assert!(g.find_port(&Net::N(31)).is_none());
    assert!(g.find_port(&Net::LiteralOne).is_none());
    assert!(g.find_port(&Net::NotConnected).is_none());

    let conns = g.get_node_port_conns(&NodeIdx(2), "A");
    assert_eq!(conns.len(), 2);
    assert!(*conns[0] == NetAdjPair::new(Net::N(10), NodeIdx(0), "Y", NodeIdx(2), "A"));
    assert!(*conns[1] == NetAdjPair::new(Net::N(31), NodeIdx(2), "A", NodeIdx(3), "Y"));
    let conns = g.get_node_port_conns(&NodeIdx(1), "A");
    assert_eq!(conns.len(), 1);
    assert!(*conns[0] == NetAdjPair::new(Net::N(20), NodeIdx(2), "Y", NodeIdx(1), "A"));
    assert!(g.get_node_port_conns(&NodeIdx(1), "Y").is_empty());
    assert!(g.get_node_port_conns(&NodeIdx(9), "A").is_empty());
}

#[test]
fn validate_accepts_one_clock() {
    let g = graph_of(vec![
        Node::Olmc(olmc(1, 2, Net::N(50))),
        Node::Olmc(olmc(3, 4, Net::NotConnected)),
        Node::Olmc(olmc(5, 6, Net::N(50))),
        Node::Input(input(7, 8)),
    ]);
    assert_eq!(g.validate(), Ok(()));
    assert_eq!(graph_of(Vec::new()).validate(), Ok(()));
}

#[test]
fn validate_accepts_macrocell_without_clock_port() {
    let bare = GalOLMC {
        parameters: GALOLMCParameters { inverted: false, registered: false },
        connections: vec![conn("A", vec![Net::N(1)]), conn("Y", vec![Net::N(2)])],
    };
    let g = graph_of(vec![Node::Olmc(bare), Node::Olmc(olmc(3, 4, Net::N(9)))]);
    assert_eq!(g.validate(), Ok(()));
}

#[test]
fn validate_accepts_clock_port_without_nets() {
    let open = GalOLMC {
        parameters: GALOLMCParameters { inverted: false, registered: false },
        connections: vec![conn("A", vec![Net::N(1)]), conn("C", Vec::new()), conn("Y", vec![Net::N(2)])],
    };
    let g = graph_of(vec![Node::Olmc(open), Node::Olmc(olmc(3, 4, Net::N(9)))]);
    assert_eq!(g.validate(), Ok(()));
}

#[test]
fn validate_rejects_two_clock_domains() {
    let g = graph_of(vec![
        Node::Olmc(olmc(1, 2, Net::N(50))),
        Node::Olmc(olmc(3, 4, Net::N(51))),
    ]);
    assert_eq!(g.validate(), Err("clock pin is not shared amongst all OLMCs"));
    let g = graph_of(vec![
        Node::Olmc(olmc(1, 2, Net::N(50))),
        Node::Olmc(olmc(3, 4, Net::NotConnected)),
        Node::Olmc(olmc(5, 6, Net::N(50))),
        Node::Olmc(olmc(7, 8, Net::N(52))),
    ]);
    assert_eq!(g.validate(), Err("clock pin is not shared amongst all OLMCs"));
}

#[test]
fn validate_rejects_constant_clock() {
    let g = graph_of(vec![Node::Olmc(olmc(1, 2, Net::LiteralOne))]);
    assert_eq!(g.validate(), Err("invalid clock pin"));
    let g = graph_of(vec![
        Node::Olmc(olmc(1, 2, Net::N(50))),
        Node::Olmc(olmc(3, 4, Net::N(51))),
        Node::Olmc(olmc(5, 6, Net::LiteralZero)),
    ]);
    assert_eq!(g.validate(), Err("invalid clock pin"));
}

#[test]
fn validate_rejects_several_clock_nets() {
    let two = GalOLMC {
        parameters: GALOLMCParameters { inverted: false, registered: true },
        connections: vec![
            conn("A", vec![Net::N(1)]),
            conn("C", vec![Net::N(50), Net::N(50)]),
            conn("Y", vec![Net::N(2)]),
        ],
    };
    let g = graph_of(vec![Node::Olmc(olmc(3, 4, Net::LiteralOne)), Node::Olmc(two)]);
    assert_eq!(g.validate(), Err("OLMC has more than one clock input!"));
}

#[test]
fn validate_looks_at_macrocells_only() {
    let odd = GalInput {
        connections: vec![conn("A", vec![Net::N(1)]), conn("C", vec![Net::LiteralOne, Net::N(3)])],
    };
    let g = graph_of(vec![Node::Input(odd), Node::Olmc(olmc(3, 4, Net::N(9)))]);
    assert_eq!(g.validate(), Ok(()));
}

fn module(ports: Vec<(String, Port)>, cells: Vec<(String, YosysCell)>) -> Module {
    Module { ports, cells }
}

#[test]
fn graph_is_built_from_document() {
    let top = module(
        vec![
            ("a".to_string(), Port::Input(ModPort { bits: vec![Net::N(1)], upto: false })),
            ("q".to_string(), Port::Output(ModPort { bits: vec![Net::N(30), Net::N(31)], upto: false })),
            ("io".to_string(), Port::InOut(ModPort { bits: vec![Net::N(40)], upto: true })),
        ],
        vec![
            ("in_a".to_string(), YosysCell::Input(input(1, 10))),
            ("sop".to_string(), YosysCell::Sop(sop(vec![Net::N(10)], 20, 1, 1, "10"))),
            ("out".to_string(), YosysCell::OLMC(olmc(20, 30, Net::NotConnected))),
        ],
    );
    let helper = module(
        vec![("A".to_string(), Port::Input(ModPort { bits: vec![Net::N(2)], upto: false }))],
        vec![("x".to_string(), YosysCell::Input(input(2, 3)))],
    );
    let doc = YosysDoc {
        creator: "test".to_string(),
        modules: vec![
            ("GAL_SOP".to_string(), helper.clone()),
            ("top".to_string(), top),
            ("GAL_INPUT".to_string(), helper.clone()),
            ("GAL_OLMC".to_string(), helper.clone()),
            ("GAL_1SOP".to_string(), helper.clone()),
            ("DFF_P".to_string(), helper),
        ],
    };
    let g = Graph::from(doc);
    assert_eq!(
        g.nodelist,
        vec![
            Node::Input(input(1, 10)),
            Node::Sop(sop(vec![Net::N(10)], 20, 1, 1, "10")),
            Node::Olmc(olmc(20, 30, Net::NotConnected)),
        ]
    );
    assert_eq!(
        g.ports,
        vec![
            NamedPort::new("a", &Net::N(1), &PortDirection::Input),
            NamedPort::new("q[0]", &Net::N(30), &PortDirection::Output),
            NamedPort::new("q[1]", &Net::N(31), &PortDirection::Output),
            NamedPort::new("io", &Net::N(40), &PortDirection::Inout),
        ]
    );
    assert_eq!(g.adjlist.len(), 2);
    assert_eq!(has_edge(&g, &NetAdjPair::new(Net::N(10), NodeIdx(0), "Y", NodeIdx(1), "A")), 1);
    assert_eq!(has_edge(&g, &NetAdjPair::new(Net::N(20), NodeIdx(1), "Y", NodeIdx(2), "A")), 1);
    assert_eq!(g.validate(), Ok(()));
}

#[test]
fn modules_are_flattened_in_order() {
    let first = module(Vec::new(), vec![("a".to_string(), YosysCell::Input(input(1, 2)))]);
    let second = module(Vec::new(), vec![("b".to_string(), YosysCell::Input(input(2, 3)))]);
    let doc = YosysDoc {
        creator: String::new(),
        modules: vec![("one".to_string(), first), ("gal_sop".to_string(), second)],
    };
    let g = Graph::from(doc);
    assert_eq!(g.nodelist, vec![Node::Input(input(1, 2)), Node::Input(input(2, 3))]);
    assert!(g.ports.is_empty());
    assert_eq!(g.adjlist.len(), 1);
    let empty = Graph::from(YosysDoc { creator: String::new(), modules: Vec::new() });
    assert!(empty.nodelist.is_empty() && empty.ports.is_empty() && empty.adjlist.is_empty());
}

#[test]
fn two_macrocells_on_different_clock_nets_fail_validation() {
    let top = module(
        Vec::new(),
        vec![
            ("r1".to_string(), YosysCell::OLMC(olmc(1, 2, Net::N(7)))),
            ("r2".to_string(), YosysCell::OLMC(olmc(3, 4, Net::N(8)))),
        ],
    );
    let g = Graph::from(YosysDoc { creator: String::new(), modules: vec![("top".to_string(), top)] });
    assert!(g.validate().is_err());
}

#[test]
fn numbers_are_written_in_binary_digits() {
    assert_eq!(from_binstr("00000000000111"), Some(7));
    assert_eq!(from_binstr("0"), Some(0));
    assert_eq!(from_binstr("1"), Some(1));
    assert_eq!(from_binstr("10"), Some(2));
    assert_eq!(from_binstr("+101"), Some(5));
    assert_eq!(from_binstr("11111111111111111111111111111111"), Some(u32::MAX));
    assert_eq!(from_binstr("0000011111111111111111111111111111111"), Some(u32::MAX));
    assert_eq!(from_binstr("100000000000000000000000000000000"), None);
    assert_eq!(from_binstr(""), None);
    assert_eq!(from_binstr("+"), None);
    assert_eq!(from_binstr("2"), None);
    assert_eq!(from_binstr("12"), None);
    assert_eq!(from_binstr("-1"), None);
    assert_eq!(from_binstr("1+"), None);
    assert_eq!(from_binstr("++1"), None);
    assert_eq!(from_binstr(" 1"), None);
    assert_eq!(from_binstr("0b1"), None);
}

#[test]
fn flags_are_numbers_in_binary_digits() {
    assert_eq!(bool_from_binstr("1"), Some(true));
    assert_eq!(bool_from_binstr("00000000000000000000000000000001"), Some(true));
    assert_eq!(bool_from_binstr("0"), Some(false));
    assert_eq!(bool_from_binstr("10"), Some(false));
    assert_eq!(bool_from_binstr("11"), Some(false));
    assert_eq!(bool_from_binstr(""), None);
    assert_eq!(bool_from_binstr("true"), None);
}

fn general_cell() -> GalCell {
    GalCell::new(
        Some("sop0".to_string()),
        CellType::Sop,
        vec![
            conn("A", vec![Net::N(4), Net::LiteralOne, Net::N(5)]),
            conn("Y", vec![Net::N(9)]),
            conn("A", vec![Net::N(6)]),
        ],
        vec![
            ("DEPTH".to_string(), "00000000000000000000000000000010".to_string()),
            ("TABLE".to_string(), "100110".to_string()),
            ("DEPTH".to_string(), "1".to_string()),
        ],
    )
}

#[test]
fn general_cell_exposes_what_it_was_made_of() {
    let cell = general_cell();
    assert_eq!(cell.name(), "sop0");
    assert_eq!(cell.ctype(), &CellType::Sop);
    assert_eq!(cell.get_connection("A"), Some(&vec![Net::N(4), Net::LiteralOne, Net::N(5)]));
    assert_eq!(cell.get_connection("Y"), Some(&vec![Net::N(9)]));
    assert_eq!(cell.get_connection("C"), None);
    assert_eq!(cell.get_param("TABLE"), Some(&"100110".to_string()));
    assert_eq!(
        cell.get_param("DEPTH"),
        Some(&"00000000000000000000000000000010".to_string())
    );
    assert_eq!(cell.get_param("WIDTH"), None);
    assert_eq!(cell.get_param("depth"), None);
    assert_eq!(
        cell.nets(),
        vec![&Net::N(4), &Net::LiteralOne, &Net::N(5), &Net::N(9), &Net::N(6)]
    );
    assert!(cell.uses_net(&Net::N(9)));
    assert!(cell.uses_net(&Net::N(6)));
    assert!(cell.uses_net(&Net::LiteralOne));
    assert!(!cell.uses_net(&Net::N(7)));
    assert_eq!(cell.get_port_for_net(&Net::N(5)), Some("A"));
    assert_eq!(cell.get_port_for_net(&Net::N(9)), Some("Y"));
    assert_eq!(cell.get_port_for_net(&Net::N(6)), Some("A"));
    assert_eq!(cell.get_port_for_net(&Net::N(7)), None);
}

#[test]
fn general_cell_without_name() {
    let cell = GalCell::new(None, CellType::OLMC, Vec::new(), Vec::new());
    assert_eq!(cell.name(), "unnamed");
    assert_eq!(cell.ctype(), &CellType::OLMC);
    assert!(cell.nets().is_empty());
    assert!(!cell.uses_net(&Net::N(1)));
    assert_eq!(cell.get_connection("A"), None);
    assert_eq!(cell.get_param("A"), None);
    assert_eq!(cell.get_port_for_net(&Net::N(1)), None);
    let input = GalCell::new(Some(String::new()), CellType::Input, Vec::new(), Vec::new());
    assert_eq!(input.name(), "");
    assert_eq!(input.ctype(), &CellType::Input);
}
