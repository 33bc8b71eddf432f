use kicad_verilog::{
    add_pullups_and_pulldowns, collect_comps, collect_mod_ports, make_verilog_name,
    remove_decoupling_caps, remove_pinless_components, remove_skipped_components, write_verilog,
    Component, Config, Error, Net, NetList, Node, Pin, PinType,
};

fn pin(num: &str, name: &str, net: &str, typ: PinType) -> Pin {
    Pin { num: num.to_string(), name: name.to_string(), net: net.to_string(), typ }
}

fn node(ref_des: &str, pin: &str, typ: PinType) -> Node {
    Node { ref_des: ref_des.to_string(), pin: pin.to_string(), typ }
}

fn comp(ref_des: &str, part_id: &str, pins: Vec<Pin>) -> Component {
    Component { ref_des: ref_des.to_string(), part_id: part_id.to_string(), pins }
}

fn net(name: &str, nodes: Vec<Node>) -> Net {
    Net { name: name.to_string(), nodes }
}

fn power_nets() -> Vec<String> {
    vec!["VCC".to_string()]
}

fn ground_nets() -> Vec<String> {
    vec!["GND".to_string()]
}

fn simple_netlist() -> NetList {
    NetList {
        components: vec![
            comp(
                "R1",
                "R",
                vec![pin("1", "1", "netA", PinType::Unknown), pin("2", "2", "netB", PinType::Unknown)],
            ),
            comp(
                "U1",
                "U1",
                vec![pin("1", "1", "netA", PinType::Output), pin("2", "2", "netB", PinType::Input)],
            ),
        ],
        nets: vec![
            net("netA", vec![node("R1", "1", PinType::Unknown), node("U1", "1", PinType::Output)]),
            net("netB", vec![node("R1", "2", PinType::Unknown), node("U1", "2", PinType::Input)]),
        ],
    }
}

fn simple_config() -> Config {
    Config::try_from("R => module[#1,#2]\nU1 => buf(#1,#2)").unwrap()
}

const SIMPLE_EXPECTED: &str = "module simple\n(\n    output R1_1,\n    input R1_2\n);\n\n    wire netA;\n    wire netB;\n\n    assign VCC = 1;\n    assign GND = 0;\n\n    tran(R1_1,netA);\n    tran(R1_2,netB);\n\n    buf U1(netA,netB);\nendmodule\n";

#[test]
fn can_output_simple_verilog_file() {
    let out = write_verilog(simple_netlist(), "simple", simple_config()).unwrap();
    assert_eq!(out, SIMPLE_EXPECTED);
}

#[test]
fn rerunning_the_pipeline_gives_identical_output() {
    // Run the pipeline stages by hand to obtain the cleaned,
    // direction-resolved netlist and the augmented rule set, then compare a
    // full rerun on that state against the first output.
    let mut netlist = simple_netlist();
    let mut config = simple_config();
    let vcc = power_nets();
    let gnd = ground_nets();
    remove_decoupling_caps(&mut netlist, &vcc, &gnd);
    remove_pinless_components(&mut netlist);
    remove_skipped_components(&mut netlist, &config);
    add_pullups_and_pulldowns(&mut config, &netlist, &vcc, &gnd);
    collect_mod_ports(&mut netlist, &config).unwrap();
    let out1 = write_verilog(simple_netlist(), "simple", simple_config()).unwrap();
    let out2 = write_verilog(netlist, "simple", config).unwrap();
    assert_eq!(out1, out2);
    assert_eq!(out2, SIMPLE_EXPECTED);
}

#[test]
fn decoupling_cap_disappears_before_matching() {
    // The capacitor would otherwise fail emission: no rule matches it.
    let netlist = NetList {
        components: vec![
            comp(
                "C7",
                "C",
                vec![pin("1", "1", "VCC", PinType::Unknown), pin("2", "2", "GND", PinType::Unknown)],
            ),
            comp("U1", "U1", vec![pin("1", "1", "VCC", PinType::Input)]),
        ],
        nets: vec![
            net(
                "VCC",
                vec![node("C7", "1", PinType::Unknown), node("U1", "1", PinType::Input)],
            ),
            net("GND", vec![node("C7", "2", PinType::Unknown)]),
        ],
    };
    let config = Config::try_from("U1 => buf(#1)").unwrap();
    let out = write_verilog(netlist, "m", config).unwrap();
    // The capacitor is gone: no instantiation mentions it, and the ground
    // net it alone touched is gone with it.
    assert!(!out.contains("C7"));
    assert!(!out.contains("wire GND"));
    assert_eq!(
        out,
        "module m();\n\n    wire VCC;\n\n    assign VCC = 1;\n    assign GND = 0;\n\n\n    buf U1(VCC);\nendmodule\n"
    );
}

#[test]
fn skipped_component_is_not_emitted() {
    let netlist = NetList {
        components: vec![
            comp("J1", "CONN", vec![pin("1", "1", "netA", PinType::Unknown)]),
            comp("U1", "U1", vec![pin("1", "1", "netA", PinType::Input)]),
        ],
        nets: vec![
            net(
                "netA",
                vec![node("J1", "1", PinType::Unknown), node("U1", "1", PinType::Input)],
            ),
        ],
    };
    let config = Config::try_from("CONN => skip\nU1 => buf(#1)").unwrap();
    let out = write_verilog(netlist, "m", config).unwrap();
    assert!(!out.contains("J1"));
    assert!(out.contains("    buf U1(netA);\n"));
}

#[test]
fn pullup_and_pulldown_rules_are_synthesized() {
    let netlist = NetList {
        components: vec![
            comp(
                "R1",
                "R",
                vec![pin("1", "1", "VCC", PinType::Unknown), pin("2", "2", "netA", PinType::Unknown)],
            ),
            comp(
                "R2",
                "R",
                vec![pin("1", "1", "netB", PinType::Unknown), pin("2", "2", "GND", PinType::Unknown)],
            ),
        ],
        nets: vec![
            net("VCC", vec![node("R1", "1", PinType::Unknown)]),
            net("netA", vec![node("R1", "2", PinType::Unknown)]),
            net("netB", vec![node("R2", "1", PinType::Unknown)]),
            net("GND", vec![node("R2", "2", PinType::Unknown)]),
        ],
    };
    let mut config = Config::new();
    add_pullups_and_pulldowns(&mut config, &netlist, &power_nets(), &ground_nets());
    assert_eq!(config.part_rules.len(), 2);
    match (&config.part_rules[0].pattern, &config.part_rules[0].rule) {
        (
            kicad_verilog::PartPattern::RefDes(rd),
            kicad_verilog::PartRule::Module(m, pins),
        ) => {
            assert_eq!(rd, "R1");
            assert_eq!(m, "pullup");
            assert_eq!(pins, &vec!["2".to_string()]);
        },
        other => panic!("wrong entry: {:?}", other),
    }
    match (&config.part_rules[1].pattern, &config.part_rules[1].rule) {
        (
            kicad_verilog::PartPattern::RefDes(rd),
            kicad_verilog::PartRule::Module(m, pins),
        ) => {
            assert_eq!(rd, "R2");
            assert_eq!(m, "pulldown");
            assert_eq!(pins, &vec!["1".to_string()]);
        },
        other => panic!("wrong entry: {:?}", other),
    }
}

#[test]
fn resistor_across_power_and_ground_gets_both_rules() {
    let netlist = NetList {
        components: vec![comp(
            "R9",
            "R",
            vec![pin("1", "1", "VCC", PinType::Unknown), pin("2", "2", "GND", PinType::Unknown)],
        )],
        nets: vec![
            net("VCC", vec![node("R9", "1", PinType::Unknown)]),
            net("GND", vec![node("R9", "2", PinType::Unknown)]),
        ],
    };
    let mut config = Config::new();
    add_pullups_and_pulldowns(&mut config, &netlist, &power_nets(), &ground_nets());
    // One leg on power and the other on ground: the pull-up branch does not
    // fire (the other pin sits on ground), the pull-down branch does.
    assert_eq!(config.part_rules.len(), 1);
    match &config.part_rules[0].rule {
        kicad_verilog::PartRule::Module(m, pins) => {
            assert_eq!(m, "pulldown");
            assert_eq!(pins, &vec!["1".to_string()]);
        },
        other => panic!("wrong rule: {:?}", other),
    }
}

#[test]
fn driven_boundary_pin_becomes_an_output_port() {
    // A net with the boundary node and an `Output` node of someone else:
    // the boundary pin resolves to `Input` and is emitted as an `output`
    // port.
    let mut netlist = NetList {
        components: vec![
            comp("A1", "X", vec![pin("1", "p", "netX", PinType::Input)]),
            comp("B1", "Y", vec![pin("1", "q", "netX", PinType::Output)]),
        ],
        nets: vec![
            net(
                "netX",
                vec![node("A1", "1", PinType::Input), node("B1", "1", PinType::Output)],
            ),
        ],
    };
    let config = Config::try_from("[A1] => module[#1]").unwrap();
    let ports = collect_mod_ports(&mut netlist, &config).unwrap();
    assert_eq!(ports.len(), 1);
    assert_eq!(ports[0].name, "A1_p");
    assert_eq!(ports[0].net, "netX");
    assert_eq!(ports[0].typ, "output");
    assert_eq!(netlist.nets[0].nodes[0].typ, PinType::Input);
    assert_eq!(netlist.components[0].pins[0].typ, PinType::Input);
}

#[test]
fn undriven_boundary_pin_becomes_an_input_port() {
    // A net where every other node is an input (or there is none): the
    // boundary pin resolves to `Output` and is emitted as an `input` port.
    let mut netlist = NetList {
        components: vec![
            comp("A1", "X", vec![pin("1", "p", "netX", PinType::Unknown)]),
            comp("B1", "Y", vec![pin("1", "q", "netX", PinType::Input)]),
        ],
        nets: vec![
            net(
                "netX",
                vec![node("A1", "1", PinType::Unknown), node("B1", "1", PinType::Input)],
            ),
        ],
    };
    let config = Config::try_from("[A1] => module[#1]").unwrap();
    let ports = collect_mod_ports(&mut netlist, &config).unwrap();
    assert_eq!(ports.len(), 1);
    assert_eq!(ports[0].typ, "input");
    assert_eq!(netlist.nets[0].nodes[0].typ, PinType::Output);

    let mut lonely = NetList {
        components: vec![comp("A2", "X", vec![pin("1", "p", "netY", PinType::Unknown)])],
        nets: vec![net("netY", vec![node("A2", "1", PinType::Unknown)])],
    };
    let config = Config::try_from("[A2] => module[#1]").unwrap();
    let ports = collect_mod_ports(&mut lonely, &config).unwrap();
    assert_eq!(ports.len(), 1);
    assert_eq!(ports[0].typ, "input");
}

#[test]
fn mixed_net_leaves_the_tag_and_emits_inout() {
    let mut netlist = NetList {
        components: vec![
            comp("A1", "X", vec![pin("1", "p", "netX", PinType::Unknown)]),
            comp("B1", "Y", vec![pin("1", "q", "netX", PinType::Unknown)]),
        ],
        nets: vec![
            net(
                "netX",
                vec![node("A1", "1", PinType::Unknown), node("B1", "1", PinType::Unknown)],
            ),
        ],
    };
    let config = Config::try_from("[A1] => module[#1]").unwrap();
    let ports = collect_mod_ports(&mut netlist, &config).unwrap();
    assert_eq!(ports[0].typ, "inout");
    assert_eq!(netlist.nets[0].nodes[0].typ, PinType::Unknown);
}

#[test]
fn missing_pin_in_external_rule_is_an_error() {
    let mut netlist = NetList {
        components: vec![comp("A1", "X", vec![pin("1", "p", "netX", PinType::Unknown)])],
        nets: vec![net("netX", vec![node("A1", "1", PinType::Unknown)])],
    };
    let config = Config::try_from("[A1] => module[#7]").unwrap();
    match collect_mod_ports(&mut netlist, &config) {
        Err(Error::NoSuchPin { ref_des, pin }) => {
            assert_eq!(ref_des, "A1");
            assert_eq!(pin, "7");
        },
        other => panic!("expected the missing-pin error, got {:?}", other),
    }
}

#[test]
fn missing_pin_in_module_rule_is_an_error() {
    let netlist = NetList {
        components: vec![comp("U1", "U1", vec![pin("1", "p", "netX", PinType::Unknown)])],
        nets: vec![net("netX", vec![node("U1", "1", PinType::Unknown)])],
    };
    let config = Config::try_from("U1 => buf(#1,#2)").unwrap();
    match collect_comps(&netlist, &config) {
        Err(Error::NoSuchPin { ref_des, pin }) => {
            assert_eq!(ref_des, "U1");
            assert_eq!(pin, "2");
        },
        other => panic!("expected the missing-pin error, got {:?}", other),
    }
}

#[test]
fn unmatched_component_is_an_error() {
    let netlist = NetList {
        components: vec![comp("U1", "MYSTERY", vec![pin("1", "p", "netX", PinType::Unknown)])],
        nets: vec![net("netX", vec![node("U1", "1", PinType::Unknown)])],
    };
    let config = Config::new();
    match write_verilog(netlist, "m", config) {
        Err(Error::NoRule { ref_des, part_id }) => {
            assert_eq!(ref_des, "U1");
            assert_eq!(part_id, "MYSTERY");
        },
        other => panic!("expected the unmatched-component error, got {:?}", other),
    }
}

#[test]
fn pinless_component_is_dropped() {
    let netlist = NetList {
        components: vec![
            comp("X1", "GHOST", vec![]),
            comp("U1", "U1", vec![pin("1", "p", "netX", PinType::Unknown)]),
        ],
        nets: vec![net("netX", vec![node("U1", "1", PinType::Unknown)])],
    };
    // The pinless component has no rule; it must be gone before emission
    // ever asks for one.
    let config = Config::try_from("U1 => buf(#1)").unwrap();
    let out = write_verilog(netlist, "m", config).unwrap();
    assert!(!out.contains("X1"));
}

#[test]
fn names_are_escaped_when_needed() {
    assert_eq!(make_verilog_name("netA"), "netA");
    assert_eq!(make_verilog_name("_x$9"), "_x$9");
    assert_eq!(make_verilog_name("3net"), "\\3net ");
    assert_eq!(make_verilog_name("a-b"), "\\a-b ");
    assert_eq!(make_verilog_name(""), "\\ ");
}

#[test]
fn escaped_names_flow_into_the_output() {
    let netlist = NetList {
        components: vec![comp("U1", "U1", vec![pin("1", "p", "net-1", PinType::Unknown)])],
        nets: vec![net("net-1", vec![node("U1", "1", PinType::Unknown)])],
    };
    let config = Config::try_from("U1 => buf(#1)").unwrap();
    let out = write_verilog(netlist, "top-level", config).unwrap();
    assert!(out.starts_with("module \\top-level ();\n"));
    assert!(out.contains("    wire \\net-1 ;\n"));
    assert!(out.contains("    buf U1(\\net-1 );\nendmodule\n"));
}

#[test]
fn module_name_with_trailing_space_gets_no_second_blank() {
    // A rule written as `buf (#1)` keeps the blank in the primitive name;
    // emission adds no second one.
    let netlist = NetList {
        components: vec![comp("U1", "U1", vec![pin("1", "p", "netX", PinType::Unknown)])],
        nets: vec![net("netX", vec![node("U1", "1", PinType::Unknown)])],
    };
    let config = Config::try_from("U1 => buf (#1)").unwrap();
    let out = write_verilog(netlist, "m", config).unwrap();
    assert!(out.contains("    buf U1(netX);\n"));
}

#[test]
fn earlier_specific_rule_shadows_later_general_one() {
    let r1 = comp(
        "R1",
        "R",
        vec![pin("1", "1", "netA", PinType::Unknown), pin("2", "2", "netB", PinType::Unknown)],
    );
    let mut config = Config::try_from("[R1] => buf(#1,#2)").unwrap();
    config.parse("R => skip").unwrap();
    match config.match_component(&r1) {
        Some(kicad_verilog::PartRule::Module(m, _)) => assert_eq!(m, "buf"),
        other => panic!("expected the specific rule to win, got {:?}", other),
    }
    // Loaded the other way round, the general rule comes first and wins.
    let mut config = Config::try_from("R => skip").unwrap();
    config.parse("[R1] => buf(#1,#2)").unwrap();
    match config.match_component(&r1) {
        Some(kicad_verilog::PartRule::Skip) => {},
        other => panic!("expected the general rule to win, got {:?}", other),
    }
}

#[test]
fn carriage_returns_and_final_newline_are_tolerated() {
    let config = Config::try_from("a => skip\r\nb => skip\r\n").unwrap();
    assert_eq!(config.part_rules.len(), 2);
}

#[test]
fn resolution_of_one_pin_feeds_the_next() {
    // Resolving A1 to `Output` makes the net driven, so B1, handled
    // afterwards, resolves to `Input`.
    let mut netlist = NetList {
        components: vec![
            comp("A1", "X", vec![pin("1", "p", "netX", PinType::Unknown)]),
            comp("B1", "Y", vec![pin("1", "q", "netX", PinType::Unknown)]),
        ],
        nets: vec![
            net(
                "netX",
                vec![node("A1", "1", PinType::Unknown), node("B1", "1", PinType::Input)],
            ),
        ],
    };
    let config = Config::try_from("[A1] => module[#1]\n[B1] => module[#1]").unwrap();
    let ports = collect_mod_ports(&mut netlist, &config).unwrap();
    assert_eq!(ports.len(), 2);
    assert_eq!(ports[0].name, "A1_p");
    assert_eq!(ports[0].typ, "input");
    assert_eq!(ports[1].name, "B1_q");
    assert_eq!(ports[1].typ, "output");
    assert_eq!(netlist.nets[0].nodes[0].typ, PinType::Output);
    assert_eq!(netlist.nets[0].nodes[1].typ, PinType::Input);
}

#[test]
fn vanished_net_is_skipped_silently() {
    // The external rule's pin points at a net that is not in the net list:
    // nothing to do, no port, no error.
    let mut netlist = NetList {
        components: vec![comp("A1", "X", vec![pin("1", "p", "gone", PinType::Unknown)])],
        nets: vec![],
    };
    let config = Config::try_from("[A1] => module[#1]").unwrap();
    let ports = collect_mod_ports(&mut netlist, &config).unwrap();
    assert!(ports.is_empty());
}
