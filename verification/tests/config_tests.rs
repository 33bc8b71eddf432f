use kicad_verilog::{Config, Error, PartPattern, PartRule};

#[test]
fn get_error_for_pins_without_hash() {
    let i = "a => a(#2)\nb => b(2)";
    let Err(_) = Config::try_from(i) else {
        panic!("expected error")
    };
}

#[test]
fn get_error_when_multiple_rules_with_same_pattern() {
    let i = "a => a()\na => b()";
    let Err(_) = Config::try_from(i) else {
        panic!("expected error")
    };
}

#[test]
fn get_error_when_multiple_rules_with_same_pattern2() {
    let i1 = "a => a()";
    let i2 = "a => b()";
    let mut config = Config::try_from(i1).unwrap();

    let Err(_) = config.parse(i2) else {
        panic!("expected error")
    };
}

#[test]
fn can_parse_inline_config() {
    let input1 = "[U1] => buf(#1,#2)\nC => skip\n";
    let input2 = "R => module[#1,#2]\n[U9] => skip\n";
    let mut config = Config::try_from(input1).unwrap();
    config.parse(input2).unwrap();
    assert_eq!(config.part_rules.len(), 4);
    match &config.part_rules[0].pattern {
        PartPattern::RefDes(s) => assert_eq!(s, "U1"),
        other => panic!("wrong pattern: {:?}", other),
    }
    match &config.part_rules[0].rule {
        PartRule::Module(m, pins) => {
            assert_eq!(m, "buf");
            assert_eq!(pins, &vec!["1".to_string(), "2".to_string()]);
        },
        other => panic!("wrong rule: {:?}", other),
    }
    match &config.part_rules[1].rule {
        PartRule::Skip => {},
        other => panic!("wrong rule: {:?}", other),
    }
    match &config.part_rules[2].rule {
        PartRule::External(pins) => {
            assert_eq!(pins, &vec!["1".to_string(), "2".to_string()]);
        },
        other => panic!("wrong rule: {:?}", other),
    }
}

#[test]
fn disjoint_sources_keep_load_order() {
    let mut config = Config::try_from("[R1] => wire(#1)\n").unwrap();
    config.parse("R => module[#1,#2]\n").unwrap();
    match &config.part_rules[0].pattern {
        PartPattern::RefDes(s) => assert_eq!(s, "R1"),
        other => panic!("wrong pattern: {:?}", other),
    }
    match &config.part_rules[1].pattern {
        PartPattern::Part(s) => assert_eq!(s, "R"),
        other => panic!("wrong pattern: {:?}", other),
    }
}

#[test]
fn missing_arrow_is_an_error() {
    match Config::try_from("just a line") {
        Err(Error::MissingArrow) => {},
        other => panic!("expected the missing-arrow error, got {:?}", other),
    }
}

#[test]
fn invalid_pin_carries_the_token() {
    match Config::try_from("a => a(#1, 2)") {
        Err(Error::InvalidPin(t)) => assert_eq!(t, "2"),
        other => panic!("expected the invalid-pin error, got {:?}", other),
    }
}

#[test]
fn invalid_rule_carries_the_text() {
    match Config::try_from("a => nonsense") {
        Err(Error::InvalidRule(t)) => assert_eq!(t, "nonsense"),
        other => panic!("expected the invalid-rule error, got {:?}", other),
    }
}

#[test]
fn duplicate_rule_carries_the_pattern() {
    match Config::try_from("x => skip\nx => skip") {
        Err(Error::DuplicateRule(PartPattern::Part(s))) => assert_eq!(s, "x"),
        other => panic!("expected the duplicate-rule error, got {:?}", other),
    }
}

#[test]
fn whitespace_around_tokens_is_ignored() {
    let config = Config::try_from("  [ U1 ]  =>  buf ( #1 , #2 )  ").unwrap();
    match &config.part_rules[0].pattern {
        PartPattern::RefDes(s) => assert_eq!(s, " U1 "),
        other => panic!("wrong pattern: {:?}", other),
    }
    match &config.part_rules[0].rule {
        PartRule::Module(m, pins) => {
            assert_eq!(m, "buf ");
            assert_eq!(pins, &vec!["1".to_string(), "2".to_string()]);
        },
        other => panic!("wrong rule: {:?}", other),
    }
}

#[test]
fn empty_pin_list_parses() {
    let config = Config::try_from("a => b()").unwrap();
    match &config.part_rules[0].rule {
        PartRule::Module(m, pins) => {
            assert_eq!(m, "b");
            assert!(pins.is_empty());
        },
        other => panic!("wrong rule: {:?}", other),
    }
}

#[test]
fn empty_source_loads_nothing() {
    let config = Config::try_from("").unwrap();
    assert!(config.part_rules.is_empty());
}

#[test]
fn external_rule_with_empty_pin_list_parses() {
    let config = Config::try_from("a => module[]").unwrap();
    match &config.part_rules[0].rule {
        PartRule::External(pins) => assert!(pins.is_empty()),
        other => panic!("wrong rule: {:?}", other),
    }
}
