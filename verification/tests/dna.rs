use git_cuda_agent::dna::{DnaConfig, DnaParser};

fn trait_value(config: &DnaConfig, key: &str) -> String {
    config.personality.iter().find(|(k, _)| k == key).unwrap().1.clone()
}

#[test]
fn test_dna_parser() {
    let dna = r#"
name = "test-agent"
vessel_class = "captain"
verbosity = 0.3
curiosity = 0.95
cell_agent_count = 128
"#;
    let config = DnaParser::parse(dna);
    assert_eq!(config.name, "test-agent");
    assert_eq!(config.vessel_class, "captain");
    assert_eq!(config.gpu.cell_agent_count, 128);
}

#[test]
fn defaults() {
    let config = DnaConfig::default();
    assert_eq!(config.name, "agent");
    assert_eq!(config.vessel_class, "scout");
    assert_eq!(trait_value(&config, "verbosity"), "0.7");
    assert_eq!(trait_value(&config, "curiosity"), "0.8");
    assert_eq!(trait_value(&config, "caution"), "0.6");
    assert_eq!(trait_value(&config, "persistence"), "0.9");
    assert_eq!(config.capabilities.len(), 4);
    assert!(config.capabilities.contains(&("max_context_tokens".to_string(), 4096)));
    assert!(config.capabilities.contains(&("max_output_tokens".to_string(), 1024)));
    assert!(config.capabilities.contains(&("temperature_x100".to_string(), 70)));
    assert!(config.capabilities.contains(&("top_p_x100".to_string(), 90)));
    assert!(config.gpu.persistent_kernel);
    assert_eq!(config.gpu.cell_agent_count, 64);
    assert_eq!(config.gpu.muscle_fiber_count, 4);
    assert!(config.gpu.ramify_enabled && config.gpu.smart_crdt);
    assert!(config.fleet.a2a_enabled && config.fleet.a2ui_enabled);
    assert_eq!(config.fleet.heartbeat_s, 30);
}

#[test]
fn empty_and_comment_files_give_defaults() {
    for text in ["", "\n\n", "# name = \"x\"\n   \n\t# cell_agent_count = 3"] {
        let config = DnaParser::parse(text);
        assert_eq!(config.name, "agent");
        assert_eq!(config.gpu.cell_agent_count, 64);
        assert_eq!(trait_value(&config, "verbosity"), "0.7");
    }
}

#[test]
fn personality_values_parse_as_floats() {
    let config = DnaParser::parse("verbosity = 0.3\ncuriosity = 0.95\ncaution = 1e-2\n");
    assert_eq!(trait_value(&config, "verbosity"), "0.3");
    assert_eq!(trait_value(&config, "curiosity"), "0.95");
    assert_eq!(trait_value(&config, "caution"), "1e-2");
    assert_eq!(trait_value(&config, "caution").parse::<f64>().unwrap(), 0.01);
    assert_eq!(trait_value(&config, "persistence"), "0.9");
}

#[test]
fn invalid_float_keeps_previous_value() {
    let config = DnaParser::parse("verbosity = 0.1\nverbosity = high\nverbosity = 1.2.3\ncuriosity = .\n");
    assert_eq!(trait_value(&config, "verbosity"), "0.1");
    assert_eq!(trait_value(&config, "curiosity"), "0.8");
}

#[test]
fn float_literal_forms_follow_std() {
    let cases = [
        "1", "1.", ".5", "+2.5", "-3", "1E5", "2e+3", "inf", "-Infinity", "NaN", "1.5e", ".", "e5",
        "+", "1e5.0", "0x10", "1_0", "infinit", "--1",
    ];
    for case in cases {
        let config = DnaParser::parse(&format!("caution = {}", case));
        let accepted = trait_value(&config, "caution") == case;
        assert_eq!(accepted, case.parse::<f64>().is_ok(), "case {:?}", case);
    }
}

#[test]
fn cell_agent_count_forms_follow_std() {
    let cases = ["0", "+7", "-7", "", "+", "12a", "18446744073709551615", "18446744073709551616"];
    for case in cases {
        let config = DnaParser::parse(&format!("cell_agent_count = {}", case));
        let expected = case.parse::<usize>().unwrap_or(64);
        assert_eq!(config.gpu.cell_agent_count, expected, "case {:?}", case);
    }
}

#[test]
fn quotes_and_whitespace_are_trimmed() {
    let config = DnaParser::parse("   name = \"\"quoted\"\"  \r\n\tvessel_class = plain\r\n");
    assert_eq!(config.name, "quoted");
    assert_eq!(config.vessel_class, "plain");
    let config = DnaParser::parse("name = \"\"\"");
    assert_eq!(config.name, "");
}

#[test]
fn prefix_must_match_exactly() {
    let config = DnaParser::parse("name=x\nname  = y\nNAME = z\nvessel_class = \u{3000}\n");
    assert_eq!(config.name, "agent");
    assert_eq!(config.vessel_class, "scout");
}

#[test]
fn later_lines_win() {
    let config = DnaParser::parse("name = a\nname = b\ncell_agent_count = 1\ncell_agent_count = 2");
    assert_eq!(config.name, "b");
    assert_eq!(config.gpu.cell_agent_count, 2);
}

#[test]
fn unicode_is_kept() {
    let config = DnaParser::parse("name = \"agënt-δ\"\n");
    assert_eq!(config.name, "agënt-δ");
}
