use template_miner::masking::MaskingInstructionConfig;
use template_miner::template_miner::ConfigError;
use template_miner::persistence::PersistenceError;
use template_miner::ExtractedParameter;
use template_miner::PersistenceHandler;
use template_miner::SearchStrategy;
use template_miner::TemplateMiner;
use template_miner::TemplateMinerConfig;
use template_miner::UpdateType;

/// An in-memory store, as a host application would provide.
struct MemoryStore {
    saved: Vec<Vec<u8>>,
}

impl PersistenceHandler for MemoryStore {
    fn save_state(&mut self, state: &Vec<u8>) -> Result<(), PersistenceError> {
        self.saved.push(state.clone());
        Ok(())
    }

    fn load_state(&mut self) -> Result<Option<Vec<u8>>, PersistenceError> {
        Ok(self.saved.last().cloned())
    }
}

fn miner_with_rules(rules: Vec<(&str, &str)>) -> TemplateMiner<MemoryStore> {
    let mut config = TemplateMinerConfig::default();
    config.masking_instructions = rules
        .into_iter()
        .map(|(p, m)| MaskingInstructionConfig { pattern: p.to_string(), mask_with: m.to_string() })
        .collect();
    TemplateMiner::new(config, None).unwrap()
}

#[test]
fn test_miner_masks_then_clusters() {
    let mut miner = miner_with_rules(vec![(r"(\d{1,3}(\.\d{1,3}){3})", "IP")]);
    let (c1, k1) = miner.add_log_message("Connected to 10.0.0.1");
    assert_eq!(k1, UpdateType::Created);
    assert_eq!(c1.get_template(), "Connected to <IP>");
    let (c2, k2) = miner.add_log_message("Connected to 10.0.0.2");
    assert_eq!(k2, UpdateType::Unchanged);
    assert_eq!(c2.get_cluster_id(), c1.get_cluster_id());
    assert_eq!(c2.size, 2);
}

#[test]
fn test_miner_match_cluster() {
    let mut miner = miner_with_rules(vec![(r"\d+", "NUM")]);
    let (c, _) = miner.add_log_message("User 123 logged in");
    for strategy in [SearchStrategy::Fast, SearchStrategy::Full, SearchStrategy::Fallback] {
        let m = miner.match_cluster("User 456 logged in", strategy).unwrap();
        assert_eq!(m.get_cluster_id(), c.get_cluster_id());
    }
    assert!(miner.match_cluster("User 456 logged out", SearchStrategy::Fast).is_none());
}

#[test]
fn test_extract_parameters_masked_slot() {
    // The inverse relation on a masked slot: the ingested line's cluster has
    // one placeholder, extraction recovers the one value that filled it, and
    // substituting it back reproduces the line.
    let mut miner = miner_with_rules(vec![(r"\d+", "NUM")]);
    let (c, _) = miner.add_log_message("User 123 logged in");
    let template = c.get_template();
    assert_eq!(template, "User <NUM> logged in");
    let params = miner.extract_parameters(&template, "User 123 logged in", false).unwrap();
    assert_eq!(params.len(), 1);
    assert_eq!(params[0].value, "123");
    assert_eq!(params[0].mask_name, "NUM");
    let substituted = template.replace("<NUM>", &params[0].value);
    assert_eq!(substituted, "User 123 logged in");
}

#[test]
fn test_extraction_tolerates_whitespace_runs() {
    // Each template space matches a whole whitespace run in the line.
    let miner = miner_with_rules(vec![(r"\d+", "NUM")]);
    let params = miner
        .extract_parameters("User <NUM> logged in", "User  42   logged\tin", false)
        .unwrap();
    assert_eq!(params.len(), 1);
    assert_eq!(params[0].value, "42");
}

#[test]
fn test_extract_parameters_exact_matching() {
    let miner = miner_with_rules(vec![(r"\d+", "NUM")]);
    // With exact matching the NUM slot only accepts what the NUM rule
    // accepts.
    let ok = miner.extract_parameters("User <NUM> here", "User 77 here", true).unwrap();
    assert_eq!(ok.len(), 1);
    assert_eq!(ok[0].value, "77");
    assert!(miner.extract_parameters("User <NUM> here", "User abc here", true).is_none());
}

#[test]
fn test_extract_parameters_no_match() {
    let miner = miner_with_rules(vec![(r"\d+", "NUM")]);
    assert!(miner.extract_parameters("User <NUM> here", "totally different", false).is_none());
}

#[test]
fn test_get_parameter_list() {
    let miner = miner_with_rules(vec![(r"\d+", "NUM")]);
    let values = miner.get_parameter_list("job <NUM> took <NUM> ms", "job 7 took 420 ms");
    assert_eq!(values, vec!["7".to_string(), "420".to_string()]);
    let none = miner.get_parameter_list("job <NUM> took <NUM> ms", "nothing here");
    assert_eq!(none, Vec::<String>::new());
}

#[test]
fn test_extracted_parameter_new() {
    let p = ExtractedParameter::new("10.0.0.1".to_string(), "IP".to_string());
    assert_eq!(p.value, "10.0.0.1");
    assert_eq!(p.mask_name, "IP");
}

#[test]
fn test_config_errors() {
    let mut bad_depth = TemplateMinerConfig::default();
    bad_depth.drain_depth = 2;
    let r: Result<TemplateMiner<MemoryStore>, _> = TemplateMiner::new(bad_depth, None);
    assert_eq!(r.err().unwrap(), ConfigError::InvalidDepth);

    let mut bad_sim = TemplateMinerConfig::default();
    bad_sim.drain_sim_th_num = 7;
    bad_sim.drain_sim_th_den = 5;
    let r: Result<TemplateMiner<MemoryStore>, _> = TemplateMiner::new(bad_sim, None);
    assert_eq!(r.err().unwrap(), ConfigError::InvalidSimilarity);

    let mut bad_rule = TemplateMinerConfig::default();
    bad_rule.masking_instructions =
        vec![MaskingInstructionConfig { pattern: "(".to_string(), mask_with: "BAD".to_string() }];
    let r: Result<TemplateMiner<MemoryStore>, _> = TemplateMiner::new(bad_rule, None);
    assert_eq!(r.err().unwrap(), ConfigError::InvalidRegex);
}

#[test]
fn test_save_state_snapshot_payload() {
    let mut config = TemplateMinerConfig::default();
    config.snapshot_interval_minutes = 0;
    let store = MemoryStore { saved: Vec::new() };
    let mut miner: TemplateMiner<MemoryStore> = TemplateMiner::new(config, Some(store)).unwrap();
    miner.add_log_message("Connected to 10.0.0.1");
    miner.save_state().unwrap();
    let saved = match &miner.persistence_handler {
        Some(h) => h.saved.last().unwrap().clone(),
        None => panic!("store is attached"),
    };
    let text = String::from_utf8(saved).unwrap();
    // Header (parameters, scheme, delimiters), cluster table with the mint
    // counter, then the partitioned tree, with strings length-prefixed.
    let expected = "drain\n4 100 2 5 1\n1:< 5:TOKEN 1:>\n0\n1\n0\n\
                    1 1 3 9:Connected 2:to 8:10.0.0.1\n\
                    1\n3 (0 1 9:Connected (1 1 0 -) -)\n";
    assert_eq!(text, expected);
}

#[test]
fn test_template_regex_construction() {
    let miner = miner_with_rules(vec![(r"\d+", "NUM")]);
    let (regex_str, map) = miner.get_template_parameter_extraction_regex("say <NUM> now", false);
    assert_eq!(regex_str, r"^say\s+(?P<p_0>.+?)\s+now$");
    assert_eq!(map.len(), 1);
    assert_eq!(map[0].0, "p_0");
    assert_eq!(map[0].1, "NUM");
}
