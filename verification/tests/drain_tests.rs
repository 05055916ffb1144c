use template_miner::Drain;
use template_miner::SearchStrategy;
use template_miner::UpdateType;

fn default_drain() -> Drain {
    Drain::new(4, 2, 5, 100, None, vec![], true, "TOKEN", "<", ">")
}

#[test]
fn test_drain_parsing() {
    let mut drain = default_drain();

    let log1 = "Connected to 10.0.0.1";
    let (cluster1, type1) = drain.add_log_message(log1);
    assert_eq!(type1, UpdateType::Created);
    assert_eq!(cluster1.get_cluster_id(), 1);
    assert_eq!(cluster1.get_template(), "Connected to 10.0.0.1");

    let log2 = "Connected to 10.0.0.2";
    let (cluster2, type2) = drain.add_log_message(log2);
    assert_eq!(type2, UpdateType::Updated);
    assert_eq!(cluster2.get_cluster_id(), 1);
    assert_eq!(cluster2.get_template(), "Connected to <TOKEN1>");

    let log3 = "Disconnect from 10.0.0.1";
    let (cluster3, type3) = drain.add_log_message(log3);
    assert_eq!(type3, UpdateType::Created);
    assert_eq!(cluster3.get_cluster_id(), 2);
}

#[test]
fn test_drain_max_children() {
    let mut drain = Drain::new(4, 2, 5, 2, None, vec![], true, "TOKEN", "<", ">");
    drain.add_log_message("A");
    drain.add_log_message("B");
    drain.add_log_message("C");
}

#[test]
fn test_single_token_lines_each_create_a_cluster() {
    // Single-token lines attach at the length-partition node before any
    // branching, so the child-count budget never engages; with no position
    // agreeing, every distinct token stays below the threshold and a later
    // "D" creates a fourth cluster rather than matching.
    let mut drain = Drain::new(4, 2, 5, 2, None, vec![], true, "TOKEN", "<", ">");
    let (c1, t1) = drain.add_log_message("A");
    let (c2, t2) = drain.add_log_message("B");
    let (c3, t3) = drain.add_log_message("C");
    let (c4, t4) = drain.add_log_message("D");
    assert_eq!(t1, UpdateType::Created);
    assert_eq!(t2, UpdateType::Created);
    assert_eq!(t3, UpdateType::Created);
    assert_eq!(t4, UpdateType::Created);
    assert_eq!(c1.get_cluster_id(), 1);
    assert_eq!(c2.get_cluster_id(), 2);
    assert_eq!(c3.get_cluster_id(), 3);
    assert_eq!(c4.get_cluster_id(), 4);
}

#[test]
fn test_match_after_ingest_returns_same_cluster() {
    // A line just ingested matches its own cluster under every strategy:
    // placeholder positions count as agreement, so similarity is 1.
    let mut drain = default_drain();
    drain.add_log_message("Connected to 10.0.0.1");
    let (ingested, _) = drain.add_log_message("Connected to 10.0.0.2");

    let fast = drain.match_cluster("Connected to 10.0.0.2", SearchStrategy::Fast).unwrap();
    assert_eq!(fast.get_cluster_id(), ingested.get_cluster_id());
    let full = drain.match_cluster("Connected to 10.0.0.2", SearchStrategy::Full).unwrap();
    assert_eq!(full.get_cluster_id(), ingested.get_cluster_id());
    let fb = drain.match_cluster("Connected to 10.0.0.2", SearchStrategy::Fallback).unwrap();
    assert_eq!(fb.get_cluster_id(), ingested.get_cluster_id());
}

#[test]
fn test_match_requires_full_agreement() {
    let mut drain = default_drain();
    drain.add_log_message("Connected to 10.0.0.1");
    // One literal position differs and nothing was generalized yet, so the
    // read-only lookup (similarity 1 required) finds nothing.
    assert!(drain.match_cluster("Connected to 10.0.0.9", SearchStrategy::Fast).is_none());
    assert!(drain.match_cluster("Connected to 10.0.0.9", SearchStrategy::Full).is_none());
}

#[test]
fn test_length_partitioning() {
    // Lines with different token counts never share a cluster.
    let mut drain = default_drain();
    let (c1, _) = drain.add_log_message("alpha beta");
    let (c2, _) = drain.add_log_message("alpha beta gamma");
    assert_ne!(c1.get_cluster_id(), c2.get_cluster_id());
    assert_eq!(drain.get_clusters_ids_for_seq_len(2), vec![1]);
    assert_eq!(drain.get_clusters_ids_for_seq_len(3), vec![2]);
    assert_eq!(drain.get_clusters_ids_for_seq_len(4), Vec::<usize>::new());
}

#[test]
fn test_size_counts_every_absorption() {
    // The size grows on every match, whether or not the template changed.
    let mut drain = default_drain();
    drain.add_log_message("job 10 done");
    drain.add_log_message("job 11 done");
    let (c, kind) = drain.add_log_message("job 12 done");
    assert_eq!(kind, UpdateType::Unchanged);
    assert_eq!(c.size, 3);
    assert_eq!(c.get_template(), "job <TOKEN1> done");
}

#[test]
fn test_numeric_tokens_take_the_wildcard_path() {
    // With numeric parametrization on, tokens holding digits route through
    // the wildcard child, so lines differing in a leading number still meet.
    let mut drain = default_drain();
    let (c1, _) = drain.add_log_message("17 errors found today");
    let (c2, k2) = drain.add_log_message("23 errors found today");
    assert_eq!(c1.get_cluster_id(), c2.get_cluster_id());
    assert_eq!(k2, UpdateType::Updated);
    assert_eq!(c2.get_template(), "<TOKEN1> errors found today");
}

#[test]
fn test_extra_delimiters_split_tokens() {
    let mut drain = Drain::new(
        4,
        2,
        5,
        100,
        None,
        vec!["=".to_string()],
        true,
        "TOKEN",
        "<",
        ">",
    );
    let (c, _) = drain.add_log_message("status=ok code=200");
    assert_eq!(c.get_template(), "status ok code 200");
    assert_eq!(c.get_tokens().len(), 4);
}

#[test]
fn test_empty_line_gets_its_own_partition() {
    let mut drain = default_drain();
    let (c1, k1) = drain.add_log_message("   ");
    assert_eq!(k1, UpdateType::Created);
    assert_eq!(c1.get_template(), "");
    let (c2, k2) = drain.add_log_message("");
    assert_eq!(k2, UpdateType::Unchanged);
    assert_eq!(c2.get_cluster_id(), c1.get_cluster_id());
    assert_eq!(c2.size, 2);
}

#[test]
fn test_get_cluster_by_id() {
    let mut drain = default_drain();
    drain.add_log_message("alpha beta");
    drain.add_log_message("gamma delta epsilon");
    assert_eq!(drain.get_cluster_by_id(1).unwrap().get_template(), "alpha beta");
    assert_eq!(drain.get_cluster_by_id(2).unwrap().get_template(), "gamma delta epsilon");
    assert!(drain.get_cluster_by_id(0).is_none());
    assert!(drain.get_cluster_by_id(3).is_none());
}

#[test]
fn test_tokenization() {
    let drain = default_drain();
    let tokens = drain.get_content_as_tokens("  alpha\tbeta  gamma ");
    assert_eq!(tokens, vec!["alpha".to_string(), "beta".to_string(), "gamma".to_string()]);
}
