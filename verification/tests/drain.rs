use ctrlb_decompose::extraction::cache::LogClusterCache;
use ctrlb_decompose::extraction::drain3::{Config, Drain, LogCluster, Ratio};
use ctrlb_decompose::extraction::matching::{fast_match_id, get_seq_distance_static};
use ctrlb_decompose::extraction::tree::PrefixTree;
use ctrlb_decompose::types::VarType;

fn lines(drain: &mut Drain) -> Vec<String> {
    drain.clusters().iter().map(|c| c.to_string()).collect()
}

fn strings(parts: &[&str]) -> Vec<String> {
    parts.iter().map(|p| p.to_string()).collect()
}

#[test]
fn test_drain3() {
    let config = Config::default();
    let mut drain = Drain::new(config);

    drain.train("User logged in successfully");
    drain.train("User logged in successfully");
    drain.train("User authentication failed");
    drain.train("User logged in not successfully");

    println!("Log clusters:");
    for cluster in drain.clusters() {
        println!("{}", cluster.to_string());
    }

    let log = "User ID 124 Logged in Successfully";
    let parsed = drain.extract_template_and_vars(log);
    println!("Template: {}", parsed.template);
    println!("Variables: {:?}", parsed.variables);
    assert!(parsed.pattern_id > 0);
    assert!(parsed.count >= 1);

    // 4 clusters: the 3 original + "User ID 124 Logged in Successfully" (6 tokens, no match)
    assert_eq!(drain.clusters().len(), 4);
}

#[test]
fn test_extract_typed_variables() {
    let config = Config::default();
    let mut drain = Drain::new(config);

    // Train with similar lines to establish a pattern
    drain.train("Request from 10.0.1.15 completed in 45ms status=200");
    let parsed =
        drain.extract_template_and_vars("Request from 192.168.1.1 completed in 100ms status=500");

    // Should have variables extracted with types
    assert!(!parsed.variables.is_empty());
    // Check that IP is classified correctly
    let ip_var = parsed.variables.iter().find(|v| v.var_type == VarType::IPv4);
    assert!(ip_var.is_some());
}

#[test]
fn the_default_config_is_the_documented_one() {
    let config = Config::default();
    assert_eq!(config.max_node_depth, 0);
    assert_eq!(config.log_cluster_depth, 4);
    assert_eq!(config.sim_th, Ratio { numerator: 2, denominator: 5 });
    assert_eq!(config.max_children, 100);
    assert!(config.extra_delimiters.is_empty());
    assert_eq!(config.max_clusters, 10000);
    assert_eq!(config.param_string, "<*>");
}

#[test]
fn a_cluster_reads_as_one_line() {
    let mut drain = Drain::new(Config::default());
    assert_eq!(
        drain.train("User logged in").to_string(),
        "id={1} : size={1} : User logged in"
    );
    assert_eq!(
        drain.train("User logged out").to_string(),
        "id={1} : size={2} : User logged <*>"
    );
    let cluster = LogCluster {
        log_template_tokens: strings(&["a"]),
        id: 120,
        size: 9087,
    };
    assert_eq!(cluster.to_string(), "id={120} : size={9087} : a");
    assert_eq!(cluster.get_template(), "a");
}

#[test]
fn clusters_come_most_recent_first_and_turn_round() {
    let mut drain = Drain::new(Config::default());
    drain.train("one");
    drain.train("two words");
    drain.train("three words here");
    let first = lines(&mut drain);
    assert_eq!(
        first,
        strings(&[
            "id={3} : size={1} : three words here",
            "id={2} : size={1} : two words",
            "id={1} : size={1} : one",
        ])
    );
    let mut second = lines(&mut drain);
    second.reverse();
    assert_eq!(second, first);
    assert_eq!(lines(&mut drain), first);
}

#[test]
fn two_fifths_in_common_are_enough() {
    let mut drain = Drain::new(Config::default());
    assert_eq!(drain.train("a b c d e").id, 1);
    assert_eq!(drain.train("a b x y z").id, 1);
    let mut drain = Drain::new(Config::default());
    assert_eq!(drain.train("a b c d e").id, 1);
    assert_eq!(drain.train("a v w x y").id, 2);
}

#[test]
fn another_number_of_tokens_is_another_cluster() {
    let mut drain = Drain::new(Config::default());
    assert_eq!(drain.train("a b c").id, 1);
    assert_eq!(drain.train("a b c d").id, 2);
    assert_eq!(drain.train("a b c").id, 1);
}

#[test]
fn a_repeated_line_joins_its_cluster() {
    let mut drain = Drain::new(Config::default());
    let first = drain.train("disk 7 is full");
    let second = drain.train("disk 7 is full");
    assert_eq!(first.id, second.id);
    assert_eq!(second.size, 2);
    assert_eq!(second.log_template_tokens, first.log_template_tokens);
}

#[test]
fn a_trained_line_matches() {
    let mut drain = Drain::new(Config::default());
    assert!(drain.match_log("job 12 done").is_none());
    drain.train("job 12 done");
    assert_eq!(drain.match_log("job 12 done").unwrap().id, 1);
    assert!(drain.match_log("job 13 done").is_none());
    drain.train("job 13 done");
    let found = drain.match_log("job 14 done").unwrap();
    assert_eq!(found.to_string(), "id={1} : size={2} : job <*> done");
    assert!(drain.match_log("job 14 failed").is_none());
}

#[test]
fn a_match_changes_no_cluster() {
    let mut drain = Drain::new(Config::default());
    drain.train("a b");
    drain.train("c d");
    let before = lines(&mut drain);
    let _ = lines(&mut drain);
    assert!(drain.match_log("a b").is_some());
    assert!(drain.match_log("x y").is_none());
    assert_eq!(lines(&mut drain), before);
}

#[test]
fn a_full_cache_forgets_what_was_used_longest_ago() {
    let config = Config { max_clusters: 2, ..Config::default() };
    let mut drain = Drain::new(config);
    drain.train("a b");
    drain.train("c d");
    drain.train("a b");
    drain.train("e f");
    assert!(drain.match_log("c d").is_none());
    assert!(drain.match_log("a b").is_some());
    assert!(drain.match_log("e f").is_some());
    // A forgotten line starts over under a new identifier.
    assert_eq!(drain.train("c d").to_string(), "id={4} : size={1} : c d");
}

#[test]
fn a_match_is_no_use() {
    let config = Config { max_clusters: 2, ..Config::default() };
    let mut drain = Drain::new(config);
    drain.train("a b");
    drain.train("c d");
    assert!(drain.match_log("a b").is_some());
    drain.train("e f");
    assert!(drain.match_log("a b").is_none());
    assert!(drain.match_log("c d").is_some());
}

#[test]
fn to_list_the_clusters_is_to_use_them() {
    let config = Config { max_clusters: 2, ..Config::default() };
    let mut drain = Drain::new(config);
    drain.train("a b");
    drain.train("c d");
    drain.clusters();
    drain.train("e f");
    assert!(drain.match_log("a b").is_some());
    assert!(drain.match_log("c d").is_none());
}

#[test]
fn zero_means_no_limit() {
    let config = Config { max_clusters: 0, ..Config::default() };
    let mut drain = Drain::new(config);
    for i in 1..=300 {
        let line = vec!["w"; i].join(" ");
        assert_eq!(drain.train(&line).id, i);
    }
    assert_eq!(drain.clusters().len(), 300);
    assert!(drain.match_log("w").is_some());
}

#[test]
fn empty_lines_never_share_a_cluster() {
    let mut drain = Drain::new(Config::default());
    assert!(drain.match_log("").is_none());
    assert_eq!(drain.train("").to_string(), "id={1} : size={1} : ");
    assert_eq!(drain.train(" \t ").id, 2);
    assert_eq!(drain.match_log("").unwrap().id, 1);
    assert_eq!(lines(&mut drain)[0], "id={1} : size={1} : ");
}

#[test]
fn the_first_empty_line_is_the_one_that_matches() {
    let config = Config { max_clusters: 1, ..Config::default() };
    let mut drain = Drain::new(config);
    drain.train("");
    assert!(drain.match_log("").is_some());
    drain.train("");
    assert!(drain.match_log("").is_none());
}

#[test]
fn tokens_with_numbers_share_a_branch() {
    let mut drain = Drain::new(Config::default());
    drain.train("n1 up");
    assert_eq!(drain.train("n2 up").to_string(), "id={1} : size={2} : <*> up");
    // A token without a branch of its own is looked for on the shared one.
    assert_eq!(drain.train("north up").to_string(), "id={1} : size={3} : <*> up");
    let mut drain = Drain::new(Config::default());
    assert_eq!(drain.train("north up").id, 1);
    assert_eq!(drain.train("south up").id, 2);
    assert_eq!(drain.train("Ⅷ up").id, 3);
    assert_eq!(drain.train("Ⅸ up").to_string(), "id={3} : size={2} : <*> up");
}

#[test]
fn a_branch_is_kept_for_any_token() {
    let config = Config { max_children: 2, ..Config::default() };
    let mut drain = Drain::new(config);
    assert_eq!(drain.train("alpha x").id, 1);
    assert_eq!(drain.train("beta y").id, 2);
    assert_eq!(drain.train("gamma y").to_string(), "id={2} : size={2} : <*> y");
    assert_eq!(drain.train("alpha x").id, 1);
}

#[test]
fn one_layer_needs_no_children() {
    let config = Config { log_cluster_depth: 3, max_children: 0, ..Config::default() };
    let mut drain = Drain::new(config);
    assert_eq!(drain.train("alpha x").id, 1);
    assert_eq!(drain.train("beta x").to_string(), "id={1} : size={2} : <*> x");
}

#[test]
fn more_layers_look_at_more_tokens() {
    let config = Config { log_cluster_depth: 6, ..Config::default() };
    let mut drain = Drain::new(config);
    assert_eq!(drain.train("a b c d e").id, 1);
    assert_eq!(drain.train("a b x d e").id, 2);
    assert_eq!(drain.train("a b c d x").id, 1);
    assert!(drain.match_log("a b x d e").is_some());
}

#[test]
fn extra_delimiters_separate_tokens() {
    let config = Config {
        extra_delimiters: strings(&["=", "::"]),
        ..Config::default()
    };
    let mut drain = Drain::new(config);
    assert_eq!(drain.train(" k=v w:::x ").get_template(), "k v w :x");
}

#[test]
fn an_empty_delimiter_separates_all_characters() {
    let config = Config { extra_delimiters: strings(&[""]), ..Config::default() };
    let mut drain = Drain::new(config);
    assert_eq!(drain.train("ab c").get_template(), "a b c");
}

#[test]
fn lines_are_trimmed_before_delimiters_are_replaced() {
    let config = Config { extra_delimiters: strings(&[" a"]), ..Config::default() };
    let mut drain = Drain::new(config);
    assert_eq!(drain.train(" a b a").get_template(), "a b");
}

#[test]
fn white_space_of_every_kind_separates_tokens() {
    let mut drain = Drain::new(Config::default());
    let cluster = drain.train("a\u{3000}b\u{a0}c\td\u{200b}e");
    assert_eq!(cluster.log_template_tokens, strings(&["a", "b", "c", "d\u{200b}e"]));
}

#[test]
fn variables_come_in_order_with_their_kinds() {
    let mut drain = Drain::new(Config::default());
    drain.train("GET /a took 45ms from 10.0.0.1 id 550e8400-e29b-41d4-a716-446655440000");
    let parsed = drain.extract_template_and_vars(
        "GET /b took 3.5 from ::1 id 123E4567-E89B-12D3-A456-426614174000",
    );
    assert_eq!(parsed.pattern_id, 1);
    assert_eq!(parsed.count, 2);
    assert_eq!(parsed.template, "GET <*> took <*> from <*> id <*>");
    let found: Vec<(String, VarType)> = parsed
        .variables
        .iter()
        .map(|v| (v.raw.clone(), v.var_type))
        .collect();
    assert_eq!(
        found,
        vec![
            ("/b".to_string(), VarType::String),
            ("3.5".to_string(), VarType::Float),
            ("::1".to_string(), VarType::IPv6),
            ("123E4567-E89B-12D3-A456-426614174000".to_string(), VarType::UUID),
        ]
    );
}

#[test]
fn template_and_variables_restore_the_line() {
    let mut drain = Drain::new(Config::default());
    drain.train("a 1 b 2 c");
    let parsed = drain.extract_template_and_vars("a 3 b 4 c");
    let mut raws = parsed.variables.iter().map(|v| v.raw.clone());
    let restored: Vec<String> = parsed
        .template
        .split(' ')
        .map(|t| if t == "<*>" { raws.next().unwrap() } else { t.to_string() })
        .collect();
    assert_eq!(restored.join(" "), "a 3 b 4 c");
    assert!(raws.next().is_none());
}

#[test]
fn a_new_line_has_no_variables() {
    let mut drain = Drain::new(Config::default());
    let parsed = drain.extract_template_and_vars("nothing varies yet");
    assert_eq!(parsed.template, "nothing varies yet");
    assert_eq!(parsed.count, 1);
    assert!(parsed.variables.is_empty());
}

#[test]
fn every_line_is_counted() {
    let mut drain = Drain::new(Config::default());
    for line in ["a b", "a b", "a c", "d e f", "", "9 9", "8 9"] {
        drain.train(line);
    }
    let total: usize = drain.clusters().iter().map(|c| c.size).sum();
    assert_eq!(total, 7);
}

#[test]
fn distance_counts_equal_tokens_and_params() {
    let template = strings(&["a", "<*>", "c", "<*>"]);
    let tokens = strings(&["a", "b", "x", "<*>"]);
    let param = "<*>".to_string();
    assert_eq!(get_seq_distance_static(&template, &tokens, false, &param), (1, 2));
    assert_eq!(get_seq_distance_static(&template, &tokens, true, &param), (3, 2));
}

#[test]
fn of_equal_matches_the_one_with_more_params_wins_then_the_first() {
    let cluster = |id: usize, parts: &[&str]| LogCluster {
        log_template_tokens: strings(parts),
        id,
        size: 1,
    };
    let mut cache = LogClusterCache::new(10);
    cache.set(1, cluster(1, &["a", "b", "c"]));
    cache.set(2, cluster(2, &["a", "b", "<*>"]));
    cache.set(3, cluster(3, &["a", "<*>", "c"]));
    cache.set(4, cluster(4, &["x", "y", "z"]));
    let tokens = strings(&["a", "b", "c"]);
    let param = "<*>".to_string();
    let whole = Ratio { numerator: 1, denominator: 1 };
    let none = Ratio { numerator: 0, denominator: 1 };
    let find = |ids: &[usize], th: &Ratio, with_params: bool| {
        fast_match_id(&cache, &ids.to_vec(), &tokens, &param, th, with_params)
    };
    assert_eq!(find(&[1, 2, 3], &whole, true), Some(2));
    assert_eq!(find(&[1, 3, 2], &whole, true), Some(3));
    assert_eq!(find(&[1, 2, 3], &whole, false), Some(1));
    assert_eq!(find(&[2, 3], &whole, false), None);
    assert_eq!(find(&[4], &whole, true), None);
    assert_eq!(find(&[4], &none, true), Some(4));
    assert_eq!(find(&[99, 4, 2], &none, true), Some(2));
    assert_eq!(find(&[99], &none, true), None);
}

#[test]
fn a_cluster_that_is_put_again_is_replaced() {
    let cluster = |id: usize, size: usize| LogCluster {
        log_template_tokens: strings(&["a"]),
        id,
        size,
    };
    let mut cache = LogClusterCache::new(2);
    cache.set(1, cluster(1, 1));
    cache.set(2, cluster(2, 1));
    cache.set(1, cluster(1, 7));
    cache.set(3, cluster(3, 1));
    assert!(cache.peek(2).is_none());
    assert_eq!(cache.peek(1).unwrap().size, 7);
    cache.get(1).unwrap().size = 8;
    assert!(cache.get(2).is_none());
    let sizes: Vec<usize> = cache.values().iter().map(|c| c.size).collect();
    assert_eq!(sizes, vec![8, 1]);
}

#[test]
fn without_children_only_some_lines_are_accepted() {
    let config = Config { log_cluster_depth: 5, max_children: 0, ..Config::default() };
    let mut drain = Drain::new(config);
    assert!(!drain.accepts("alpha beta gamma"));
    assert!(!drain.accepts("1 beta gamma"));
    assert!(drain.try_train("alpha beta gamma").is_none());
    assert!(drain.try_extract_template_and_vars("1 beta gamma").is_none());
    assert!(drain.clusters().is_empty());

    assert!(drain.accepts("1 beta"));
    assert!(drain.accepts("alpha"));
    assert!(drain.accepts(""));
    assert_eq!(drain.try_train("1 2 gamma").map(|c| c.id), Some(1));

    // The branch for any token is there now.
    assert!(drain.accepts("1 beta gamma"));
    assert!(drain.accepts("alpha beta gamma"));
    assert!(!drain.accepts("alpha beta"));
    assert_eq!(drain.try_train("alpha beta gamma").map(|c| c.id), Some(2));
    let parsed = drain.try_extract_template_and_vars("alpha beta delta").unwrap();
    assert_eq!(parsed.template, "alpha beta <*>");
    assert_eq!(parsed.count, 2);
    assert_eq!(parsed.variables[0].raw, "delta");
}

#[test]
fn with_children_every_line_is_accepted() {
    let config = Config { log_cluster_depth: 6, max_children: 1, ..Config::default() };
    let mut drain = Drain::new(config);
    for line in ["", "a", "a b c d e", "1 2 3 4 5", "v w x y z", "a b c d e f g"] {
        assert!(drain.accepts(line));
        let before = drain.clusters().len();
        assert!(drain.try_train(line).is_some());
        assert!(drain.clusters().len() >= before);
    }
}

#[test]
fn a_line_joins_the_closest_cluster() {
    let mut drain = Drain::new(Config::default());
    assert_eq!(drain.train("get a b c d").id, 1);
    assert_eq!(drain.train("get v w x y").id, 2);
    assert_eq!(drain.train("get a w x z").to_string(), "id={2} : size={2} : get <*> w x <*>");
    assert_eq!(drain.train("get a b x z").to_string(), "id={1} : size={2} : get a b <*> <*>");
}

#[test]
fn a_handed_out_template_reads_back() {
    let mut drain = Drain::new(Config::default());
    drain.train("job  17\tdone in 3s");
    let parsed = drain.extract_template_and_vars(" job 18 done in 4s ");
    let tokens: Vec<&str> = parsed.template.split_whitespace().collect();
    assert_eq!(tokens, vec!["job", "<*>", "done", "in", "<*>"]);
    assert_eq!(tokens.join(" "), parsed.template);
}

#[test]
fn a_line_stays_in_its_cluster() {
    let mut drain = Drain::new(Config::default());
    assert!(drain.match_log("open a b c").is_none());
    drain.train("open a b c");
    drain.train("open v b w");
    assert_eq!(drain.train("open v b w").to_string(), "id={1} : size={3} : open <*> b <*>");
    // Places for any token do not count: such a line is not similar to itself.
    assert_eq!(drain.train("<*>").id, 2);
    assert_eq!(drain.train("<*>").id, 3);
    assert_eq!(drain.match_log("<*>").map(|c| c.id), Some(2));
}

#[test]
fn tokens_contain_no_delimiter() {
    let config = Config { extra_delimiters: strings(&["=", "ab", "b,"]), ..Config::default() };
    let drain = Drain::new(config);
    for line in ["a=b=ab, c", "aabb,=", "xab,aab=b", "b,b,", " =ab b, "] {
        for token in drain.get_content_as_tokens(line) {
            assert!(!token.is_empty());
            assert!(!token.contains(char::is_whitespace));
            assert!(!token.contains('=') && !token.contains("ab") && !token.contains("b,"));
        }
    }
    assert_eq!(drain.get_content_as_tokens("aabb,=x"), strings(&["a", "x"]));
}

#[test]
fn white_space_only_separates() {
    let drain = Drain::new(Config::default());
    let expected = strings(&["get", "x", "ok"]);
    for line in ["get x ok", "  get\tx\u{2003} ok\n", "get\u{85}x\u{3000}\u{3000}ok "] {
        assert_eq!(drain.get_content_as_tokens(line), expected);
    }
}

#[test]
fn merging_is_commutative_and_idempotent() {
    let param = "<*>".to_string();
    let a = strings(&["x", "b", "<*>"]);
    let b = strings(&["a", "b", "c"]);
    let both = Drain::create_template(&a, &b, &param);
    assert_eq!(both, strings(&["<*>", "b", "<*>"]));
    assert_eq!(Drain::create_template(&b, &a, &param), both);
    assert_eq!(Drain::create_template(&b, &b, &param), b);
    assert_eq!(Drain::create_template(&a, &a, &param), a);
}

#[test]
fn a_search_finds_the_best_cluster() {
    let mut drain = Drain::new(Config::default());
    drain.train("get a b c");
    drain.train("get a x y");
    drain.train("get q w e");
    let half = Ratio { numerator: 1, denominator: 2 };
    let whole = Ratio { numerator: 1, denominator: 1 };
    for line in ["get a b z", "get q w e", "get k l m", "put a b c"] {
        let tokens = drain.get_content_as_tokens(line);
        for th in [&half, &whole] {
            for include_params in [false, true] {
                let found = drain.tree_search(&tokens, th, include_params);
                let best = drain.tree_search_impl(&tokens, th, include_params);
                assert_eq!(found.map(|c| c.to_string()), best.map(|c| c.to_string()));
            }
        }
    }
    let near = drain.get_content_as_tokens("get a b z");
    assert_eq!(drain.tree_search(&near, &half, false).map(|c| c.id), Some(1));
    assert!(drain.tree_search(&near, &whole, false).is_none());
    assert_eq!(drain.tree_search_impl(&Vec::new(), &half, true).map(|c| c.id), None);
}

#[test]
fn filing_goes_by_settings_and_clusters() {
    let drain = Drain::new(Config::default());
    let config = Config { max_node_depth: 2, ..Config::default() };
    let cache = LogClusterCache::new(config.max_clusters);
    let mut r1 = PrefixTree::new();
    let mut r2 = PrefixTree::new();
    for (id, line) in ["open a", "open b", "7 c", "", "shut a b"].iter().enumerate() {
        let tokens = drain.get_content_as_tokens(line);
        drain.add_seq_to_prefix_tree(&mut r1, id, &tokens);
        r2.add_seq_to_prefix_tree_impl(&config, id, &tokens, &cache);
        let leaf1 = r1.find_leaf(&config, &tokens).unwrap();
        let leaf2 = r2.find_leaf(&config, &tokens).unwrap();
        assert_eq!(r1.cluster_ids(leaf1), r2.cluster_ids(leaf2));
        assert_eq!(r1.cluster_ids(leaf1), &vec![id]);
    }
}

#[test]
fn clusters_after_any_calls() {
    let config = Config { max_clusters: 3, ..Config::default() };
    let mut drain = Drain::new(config);
    let mut created = 0;
    let mut trained = 0;
    for line in ["a", "b c", "b c", "d e f", "b c", "g h i j", "a", "k l m n o"] {
        created = created.max(drain.train(line).id);
        trained += 1;
        drain.match_log(line);
        let clusters = drain.clusters();
        assert_eq!(clusters.len(), created.min(3));
        if created <= 3 {
            assert_eq!(clusters.iter().map(|c| c.size).sum::<usize>(), trained);
        }
    }
    // Listing turns the order round: the second "a" finds its cluster still there.
    assert_eq!(created, 5);
}

#[test]
fn an_identifier_stands_for_one_number_of_tokens() {
    let config = Config { max_clusters: 2, ..Config::default() };
    let mut drain = Drain::new(config);
    let mut seen: Vec<(usize, usize)> = Vec::new();
    for line in ["a b", "a b c", "a b", "x", "a b c", "a b", "a z", "x"] {
        let tokens = line.split_whitespace().count();
        let id = drain.train(line).id;
        assert!(seen.iter().all(|entry| entry.0 != id || entry.1 == tokens));
        seen.push((id, tokens));
    }
}

#[test]
fn templates_only_widen() {
    let mut drain = Drain::new(Config::default());
    let mut before = drain.train("put a b c d").log_template_tokens;
    for line in ["put a b c e", "put a x c d", "put a b c d", "put a y c z"] {
        let now = drain.train(line).log_template_tokens;
        assert!(now.iter().zip(before.iter()).all(|(n, b)| n == b || n == "<*>"));
        before = now;
    }
    assert_eq!(before, strings(&["put", "a", "<*>", "c", "<*>"]));
}

#[test]
fn a_cache_without_a_limit_keeps_every_key() {
    let mut cache = LogClusterCache::new(0);
    let mut half = LogClusterCache::new(500);
    for id in 0..1000 {
        for size in [1, 2] {
            let log_template_tokens = strings(&["x"]);
            cache.set(id, LogCluster { log_template_tokens, id, size });
        }
        half.set(id, LogCluster { log_template_tokens: Vec::new(), id, size: 1 });
        if id % 100 == 7 {
            assert_eq!(cache.values().len(), id + 1);
            assert!(cache.get(id / 2).is_some());
        }
    }
    for id in 0..1000 {
        assert_eq!(cache.peek(id).map(|c| c.size), Some(2));
        assert_eq!(half.peek(id).is_some(), id >= 500);
    }
    assert!(cache.peek(1000).is_none());
}

#[test]
fn without_a_limit_every_cluster_is_kept() {
    let mut drain = Drain::new(Config { max_clusters: 0, ..Config::default() });
    for n in 1..=30 {
        assert_eq!(drain.train(&vec!["w"; n].join(" ")).id, n);
    }
    let mut ids: Vec<usize> = drain.clusters().iter().map(|c| c.id).collect();
    ids.sort();
    assert_eq!(ids, (1..=30).collect::<Vec<usize>>());
}
