use dkp_ledger::fuzzy::Autocorrecter;
use dkp_ledger::ledger::Ledger;
use dkp_ledger::parser::get_valid_lines;
use dkp_ledger::resolver::{
    apply_primary, begin_token, build_aliases, classify_primary, PrimaryCmd, RState,
};
use dkp_ledger::scoring::{get_points, Catalog, CompositePattern, ConfigError, RawRule, Tier};

fn flat(key: &str, v: i64) -> (String, RawRule) {
    (key.to_string(), RawRule::Flat(v))
}

fn ring(key: &str, p5: i64, p6: i64) -> (String, RawRule) {
    (
        key.to_string(),
        RawRule::Rings(vec![("5".to_string(), p5), ("6".to_string(), p6)]),
    )
}

fn tiers(key: &str, ts: Vec<(i64, i64, i64)>) -> (String, RawRule) {
    (
        key.to_string(),
        RawRule::Tiers(
            ts.into_iter()
                .map(|(level, at5, at6)| Tier { level, at5, at6 })
                .collect(),
        ),
    )
}

fn built(entries: Vec<(String, RawRule)>) -> (Catalog, CompositePattern) {
    let cat = Catalog::build(&entries).expect("catalog builds");
    let pat = CompositePattern::compile(&cat).expect("pattern compiles");
    (cat, pat)
}

fn score(token: &str, cat: &Catalog, pat: &CompositePattern) -> Option<i64> {
    get_points(token, cat, pat, &Vec::new())
}

#[test]
fn flat_key_scores_declared_value() {
    let (cat, pat) = built(vec![flat("boss1", 10), flat("drake", 7)]);
    assert_eq!(score("boss1", &cat, &pat), Some(10));
    assert_eq!(score("drake", &cat, &pat), Some(7));
    assert_eq!(score("unknown", &cat, &pat), None);
}

#[test]
fn multiplier_doubles_and_penalty_halves_up() {
    let (cat, pat) = built(vec![flat("boss1", 9)]);
    assert_eq!(score("boss1(multiplier)", &cat, &pat), Some(18));
    assert_eq!(score("boss1(double)", &cat, &pat), Some(18));
    assert_eq!(score("boss1(doublepoints)", &cat, &pat), Some(18));
    assert_eq!(score("boss1(penalty)", &cat, &pat), Some(5));
    assert_eq!(score("boss1(fail)", &cat, &pat), Some(5));
    assert_eq!(score("boss1(brucybonus)", &cat, &pat), Some(14));
    assert_eq!(score("boss1(nonsense)", &cat, &pat), None);
}

#[test]
fn ring_family_multiplies_per_unit() {
    let (cat, pat) = built(vec![ring("rings", 4, 6)]);
    assert_eq!(score("ring3x5", &cat, &pat), Some(12));
    assert_eq!(score("ring2x6", &cat, &pat), Some(12));
    assert_eq!(score("ring4x5", &cat, &pat), Some(16));
    assert_eq!(score("ring5x5", &cat, &pat), None);
    assert_eq!(score("ring3x7", &cat, &pat), None);
}

#[test]
fn tier_family_takes_first_applicable_tier() {
    let (cat, pat) = built(vec![tiers("legacy", vec![(10, 20, 30), (0, 5, 8)])]);
    assert_eq!(score("tier7.5", &cat, &pat), Some(5));
    assert_eq!(score("tier12.6", &cat, &pat), Some(30));
    assert_eq!(score("tier10.5", &cat, &pat), Some(20));
    assert_eq!(score("tier0.6", &cat, &pat), Some(8));
}

#[test]
fn tier_below_every_threshold_is_unrecognized() {
    let (cat, pat) = built(vec![tiers("legacy", vec![(10, 20, 30)])]);
    assert_eq!(score("tier7.5", &cat, &pat), None);
}

#[test]
fn root_family_scores_fixed_value() {
    let (cat, pat) = built(vec![flat("boss1", 10)]);
    assert_eq!(score("root", &cat, &pat), Some(4));
    assert_eq!(score("root12", &cat, &pat), Some(4));
    assert_eq!(score("rootx", &cat, &pat), None);
}

#[test]
fn conditional_gates_on_priority_list() {
    let (cat, pat) = built(vec![flat("bigboss", 10)]);
    let prios = vec!["big".to_string()];
    assert_eq!(get_points("bigboss(conditional)", &cat, &pat, &prios), Some(10));
    assert_eq!(get_points("bigboss(comp)", &cat, &pat, &prios), Some(10));
    assert_eq!(get_points("bigboss(conditional)", &cat, &pat, &Vec::new()), None);
    let other = vec!["small".to_string()];
    assert_eq!(get_points("bigboss(conditional)", &cat, &pat, &other), None);
}

#[test]
fn build_rejects_bad_configs() {
    assert_eq!(
        Catalog::build(&vec![flat("a", 1), flat("a", 2)]).err(),
        Some(ConfigError::DuplicateKey)
    );
    assert_eq!(
        Catalog::build(&vec![flat("a", 2_000_000_000)]).err(),
        Some(ConfigError::ValueOutOfRange)
    );
    assert_eq!(
        Catalog::build(&vec![(
            "rings".to_string(),
            RawRule::Rings(vec![("5".to_string(), 1)])
        )])
        .err(),
        Some(ConfigError::RingShapeIncomplete)
    );
    assert_eq!(
        Catalog::build(&vec![ring("r1", 1, 2), ring("r2", 3, 4)]).err(),
        Some(ConfigError::DuplicateFamily)
    );
}

#[test]
fn compile_rejects_keys_with_parentheses() {
    let cat = Catalog::build(&vec![flat("bad(key", 1)]).expect("builds");
    assert!(CompositePattern::compile(&cat).is_err());
}

#[test]
fn batch_validation_is_all_or_nothing() {
    let (cat, pat) = built(vec![flat("boss1", 10)]);
    let lines = vec![
        (1usize, vec!["boss1".to_string(), "alice".to_string()]),
        (2usize, vec!["mystery".to_string(), "bob".to_string()]),
    ];
    let r = get_valid_lines(&lines, &cat, &pat, &Vec::new(), Vec::new());
    let rep = r.err().expect("whole batch fails");
    assert_eq!(rep.boss_lines, vec![2]);
    assert!(rep.at_lines.is_empty());
}

#[test]
fn batch_validation_flags_each_category() {
    let (cat, pat) = built(vec![flat("boss1", 10)]);
    let lines = vec![
        (1usize, vec!["boss1".to_string()]),
        (
            2usize,
            vec!["boss1".to_string(), "at".to_string(), "x".to_string()],
        ),
        (
            3usize,
            vec![
                "boss1".to_string(),
                "alice".to_string(),
                "not".to_string(),
            ],
        ),
    ];
    let rep = get_valid_lines(&lines, &cat, &pat, &Vec::new(), Vec::new())
        .err()
        .expect("errors");
    assert_eq!(rep.general_lines, vec![1]);
    assert_eq!(rep.at_lines, vec![2]);
    assert_eq!(rep.single_lines, vec![2]);
    assert_eq!(rep.not_lines, vec![3]);
    assert!(rep.boss_lines.is_empty());
}

#[test]
fn valid_batch_passes_with_modifier_token() {
    let (cat, pat) = built(vec![flat("boss1", 10)]);
    let lines = vec![(
        5usize,
        vec![
            "boss1".to_string(),
            "(double)".to_string(),
            "alice".to_string(),
        ],
    )];
    let v = get_valid_lines(&lines, &cat, &pat, &Vec::new(), Vec::new()).expect("valid");
    assert_eq!(v.len(), 1);
    assert_eq!(v[0].points, 20);
    assert_eq!(v[0].names, vec!["alice".to_string()]);
    assert_eq!(v[0].index, 5);
}

#[test]
fn date_errors_fail_the_batch() {
    let (cat, pat) = built(vec![flat("boss1", 10)]);
    let lines = vec![(1usize, vec!["boss1".to_string(), "alice".to_string()])];
    let rep = get_valid_lines(&lines, &cat, &pat, &Vec::new(), vec![7usize])
        .err()
        .expect("date error fails batch");
    assert_eq!(rep.date_lines, vec![7]);
}

fn vocab5() -> Vec<String> {
    vec![
        "alice".to_string(),
        "bob".to_string(),
        "carol".to_string(),
        "daniel".to_string(),
        "erin".to_string(),
    ]
}

#[test]
fn fuzzy_known_word_needs_no_suggestion() {
    let ac = Autocorrecter::new(vocab5());
    assert!(ac.correct("Alice").is_none());
    assert!(ac.correct("bob").is_none());
}

#[test]
fn fuzzy_returns_five_distinct_entries() {
    let ac = Autocorrecter::new(vocab5());
    let g = ac.correct("alicia").expect("unknown token gets suggestions");
    assert_eq!(g.len(), 5);
    for i in 0..5 {
        for j in (i + 1)..5 {
            assert_ne!(g[i], g[j]);
        }
    }
    assert_eq!(g[0], "alice".to_string());
}

#[test]
fn fuzzy_second_entry_differs_from_bigram_picks() {
    let ac = Autocorrecter::new(vocab5());
    let g = ac.correct("bobb").expect("suggestions");
    assert!(g[1] != g[0] && g[1] != g[2] && g[1] != g[3] && g[1] != g[4]);
}

#[test]
fn aliases_from_roster_names() {
    let table = build_aliases(
        Vec::new(),
        vec!["Alice Smith9".to_string(), "Bob".to_string()],
    );
    assert_eq!(table.lookup("alice"), Some("Alice Smith9".to_string()));
    assert_eq!(table.lookup("alicesmith9"), Some("Alice Smith9".to_string()));
    assert_eq!(table.lookup("alicesmith"), Some("Alice Smith9".to_string()));
    assert_eq!(table.lookup("bob"), Some("Bob".to_string()));
    assert_eq!(table.lookup("zed"), None);
}

#[test]
fn resolver_answers_second_occurrence_silently() {
    let roster = vec![
        "Alice".to_string(),
        "Bob".to_string(),
        "Carol".to_string(),
        "Daniel".to_string(),
        "Erin".to_string(),
    ];
    let mut aliases = build_aliases(Vec::new(), roster);
    let mut discard: Vec<String> = Vec::new();
    let matcher = Autocorrecter::new(aliases.keys());
    let token = "alcie".to_string();
    let first = begin_token(&aliases, &discard, &matcher, token.as_str());
    let shortlist = match first {
        RState::AwaitingPrimary { shortlist } => shortlist,
        _ => panic!("first occurrence must prompt"),
    };
    let pick = shortlist
        .iter()
        .position(|w| w == "alice")
        .expect("alice is suggested")
        + 1;
    let outcome = apply_primary(
        &mut aliases,
        &mut discard,
        &matcher,
        &token,
        &shortlist,
        PrimaryCmd::Pick(pick),
    );
    match outcome {
        RState::Resolved { names } => assert_eq!(names, vec!["Alice".to_string()]),
        _ => panic!("pick resolves"),
    }
    // The same misspelling now hits the alias table with no prompt.
    match begin_token(&aliases, &discard, &matcher, token.as_str()) {
        RState::Resolved { names } => assert_eq!(names, vec!["Alice".to_string()]),
        _ => panic!("second occurrence must not prompt"),
    }
}

#[test]
fn resolver_commands_parse() {
    assert!(matches!(classify_primary("q"), PrimaryCmd::Quit));
    assert!(matches!(classify_primary("3"), PrimaryCmd::Pick(3)));
    assert!(matches!(classify_primary(""), PrimaryCmd::Discard));
    assert!(matches!(classify_primary("9"), PrimaryCmd::Invalid));
}

#[test]
fn resolver_discard_skips_token() {
    let roster = vec![
        "Alice".to_string(),
        "Bob".to_string(),
        "Carol".to_string(),
        "Daniel".to_string(),
        "Erin".to_string(),
    ];
    let mut aliases = build_aliases(Vec::new(), roster);
    let mut discard: Vec<String> = Vec::new();
    let matcher = Autocorrecter::new(aliases.keys());
    let token = "zzz".to_string();
    let shortlist = match begin_token(&aliases, &discard, &matcher, "zzz") {
        RState::AwaitingPrimary { shortlist } => shortlist,
        _ => panic!("prompts"),
    };
    let outcome = apply_primary(
        &mut aliases,
        &mut discard,
        &matcher,
        &token,
        &shortlist,
        PrimaryCmd::Discard,
    );
    assert!(matches!(outcome, RState::Discarded));
    match begin_token(&aliases, &discard, &matcher, "zzz") {
        RState::Resolved { names } => assert!(names.is_empty()),
        _ => panic!("discarded token resolves to nothing"),
    }
}

fn fold_lines(lines: Vec<(i64, Vec<&str>)>) -> Vec<(String, i128)> {
    let lines: Vec<(i64, Vec<String>)> = lines
        .into_iter()
        .map(|(p, ns)| (p, ns.into_iter().map(str::to_string).collect()))
        .collect();
    Ledger::fold(&lines).finalize()
}

#[test]
fn ledger_negation_patterns() {
    let out = fold_lines(vec![(10, vec!["A", "not", "B"]), (25, vec!["B"])]);
    assert_eq!(out, vec![("A".to_string(), 10), ("B".to_string(), 15)]);
    let out = fold_lines(vec![(10, vec!["not", "B"]), (25, vec!["B"])]);
    assert_eq!(out, vec![("B".to_string(), 15)]);
}

#[test]
fn ledger_deduplicates_names_in_a_line() {
    let out = fold_lines(vec![(10, vec!["A", "A", "B"])]);
    assert_eq!(
        out,
        vec![("A".to_string(), 10), ("B".to_string(), 10)]
    );
}

#[test]
fn ledger_drops_non_positive_totals() {
    let out = fold_lines(vec![(10, vec!["A"]), (10, vec!["not", "A"]), (3, vec!["B"])]);
    assert_eq!(out, vec![("B".to_string(), 3)]);
}

#[test]
fn ledger_fold_is_pure() {
    let lines: Vec<(i64, Vec<String>)> = vec![
        (10, vec!["A".to_string(), "not".to_string(), "B".to_string()]),
        (4, vec!["C".to_string()]),
    ];
    let a = Ledger::fold(&lines).finalize();
    let b = Ledger::fold(&lines).finalize();
    assert_eq!(a, b);
}

#[test]
fn end_to_end_single_line() {
    let (cat, pat) = built(vec![flat("boss1", 10)]);
    let lines = vec![(1usize, vec!["boss1".to_string(), "alice".to_string()])];
    let parsed = get_valid_lines(&lines, &cat, &pat, &Vec::new(), Vec::new()).expect("valid");
    let aliases = build_aliases(Vec::new(), vec!["Alice".to_string(), "Bob".to_string()]);
    let resolved: Vec<(i64, Vec<String>)> = parsed
        .into_iter()
        .map(|l| {
            (
                l.points,
                l.names
                    .iter()
                    .map(|n| aliases.lookup(n).unwrap_or_else(|| n.clone()))
                    .collect(),
            )
        })
        .collect();
    let out = Ledger::fold(&resolved).finalize();
    assert_eq!(out, vec![("Alice".to_string(), 10)]);
}

#[test]
fn end_to_end_with_multiplier_line() {
    let (cat, pat) = built(vec![flat("boss1", 10)]);
    let lines = vec![
        (1usize, vec!["boss1".to_string(), "alice".to_string()]),
        (
            2usize,
            vec![
                "boss1(multiplier)".to_string(),
                "alice".to_string(),
                "bob".to_string(),
            ],
        ),
    ];
    let parsed = get_valid_lines(&lines, &cat, &pat, &Vec::new(), Vec::new()).expect("valid");
    let aliases = build_aliases(Vec::new(), vec!["Alice".to_string(), "Bob".to_string()]);
    let resolved: Vec<(i64, Vec<String>)> = parsed
        .into_iter()
        .map(|l| {
            (
                l.points,
                l.names
                    .iter()
                    .map(|n| aliases.lookup(n).unwrap_or_else(|| n.clone()))
                    .collect(),
            )
        })
        .collect();
    let out = Ledger::fold(&resolved).finalize();
    assert_eq!(
        out,
        vec![("Alice".to_string(), 30), ("Bob".to_string(), 20)]
    );
}

#[test]
fn half_round_up_rounds_halves_up() {
    assert_eq!(dkp_ledger::scoring::half_round_up(9), 5);
    assert_eq!(dkp_ledger::scoring::half_round_up(8), 4);
    assert_eq!(dkp_ledger::scoring::half_round_up(0), 0);
    assert_eq!(dkp_ledger::scoring::half_round_up(-3), -1);
}
