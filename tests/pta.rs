use mpt::search::MAX_INSERTIONS;
use mpt::{Integerisable, Integeriser, PtaError, SExp, Transition, Tree, ONE, PTA};

const EXAMPLE: &str = "root: 0 # 0.7\n\
                       root: 1 # 0.2\n\
                       root: 2 # 0.1\n\
                       transition: 1 -> a() # 0.5\n\
                       transition: 2 -> a() # 0.4\n\
                       transition: 1 -> b() # 0.2\n\
                       transition: 2 -> b() # 0.6\n\
                       transition: 0 -> s(1, 1) # 0.9\n\
                       transition: 0 -> s(2, 2) # 0.1\n\
                       transition: 1 -> s(1, 2) # 0.3";

/// `x` tenths of a thousandth: 1807 -> 0.1807.
fn p4(x: u64) -> u64 {
    x * (ONE / 10_000)
}

fn tr(source: &str, symbol: &str, targets: &[&str], probability: u64) -> Transition<String, String> {
    Transition {
        source_state: source.to_string(),
        symbol: symbol.to_string(),
        target_states: targets.iter().map(|s| s.to_string()).collect(),
        probability,
    }
}

fn example_by_parts() -> PTA {
    let roots = vec![("0".to_string(), p4(7000)), ("1".to_string(), p4(2000)), ("2".to_string(), p4(1000))];
    let transitions = vec![
        tr("1", "a", &[], p4(5000)),
        tr("2", "a", &[], p4(4000)),
        tr("1", "b", &[], p4(2000)),
        tr("2", "b", &[], p4(6000)),
        tr("0", "s", &["1", "1"], p4(9000)),
        tr("0", "s", &["2", "2"], p4(1000)),
        tr("1", "s", &["1", "2"], p4(3000)),
    ];
    PTA::new(roots, transitions).unwrap()
}

fn tree(s: &str) -> Tree<String> {
    Tree::from_str(s).unwrap()
}

fn leaf(s: &str) -> Tree<String> {
    Tree::new(s.to_string())
}

fn node(s: &str, children: Vec<Tree<String>>) -> Tree<String> {
    Tree::new_with_children(s.to_string(), children)
}

#[test]
fn mod_test_most_probable_tree() {
    let pta = PTA::from_text(EXAMPLE).unwrap();
    let mpt = pta.most_probable_tree().unwrap();
    assert_eq!(mpt.0, tree("(s (a) (a))"));
    assert_eq!(mpt.1, p4(1807));
}

#[test]
fn mod_test_probability() {
    let pta = PTA::from_text(EXAMPLE).unwrap();
    let xi = tree("(s (a) (b))");
    assert_eq!(pta.probability(&xi), p4(978));
}

#[test]
fn mod_test_potential_probability() {
    let pta = PTA::from_text(EXAMPLE).unwrap();
    let xi = tree("(s (a) (s))");
    assert_eq!(pta.potential_probability(&xi), p4(945));
}

#[test]
fn test_best_parse() {
    let pta = PTA::from_text(EXAMPLE).unwrap();
    let best_parse = pta.best_parse().unwrap();
    assert_eq!(best_parse.0, tree("(s (a) (a))"));
    assert_eq!(best_parse.1, p4(1575));
}

#[test]
fn pta_test_most_probable_tree() {
    let pta = example_by_parts();
    let mpt = pta.most_probable_tree().unwrap();
    assert_eq!(mpt.0, node("s", vec![leaf("a"), leaf("a")]));
    assert_eq!(mpt.1, p4(1807));
}

#[test]
fn pta_test_probability() {
    let pta = example_by_parts();
    let xi = node("s", vec![leaf("a"), leaf("b")]);
    assert_eq!(pta.probability(&xi), p4(978));
}

#[test]
fn pta_test_potential_probability() {
    let pta = example_by_parts();
    let xi = node("s", vec![leaf("a"), leaf("s")]);
    assert_eq!(pta.potential_probability(&xi), p4(945));
}

#[test]
fn search_counts_its_insertions() {
    let pta = example_by_parts();
    let (_, _, n) = pta.most_probable_tree().unwrap();
    assert!(n <= MAX_INSERTIONS);
    assert!(n >= 3);
}

#[test]
fn model_without_transitions_is_malformed() {
    let roots = vec![("0".to_string(), ONE)];
    assert_eq!(PTA::new(roots, vec![]).err(), Some(PtaError::MalformedModel));
}

#[test]
fn model_without_root_weights_is_malformed() {
    assert_eq!(PTA::new(vec![], vec![tr("0", "a", &[], ONE)]).err(), Some(PtaError::MalformedModel));
}

#[test]
fn model_with_two_root_weights_for_a_state_is_malformed() {
    let roots = vec![("0".to_string(), p4(5000)), ("0".to_string(), p4(5000))];
    assert_eq!(PTA::new(roots, vec![tr("0", "a", &[], ONE)]).err(), Some(PtaError::MalformedModel));
}

#[test]
fn model_with_inconsistent_ranks_is_malformed() {
    let roots = vec![("0".to_string(), ONE)];
    let ts = vec![tr("0", "s", &["0"], p4(5000)), tr("0", "s", &["0", "0"], p4(5000))];
    assert_eq!(PTA::new(roots, ts).err(), Some(PtaError::MalformedModel));
}

#[test]
fn model_with_weight_above_one_is_malformed() {
    let roots = vec![("0".to_string(), ONE)];
    assert_eq!(PTA::new(roots, vec![tr("0", "a", &[], ONE + 1)]).err(), Some(PtaError::MalformedModel));
    assert_eq!(PTA::from_text("root: 0 # 1\ntransition: 0 -> a() # 1.5").err(), Some(PtaError::MalformedModel));
}

#[test]
fn text_without_transitions_is_malformed() {
    assert_eq!(PTA::from_text("root: 0 # 0.7").err(), Some(PtaError::MalformedModel));
}

#[test]
fn text_with_a_bad_line_is_malformed() {
    assert_eq!(PTA::from_text("root: 0 # 1\nnonsense\ntransition: 0 -> a() # 1").err(), Some(PtaError::MalformedModel));
}

fn deep_automaton() -> PTA {
    // s(q, q) is far more likely than a(): the bound stays high on ever deeper prefixes
    PTA::from_text("root: q # 1\ntransition: q -> s(q, q) # 0.9\ntransition: q -> a() # 0.1").unwrap()
}

#[test]
fn search_with_small_budget_fails() {
    let pta = deep_automaton();
    assert_eq!(pta.most_probable_tree_bounded(10).err(), Some(PtaError::SearchBudgetExceeded));
}

#[test]
fn search_with_enough_budget_succeeds() {
    let pta = deep_automaton();
    let (t, p, _) = pta.most_probable_tree_bounded(1000).unwrap();
    assert_eq!(t, tree("(a)"));
    assert_eq!(p, p4(1000));
}

#[test]
fn repeated_searches_agree_on_the_probability() {
    let pta = PTA::from_text(EXAMPLE).unwrap();
    let first = pta.most_probable_tree().unwrap().1;
    for _ in 0..5 {
        assert_eq!(pta.most_probable_tree().unwrap().1, first);
    }
}

#[test]
fn probabilities_lie_in_the_unit_interval() {
    let pta = PTA::from_text(EXAMPLE).unwrap();
    for s in ["(a)", "(b)", "(s)", "(s (a) (a))", "(s (s (a) (b)) (b))", "(s (a) (s (b) (a)))"] {
        let p = pta.probability(&tree(s));
        let pp = pta.prefix_probability(&tree(s));
        assert!(p <= ONE && pp <= ONE);
    }
}

#[test]
fn probability_of_a_tree_with_holes_is_zero() {
    let pta = PTA::from_text(EXAMPLE).unwrap();
    assert_eq!(pta.probability(&tree("(s (a))")), 0);
    // with every hole counted as 1: 0.7 * (0.9 * 0.5 + 0.1 * 0.4) + 0.2 * 0.3 * 0.5
    assert_eq!(pta.prefix_probability(&tree("(s (a))")), p4(3730));
}

#[test]
fn probability_is_the_sum_over_runs() {
    // runs on s(a, a): root 0 via (1, 1) and (2, 2); root 1 via (1, 2)
    let pta = PTA::from_text(EXAMPLE).unwrap();
    let by_runs = 7 * (9 * 5 * 5 + 1 * 4 * 4) + 2 * (3 * 5 * 4); // in units of 1e-4
    assert_eq!(pta.probability(&tree("(s (a) (a))")), p4(by_runs));
}

#[test]
fn potential_bounds_the_extensions() {
    let pta = PTA::from_text(EXAMPLE).unwrap();
    let bound = pta.potential_probability(&tree("(s (a) (s))"));
    for s in ["(s (a) (s (a) (a)))", "(s (a) (s (a) (b)))", "(s (a) (s (b) (b)))", "(s (a) (s (s (a) (a)) (a)))"] {
        assert!(pta.probability(&tree(s)) <= bound);
    }
}

#[test]
fn best_parse_is_below_the_most_probable_tree() {
    for text in [EXAMPLE, "root: q # 1\ntransition: q -> s(q, q) # 0.5\ntransition: q -> a() # 0.5"] {
        let pta = PTA::from_text(text).unwrap();
        let (t, p) = pta.best_parse().unwrap();
        assert!(p <= pta.probability(&t));
        assert!(p <= pta.most_probable_tree().unwrap().1);
    }
}

#[test]
fn best_parse_without_derivable_root_state() {
    // the only root state needs itself below it
    let pta = PTA::from_text("root: q # 1\ntransition: q -> s(q) # 1\ntransition: r -> a() # 1").unwrap();
    assert!(pta.best_parse().is_none());
}

#[test]
fn unknown_symbol_is_reported() {
    let pta = PTA::from_text(EXAMPLE).unwrap();
    assert!(!pta.knows_labels(&tree("(s (a) (z))")));
    assert!(!pta.knows_labels(&tree("(z)")));
    assert!(pta.knows_labels(&tree("(s (a) (b))")));
}

#[test]
fn extend_fills_the_shallowest_hole_first() {
    // ranks: 0 -> 2, 1 -> 0
    let sigma = vec![2usize, 0];
    let mut t: Tree<usize> = Tree::new(0);
    assert!(t.extend(0, &sigma)); // 0(0)
    assert!(t.extend(1, &sigma)); // 0(0, 1): the root's hole comes before the child's
    assert_eq!(t.children.len(), 2);
    assert_eq!(t.children[1].root, 1);
    assert!(t.extend(1, &sigma)); // 0(0(1), 1)
    assert!(!t.extend(1, &sigma)); // 0(0(1, 1), 1): complete
    assert_eq!(t.children[0].children.len(), 2);
    assert!(!t.extend(1, &sigma)); // nothing left to fill
    assert_eq!(t.get_height(), 3);
}

#[test]
fn height_of_trees() {
    assert_eq!(leaf("a").get_height(), 1);
    assert_eq!(tree("(s (a) (s (a) (b)))").get_height(), 3);
}

#[test]
fn sexp_parsing() {
    let e = SExp::from_str("(s (a) (b))").unwrap();
    let a = SExp::List(vec![SExp::Atom("a".to_string())]);
    let b = SExp::List(vec![SExp::Atom("b".to_string())]);
    assert_eq!(e, SExp::List(vec![SExp::Atom("s".to_string()), a, b]));
    assert!(SExp::from_str("(s (a)").is_err());
    assert_eq!(tree("(s (a) (b))").to_text(), "s( a, b )");
}

#[test]
fn text_round_trip_keeps_the_model() {
    let pta = PTA::from_text(EXAMPLE).unwrap();
    let again = PTA::from_text(&pta.to_text()).unwrap();
    for s in ["(a)", "(s (a) (b))", "(s (a) (s))", "(s (s (a) (b)) (b))"] {
        assert_eq!(pta.probability(&tree(s)), again.probability(&tree(s)));
        assert_eq!(pta.prefix_probability(&tree(s)), again.prefix_probability(&tree(s)));
    }
    assert!(pta.to_text().contains("root: 0 # 0.7\n"));
    assert!(pta.to_text().contains("transition: 0 -> s(1, 1) # 0.9\n"));
}

#[test]
fn weights_are_read_exactly() {
    let pta = PTA::from_text("root: q # 0.123456789012345678999\ntransition: q -> a() # 1").unwrap();
    assert_eq!(pta.probability(&tree("(a)")), 123_456_789_012_345_678);
}

#[test]
fn integeriser_numbers_by_first_appearance() {
    let mut i = Integeriser::new();
    assert_eq!(i.integerise("x".to_string()), 0);
    assert_eq!(i.integerise("y".to_string()), 1);
    assert_eq!(i.integerise("x".to_string()), 0);
    assert_eq!(i.size(), 2);
    assert_eq!(i.find_key(&"y".to_string()), Some(1));
    assert_eq!(i.find_key(&"z".to_string()), None);
    assert_eq!(i.find_value(0), Some(&"x".to_string()));
    assert_eq!(i.find_value(2), None);
}

#[test]
fn transitions_are_integerised_and_back() {
    let mut states = Integeriser::new();
    let mut symbols = Integeriser::new();
    let t = tr("q", "s", &["r", "q"], p4(5000));
    let u = t.integerise(&mut states, &mut symbols);
    assert_eq!(u.source_state, 0);
    assert_eq!(u.target_states, vec![1, 0]);
    let back = Transition::un_integerise(&u, &states, &symbols).unwrap();
    assert_eq!(back, t);
}

/// Σ over all state assignments of the product of transition weights and the
/// root weight, in floating point.
fn brute_force(
    roots: &[(usize, f64)],
    transitions: &[(usize, &str, Vec<usize>, f64)],
    n_states: usize,
    t: &Tree<String>,
) -> f64 {
    fn nodes<'a>(t: &'a Tree<String>, out: &mut Vec<&'a Tree<String>>) {
        out.push(t);
        for c in &t.children {
            nodes(c, out);
        }
    }
    let mut all = Vec::new();
    nodes(t, &mut all);
    // index of each node's children in `all`
    let index_of = |x: &Tree<String>| all.iter().position(|y| std::ptr::eq(*y, x)).unwrap();
    let mut total = 0.0;
    let n = all.len();
    let mut assignment = vec![0usize; n];
    loop {
        let mut weight = 1.0;
        for (k, node) in all.iter().enumerate() {
            let targets: Vec<usize> = node.children.iter().map(|c| assignment[index_of(c)]).collect();
            let w: f64 = transitions
                .iter()
                .filter(|(src, sym, tg, _)| *src == assignment[k] && *sym == node.root && *tg == targets)
                .map(|(_, _, _, p)| *p)
                .sum();
            weight *= w;
        }
        let root_w: f64 = roots.iter().filter(|(q, _)| *q == assignment[0]).map(|(_, p)| *p).sum();
        total += weight * root_w;
        // next assignment
        let mut k = 0;
        while k < n {
            assignment[k] += 1;
            if assignment[k] < n_states {
                break;
            }
            assignment[k] = 0;
            k += 1;
        }
        if k == n {
            break;
        }
    }
    total
}

#[test]
fn probability_matches_brute_force_over_runs() {
    let pta = PTA::from_text(EXAMPLE).unwrap();
    let roots = [(0, 0.7), (1, 0.2), (2, 0.1)];
    let transitions = [
        (1, "a", vec![], 0.5),
        (2, "a", vec![], 0.4),
        (1, "b", vec![], 0.2),
        (2, "b", vec![], 0.6),
        (0, "s", vec![1, 1], 0.9),
        (0, "s", vec![2, 2], 0.1),
        (1, "s", vec![1, 2], 0.3),
    ];
    for s in [
        "(a)",
        "(b)",
        "(s (a) (a))",
        "(s (b) (a))",
        "(s (s (a) (b)) (b))",
        "(s (a) (s (a) (b)))",
        "(s (s (a) (a)) (s (b) (b)))",
    ] {
        let t = tree(s);
        let p = pta.probability(&t) as f64 / ONE as f64;
        let expected = brute_force(&roots, &transitions, 3, &t);
        assert!((p - expected).abs() < 1e-12, "{}: {} vs {}", s, p, expected);
    }
}

#[test]
fn weight_text_reads_back() {
    let pta = PTA::from_text("root: q # 0.25\ntransition: q -> a() # 1").unwrap();
    assert!(pta.to_text().contains("root: q # 0.25\n"));
    assert!(pta.to_text().contains("transition: q -> a() # 1\n"));
    assert_eq!(mpt::text::weight_text(ONE), "1");
    assert_eq!(mpt::text::weight_text(0), "0");
    assert_eq!(mpt::text::weight_text(ONE / 8), "0.125");
    assert_eq!(mpt::text::weight_text(1), "0.000000000000000001");
}

const THESIS_EXAMPLE: &str = "root: q0 # 0.9\n\
                              root: q1 # 0.1\n\
                              transition: q1 -> α() # 0.1\n\
                              transition: q2 -> α() # 0.5\n\
                              transition: q2 -> β() # 0.5\n\
                              transition: q1 -> γ(q1) # 0.5\n\
                              transition: q1 -> γ(q2) # 0.3\n\
                              transition: q1 -> σ(q1, q2) # 0.1\n\
                              transition: q0 -> σ(q1, q2) # 1.0";

#[test]
fn thesis_example_most_probable_tree() {
    let pta = PTA::from_text(THESIS_EXAMPLE).unwrap();
    let (t, p, _) = pta.most_probable_tree().unwrap();
    assert_eq!(p, p4(910));
    assert!(t == tree("(σ (γ (α)) (β))") || t == tree("(σ (γ (α)) (α))"));
}

#[test]
fn thesis_example_best_parse() {
    let pta = PTA::from_text(THESIS_EXAMPLE).unwrap();
    let (t, p) = pta.best_parse().unwrap();
    assert_eq!(p, p4(675));
    // α and β weigh the same at q2: the witnesses tie
    let tied = ["(σ (γ (β)) (β))", "(σ (γ (α)) (α))", "(σ (γ (α)) (β))", "(σ (γ (β)) (α))"];
    assert!(tied.iter().any(|s| t == tree(s)));
}

#[test]
fn seeds_count_against_the_ceiling() {
    // three symbols, a ceiling of two: seeding alone passes it
    let pta = PTA::from_text(EXAMPLE).unwrap();
    assert_eq!(pta.most_probable_tree_bounded(2).err(), Some(PtaError::SearchBudgetExceeded));
    let (_, _, n) = pta.most_probable_tree_bounded(100).unwrap();
    assert!(n <= 100);
}
