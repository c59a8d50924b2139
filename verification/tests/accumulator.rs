use arg_matcher::arg::Arg;
use arg_matcher::matched::MatchedArg;
use arg_matcher::matcher::ArgMatcher;
use arg_matcher::matches::{ArgMatches, SubCommand};

fn arg_with(
    name: &str,
    number_of_values: Option<usize>,
    max_values: Option<usize>,
    min_values: Option<usize>,
    multiple: bool,
) -> Arg {
    Arg { name: name.to_string(), number_of_values, max_values, min_values, multiple }
}

fn vals_of<'a>(m: &'a ArgMatcher, id: &str) -> Vec<&'a str> {
    m.get(id).expect("record should exist").vals.iter().map(|v| v.as_str()).collect()
}

#[test]
fn insert_replaces_prior_record() {
    let mut m = ArgMatcher::new();
    m.insert("x");
    m.add_val_to("x", "a".to_string());
    assert_eq!(vals_of(&m, "x"), vec!["a"]);
    m.insert("x");
    let rec: &MatchedArg = m.get("x").expect("record should exist");
    assert_eq!(rec.vals.len(), 0);
    assert_eq!(rec.occurs, 1);
}

#[test]
fn remove_deletes_one_record() {
    let mut m = ArgMatcher::new();
    m.insert("a");
    m.insert("b");
    m.remove("a");
    assert!(!m.contains("a"));
    assert!(m.contains("b"));
    m.remove("missing");
    assert!(m.contains("b"));
}

#[test]
fn remove_all_deletes_exactly_the_given_ids() {
    let mut m = ArgMatcher::new();
    m.insert("a");
    m.insert("b");
    m.insert("c");
    m.add_val_to("b", "kept".to_string());
    m.remove_all(&["a", "c", "never-seen"]);
    assert!(!m.contains("a"));
    assert!(!m.contains("c"));
    assert!(m.contains("b"));
    assert_eq!(vals_of(&m, "b"), vec!["kept"]);
}

#[test]
fn exact_count_non_multiple_boundaries() {
    let mut m = ArgMatcher::new();
    let o = arg_with("x", Some(2), None, None, false);
    assert!(m.needs_more_vals(&o));
    m.insert("x");
    assert!(m.needs_more_vals(&o));
    m.add_val_to("x", "a".to_string());
    assert!(m.needs_more_vals(&o));
    m.add_val_to("x", "b".to_string());
    assert!(!m.needs_more_vals(&o));
    m.add_val_to("x", "c".to_string());
    assert!(m.needs_more_vals(&o));
}

#[test]
fn exact_count_multiple_boundaries() {
    let mut m = ArgMatcher::new();
    let o = arg_with("x", Some(2), None, None, true);
    m.insert("x");
    assert!(!m.needs_more_vals(&o));
    m.add_val_to("x", "a".to_string());
    assert!(m.needs_more_vals(&o));
    m.add_val_to("x", "b".to_string());
    assert!(!m.needs_more_vals(&o));
    m.add_val_to("x", "c".to_string());
    assert!(m.needs_more_vals(&o));
}

#[test]
fn max_count_keeps_the_off_by_one_boundary() {
    let mut m = ArgMatcher::new();
    let o = arg_with("x", None, Some(1), None, false);
    m.insert("x");
    assert!(m.needs_more_vals(&o));
    m.add_val_to("x", "a".to_string());
    assert!(m.needs_more_vals(&o));
    m.add_val_to("x", "b".to_string());
    assert!(!m.needs_more_vals(&o));
}

#[test]
fn min_count_always_requests_more() {
    let mut m = ArgMatcher::new();
    let o = arg_with("x", None, None, Some(1), false);
    m.insert("x");
    assert!(m.needs_more_vals(&o));
    m.add_val_to("x", "a".to_string());
    m.add_val_to("x", "b".to_string());
    m.add_val_to("x", "c".to_string());
    assert!(m.needs_more_vals(&o));
}

#[test]
fn no_declared_arity_follows_multiple() {
    let mut m = ArgMatcher::new();
    let single = arg_with("x", None, None, None, false);
    let multi = arg_with("x", None, None, None, true);
    assert!(m.needs_more_vals(&single));
    assert!(m.needs_more_vals(&multi));
    m.insert("x");
    assert!(!m.needs_more_vals(&single));
    assert!(m.needs_more_vals(&multi));
}

#[test]
fn exact_count_takes_precedence_over_max() {
    let mut m = ArgMatcher::new();
    let o = arg_with("x", Some(2), Some(1), Some(1), false);
    m.insert("x");
    m.add_val_to("x", "a".to_string());
    m.add_val_to("x", "b".to_string());
    assert!(!m.needs_more_vals(&o));
}

#[test]
fn inc_occurrence_counts_first_observation_as_one() {
    let mut m = ArgMatcher::new();
    m.inc_occurrence_of("x");
    assert_eq!(m.get("x").expect("record should exist").occurs, 1);
    m.inc_occurrence_of("x");
    assert_eq!(m.get("x").expect("record should exist").occurs, 2);
}

#[test]
fn inc_occurrences_applies_each_id_in_order() {
    let mut m = ArgMatcher::new();
    m.inc_occurrences_of(&["x", "y", "x"]);
    assert_eq!(m.get("x").expect("record should exist").occurs, 2);
    assert_eq!(m.get("y").expect("record should exist").occurs, 1);
}

#[test]
fn add_val_creates_with_zero_occurrences_and_keeps_order() {
    let mut m = ArgMatcher::new();
    m.add_val_to("x", "a".to_string());
    m.add_val_to("x", "b".to_string());
    m.add_val_to("x", "c".to_string());
    let rec = m.get("x").expect("record should exist");
    assert_eq!(rec.occurs, 0);
    assert_eq!(vals_of(&m, "x"), vec!["a", "b", "c"]);
}

#[test]
fn is_empty_and_arg_names_reflect_the_records() {
    let mut m = ArgMatcher::new();
    assert!(m.is_empty());
    m.insert("a");
    m.insert("b");
    assert!(!m.is_empty());
    let mut names = m.arg_names();
    names.sort();
    assert_eq!(names, vec!["a".to_string(), "b".to_string()]);
}

#[test]
fn iter_walks_the_current_snapshot() {
    let mut m = ArgMatcher::new();
    m.insert("a");
    m.add_val_to("a", "1".to_string());
    m.insert("b");
    let pairs: Vec<(&str, usize)> =
        m.iter().iter().map(|(k, r)| (k.as_str(), r.vals.len())).collect();
    assert_eq!(pairs, vec![("a", 1), ("b", 0)]);
}

#[test]
fn usage_is_stored_and_overwritten() {
    let mut m = ArgMatcher::new();
    m.usage("first".to_string());
    m.usage("second".to_string());
    let tree = ArgMatches::from(m);
    assert_eq!(tree.usage, Some("second".to_string()));
}

#[test]
fn subcommand_name_reports_the_active_child_only() {
    let mut m = ArgMatcher::new();
    assert_eq!(m.subcommand_name(), None);
    m.subcommand(SubCommand { name: "build".to_string(), matches: ArgMatches::new() });
    assert_eq!(m.subcommand_name(), Some("build"));
    m.subcommand(SubCommand { name: "test".to_string(), matches: ArgMatches::new() });
    assert_eq!(m.subcommand_name(), Some("test"));
}

#[test]
fn propagate_fills_a_missing_child_record() {
    let mut root = ArgMatcher::new();
    root.inc_occurrence_of("verbose");
    root.add_val_to("verbose", "3".to_string());
    root.subcommand(SubCommand { name: "build".to_string(), matches: ArgMatches::new() });
    root.propagate("verbose");
    let sc = root.0.subcommand.as_ref().expect("subcommand should be attached");
    let rec = sc
        .matches
        .args
        .iter()
        .find(|(k, _)| k.as_str() == "verbose")
        .map(|(_, r)| r)
        .expect("child should have gained the record");
    assert_eq!(rec.vals, vec!["3".to_string()]);
    assert_eq!(rec.occurs, 2);
}

#[test]
fn propagate_keeps_a_local_override() {
    let mut build = ArgMatcher::new();
    build.add_val_to("verbose", "5".to_string());
    let mut root = ArgMatcher::new();
    root.add_val_to("verbose", "3".to_string());
    root.subcommand(SubCommand { name: "build".to_string(), matches: ArgMatches::from(build) });
    root.propagate("verbose");
    let sc = root.0.subcommand.as_ref().expect("subcommand should be attached");
    let rec = sc
        .matches
        .args
        .iter()
        .find(|(k, _)| k.as_str() == "verbose")
        .map(|(_, r)| r)
        .expect("child record should remain");
    assert_eq!(rec.vals, vec!["5".to_string()]);
    assert_eq!(rec.occurs, 0);
}

#[test]
fn propagate_fills_an_empty_child_record_keeping_its_count() {
    let mut build = ArgMatcher::new();
    build.inc_occurrence_of("verbose");
    build.inc_occurrence_of("verbose");
    let mut root = ArgMatcher::new();
    root.add_val_to("verbose", "3".to_string());
    root.subcommand(SubCommand { name: "build".to_string(), matches: ArgMatches::from(build) });
    root.propagate("verbose");
    let sc = root.0.subcommand.as_ref().expect("subcommand should be attached");
    let rec = sc
        .matches
        .args
        .iter()
        .find(|(k, _)| k.as_str() == "verbose")
        .map(|(_, r)| r)
        .expect("child record should remain");
    assert_eq!(rec.vals, vec!["3".to_string()]);
    assert_eq!(rec.occurs, 2);
}

#[test]
fn propagate_reaches_every_level_of_the_chain() {
    let release = ArgMatches::new();
    let build = ArgMatches {
        args: Vec::new(),
        usage: None,
        subcommand: Some(Box::new(SubCommand { name: "release".to_string(), matches: release })),
    };
    let mut root = ArgMatcher::new();
    root.add_val_to("verbose", "3".to_string());
    root.subcommand(SubCommand { name: "build".to_string(), matches: build });
    root.propagate("verbose");
    let tree = ArgMatches::from(root);
    let build_tree = &tree.subcommand.as_ref().expect("build level").matches;
    let release_tree = &build_tree.subcommand.as_ref().expect("release level").matches;
    for level in [build_tree, release_tree] {
        let rec = level
            .args
            .iter()
            .find(|(k, _)| k.as_str() == "verbose")
            .map(|(_, r)| r)
            .expect("level should have gained the record");
        assert_eq!(rec.vals, vec!["3".to_string()]);
    }
}

#[test]
fn propagate_without_a_record_is_a_noop() {
    let mut root = ArgMatcher::new();
    root.insert("other");
    root.subcommand(SubCommand { name: "build".to_string(), matches: ArgMatches::new() });
    root.propagate("verbose");
    let sc = root.0.subcommand.as_ref().expect("subcommand should be attached");
    assert!(sc.matches.args.is_empty());
    assert!(root.contains("other"));
}

fn same_tree(a: &ArgMatches, b: &ArgMatches) -> bool {
    let args_equal = a.args.len() == b.args.len()
        && a
            .args
            .iter()
            .zip(b.args.iter())
            .all(|((ka, ra), (kb, rb))| ka == kb && ra.occurs == rb.occurs && ra.vals == rb.vals);
    let sub_equal = match (&a.subcommand, &b.subcommand) {
        (None, None) => true,
        (Some(x), Some(y)) => x.name == y.name && same_tree(&x.matches, &y.matches),
        _ => false,
    };
    args_equal && sub_equal && a.usage == b.usage
}

fn sample_chain(root_vals: &[&str], child_vals: &[&str]) -> ArgMatcher {
    let mut build = ArgMatcher::new();
    for v in child_vals {
        build.add_val_to("verbose", v.to_string());
    }
    let mut root = ArgMatcher::new();
    root.inc_occurrence_of("verbose");
    for v in root_vals {
        root.add_val_to("verbose", v.to_string());
    }
    root.subcommand(SubCommand { name: "build".to_string(), matches: ArgMatches::from(build) });
    root
}

#[test]
fn propagate_stops_at_the_end_of_the_chain() {
    let mut root = ArgMatcher::new();
    root.add_val_to("verbose", "3".to_string());
    root.propagate("verbose");
    assert_eq!(vals_of(&root, "verbose"), vec!["3"]);
    assert_eq!(root.subcommand_name(), None);
}

#[test]
fn remove_all_tolerates_a_repeated_id() {
    let mut m = ArgMatcher::new();
    m.insert("a");
    m.insert("b");
    m.remove_all(&["a", "a"]);
    assert!(!m.contains("a"));
    assert!(m.contains("b"));
}

#[test]
fn propagate_twice_equals_propagate_once() {
    for (root_vals, child_vals) in
        [(&["3"][..], &[][..]), (&["3"][..], &["5"][..]), (&[][..], &[][..])]
    {
        let mut once = sample_chain(root_vals, child_vals);
        once.propagate("verbose");
        let mut twice = sample_chain(root_vals, child_vals);
        twice.propagate("verbose");
        twice.propagate("verbose");
        assert!(same_tree(&ArgMatches::from(once), &ArgMatches::from(twice)));
    }
}

#[test]
fn finished_tree_moves_to_the_result_consumer() {
    let mut m = ArgMatcher::new();
    m.inc_occurrence_of("x");
    m.add_val_to("x", "a".to_string());
    let tree: ArgMatches = m.into();
    let rec = tree
        .args
        .iter()
        .find(|(k, _)| k.as_str() == "x")
        .map(|(_, r)| r)
        .expect("record should survive the conversion");
    assert_eq!(rec.occurs, 1);
    assert_eq!(rec.vals, vec!["a".to_string()]);
}
