use mmv::mmv::{build_renames, Edge, PlanError};
use mmv::{next_random, RandomPathGenerator};

fn pairs(items: &[(&str, &str)]) -> Vec<(String, String)> {
    items
        .iter()
        .map(|&(a, b)| (a.to_string(), b.to_string()))
        .collect()
}

fn plan(items: &[(&str, &str)], seed: u32) -> Result<Vec<Edge>, PlanError> {
    let mut rng = RandomPathGenerator::new(seed);
    let no_entry = |_p: String| false;
    build_renames(&pairs(items), &mut rng, &no_entry)
}

/// The first digit string a fresh generator with this seed hands out.
fn first_name(seed: u32) -> String {
    let mut rng = RandomPathGenerator::new(seed);
    next_random(&mut rng)
}

#[test]
fn single_entry_gives_one_edge() {
    let edges = plan(&[("foo", "bar")], 1).unwrap();
    assert_eq!(edges.len(), 1);
    assert_eq!(edges[0].src, "foo");
    assert_eq!(edges[0].dst, "bar");
}

#[test]
fn independent_entries_give_one_edge_each() {
    let edges = plan(&[("foo", "qux"), ("bar", "quux")], 1).unwrap();
    assert_eq!(edges.len(), 2);
    for e in &edges {
        assert!(
            (e.src == "foo" && e.dst == "qux") || (e.src == "bar" && e.dst == "quux"),
            "unexpected edge {:?}",
            e
        );
    }
}

#[test]
fn chain_is_emitted_tail_first() {
    let edges = plan(&[("foo", "bar"), ("bar", "baz"), ("baz", "qux")], 1).unwrap();
    assert_eq!(edges.len(), 3);
    assert_eq!((edges[0].src.as_str(), edges[0].dst.as_str()), ("baz", "qux"));
    assert_eq!((edges[1].src.as_str(), edges[1].dst.as_str()), ("bar", "baz"));
    assert_eq!((edges[2].src.as_str(), edges[2].dst.as_str()), ("foo", "bar"));
}

#[test]
fn swap_uses_a_temporary_and_three_edges() {
    let seed = 42;
    let tmp = first_name(seed);
    let edges = plan(&[("foo", "bar"), ("bar", "foo")], seed).unwrap();
    assert_eq!(edges.len(), 3);
    assert_eq!((edges[0].src.as_str(), edges[0].dst.as_str()), ("bar", tmp.as_str()));
    assert_eq!((edges[1].src.as_str(), edges[1].dst.as_str()), ("foo", "bar"));
    assert_eq!((edges[2].src.as_str(), edges[2].dst.as_str()), (tmp.as_str(), "foo"));
}

#[test]
fn three_cycle_gives_four_edges() {
    let seed = 7;
    let tmp = first_name(seed);
    let edges = plan(&[("foo", "bar"), ("bar", "baz"), ("baz", "foo")], seed).unwrap();
    assert_eq!(edges.len(), 4);
    assert_eq!((edges[0].src.as_str(), edges[0].dst.as_str()), ("bar", tmp.as_str()));
    assert_eq!((edges[1].src.as_str(), edges[1].dst.as_str()), ("foo", "bar"));
    assert_eq!((edges[2].src.as_str(), edges[2].dst.as_str()), ("baz", "foo"));
    assert_eq!((edges[3].src.as_str(), edges[3].dst.as_str()), (tmp.as_str(), "baz"));
}

#[test]
fn two_swaps_give_six_edges() {
    let edges = plan(
        &[("foo", "bar"), ("bar", "foo"), ("baz", "qux"), ("qux", "baz")],
        3,
    )
    .unwrap();
    assert_eq!(edges.len(), 6);
}

#[test]
fn duplicate_destination_is_rejected() {
    let err = plan(&[("foo", "baz"), ("bar", "baz")], 1).unwrap_err();
    assert_eq!(err, PlanError::DuplicateDestination("baz".to_string()));
    assert_eq!(err.message(), "Duplicate destination baz");
}

#[test]
fn empty_source_is_rejected() {
    let err = plan(&[("foo", "baz"), ("", "bar")], 1).unwrap_err();
    assert_eq!(err, PlanError::EmptyPath);
    assert_eq!(err.message(), "Path cannot be empty.");
}

#[test]
fn empty_destination_is_rejected() {
    let err = plan(&[("foo", "baz"), ("bar", "")], 1).unwrap_err();
    assert_eq!(err, PlanError::EmptyPath);
}

#[test]
fn duplicate_source_is_found_after_cleaning() {
    let err = plan(&[("foo", "baz"), ("bar/../foo", "bar")], 1).unwrap_err();
    assert_eq!(err, PlanError::DuplicateSource("foo".to_string()));
    assert_eq!(err.message(), "Duplicate source foo");
}

#[test]
fn duplicate_destination_is_found_after_cleaning() {
    let err = plan(&[("foo", "baz"), ("bar", "foo/../baz")], 1).unwrap_err();
    assert_eq!(err, PlanError::DuplicateDestination("baz".to_string()));
}

#[test]
fn self_mappings_are_dropped() {
    let edges = plan(&[("foo/", "foo"), ("bar/", "bar")], 1).unwrap();
    assert_eq!(edges.len(), 0);
}

#[test]
fn cleaned_swap_still_cycles() {
    let edges = plan(&[("foo", "bar"), ("bar/", "foo/")], 5).unwrap();
    assert_eq!(edges.len(), 3);
}

#[test]
fn duplicate_destination_after_self_mapping() {
    let err = plan(&[("foo/", "foo/"), ("bar/", "foo")], 1).unwrap_err();
    assert_eq!(err, PlanError::DuplicateDestination("foo".to_string()));
    assert_eq!(err.message(), "Duplicate destination foo");
}

#[test]
fn temporary_avoids_existing_entries() {
    let seed = 11;
    // the first candidate is reported as existing, so the planner takes
    // the second
    let burnt = first_name(seed);
    let mut twin = RandomPathGenerator::new(seed);
    next_random(&mut twin);
    let second = next_random(&mut twin);
    let taken = burnt.clone();
    let mut rng = RandomPathGenerator::new(seed);
    let exists = move |p: String| p == taken;
    let edges = build_renames(&pairs(&[("foo", "bar"), ("bar", "foo")]), &mut rng, &exists)
        .unwrap();
    assert_eq!(edges.len(), 3);
    assert_eq!(edges[0].dst, second);
    assert_ne!(edges[0].dst, burnt);
}

#[test]
fn temporary_is_a_sibling_of_the_displaced_node() {
    let seed = 13;
    let tmp_name = first_name(seed);
    let edges = plan(&[("a/foo", "a/bar"), ("a/bar", "a/foo")], seed).unwrap();
    assert_eq!(edges.len(), 3);
    let expected = format!("a/{}", tmp_name);
    assert_eq!(edges[0].src, "a/bar");
    assert_eq!(edges[0].dst, expected);
}
