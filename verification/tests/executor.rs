use std::cell::RefCell;
use std::collections::HashMap;
use std::collections::HashSet;

use mmv::mmv::{build_renames, execute, rename, Edge, ExecError};
use mmv::RandomPathGenerator;

/// A tiny in-memory stand-in for the filesystem: file contents by path,
/// a set of existing directories, and a set of directories whose
/// creation is denied.
struct Sim {
    files: HashMap<String, String>,
    dirs: HashSet<String>,
    deny: HashSet<String>,
}

fn parent(p: &str) -> &str {
    match p.rfind('/') {
        Some(k) => &p[..k],
        None => "",
    }
}

impl Sim {
    fn new(files: &[(&str, &str)], dirs: &[&str], deny: &[&str]) -> Sim {
        Sim {
            files: files
                .iter()
                .map(|&(p, c)| (p.to_string(), c.to_string()))
                .collect(),
            dirs: dirs.iter().map(|d| d.to_string()).collect(),
            deny: deny.iter().map(|d| d.to_string()).collect(),
        }
    }

    fn dir_exists(&self, d: &str) -> bool {
        d.is_empty() || self.dirs.contains(d)
    }

    fn rename(&mut self, src: &str, dst: &str) -> Result<(), String> {
        if !self.files.contains_key(src) {
            return Err(format!("no such entry: {}", src));
        }
        if !self.dir_exists(parent(dst)) {
            return Err(format!("no such directory: {}", parent(dst)));
        }
        let content = self.files.remove(src).unwrap();
        self.files.insert(dst.to_string(), content);
        Ok(())
    }

    fn mkdirs(&mut self, d: &str) -> Result<(), String> {
        let mut prefix = String::new();
        for part in d.split('/') {
            if !prefix.is_empty() {
                prefix.push('/');
            }
            prefix.push_str(part);
            if self.deny.contains(&prefix) {
                return Err(format!("permission denied: {}", prefix));
            }
            self.dirs.insert(prefix.clone());
        }
        Ok(())
    }

    fn entry_exists(&self, p: &str) -> bool {
        self.files.contains_key(p) || self.dirs.contains(p)
    }

    fn snapshot(&self) -> HashMap<String, String> {
        self.files.clone()
    }
}

fn pairs(items: &[(&str, &str)]) -> Vec<(String, String)> {
    items
        .iter()
        .map(|&(a, b)| (a.to_string(), b.to_string()))
        .collect()
}

fn contents(items: &[(&str, &str)]) -> HashMap<String, String> {
    items
        .iter()
        .map(|&(p, c)| (p.to_string(), c.to_string()))
        .collect()
}

/// Plans against the simulated filesystem and applies the edges to it.
fn run_batch(
    sim: Sim,
    mapping: &[(&str, &str)],
    seed: u32,
) -> (Result<(), String>, HashMap<String, String>, HashSet<String>) {
    let fs = RefCell::new(sim);
    let rename_fs = |s: String, d: String| -> Result<(), String> { fs.borrow_mut().rename(&s, &d) };
    let exists_fs = |p: String| -> bool { fs.borrow().entry_exists(&p) };
    let mkdirs = |d: String| -> Result<(), String> { fs.borrow_mut().mkdirs(&d) };
    let mut rng = RandomPathGenerator::new(seed);
    let result = rename(
        &pairs(mapping),
        None,
        &mut rng,
        &rename_fs,
        &exists_fs,
        &mkdirs,
    );
    let state = fs.borrow().snapshot();
    let dirs = fs.borrow().dirs.clone();
    (result, state, dirs)
}

#[test]
fn one_file_moves() {
    let sim = Sim::new(&[("foo", "0")], &[], &[]);
    let (result, state, _dirs) = run_batch(sim, &[("foo", "bar")], 1);
    assert!(result.is_ok());
    assert_eq!(state, contents(&[("bar", "0")]));
}

#[test]
fn swap_exchanges_contents() {
    let sim = Sim::new(&[("foo", "0"), ("bar", "1"), ("baz", "2")], &[], &[]);
    let (result, state, _dirs) = run_batch(sim, &[("foo", "bar"), ("bar", "foo")], 2);
    assert!(result.is_ok());
    assert_eq!(state, contents(&[("bar", "0"), ("foo", "1"), ("baz", "2")]));
}

#[test]
fn three_cycle_rotates_contents() {
    let sim = Sim::new(&[("foo", "0"), ("bar", "1"), ("baz", "2")], &[], &[]);
    let (result, state, _dirs) = run_batch(
        sim,
        &[("foo", "bar"), ("bar", "baz"), ("baz", "foo")],
        3,
    );
    assert!(result.is_ok());
    assert_eq!(state, contents(&[("bar", "0"), ("baz", "1"), ("foo", "2")]));
}

#[test]
fn missing_destination_directories_are_created() {
    let sim = Sim::new(&[("foo", "0"), ("bar", "1"), ("baz", "2")], &[], &[]);
    let (result, state, dirs) = run_batch(
        sim,
        &[("foo", "x/foo"), ("bar", "x/bar"), ("baz", "a/b/c/baz")],
        4,
    );
    assert!(result.is_ok());
    assert_eq!(
        state,
        contents(&[("x/foo", "0"), ("x/bar", "1"), ("a/b/c/baz", "2")])
    );
    assert!(dirs.contains("x"));
    assert!(dirs.contains("a/b/c"));
}

#[test]
fn mid_batch_failure_rolls_everything_back() {
    let sim = Sim::new(&[("foo", "0"), ("bar", "1")], &[], &["b"]);
    let initial = contents(&[("foo", "0"), ("bar", "1")]);
    let (result, state, _dirs) = run_batch(sim, &[("foo", "a/foo"), ("bar", "b/bar")], 5);
    let message = result.unwrap_err();
    assert!(message.starts_with("Cannot create directory b: "), "{}", message);
    assert_eq!(state, initial);
}

#[test]
fn missing_source_rolls_everything_back() {
    let sim = Sim::new(&[("foo", "0"), ("bar", "1"), ("baz", "2"), ("qux", "3")], &[], &[]);
    let initial = contents(&[("foo", "0"), ("bar", "1"), ("baz", "2"), ("qux", "3")]);
    let mapping = [
        ("foo", "bar"),
        ("bar", "foo"),
        ("baz", "qux"),
        ("qux", "quux"),
        ("quux", "baz"),
    ];
    // the planner is pure, so the edge count can be checked on its own
    let mut rng = RandomPathGenerator::new(6);
    let no_entry = |_p: String| false;
    let edges = build_renames(&pairs(&mapping), &mut rng, &no_entry).unwrap();
    assert_eq!(edges.len(), 7);
    let (result, state, _dirs) = run_batch(sim, &mapping, 6);
    let message = result.unwrap_err();
    assert!(message.starts_with("Source missing quux"), "{}", message);
    assert_eq!(state, initial);
}

#[test]
fn execute_reports_missing_source() {
    let fs = RefCell::new(Sim::new(&[], &[], &[]));
    let rename_fs = |s: String, d: String| -> Result<(), String> { fs.borrow_mut().rename(&s, &d) };
    let exists_fs = |p: String| -> bool { fs.borrow().entry_exists(&p) };
    let mkdirs = |d: String| -> Result<(), String> { fs.borrow_mut().mkdirs(&d) };
    let edges = vec![Edge { src: "foo".to_string(), dst: "bar".to_string() }];
    let failure = execute(&edges, &rename_fs, &exists_fs, &mkdirs).unwrap_err();
    assert_eq!(failure.error, ExecError::SourceMissing("foo".to_string()));
    assert_eq!(failure.error.message(), "Source missing foo");
    assert!(failure.warnings.is_empty());
}

#[test]
fn rollback_failures_become_warnings() {
    let fs = RefCell::new(Sim::new(&[("a", "0"), ("c", "1")], &[], &["z"]));
    // renaming `b` back to `a` is artificially broken, so the rollback
    // of the first edge fails and is reported as a warning
    let rename_fs = |s: String, d: String| -> Result<(), String> {
        if s == "b" && d == "a" {
            return Err("stuck".to_string());
        }
        fs.borrow_mut().rename(&s, &d)
    };
    let exists_fs = |p: String| -> bool { fs.borrow().entry_exists(&p) };
    let mkdirs = |d: String| -> Result<(), String> { fs.borrow_mut().mkdirs(&d) };
    let edges = vec![
        Edge { src: "a".to_string(), dst: "b".to_string() },
        Edge { src: "c".to_string(), dst: "z/d".to_string() },
    ];
    let failure = execute(&edges, &rename_fs, &exists_fs, &mkdirs).unwrap_err();
    assert_eq!(
        failure.error,
        ExecError::DestinationUncreatable("z".to_string(), "permission denied: z".to_string())
    );
    assert_eq!(failure.warnings.len(), 1);
    assert_eq!(
        failure.warnings[0],
        ExecError::RollbackFailed("b".to_string(), "a".to_string(), "stuck".to_string())
    );
    assert_eq!(
        failure.warnings[0].message(),
        "Cannot undo rename of b to a: stuck"
    );
}

#[test]
fn failure_text_lists_rollback_warnings() {
    let fs = RefCell::new(Sim::new(&[("a", "0"), ("c", "1")], &[], &["z"]));
    // the reversal of the first applied edge is artificially broken, so
    // the returned text is the primary error followed by the warning
    let rename_fs = |s: String, d: String| -> Result<(), String> {
        if s == "b" && d == "a" {
            return Err("stuck".to_string());
        }
        fs.borrow_mut().rename(&s, &d)
    };
    let exists_fs = |p: String| -> bool { fs.borrow().entry_exists(&p) };
    let mkdirs = |d: String| -> Result<(), String> { fs.borrow_mut().mkdirs(&d) };
    let mut rng = RandomPathGenerator::new(8);
    let message = rename(
        &pairs(&[("a", "b"), ("c", "z/d")]),
        None,
        &mut rng,
        &rename_fs,
        &exists_fs,
        &mkdirs,
    )
    .unwrap_err();
    assert_eq!(
        message,
        "Cannot create directory z: permission denied: z\nCannot undo rename of b to a: stuck"
    );
}

#[test]
fn rename_prefixes_all_paths_with_the_directory() {
    let fs = RefCell::new(Sim::new(
        &[("base/foo", "0"), ("base/bar", "1")],
        &["base"],
        &[],
    ));
    let rename_fs = |s: String, d: String| -> Result<(), String> { fs.borrow_mut().rename(&s, &d) };
    let exists_fs = |p: String| -> bool { fs.borrow().entry_exists(&p) };
    let mkdirs = |d: String| -> Result<(), String> { fs.borrow_mut().mkdirs(&d) };
    let mut rng = RandomPathGenerator::new(9);
    let dir = "base".to_string();
    let result = rename(
        &pairs(&[("foo", "qux"), ("bar", "quux")]),
        Some(&dir),
        &mut rng,
        &rename_fs,
        &exists_fs,
        &mkdirs,
    );
    assert!(result.is_ok());
    let state = fs.borrow().snapshot();
    assert_eq!(state, contents(&[("base/qux", "0"), ("base/quux", "1")]));
}

#[test]
fn validation_failures_leave_the_filesystem_alone() {
    let sim = Sim::new(&[("foo", "0"), ("bar", "1"), ("baz", "2")], &[], &[]);
    let initial = contents(&[("foo", "0"), ("bar", "1"), ("baz", "2")]);
    let (result, state, _dirs) = run_batch(
        sim,
        &[("foo", "baz"), ("bar", "baz"), ("baz", "qux")],
        7,
    );
    assert_eq!(result.unwrap_err(), "Duplicate destination baz");
    assert_eq!(state, initial);
}
