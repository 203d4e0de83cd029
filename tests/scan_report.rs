use extension_tally::{RankedEntry, Scanner, Tally, REPORT_LIMIT};

/// A directory listing: (name, is a directory).
type Listing = Vec<(&'static str, bool)>;

/// Runs a scan over a tree given as a lookup from directory path to listing.
fn scan_tree(root: &str, list: impl Fn(&str) -> Listing) -> (Scanner<String>, Vec<String>) {
    let mut s = Scanner::new(root.to_string());
    let mut order = Vec::new();
    while !s.is_done() {
        let dir = s.next_directory().unwrap();
        for (name, is_dir) in list(&dir) {
            let path = format!("{}/{}", dir, name);
            s.record_entry(path, name, is_dir);
        }
        order.push(dir);
    }
    (s, order)
}

fn pairs(r: &[RankedEntry]) -> Vec<(String, usize)> {
    r.iter().map(|e| (e.extension.clone(), e.count)).collect()
}

#[test]
fn small_tree_is_tallied_and_ranked() {
    let (s, _) = scan_tree("root", |d| match d {
        "root" => vec![("a.txt", false), ("b.txt", false), ("c.md", false), ("sub", true)],
        "root/sub" => vec![("d.txt", false), ("e", false)],
        _ => vec![],
    });
    assert_eq!(s.tally().count("txt"), 3);
    assert_eq!(s.tally().count("md"), 1);
    assert_eq!(s.tally().len(), 2);
    assert_eq!(s.files_seen(), 5);
    let r = s.report();
    assert_eq!(pairs(&r), vec![("txt".to_string(), 3), ("md".to_string(), 1)]);
}

#[test]
fn empty_root_gives_empty_report() {
    let (s, order) = scan_tree("root", |_| vec![]);
    assert_eq!(order, vec!["root".to_string()]);
    assert_eq!(s.tally().len(), 0);
    assert!(s.report().is_empty());
}

#[test]
fn trailing_period_counts_under_empty_extension() {
    let (s, _) = scan_tree("root", |d| match d {
        "root" => vec![("archive.", false)],
        _ => vec![],
    });
    assert_eq!(s.tally().count(""), 1);
    assert_eq!(pairs(&s.report()), vec![(String::new(), 1)]);
}

#[test]
fn directories_are_listed_breadth_first() {
    let (_, order) = scan_tree("r", |d| match d {
        "r" => vec![("a", true), ("x.txt", false), ("b", true)],
        "r/a" => vec![("c", true)],
        "r/b" => vec![("d", true)],
        _ => vec![],
    });
    assert_eq!(order, vec!["r", "r/a", "r/b", "r/a/c", "r/b/d"]);
}

#[test]
fn next_directory_on_empty_frontier_is_none() {
    let mut s = Scanner::new(7u32);
    assert!(!s.is_done());
    assert_eq!(s.next_directory(), Some(7));
    assert!(s.is_done());
    assert_eq!(s.next_directory(), None);
    s.record_entry(8, "eight", true);
    s.record_entry(9, "nine", true);
    assert_eq!(s.next_directory(), Some(8));
    assert_eq!(s.next_directory(), Some(9));
}

#[test]
fn report_is_cut_at_limit() {
    let mut t = Tally::new();
    // extension k is met k + 1 times, for 150 extensions
    for k in 0..150usize {
        let name = format!("f.e{}", k);
        for _ in 0..=k {
            t.record_file(&name);
        }
    }
    let r = extension_tally::top_entries(&t);
    assert_eq!(REPORT_LIMIT, 100);
    assert_eq!(r.len(), 100);
    assert_eq!((r[0].extension.as_str(), r[0].count), ("e149", 150));
    assert_eq!((r[99].extension.as_str(), r[99].count), ("e50", 51));
    for w in r.windows(2) {
        assert!(w[0].count >= w[1].count);
    }
}

#[test]
fn report_holds_every_extension_under_limit() {
    let mut t = Tally::new();
    for name in ["a.x", "b.y", "c.y", "d.z", "e.z", "f.z"] {
        t.record_file(name);
    }
    let r = extension_tally::top_entries(&t);
    assert_eq!(
        pairs(&r),
        vec![("z".to_string(), 3), ("y".to_string(), 2), ("x".to_string(), 1)]
    );
}

#[test]
fn report_with_exactly_limit_extensions() {
    let mut t = Tally::new();
    for k in 0..100usize {
        t.record_file(&format!("n.k{}", k));
    }
    let r = extension_tally::top_entries(&t);
    assert_eq!(r.len(), 100);
    assert!(r.iter().all(|e| e.count == 1));
    let mut keys: Vec<String> = r.iter().map(|e| e.extension.clone()).collect();
    keys.sort();
    keys.dedup();
    assert_eq!(keys.len(), 100);
}

#[test]
fn rescanning_unchanged_tree_gives_same_counts() {
    let list = |d: &str| match d {
        "root" => vec![("a.rs", false), ("s", true), ("b.rs", false), ("c.toml", false)],
        "root/s" => vec![("d.rs", false), ("LICENSE", false), ("e.", false)],
        _ => vec![],
    };
    let (first, _) = scan_tree("root", list);
    let (second, _) = scan_tree("root", list);
    for ext in ["rs", "toml", "", "LICENSE"] {
        assert_eq!(first.tally().count(ext), second.tally().count(ext));
    }
    assert_eq!(pairs(&first.report()), pairs(&second.report()));
}
