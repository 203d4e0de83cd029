use extension_tally::{render_line, render_report, RankedEntry, Scanner};

fn entry(ext: &str, count: usize) -> RankedEntry {
    RankedEntry { extension: ext.to_string(), count }
}

#[test]
fn line_holds_rank_extension_count() {
    assert_eq!(render_line(1, &entry("txt", 3)), "1 txt 3");
    assert_eq!(render_line(12, &entry("md", 1045)), "12 md 1045");
}

#[test]
fn line_with_empty_extension() {
    assert_eq!(render_line(1, &entry("", 1)), "1  1");
}

#[test]
fn line_with_zero_and_large_numbers() {
    assert_eq!(render_line(0, &entry("a", 0)), "0 a 0");
    assert_eq!(
        render_line(100, &entry("z", usize::MAX)),
        format!("100 z {}", usize::MAX)
    );
}

#[test]
fn report_of_nothing_is_header_only() {
    assert_eq!(render_report(&Vec::new()), vec!["Top Ext Count".to_string()]);
}

#[test]
fn report_lines_of_small_tree() {
    let mut s = Scanner::new("root".to_string());
    let root = s.next_directory().unwrap();
    for name in ["a.txt", "b.txt", "c.md"] {
        s.record_entry(format!("{}/{}", root, name), name, false);
    }
    s.record_entry(format!("{}/sub", root), "sub", true);
    let sub = s.next_directory().unwrap();
    for name in ["d.txt", "e"] {
        s.record_entry(format!("{}/{}", sub, name), name, false);
    }
    assert!(s.is_done());
    assert_eq!(
        render_report(&s.report()),
        vec!["Top Ext Count".to_string(), "1 txt 3".to_string(), "2 md 1".to_string()]
    );
}
