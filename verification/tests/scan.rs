use dirgrep::matcher::{search_lines, FileScan, FileSearchResult, SearchResult};
use dirgrep::reader::LineRead;

fn found(line_number: usize, match_text: &str) -> SearchResult {
    SearchResult { line_number, match_text: match_text.to_string() }
}

#[test]
fn a_scan_that_saw_no_line_finds_nothing() {
    let scan = FileScan::with_marking("a.txt", "hello", "[hello]");
    assert_eq!(scan.lines_seen(), 0);
    assert_eq!(scan.finish(), None);
}

#[test]
fn a_scan_reports_the_lines_that_hold_the_pattern() {
    let mut scan = FileScan::with_marking("a.txt", "hello", "[hello]");
    scan.feed_text("hello world");
    scan.feed_text("nothing");
    scan.feed_text("foo hello");
    assert_eq!(scan.lines_seen(), 3);
    let expected = FileSearchResult {
        file_name: "a.txt".to_string(),
        search_results: vec![found(0, "[hello] world"), found(2, "foo [hello]")],
    };
    assert_eq!(scan.finish(), Some(expected));
}

#[test]
fn a_scan_of_lines_without_the_pattern_finds_nothing() {
    let mut scan = FileScan::with_marking("b.log", "hello", "[hello]");
    scan.feed_text("nothing here");
    scan.feed_text("");
    assert_eq!(scan.lines_seen(), 2);
    assert_eq!(scan.finish(), None);
}

#[test]
fn a_line_that_could_not_be_decoded_is_not_counted() {
    let mut scan = FileScan::with_marking("a.txt", "x", "_");
    scan.feed(&LineRead::Text("x0".to_string()));
    scan.feed(&LineRead::Undecodable);
    assert_eq!(scan.lines_seen(), 1);
    scan.feed(&LineRead::Text("x1".to_string()));
    scan.feed(&LineRead::Undecodable);
    scan.feed(&LineRead::Text("none".to_string()));
    scan.feed(&LineRead::Text("x3".to_string()));
    assert_eq!(scan.lines_seen(), 4);
    let result = scan.finish().unwrap();
    assert_eq!(result.search_results, vec![found(0, "_0"), found(1, "_1"), found(3, "_3")]);
}

#[test]
fn feeding_line_by_line_gives_what_the_whole_file_gives() {
    let texts: Vec<String> =
        ["ab", "", "b", "cab cab", "abc"].iter().map(|text| text.to_string()).collect();
    let mut scan = FileScan::with_marking("f", "ab", "<ab>");
    for text in &texts {
        scan.feed_text(text);
    }
    let fed = scan.finish();
    assert_eq!(fed, search_lines("f", &texts, "ab", "<ab>"));
    assert_eq!(fed.unwrap().search_results.len(), 3);
}

#[test]
fn a_new_scan_marks_as_the_terminal_switch_says() {
    colored::control::set_override(true);
    let mut scan = FileScan::new("a.txt", "lo");
    scan.feed_text("hello");
    let result = scan.finish().unwrap();
    assert_eq!(result.search_results, vec![found(0, "hel\u{1b}[1;31mlo\u{1b}[0m")]);
}
