use dirgrep::emphasis::annotate;
use dirgrep::matcher::{search_lines, FileSearchResult, SearchResult};
use dirgrep::text::{chars_of, find_first};

fn lines(texts: &[&str]) -> Vec<String> {
    texts.iter().map(|text| text.to_string()).collect()
}

fn match_lines(texts: &Vec<String>, pattern: &str, marked: &str) -> Vec<SearchResult> {
    match search_lines("f", texts, pattern, marked) {
        Some(result) => result.search_results,
        None => Vec::new(),
    }
}

fn found(line_number: usize, match_text: &str) -> SearchResult {
    SearchResult { line_number, match_text: match_text.to_string() }
}

#[test]
fn chars_of_keeps_every_character_in_order() {
    assert_eq!(chars_of("héllo"), vec!['h', 'é', 'l', 'l', 'o']);
    assert_eq!(chars_of(""), Vec::<char>::new());
}

#[test]
fn find_first_gives_the_leftmost_position() {
    assert_eq!(find_first(&chars_of("foo hello hello"), &chars_of("hello")), Some(4));
    assert_eq!(find_first(&chars_of("hello"), &chars_of("hello")), Some(0));
    assert_eq!(find_first(&chars_of("say hello"), &chars_of("hello")), Some(4));
}

#[test]
fn find_first_counts_characters_not_bytes() {
    assert_eq!(find_first(&chars_of("héllo wörld"), &chars_of("wör")), Some(6));
}

#[test]
fn find_first_finds_nothing_where_the_pattern_is_absent() {
    assert_eq!(find_first(&chars_of("nothing here"), &chars_of("hello")), None);
    assert_eq!(find_first(&chars_of("hell"), &chars_of("hello")), None);
    assert_eq!(find_first(&chars_of(""), &chars_of("a")), None);
    assert_eq!(find_first(&chars_of("Hello"), &chars_of("hello")), None);
}

#[test]
fn find_first_of_the_empty_pattern_is_the_start() {
    assert_eq!(find_first(&chars_of("abc"), &chars_of("")), Some(0));
    assert_eq!(find_first(&chars_of(""), &chars_of("")), Some(0));
}

#[test]
fn find_first_takes_the_first_of_overlapping_occurrences() {
    assert_eq!(find_first(&chars_of("baaa"), &chars_of("aa")), Some(1));
}

#[test]
fn annotate_replaces_the_occurrence_and_keeps_the_rest() {
    assert_eq!(annotate("foo hello bar", 4, 5, "[hello]"), "foo [hello] bar");
    assert_eq!(annotate("hello", 0, 5, "<>"), "<>");
    assert_eq!(annotate("héllo wörld", 6, 3, "*"), "héllo *ld");
    assert_eq!(annotate("abc", 0, 0, "^"), "^abc");
}

#[test]
fn a_file_without_the_pattern_gives_no_result() {
    let texts = lines(&["nothing here", "nor here", ""]);
    assert_eq!(search_lines("b.log", &texts, "hello", "[hello]"), None);
    assert_eq!(match_lines(&texts, "hello", "[hello]"), Vec::<SearchResult>::new());
}

#[test]
fn a_file_without_lines_gives_no_result() {
    assert_eq!(search_lines("empty.txt", &Vec::new(), "hello", "[hello]"), None);
    assert_eq!(search_lines("empty.txt", &Vec::new(), "", "[]"), None);
}

#[test]
fn each_matching_line_gives_one_result_with_its_number() {
    let texts = lines(&["hello world", "skip me", "foo hello", "skip me too", "hello"]);
    let expected = FileSearchResult {
        file_name: "a.txt".to_string(),
        search_results: vec![
            found(0, "[hello] world"),
            found(2, "foo [hello]"),
            found(4, "[hello]"),
        ],
    };
    assert_eq!(search_lines("a.txt", &texts, "hello", "[hello]"), Some(expected));
}

#[test]
fn line_numbers_ascend() {
    let texts = lines(&["x", "ax", "b", "xx", "c", "cx"]);
    let results = match_lines(&texts, "x", "_");
    let numbers: Vec<usize> = results.iter().map(|result| result.line_number).collect();
    assert_eq!(numbers, vec![0, 1, 3, 5]);
}

#[test]
fn a_line_with_the_pattern_twice_is_reported_once() {
    let texts = lines(&["hello and hello again"]);
    let results = match_lines(&texts, "hello", "[hello]");
    assert_eq!(results, vec![found(0, "[hello] and hello again")]);
}

#[test]
fn searching_twice_gives_the_same_results() {
    let texts = lines(&["hello world", "foo hello", "bar"]);
    let first = search_lines("a.txt", &texts, "hello", "[hello]");
    let second = search_lines("a.txt", &texts, "hello", "[hello]");
    assert_eq!(first, second);
    assert!(first.is_some());
}

#[test]
fn the_marking_does_not_change_which_lines_are_reported() {
    let texts = lines(&["hello world", "bar", "foo hello"]);
    let plain = match_lines(&texts, "hello", "hello");
    let marked = match_lines(&texts, "hello", "\u{1b}[1;31mhello\u{1b}[0m");
    assert_eq!(plain.len(), 2);
    assert_eq!(marked.len(), 2);
    assert_eq!(plain[0].line_number, marked[0].line_number);
    assert_eq!(plain[1].line_number, marked[1].line_number);
    assert_eq!(plain[1].match_text, "foo hello");
    assert_eq!(marked[1].match_text, "foo \u{1b}[1;31mhello\u{1b}[0m");
}

#[test]
fn the_empty_pattern_matches_every_line_at_its_start() {
    let texts = lines(&["abc", "", "x"]);
    let results = match_lines(&texts, "", "^");
    assert_eq!(results, vec![found(0, "^abc"), found(1, "^"), found(2, "^x")]);
}

#[test]
fn matching_is_exact_about_case() {
    let texts = lines(&["Hello", "HELLO", "hello"]);
    assert_eq!(match_lines(&texts, "hello", "[hello]"), vec![found(2, "[hello]")]);
}

#[test]
fn the_pattern_is_text_and_no_expression() {
    let texts = lines(&["a.c", "abc", "a*c"]);
    assert_eq!(match_lines(&texts, "a.c", "[a.c]"), vec![found(0, "[a.c]")]);
    assert_eq!(match_lines(&texts, "a*c", "[a*c]"), vec![found(2, "[a*c]")]);
}

#[test]
fn text_around_the_match_is_kept_with_wide_characters() {
    let texts = lines(&["grüße wörld ünd mehr"]);
    let results = match_lines(&texts, "wörld", "<wörld>");
    assert_eq!(results, vec![found(0, "grüße <wörld> ünd mehr")]);
}

#[test]
fn the_file_name_is_carried_into_the_result() {
    let texts = lines(&["x"]);
    let result = search_lines("dir/some file.txt", &texts, "x", "x").unwrap();
    assert_eq!(result.file_name, "dir/some file.txt");
    let unnamed = search_lines("", &texts, "x", "x").unwrap();
    assert_eq!(unnamed.file_name, "");
}
