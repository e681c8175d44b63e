use dirgrep::error::GrepError;
use dirgrep::grep::{grep_single_thread, CandidateFile};
use dirgrep::matcher::{search_file, FileSearchResult, SearchResult};
use dirgrep::reader::{FileRead, LineRead};
use dirgrep::report::collect_matches;
use dirgrep::scheduler::{concurrency_cap, Action, Scheduler};
use dirgrep::selector::{select_candidates, DirEntry, DirRead, EntryRead};

const MARKED: &str = "\u{1b}[1;31mhello\u{1b}[0m";

fn entries() -> Vec<EntryRead> {
    vec![
        EntryRead::Entry(DirEntry { path: "a.txt".to_string(), is_file: true }),
        EntryRead::Entry(DirEntry { path: "b.log".to_string(), is_file: true }),
    ]
}

fn listing() -> DirRead {
    DirRead::Listed(entries())
}

/// What reading the file at `position` of the listing gives.
fn content(position: usize) -> FileRead {
    let text = match position {
        0 => "hello world\nfoo hello\n",
        1 => "nothing here\n",
        _ => panic!("no such file"),
    };
    FileRead::Opened(text.lines().map(|line| LineRead::Text(line.to_string())).collect())
}

fn name(position: usize) -> String {
    match &entries()[position] {
        EntryRead::Entry(entry) => entry.path.clone(),
        EntryRead::Failed => unreachable!(),
    }
}

fn candidate_files(filter: &str) -> Vec<CandidateFile> {
    select_candidates(&listing(), filter)
        .unwrap()
        .into_iter()
        .map(|position| CandidateFile { file_name: name(position), read: content(position) })
        .collect()
}

fn expected_report() -> Vec<FileSearchResult> {
    vec![FileSearchResult {
        file_name: "a.txt".to_string(),
        search_results: vec![
            SearchResult { line_number: 0, match_text: format!("{} world", MARKED) },
            SearchResult { line_number: 1, match_text: format!("foo {}", MARKED) },
        ],
    }]
}

/// Runs the candidates under a scheduler, ending the searches in flight
/// newest first.
fn finished_run(
    filter: &str,
    pattern: &str,
    cap: usize,
) -> Scheduler<usize, Option<FileSearchResult>> {
    let positions = select_candidates(&listing(), filter).unwrap();
    let mut scheduler =
        Scheduler::<usize, Option<FileSearchResult>>::new(positions, cap).unwrap();
    let mut running: Vec<(usize, usize)> = Vec::new();
    loop {
        match scheduler.next_action() {
            Action::Dispatch { ticket, candidate } => running.push((ticket, candidate)),
            Action::Wait => {
                let (ticket, position) = running.pop().unwrap();
                let outcome = search_file(&name(position), content(position), pattern);
                assert!(scheduler.complete(ticket, outcome));
            }
            Action::Finished => break,
        }
    }
    scheduler
}

fn concurrent_report(filter: &str, pattern: &str, cap: usize) -> Vec<FileSearchResult> {
    collect_matches(finished_run(filter, pattern, cap).into_outcomes())
}

#[test]
fn the_wildcard_run_reports_the_file_with_matches_only() {
    colored::control::set_override(true);
    assert_eq!(select_candidates(&listing(), "*"), Ok(vec![0, 1]));
    let report = grep_single_thread(candidate_files("*"), "hello");
    assert_eq!(report, expected_report());
    assert_eq!(report.len(), 1);
    assert_eq!(report[0].file_name, "a.txt");
    assert_eq!(report[0].search_results.len(), 2);
    assert_eq!(report[0].search_results[0].line_number, 0);
    assert_eq!(report[0].search_results[1].line_number, 1);
    assert!(report.iter().all(|file| file.file_name != "b.log"));
}

#[test]
fn a_filter_leaves_the_other_file_out_of_the_candidates() {
    colored::control::set_override(true);
    assert_eq!(select_candidates(&listing(), ".txt"), Ok(vec![0]));
    let files = candidate_files(".txt");
    assert_eq!(files.len(), 1);
    assert_eq!(files[0].file_name, "a.txt");
    assert_eq!(grep_single_thread(files, "hello"), expected_report());
}

#[test]
fn a_cap_of_zero_ends_the_run_before_anything_is_handed_out() {
    assert_eq!(concurrency_cap(0), Err(GrepError::Configuration));
    let positions = select_candidates(&listing(), "*").unwrap();
    let made = Scheduler::<usize, Option<FileSearchResult>>::new(positions, 0);
    assert!(matches!(made, Err(GrepError::Configuration)));
}

#[test]
fn the_concurrent_path_reports_what_the_sequential_path_reports() {
    colored::control::set_override(true);
    for cap in 1..4usize {
        let concurrent = concurrent_report("*", "hello", cap);
        assert_eq!(concurrent, expected_report());
        assert_eq!(concurrent, grep_single_thread(candidate_files("*"), "hello"));
    }
}

#[test]
fn the_paths_agree_up_to_order_where_several_files_match() {
    colored::control::set_override(true);
    let sequential = grep_single_thread(candidate_files("*"), "h");
    assert_eq!(sequential.len(), 2);
    assert_eq!(sequential[0].file_name, "a.txt");
    assert_eq!(sequential[1].file_name, "b.log");
    for cap in 1..4usize {
        let concurrent = concurrent_report("*", "h", cap);
        assert_eq!(concurrent.len(), sequential.len());
        for file in &sequential {
            assert_eq!(concurrent.iter().filter(|other| *other == file).count(), 1);
        }
    }
    let reversed = concurrent_report("*", "h", 2);
    assert_eq!(reversed[0].file_name, "b.log");
    assert_eq!(reversed[1].file_name, "a.txt");
}

#[test]
fn in_candidate_order_the_concurrent_report_is_the_sequential_report() {
    colored::control::set_override(true);
    let sequential = grep_single_thread(candidate_files("*"), "h");
    for cap in 1..4usize {
        let ordered = finished_run("*", "h", cap).into_outcomes_by_candidate().unwrap();
        assert_eq!(collect_matches(ordered), sequential);
    }
}

#[test]
fn the_report_prints_file_by_file() {
    colored::control::set_override(true);
    let report = grep_single_thread(candidate_files("*"), "hello");
    let printed: Vec<String> = report.iter().map(|file| file.render()).collect();
    assert_eq!(printed, vec![format!("a.txt\n0: {} world\n1: foo {}\n", MARKED, MARKED)]);
}
