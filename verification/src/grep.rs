//! The search of a whole candidate set, one file after another, and what the
//! search under a scheduler has in common with it.

use crate::emphasis::{emphasize, is_emphasis_of};
use crate::matcher::{file_matches, search_lines, FileMatchesView, FileSearchResult};
use crate::matcher::lemma_no_occurrence_no_report;
use crate::permutation::{lemma_present_of_permutation, lemma_present_without_empty};
use crate::reader::{lines_of, read_lines, FileRead};
use crate::report::present;
use crate::scheduler::{lemma_finished_run_covers_candidates, Run};
use crate::text::occurs;
use vstd::prelude::*;

verus! {

/// A candidate with what reading it produced.
#[derive(Debug, Clone, PartialEq, Eq)]
pub struct CandidateFile {
    pub file_name: String,
    pub read: FileRead,
}

/// What a `CandidateFile` stands for: a name and the lines the matcher sees.
pub struct CandidateView {
    pub file_name: Seq<char>,
    pub lines: Seq<Seq<char>>,
}

impl DeepView for CandidateFile {
    type V = CandidateView;

    open spec fn deep_view(&self) -> CandidateView {
        CandidateView { file_name: self.file_name@, lines: lines_of(self.read) }
    }
}

impl View for CandidateFile {
    type V = CandidateView;

    open spec fn view(&self) -> CandidateView {
        self.deep_view()
    }
}

/// What the matcher returns for a candidate.
pub open spec fn outcome_of(pattern: Seq<char>, marked: Seq<char>) -> spec_fn(
    CandidateView,
) -> Option<FileMatchesView> {
    |file: CandidateView| file_matches(file.file_name, file.lines, pattern, marked)
}

/// The report of the sequential path: the candidates searched one after
/// another, the files with matches kept in candidate order.
pub open spec fn sequential_report(
    files: Seq<CandidateView>,
    pattern: Seq<char>,
    marked: Seq<char>,
) -> Seq<FileMatchesView> {
    present(files.map_values(outcome_of(pattern, marked)))
}

/// Searches the candidates one after another and reports the files with
/// matches, in candidate order. The pattern is marked as `colored` renders it
/// in bold red: in one of the forms of `is_emphasis_of`, the same throughout
/// the report.
pub fn grep_single_thread(files: Vec<CandidateFile>, pattern: &str) -> (report: Vec<
    FileSearchResult,
>)
    ensures
        exists|marked: Seq<char>|
            #![trigger is_emphasis_of(pattern@, marked)]
            is_emphasis_of(pattern@, marked) && report.deep_view() == sequential_report(
                files.deep_view(),
                pattern@,
                marked,
            ),
{
    let marked = emphasize(pattern);
    let ghost given = files@;
    let ghost job = outcome_of(pattern@, marked@);
    let ghost outcomes = files.deep_view().map_values(job);
    let ghost keep = |outcome: Option<FileMatchesView>| outcome;
    let mut report: Vec<FileSearchResult> = Vec::new();
    assert(report.deep_view() =~= outcomes.take(0).filter_map(keep));
    for file in it: files
        invariant
            it.seq() == given,
            outcomes.len() == given.len(),
            forall|i: int|
                0 <= i < given.len() ==> outcomes[i] == outcome_of(pattern@, marked@)(
                    (#[trigger] given[i]).deep_view(),
                ),
            keep == |outcome: Option<FileMatchesView>| outcome,
            report.deep_view() == outcomes.take(it.index()).filter_map(keep),
    {
        let ghost before = report.deep_view();
        proof {
            outcomes.lemma_filter_map_take_succ(keep, it.index());
        }
        let lines = read_lines(file.read);
        match search_lines(file.file_name.as_str(), &lines, pattern, marked.as_str()) {
            Some(found) => {
                report.push(found);
                assert(report.deep_view() =~= before + seq![found.deep_view()]);
            },
            None => {},
        }
    }
    assert(outcomes.take(outcomes.len() as int) =~= outcomes);
    assert(is_emphasis_of(pattern@, marked@));
    report
}

/// A candidate in which no line holds the pattern adds nothing to the report:
/// the report is what it would be without that candidate.
pub proof fn lemma_file_without_occurrence_leaves_no_entry(
    files: Seq<CandidateView>,
    at: int,
    pattern: Seq<char>,
    marked: Seq<char>,
)
    requires
        0 <= at < files.len(),
        forall|i: int| 0 <= i < files[at].lines.len() ==> !occurs(#[trigger] files[at].lines[i], pattern),
    ensures
        sequential_report(files, pattern, marked) == sequential_report(
            files.remove(at),
            pattern,
            marked,
        ),
{
    let job = outcome_of(pattern, marked);
    lemma_no_occurrence_no_report(files[at].file_name, files[at].lines, pattern, marked);
    assert(files.map_values(job)[at] is None);
    assert(files.map_values(job).remove(at) =~= files.remove(at).map_values(job));
    lemma_present_without_empty(files.map_values(job), at);
}

/// What an outcome stands for.
pub open spec fn seen() -> spec_fn(Option<FileSearchResult>) -> Option<FileMatchesView> {
    |outcome: Option<FileSearchResult>| outcome.deep_view()
}

/// The concurrent path reports what the sequential path reports, in another
/// order at most.
///
/// Take a finished run in which the search of each candidate returned what
/// the matcher returns for the name and the lines that `content` gives for
/// that candidate. Then the files with matches among its outcomes, in the
/// order in which the searches ended, are the report of the sequential path
/// over the same candidates: the same results, each as often. Taken in
/// candidate order, they are that report itself.
pub proof fn lemma_concurrent_report_is_sequential_report<T>(
    run: Run<T, Option<FileSearchResult>>,
    content: spec_fn(T) -> CandidateView,
    pattern: Seq<char>,
    marked: Seq<char>,
)
    requires
        run.well_formed(),
        run.is_finished(),
        forall|k: int|
            0 <= k < run.completed.len() ==> (#[trigger] run.completed[k]).outcome.deep_view()
                == outcome_of(pattern, marked)(content(run.candidates[run.completed[k].ticket])),
    ensures
        present(run.outcomes().map_values(seen())).to_multiset() == sequential_report(
            run.candidates.map_values(content),
            pattern,
            marked,
        ).to_multiset(),
        present(run.outcomes_by_candidate().map_values(seen())) == sequential_report(
            run.candidates.map_values(content),
            pattern,
            marked,
        ),
{
    let job = |candidate: T| outcome_of(pattern, marked)(content(candidate));
    assert(run.faithful(job, seen()));
    lemma_finished_run_covers_candidates(run, job, seen());
    assert(run.candidates.map_values(job) =~= run.candidates.map_values(content).map_values(
        outcome_of(pattern, marked),
    ));
    lemma_present_of_permutation(
        run.outcomes().map_values(seen()),
        run.candidates.map_values(content).map_values(outcome_of(pattern, marked)),
    );
}

} // verus!
