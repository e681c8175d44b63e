//! The single-file matcher: which lines of one file hold the pattern.

use crate::emphasis::{annotate, emphasize, is_emphasis_of, marked_at};
use crate::positions::{chosen, lemma_chosen, lemma_chosen_agree, lemma_chosen_step};
use crate::reader::{line_text, lines_of, read_lines, FileRead, LineRead};
use crate::text::{
    chars_of, find_first, first_occurrence, is_first_occurrence, lemma_first_occurrence_unique,
    lemma_occurs_has_first, occurs,
};
use vstd::prelude::*;

verus! {

/// One reported line: its zero-based number among the lines read, and its
/// text with the leftmost occurrence of the pattern marked.
#[derive(Debug, Clone, PartialEq, Eq)]
pub struct SearchResult {
    pub line_number: usize,
    pub match_text: String,
}

/// The reported lines of one file, in line order.
#[derive(Debug, Clone, PartialEq, Eq)]
pub struct FileSearchResult {
    pub file_name: String,
    pub search_results: Vec<SearchResult>,
}

/// What a `SearchResult` stands for.
pub struct MatchView {
    pub line_number: nat,
    pub match_text: Seq<char>,
}

/// What a `FileSearchResult` stands for.
pub struct FileMatchesView {
    pub file_name: Seq<char>,
    pub search_results: Seq<MatchView>,
}

impl DeepView for SearchResult {
    type V = MatchView;

    open spec fn deep_view(&self) -> MatchView {
        MatchView { line_number: self.line_number as nat, match_text: self.match_text@ }
    }
}

impl View for SearchResult {
    type V = MatchView;

    open spec fn view(&self) -> MatchView {
        self.deep_view()
    }
}

impl DeepView for FileSearchResult {
    type V = FileMatchesView;

    open spec fn deep_view(&self) -> FileMatchesView {
        FileMatchesView {
            file_name: self.file_name@,
            search_results: self.search_results.deep_view(),
        }
    }
}

impl View for FileSearchResult {
    type V = FileMatchesView;

    open spec fn view(&self) -> FileMatchesView {
        self.deep_view()
    }
}

impl FileMatchesView {
    /// A file is reported only with at least one line, and its lines stand in
    /// strictly ascending order of their numbers.
    pub open spec fn well_formed(self) -> bool {
        &&& self.search_results.len() > 0
        &&& forall|j: int, k: int|
            0 <= j < k < self.search_results.len() ==> self.search_results[j].line_number
                < self.search_results[k].line_number
    }
}

/// The test "line `i` holds the pattern".
pub open spec fn holds_pattern(lines: Seq<Seq<char>>, pattern: Seq<char>) -> spec_fn(int) -> bool {
    |i: int| occurs(lines[i], pattern)
}

/// The numbers of the lines that hold the pattern, ascending.
pub open spec fn matching_lines(lines: Seq<Seq<char>>, pattern: Seq<char>) -> Seq<int> {
    chosen(lines.len(), holds_pattern(lines, pattern))
}

/// A line with the leftmost occurrence of the pattern replaced by `marked`.
pub open spec fn annotated(line: Seq<char>, pattern: Seq<char>, marked: Seq<char>) -> Seq<char> {
    marked_at(line, first_occurrence(line, pattern), pattern.len() as int, marked)
}

/// The report of line `i`.
pub open spec fn match_of(lines: Seq<Seq<char>>, pattern: Seq<char>, marked: Seq<char>) -> spec_fn(
    int,
) -> MatchView {
    |i: int| MatchView { line_number: i as nat, match_text: annotated(lines[i], pattern, marked) }
}

/// The reports of the lines that hold the pattern: one for each such line, in
/// line order, however often the pattern stands in the line.
pub open spec fn line_matches(lines: Seq<Seq<char>>, pattern: Seq<char>, marked: Seq<char>) -> Seq<
    MatchView,
> {
    matching_lines(lines, pattern).map_values(match_of(lines, pattern, marked))
}

/// What the matcher returns for one file: nothing where no line holds the
/// pattern, else the file's name with the reports of its lines.
pub open spec fn file_matches(
    file_name: Seq<char>,
    lines: Seq<Seq<char>>,
    pattern: Seq<char>,
    marked: Seq<char>,
) -> Option<FileMatchesView> {
    let found = line_matches(lines, pattern, marked);
    if found.len() == 0 {
        None
    } else {
        Some(FileMatchesView { file_name, search_results: found })
    }
}

/// One more line adds a report if it holds the pattern, under the number it
/// has as the next line, and changes nothing of the reports before it.
pub proof fn lemma_line_matches_push(
    lines: Seq<Seq<char>>,
    line: Seq<char>,
    pattern: Seq<char>,
    marked: Seq<char>,
)
    ensures
        line_matches(lines.push(line), pattern, marked) == if occurs(line, pattern) {
            line_matches(lines, pattern, marked).push(
                MatchView { line_number: lines.len(), match_text: annotated(line, pattern, marked) },
            )
        } else {
            line_matches(lines, pattern, marked)
        },
        line_matches(Seq::empty(), pattern, marked) == Seq::<MatchView>::empty(),
{
    let longer = lines.push(line);
    let count = lines.len();
    let keep = holds_pattern(lines, pattern);
    let keep_longer = holds_pattern(longer, pattern);
    let report = match_of(lines, pattern, marked);
    let report_longer = match_of(longer, pattern, marked);
    lemma_chosen_step(count, keep_longer);
    lemma_chosen_agree(count, keep, keep_longer);
    lemma_chosen(count, keep);
    let numbers = chosen(count, keep);
    assert(numbers.map_values(report_longer) =~= numbers.map_values(report)) by {
        assert forall|k: int| 0 <= k < numbers.len() implies report_longer(numbers[k]) == report(
            numbers[k],
        ) by {
            assert(0 <= numbers[k] < count);
        }
    }
    numbers.lemma_push_map_commute(report_longer, count as int);
    lemma_chosen_step(0, holds_pattern(Seq::<Seq<char>>::empty(), pattern));
    assert(line_matches(Seq::empty(), pattern, marked) =~= Seq::<MatchView>::empty());
}

/// The state of a search of one file, as the contracts see it.
pub struct ScanView {
    pub file_name: Seq<char>,
    pub pattern: Seq<char>,
    /// What stands in a reported line in place of the pattern.
    pub marked: Seq<char>,
    /// The lines seen so far, in the order in which they were fed.
    pub lines: Seq<Seq<char>>,
}

impl ScanView {
    /// The search after one more line.
    pub open spec fn fed(self, line: Seq<char>) -> ScanView {
        ScanView { lines: self.lines.push(line), ..self }
    }

    /// What the search returns if it ends here.
    pub open spec fn result(self) -> Option<FileMatchesView> {
        file_matches(self.file_name, self.lines, self.pattern, self.marked)
    }
}

/// The search of one file, fed line by line: a task reads the file's lines
/// one after another and hands each over as it comes, so that no more than
/// one line of the file need be held at a time.
pub struct FileScan {
    file_name: String,
    pattern: Vec<char>,
    marked: String,
    lines: Ghost<Seq<Seq<char>>>,
    found: Vec<SearchResult>,
    next_line: usize,
}

impl View for FileScan {
    type V = ScanView;

    closed spec fn view(&self) -> ScanView {
        ScanView {
            file_name: self.file_name@,
            pattern: self.pattern@,
            marked: self.marked@,
            lines: self.lines@,
        }
    }
}

impl FileScan {
    /// The results held are those of the lines seen.
    pub closed spec fn well_formed(&self) -> bool {
        &&& self.next_line == self.lines@.len()
        &&& self.found.deep_view() == line_matches(self.lines@, self.pattern@, self.marked@)
    }

    /// Begins the search of a file for `pattern`, which is marked in the
    /// reported lines as `colored` renders it in bold red: in one of the forms
    /// of `is_emphasis_of`, the same in every line.
    pub fn new(file_name: &str, pattern: &str) -> (scan: FileScan)
        ensures
            scan.well_formed(),
            scan@.file_name == file_name@,
            scan@.pattern == pattern@,
            is_emphasis_of(pattern@, scan@.marked),
            scan@.lines == Seq::<Seq<char>>::empty(),
    {
        let marked = emphasize(pattern);
        FileScan::with_marking(file_name, pattern, marked.as_str())
    }

    /// Begins the search of a file for `pattern`, with `marked` to stand in
    /// its place in the reported lines.
    pub fn with_marking(file_name: &str, pattern: &str, marked: &str) -> (scan: FileScan)
        ensures
            scan.well_formed(),
            scan@ == (ScanView {
                file_name: file_name@,
                pattern: pattern@,
                marked: marked@,
                lines: Seq::empty(),
            }),
    {
        proof {
            lemma_line_matches_push(Seq::empty(), Seq::empty(), pattern@, marked@);
        }
        let scan = FileScan {
            file_name: String::from_str(file_name),
            pattern: chars_of(pattern),
            marked: String::from_str(marked),
            lines: Ghost(Seq::empty()),
            found: Vec::new(),
            next_line: 0,
        };
        assert(scan.found.deep_view() =~= Seq::<MatchView>::empty());
        scan
    }

    /// How many lines were seen.
    pub fn lines_seen(&self) -> (count: usize)
        requires
            self.well_formed(),
        ensures
            count == self@.lines.len(),
    {
        self.next_line
    }

    /// Takes the next line of the file. If the line holds the pattern, it is
    /// reported under its number, with the leftmost occurrence marked.
    pub fn feed_text(&mut self, line: &str)
        requires
            old(self).well_formed(),
            old(self)@.lines.len() < usize::MAX,
        ensures
            final(self).well_formed(),
            final(self)@ == old(self)@.fed(line@),
    {
        let haystack = chars_of(line);
        let ghost before = self.found.deep_view();
        proof {
            lemma_line_matches_push(self.lines@, line@, self.pattern@, self.marked@);
        }
        match find_first(&haystack, &self.pattern) {
            Some(at) => {
                proof {
                    lemma_first_occurrence_unique(line@, self.pattern@, at as int);
                }
                let match_text = annotate(line, at, self.pattern.len(), self.marked.as_str());
                self.found.push(SearchResult { line_number: self.next_line, match_text });
                assert(self.found.deep_view() =~= before.push(
                    MatchView {
                        line_number: self.lines@.len(),
                        match_text: annotated(line@, self.pattern@, self.marked@),
                    },
                ));
            },
            None => {},
        }
        self.next_line = self.next_line + 1;
        proof {
            self.lines@ = self.lines@.push(line@);
        }
    }

    /// Takes what reading the next line of the file produced. A line that
    /// could not be decoded is passed over: it is not searched and has no
    /// number.
    pub fn feed(&mut self, read: &LineRead)
        requires
            old(self).well_formed(),
            old(self)@.lines.len() < usize::MAX,
        ensures
            final(self).well_formed(),
            final(self)@ == match line_text(*read) {
                Some(line) => old(self)@.fed(line),
                None => old(self)@,
            },
    {
        match read {
            LineRead::Text(line) => self.feed_text(line.as_str()),
            LineRead::Undecodable => {},
        }
    }

    /// Ends the search: `None` where no line seen holds the pattern, else the
    /// file's name with one result for each line that does, in line order.
    pub fn finish(self) -> (result: Option<FileSearchResult>)
        requires
            self.well_formed(),
        ensures
            result.deep_view() == self@.result(),
            result matches Some(report) ==> report@.well_formed(),
    {
        proof {
            lemma_matching_lines(self.lines@, self.pattern@);
            if self.found.len() > 0 {
                lemma_reports_ascend(self.lines@, self.pattern@, self.marked@);
            }
        }
        if self.found.len() == 0 {
            None
        } else {
            Some(FileSearchResult { file_name: self.file_name, search_results: self.found })
        }
    }
}

/// The matcher over the lines of one file: `None` where no line holds the
/// pattern, else the file's name with one result for each line that does, in
/// line order, with `marked` in place of the leftmost occurrence.
pub fn search_lines(file_name: &str, lines: &Vec<String>, pattern: &str, marked: &str) -> (result:
    Option<FileSearchResult>)
    ensures
        result.deep_view() == file_matches(file_name@, lines.deep_view(), pattern@, marked@),
        result matches Some(report) ==> report@.well_formed(),
{
    let mut scan = FileScan::with_marking(file_name, pattern, marked);
    let mut next: usize = 0;
    assert(lines.deep_view().take(0) =~= Seq::<Seq<char>>::empty());
    while next < lines.len()
        invariant
            next <= lines.len(),
            scan.well_formed(),
            scan@ == (ScanView {
                file_name: file_name@,
                pattern: pattern@,
                marked: marked@,
                lines: lines.deep_view().take(next as int),
            }),
        decreases lines.len() - next,
    {
        scan.feed_text(lines[next].as_str());
        assert(lines.deep_view().take(next + 1) =~= lines.deep_view().take(next as int).push(
            lines[next as int]@,
        ));
        next += 1;
    }
    assert(lines.deep_view().take(lines.len() as int) =~= lines.deep_view());
    scan.finish()
}

/// Searches one file, given what reading it produced: the lines are those of
/// `read_lines`, and the pattern is marked as `colored` renders it in bold red.
///
/// Which lines are reported, and under which numbers, is fixed by the
/// arguments. The marking is one of the forms of `is_emphasis_of`, the same in
/// every reported line.
pub fn search_file(file_name: &str, read: FileRead, pattern: &str) -> (result: Option<
    FileSearchResult,
>)
    ensures
        result is Some <==> matching_lines(lines_of(read), pattern@).len() > 0,
        result matches Some(report) ==> {
            &&& report@.well_formed()
            &&& report.file_name@ == file_name@
            &&& report.search_results@.len() == matching_lines(lines_of(read), pattern@).len()
            &&& forall|k: int|
                0 <= k < report.search_results@.len() ==> (
                #[trigger] report.search_results@[k]).line_number == matching_lines(
                    lines_of(read),
                    pattern@,
                )[k]
        },
        exists|marked: Seq<char>|
            #![trigger is_emphasis_of(pattern@, marked)]
            is_emphasis_of(pattern@, marked) && result.deep_view() == file_matches(
                file_name@,
                lines_of(read),
                pattern@,
                marked,
            ),
{
    let lines = read_lines(read);
    let marked = emphasize(pattern);
    let result = search_lines(file_name, &lines, pattern, marked.as_str());
    proof {
        assert(is_emphasis_of(pattern@, marked@));
        lemma_matching_lines(lines_of(read), pattern@);
        if result is Some {
            let report = result->0;
            let numbers = matching_lines(lines_of(read), pattern@);
            assert(report.deep_view().search_results.len() == numbers.len());
            assert forall|k: int| 0 <= k < report.search_results@.len() implies (
            #[trigger] report.search_results@[k]).line_number == numbers[k] by {
                assert(0 <= numbers[k] < lines_of(read).len());
                assert(report.deep_view().search_results[k].line_number == numbers[k]);
            }
        }
    }
    result
}

/// The reports stand in strictly ascending order of their line numbers.
pub proof fn lemma_reports_ascend(lines: Seq<Seq<char>>, pattern: Seq<char>, marked: Seq<char>)
    ensures
        forall|j: int, k: int|
            0 <= j < k < line_matches(lines, pattern, marked).len() ==> (#[trigger] line_matches(
                lines,
                pattern,
                marked,
            )[j]).line_number < (#[trigger] line_matches(lines, pattern, marked)[k]).line_number,
{
    lemma_matching_lines(lines, pattern);
    let numbers = matching_lines(lines, pattern);
    let found = line_matches(lines, pattern, marked);
    assert forall|j: int, k: int| 0 <= j < k < found.len() implies (#[trigger] found[j]).line_number
        < (#[trigger] found[k]).line_number by {
        assert(numbers[j] < numbers[k]);
        assert(0 <= numbers[j] < lines.len());
    }
}

/// The lines that hold the pattern, as a set of line numbers.
pub open spec fn lines_holding(lines: Seq<Seq<char>>, pattern: Seq<char>) -> Set<int> {
    Set::new(|i: int| 0 <= i < lines.len() && occurs(lines[i], pattern))
}

/// The numbers of the reported lines are exactly the numbers of the lines that
/// hold the pattern, each once, in strictly ascending order.
pub proof fn lemma_matching_lines(lines: Seq<Seq<char>>, pattern: Seq<char>)
    ensures
        ({
            let numbers = matching_lines(lines, pattern);
            &&& forall|k: int|
                0 <= k < numbers.len() ==> 0 <= #[trigger] numbers[k] < lines.len() && occurs(
                    lines[numbers[k]],
                    pattern,
                )
            &&& forall|j: int, k: int|
                0 <= j < k < numbers.len() ==> #[trigger] numbers[j] < #[trigger] numbers[k]
            &&& forall|i: int|
                0 <= i < lines.len() && occurs(#[trigger] lines[i], pattern) ==> numbers.contains(i)
            &&& numbers.no_duplicates()
            &&& numbers.to_set() == lines_holding(lines, pattern)
            &&& lines_holding(lines, pattern).finite()
            &&& numbers.len() == lines_holding(lines, pattern).len()
        }),
{
    let numbers = matching_lines(lines, pattern);
    let keep = holds_pattern(lines, pattern);
    lemma_chosen(lines.len(), keep);
    assert forall|i: int|
        0 <= i < lines.len() && occurs(#[trigger] lines[i], pattern) implies numbers.contains(i) by {
        assert(keep(i));
    }
    assert(numbers.to_set() =~= lines_holding(lines, pattern)) by {
        assert forall|i: int| numbers.to_set().contains(i) implies lines_holding(
            lines,
            pattern,
        ).contains(i) by {
            let k = choose|k: int| 0 <= k < numbers.len() && numbers[k] == i;
            assert(0 <= numbers[k] < lines.len());
        }
        assert forall|i: int| lines_holding(lines, pattern).contains(i) implies numbers.to_set().contains(
            i,
        ) by {
            assert(occurs(lines[i], pattern));
            assert(numbers.contains(i));
        }
    }
    numbers.unique_seq_to_set();
}

/// A file in which no line holds the pattern is not reported at all.
pub proof fn lemma_no_occurrence_no_report(
    file_name: Seq<char>,
    lines: Seq<Seq<char>>,
    pattern: Seq<char>,
    marked: Seq<char>,
)
    requires
        forall|i: int| 0 <= i < lines.len() ==> !occurs(#[trigger] lines[i], pattern),
    ensures
        file_matches(file_name, lines, pattern, marked) is None,
{
    lemma_matching_lines(lines, pattern);
    let numbers = matching_lines(lines, pattern);
    if numbers.len() > 0 {
        assert(occurs(lines[numbers[0]], pattern));
    }
}

/// A file with `k >= 1` lines that hold the pattern is reported with exactly
/// `k` results: one for each such line, under that line's zero-based number,
/// in strictly ascending order of the numbers.
pub proof fn lemma_one_report_per_matching_line(
    file_name: Seq<char>,
    lines: Seq<Seq<char>>,
    pattern: Seq<char>,
    marked: Seq<char>,
)
    requires
        lines_holding(lines, pattern).len() >= 1,
    ensures
        file_matches(file_name, lines, pattern, marked) matches Some(report) && ({
            let found = report.search_results;
            &&& report.file_name == file_name
            &&& report.well_formed()
            &&& found.len() == lines_holding(lines, pattern).len()
            &&& forall|k: int|
                0 <= k < found.len() ==> lines_holding(lines, pattern).contains(
                    (#[trigger] found[k]).line_number as int,
                )
            &&& forall|i: int| #[trigger]
                lines_holding(lines, pattern).contains(i) ==> exists|k: int|
                    0 <= k < found.len() && #[trigger] found[k].line_number == i
        }),
{
    lemma_matching_lines(lines, pattern);
    let numbers = matching_lines(lines, pattern);
    let found = line_matches(lines, pattern, marked);
    assert forall|i: int| #[trigger] lines_holding(lines, pattern).contains(i) implies exists|k: int|
        0 <= k < found.len() && #[trigger] found[k].line_number == i by {
        assert(occurs(lines[i], pattern));
        assert(numbers.contains(i));
        let k = choose|k: int| 0 <= k < numbers.len() && numbers[k] == i;
        assert(found[k].line_number == i);
    }
    assert forall|k: int| 0 <= k < found.len() implies lines_holding(lines, pattern).contains(
        (#[trigger] found[k]).line_number as int,
    ) by {
        assert(0 <= numbers[k] < lines.len());
    }
    assert forall|j: int, k: int| 0 <= j < k < found.len() implies found[j].line_number
        < found[k].line_number by {
        assert(numbers[j] < numbers[k]);
    }
}

/// However often the pattern stands in a line, the line is reported once, and
/// what is marked in it is the leftmost occurrence: the text before that
/// occurrence and the text after it are the line's own.
pub proof fn lemma_first_occurrence_reported_once(
    lines: Seq<Seq<char>>,
    pattern: Seq<char>,
    marked: Seq<char>,
    j: int,
    k: int,
)
    requires
        0 <= j < line_matches(lines, pattern, marked).len(),
        0 <= k < line_matches(lines, pattern, marked).len(),
    ensures
        ({
            let found = line_matches(lines, pattern, marked);
            let line = lines[found[k].line_number as int];
            let at = first_occurrence(line, pattern);
            &&& found[j].line_number == found[k].line_number ==> j == k
            &&& is_first_occurrence(line, pattern, at)
            &&& found[k].match_text == line.subrange(0, at) + marked + line.subrange(
                at + pattern.len(),
                line.len() as int,
            )
        }),
{
    lemma_matching_lines(lines, pattern);
    let numbers = matching_lines(lines, pattern);
    assert(0 <= numbers[k] < lines.len());
    assert(0 <= numbers[j] < lines.len());
    lemma_occurs_has_first(lines[numbers[k]], pattern);
    if j < k {
        assert(numbers[j] < numbers[k]);
    } else if k < j {
        assert(numbers[k] < numbers[j]);
    }
}

/// Searching the same lines for the same pattern again gives the same
/// results. Which lines are reported, and under which numbers, does not even
/// depend on how the pattern is marked.
pub proof fn lemma_search_repeatable(
    first: Option<FileSearchResult>,
    second: Option<FileSearchResult>,
    file_name: Seq<char>,
    lines: Seq<Seq<char>>,
    pattern: Seq<char>,
    marked_first: Seq<char>,
    marked_second: Seq<char>,
)
    requires
        first.deep_view() == file_matches(file_name, lines, pattern, marked_first),
        second.deep_view() == file_matches(file_name, lines, pattern, marked_second),
    ensures
        marked_first == marked_second ==> first.deep_view() == second.deep_view(),
        first is Some <==> second is Some,
        first matches Some(a) ==> second matches Some(b) && a.search_results.len()
            == b.search_results.len() && forall|k: int|
            0 <= k < a.search_results.len() ==> (#[trigger] a.search_results[k]).line_number
                == b.search_results[k].line_number,
{
    if first is Some {
        let a = first->0;
        let b = second->0;
        let numbers = matching_lines(lines, pattern);
        lemma_matching_lines(lines, pattern);
        assert(a.deep_view().search_results.len() == numbers.len());
        assert(b.deep_view().search_results.len() == numbers.len());
        assert forall|k: int| 0 <= k < a.search_results.len() implies (
        #[trigger] a.search_results[k]).line_number == b.search_results[k].line_number by {
            assert(0 <= numbers[k] < lines.len());
            assert(a.deep_view().search_results[k].line_number == numbers[k]);
            assert(b.deep_view().search_results[k].line_number == numbers[k]);
        }
    }
}

} // verus!
