//! The aggregator and the reporter: which outcomes make the report, and how
//! the report reads.

use crate::matcher::{FileMatchesView, FileSearchResult, MatchView, SearchResult};
use vstd::prelude::*;

verus! {

/// The outcomes that hold something, in order; the empty ones are left out.
pub open spec fn present<A>(outcomes: Seq<Option<A>>) -> Seq<A> {
    outcomes.filter_map(|outcome: Option<A>| outcome)
}

/// Gathers the per-file outcomes into the report: the files with matches, in
/// the order of the outcomes. A file without a match leaves no entry.
pub fn collect_matches(outcomes: Vec<Option<FileSearchResult>>) -> (report: Vec<FileSearchResult>)
    ensures
        report.deep_view() == present(outcomes.deep_view()),
{
    let ghost all = outcomes.deep_view();
    let ghost given = outcomes@;
    let ghost keep = |outcome: Option<FileMatchesView>| outcome;
    let mut report: Vec<FileSearchResult> = Vec::new();
    assert(report.deep_view() =~= all.take(0).filter_map(keep));
    for outcome in it: outcomes
        invariant
            it.seq() == given,
            all.len() == given.len(),
            forall|i: int| 0 <= i < given.len() ==> all[i] == (#[trigger] given[i]).deep_view(),
            keep == |outcome: Option<FileMatchesView>| outcome,
            report.deep_view() == all.take(it.index()).filter_map(keep),
    {
        let ghost before = report.deep_view();
        proof {
            all.lemma_filter_map_take_succ(keep, it.index());
        }
        match outcome {
            Some(found) => {
                report.push(found);
                assert(report.deep_view() =~= before + seq![found.deep_view()]);
            },
            None => {},
        }
    }
    assert(all.take(all.len() as int) =~= all);
    report
}

/// The character of a decimal digit.
pub open spec fn digit(value: nat) -> char {
    if value == 0 {
        '0'
    } else if value == 1 {
        '1'
    } else if value == 2 {
        '2'
    } else if value == 3 {
        '3'
    } else if value == 4 {
        '4'
    } else if value == 5 {
        '5'
    } else if value == 6 {
        '6'
    } else if value == 7 {
        '7'
    } else if value == 8 {
        '8'
    } else {
        '9'
    }
}

/// A number in decimal, without leading zeros.
pub open spec fn decimal(value: nat) -> Seq<char>
    decreases value,
{
    if value < 10 {
        seq![digit(value)]
    } else {
        decimal(value / 10).push(digit(value % 10))
    }
}

/// One reported line as it is printed: the line's number, a colon, a space,
/// and the marked text.
pub open spec fn rendered_match(found: MatchView) -> Seq<char> {
    decimal(found.line_number) + seq![':', ' '] + found.match_text
}

/// The printed lines of the first results, each ended by a line feed.
pub open spec fn rendered_matches(found: Seq<MatchView>) -> Seq<char>
    decreases found.len(),
{
    if found.len() == 0 {
        Seq::empty()
    } else {
        rendered_matches(found.drop_last()) + rendered_match(found.last()) + seq!['\n']
    }
}

/// The report of one file as it is printed: the file's name on a line of its
/// own, then one line for each result.
pub open spec fn rendered_file(found: FileMatchesView) -> Seq<char> {
    found.file_name + seq!['\n'] + rendered_matches(found.search_results)
}

/// The text of a decimal digit.
fn digit_text(value: usize) -> (text: &'static str)
    requires
        value < 10,
    ensures
        text@ == seq![digit(value as nat)],
{
    proof {
        reveal_strlit("0");
        reveal_strlit("1");
        reveal_strlit("2");
        reveal_strlit("3");
        reveal_strlit("4");
        reveal_strlit("5");
        reveal_strlit("6");
        reveal_strlit("7");
        reveal_strlit("8");
        reveal_strlit("9");
    }
    let text = if value == 0 {
        "0"
    } else if value == 1 {
        "1"
    } else if value == 2 {
        "2"
    } else if value == 3 {
        "3"
    } else if value == 4 {
        "4"
    } else if value == 5 {
        "5"
    } else if value == 6 {
        "6"
    } else if value == 7 {
        "7"
    } else if value == 8 {
        "8"
    } else {
        "9"
    };
    assert(text@ =~= seq![digit(value as nat)]);
    text
}

/// Appends `value` in decimal to `text`.
fn push_decimal(text: &mut String, value: usize)
    ensures
        final(text)@ == old(text)@ + decimal(value as nat),
    decreases value,
{
    if value >= 10 {
        push_decimal(text, value / 10);
    }
    text.append(digit_text(value % 10));
    assert(final(text)@ =~= old(text)@ + decimal(value as nat));
}

impl SearchResult {
    /// The result as it is printed: `<line number>: <marked text>`.
    pub fn render(&self) -> (text: String)
        ensures
            text@ == rendered_match(self@),
    {
        let mut text = String::new();
        push_decimal(&mut text, self.line_number);
        proof {
            reveal_strlit(": ");
        }
        text.append(": ");
        text.append(self.match_text.as_str());
        assert(text@ =~= rendered_match(self@));
        text
    }
}

impl FileSearchResult {
    /// The report of the file as it is printed: the file's name, a line feed,
    /// then each result followed by a line feed.
    pub fn render(&self) -> (text: String)
        ensures
            text@ == rendered_file(self@),
    {
        proof {
            reveal_strlit("\n");
        }
        let ghost found = self.search_results.deep_view();
        let mut text = String::from_str(self.file_name.as_str());
        text.append("\n");
        let mut next: usize = 0;
        assert(found.take(0) =~= Seq::<MatchView>::empty());
        assert(text@ =~= self.file_name@ + seq!['\n'] + rendered_matches(found.take(0)));
        while next < self.search_results.len()
            invariant
                next <= self.search_results.len(),
                found == self.search_results.deep_view(),
                "\n"@ == seq!['\n'],
                text@ == self.file_name@ + seq!['\n'] + rendered_matches(found.take(next as int)),
            decreases self.search_results.len() - next,
        {
            let line = self.search_results[next].render();
            let ghost before = text@;
            text.append(line.as_str());
            text.append("\n");
            proof {
                let longer = found.take(next + 1);
                assert(longer.drop_last() =~= found.take(next as int));
                assert(longer.last() == self.search_results[next as int]@);
                assert(text@ =~= self.file_name@ + seq!['\n'] + rendered_matches(longer));
            }
            next += 1;
        }
        assert(found.take(found.len() as int) =~= found);
        text
    }
}

} // verus!
