//! The line reader's policy: what counts as the lines of a file, given what
//! reading it produced.

use vstd::prelude::*;

verus! {

/// What reading one line of a file produced.
#[derive(Debug, Clone, PartialEq, Eq)]
pub enum LineRead {
    /// The line's text, without its line ending.
    Text(String),
    /// The line could not be decoded as text.
    Undecodable,
}

/// What reading one file produced.
#[derive(Debug, Clone, PartialEq, Eq)]
pub enum FileRead {
    /// The file was opened; its lines follow in file order.
    Opened(Vec<LineRead>),
    /// The file could not be opened or read.
    Unavailable,
}

/// The text of a line that was decoded.
pub open spec fn line_text(read: LineRead) -> Option<Seq<char>> {
    match read {
        LineRead::Text(text) => Some(text@),
        LineRead::Undecodable => None,
    }
}

/// The decoded lines among `reads`, in order; the others are left out.
pub open spec fn readable_lines(reads: Seq<LineRead>) -> Seq<Seq<char>> {
    reads.filter_map(|read: LineRead| line_text(read))
}

/// The lines of a file: its decoded lines, and none where the file could not
/// be read.
pub open spec fn lines_of(read: FileRead) -> Seq<Seq<char>> {
    match read {
        FileRead::Opened(reads) => readable_lines(reads@),
        FileRead::Unavailable => Seq::empty(),
    }
}

/// The lines of a file as the matcher sees them. A file that could not be
/// read has no lines; a line that could not be decoded is skipped and the
/// lines after it are kept.
pub fn read_lines(read: FileRead) -> (lines: Vec<String>)
    ensures
        lines.deep_view() == lines_of(read),
{
    let mut lines: Vec<String> = Vec::new();
    match read {
        FileRead::Unavailable => {
            assert(lines.deep_view() =~= Seq::<Seq<char>>::empty());
        },
        FileRead::Opened(reads) => {
            let ghost all = reads@;
            let ghost text_of = |read: LineRead| line_text(read);
            assert(lines.deep_view() =~= all.take(0).filter_map(text_of));
            for read in it: reads
                invariant
                    it.seq() == all,
                    text_of == |read: LineRead| line_text(read),
                    lines.deep_view() == all.take(it.index()).filter_map(text_of),
            {
                let ghost before = lines.deep_view();
                proof {
                    all.lemma_filter_map_take_succ(text_of, it.index());
                }
                match read {
                    LineRead::Text(text) => {
                        lines.push(text);
                        assert(lines.deep_view() =~= before + seq![text@]);
                    },
                    LineRead::Undecodable => {},
                }
            }
            assert(all.take(all.len() as int) =~= all);
        },
    }
    lines
}

} // verus!
