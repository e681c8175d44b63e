//! Marking the pattern inside a reported line.

use crate::text::occurs;
use colored::Colorize;
use vstd::prelude::*;

verus! {

/// The terminal sequence that switches bold red on: ESC `[1;31m`.
pub open spec fn style_on() -> Seq<char> {
    seq!['\u{1b}', '[', '1', ';', '3', '1', 'm']
}

/// The terminal sequence that switches every style off: ESC `[0m`.
pub open spec fn style_off() -> Seq<char> {
    seq!['\u{1b}', '[', '0', 'm']
}

/// `marked` is one of the forms in which `colored` writes a pattern in bold
/// red.
///
/// Whether styles are written at all is decided by the process: by variables
/// such as `NO_COLOR` and `CLICOLOR_FORCE`, by whether standard output is a
/// terminal, and by an override that the program may set. So the plain
/// pattern is one form, and the pattern between `style_on` and `style_off` is
/// another. `colored` asks a second time before it writes the opening
/// sequence; the last form is what it writes if styles were switched off in
/// between. Of a pattern that itself holds `style_off` nothing is said:
/// `colored` then repeats the opening sequence inside the pattern.
pub open spec fn is_emphasis_of(pattern: Seq<char>, marked: Seq<char>) -> bool {
    ||| occurs(pattern, style_off())
    ||| marked == pattern
    ||| marked == style_on() + pattern + style_off()
    ||| marked == pattern + style_off()
}

/// A line in which the leftmost occurrence of the pattern, `pattern_len`
/// characters at `at`, is replaced by `marked`.
pub open spec fn marked_at(line: Seq<char>, at: int, pattern_len: int, marked: Seq<char>) -> Seq<
    char,
> {
    line.subrange(0, at) + marked + line.subrange(at + pattern_len, line.len() as int)
}

/// The pattern as bold red text: what `colored` writes for
/// `pattern.red().bold()` through its `Display` impl.
///
/// Trusted: the body calls the `colored` crate, and nothing here checks what
/// it returns. The contract claims only that the result is one of the forms
/// of `is_emphasis_of`; which one depends on the process, so two calls with
/// the same pattern need not agree.
#[verifier::external_body]
pub(crate) fn emphasize(pattern: &str) -> (marked: String)
    ensures
        is_emphasis_of(pattern@, marked@),
{
    format!("{}", pattern.red().bold())
}

/// Rebuilds `line` with `marked` in place of the `pattern_len` characters at
/// `at`; what stands before and after them is kept unchanged.
pub fn annotate(line: &str, at: usize, pattern_len: usize, marked: &str) -> (text: String)
    requires
        at + pattern_len <= line@.len(),
    ensures
        text@ == marked_at(line@, at as int, pattern_len as int, marked@),
{
    let len: usize = line.unicode_len();
    let before = line.substring_char(0, at);
    let after = line.substring_char(at + pattern_len, len);
    let mut text = String::from_str(before);
    text.append(marked);
    text.append(after);
    text
}

} // verus!
