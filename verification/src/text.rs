//! Literal substring search on text, seen as a sequence of characters:
//! no expressions, no folding of case. Positions count characters.

use vstd::prelude::*;

verus! {

/// `pattern` stands in `text` at position `at`.
pub open spec fn occurs_at(text: Seq<char>, pattern: Seq<char>, at: int) -> bool {
    &&& 0 <= at
    &&& at + pattern.len() <= text.len()
    &&& text.subrange(at, at + pattern.len()) == pattern
}

/// `pattern` stands somewhere in `text`. The empty pattern stands in every text.
pub open spec fn occurs(text: Seq<char>, pattern: Seq<char>) -> bool {
    exists|at: int| occurs_at(text, pattern, at)
}

/// `at` is the leftmost position at which `pattern` stands in `text`.
pub open spec fn is_first_occurrence(text: Seq<char>, pattern: Seq<char>, at: int) -> bool {
    &&& occurs_at(text, pattern, at)
    &&& forall|earlier: int| 0 <= earlier < at ==> !occurs_at(text, pattern, earlier)
}

/// The leftmost position of `pattern` in `text`; meaningful where `occurs` holds.
pub open spec fn first_occurrence(text: Seq<char>, pattern: Seq<char>) -> int {
    choose|at: int| is_first_occurrence(text, pattern, at)
}

/// A text has at most one leftmost occurrence, and `first_occurrence` names it.
pub proof fn lemma_first_occurrence_unique(text: Seq<char>, pattern: Seq<char>, at: int)
    requires
        is_first_occurrence(text, pattern, at),
    ensures
        occurs(text, pattern),
        first_occurrence(text, pattern) == at,
{
    let chosen = first_occurrence(text, pattern);
    assert(is_first_occurrence(text, pattern, chosen));
    if chosen < at {
        assert(!occurs_at(text, pattern, chosen));
    } else if at < chosen {
        assert(!occurs_at(text, pattern, at));
    }
}

/// Where a pattern occurs at all, it has a leftmost occurrence.
pub proof fn lemma_occurs_has_first(text: Seq<char>, pattern: Seq<char>)
    requires
        occurs(text, pattern),
    ensures
        is_first_occurrence(text, pattern, first_occurrence(text, pattern)),
{
    let some = choose|at: int| occurs_at(text, pattern, at);
    lemma_first_below(text, pattern, some);
}

proof fn lemma_first_below(text: Seq<char>, pattern: Seq<char>, bound: int)
    requires
        occurs_at(text, pattern, bound),
    ensures
        exists|at: int| is_first_occurrence(text, pattern, at),
    decreases bound,
{
    if forall|earlier: int| 0 <= earlier < bound ==> !occurs_at(text, pattern, earlier) {
        assert(is_first_occurrence(text, pattern, bound));
    } else {
        let earlier = choose|earlier: int| 0 <= earlier < bound && occurs_at(text, pattern, earlier);
        lemma_first_below(text, pattern, earlier);
    }
}

/// The empty pattern stands in every text, and first of all at its start: a
/// search for it reports every line, with the marking before the line's text.
pub proof fn lemma_empty_pattern_stands_at_start(text: Seq<char>)
    ensures
        occurs(text, Seq::empty()),
        first_occurrence(text, Seq::empty()) == 0,
{
    assert(text.subrange(0, 0) =~= Seq::<char>::empty());
    assert(occurs_at(text, Seq::empty(), 0));
    lemma_first_occurrence_unique(text, Seq::empty(), 0);
}

/// The characters of a string, in order.
pub fn chars_of(s: &str) -> (v: Vec<char>)
    ensures
        v@ == s@,
{
    let mut v: Vec<char> = Vec::new();
    for c in it: s.chars()
        invariant
            it.seq() == s@,
            v@ == it.history(),
    {
        v.push(c);
    }
    v
}

/// Whether `pattern` stands in `text` at `at`.
fn matches_at(text: &Vec<char>, pattern: &Vec<char>, at: usize) -> (found: bool)
    requires
        at + pattern.len() <= text.len(),
    ensures
        found == occurs_at(text@, pattern@, at as int),
{
    let mut k: usize = 0;
    while k < pattern.len()
        invariant
            k <= pattern.len(),
            at + pattern.len() <= text.len(),
            forall|j: int| 0 <= j < k ==> text@[at + j] == pattern@[j],
        decreases pattern.len() - k,
    {
        if text[at + k] != pattern[k] {
            assert(text@.subrange(at as int, at + pattern.len())[k as int] == text@[at + k]);
            return false;
        }
        k += 1;
    }
    assert(text@.subrange(at as int, at + pattern.len()) =~= pattern@);
    true
}

/// The leftmost position of `pattern` in `text`, if it occurs there.
pub fn find_first(text: &Vec<char>, pattern: &Vec<char>) -> (found: Option<usize>)
    ensures
        match found {
            Some(at) => is_first_occurrence(text@, pattern@, at as int),
            None => !occurs(text@, pattern@),
        },
{
    if pattern.len() > text.len() {
        return None;
    }
    let last: usize = text.len() - pattern.len();
    let mut at: usize = 0;
    loop
        invariant
            at <= last,
            last == text.len() - pattern.len(),
            forall|earlier: int| 0 <= earlier < at ==> !occurs_at(text@, pattern@, earlier),
        decreases last - at,
    {
        if matches_at(text, pattern, at) {
            return Some(at);
        }
        if at == last {
            return None;
        }
        at += 1;
    }
}

} // verus!
