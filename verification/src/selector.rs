//! The file selector: which entries of a directory are searched.

use crate::error::GrepError;
use crate::positions::{chosen, lemma_chosen, lemma_chosen_step};
use crate::text::{chars_of, find_first, occurs};
use vstd::prelude::*;

verus! {

/// One immediate child of the directory: its path as text, and whether it is
/// a regular file.
#[derive(Debug, Clone, PartialEq, Eq)]
pub struct DirEntry {
    pub path: String,
    pub is_file: bool,
}

/// What listing one entry of the directory produced.
#[derive(Debug, Clone, PartialEq, Eq)]
pub enum EntryRead {
    /// The entry was read.
    Entry(DirEntry),
    /// Reading the entry failed.
    Failed,
}

/// What listing the directory produced.
#[derive(Debug, Clone, PartialEq, Eq)]
pub enum DirRead {
    /// The directory was opened; its immediate children follow in the order
    /// in which they were listed.
    Listed(Vec<EntryRead>),
    /// The directory could not be listed at all.
    Unavailable,
}

/// The filter that accepts every file: the single character `*`.
pub open spec fn is_wildcard(filter: Seq<char>) -> bool {
    filter == seq!['*']
}

/// The filter accepts a path: it is the wildcard, or it stands in the path.
pub open spec fn accepts(filter: Seq<char>, path: Seq<char>) -> bool {
    is_wildcard(filter) || occurs(path, filter)
}

/// The entry is searched: it was read, it is a regular file, and the filter
/// accepts its path.
pub open spec fn is_candidate(read: EntryRead, filter: Seq<char>) -> bool {
    match read {
        EntryRead::Entry(entry) => entry.is_file && accepts(filter, entry.path@),
        EntryRead::Failed => false,
    }
}

/// The entries of a directory that was listed, and none of one that was not.
pub open spec fn entries_of(read: DirRead) -> Seq<EntryRead> {
    match read {
        DirRead::Listed(listing) => listing@,
        DirRead::Unavailable => Seq::empty(),
    }
}

/// Reading some entry of the listing failed.
pub open spec fn listing_failed(listing: Seq<EntryRead>) -> bool {
    exists|i: int| 0 <= i < listing.len() && #[trigger] listing[i] is Failed
}

/// The directory could not be listed, or one of its entries not be read.
pub open spec fn directory_failed(read: DirRead) -> bool {
    read is Unavailable || listing_failed(entries_of(read))
}

/// The test "entry `i` is searched".
pub open spec fn is_candidate_at(listing: Seq<EntryRead>, filter: Seq<char>) -> spec_fn(
    int,
) -> bool {
    |i: int| is_candidate(listing[i], filter)
}

/// The positions of the entries that are searched, ascending.
pub open spec fn candidates(listing: Seq<EntryRead>, filter: Seq<char>) -> Seq<int> {
    chosen(listing.len(), is_candidate_at(listing, filter))
}

/// The positions selected are exactly those of the regular files whose path
/// the filter accepts, each once, in listing order.
pub proof fn lemma_candidates(listing: Seq<EntryRead>, filter: Seq<char>)
    ensures
        forall|k: int|
            0 <= k < candidates(listing, filter).len() ==> 0 <= #[trigger] candidates(
                listing,
                filter,
            )[k] < listing.len() && is_candidate(listing[candidates(listing, filter)[k]], filter),
        forall|j: int, k: int|
            0 <= j < k < candidates(listing, filter).len() ==> #[trigger] candidates(
                listing,
                filter,
            )[j] < #[trigger] candidates(listing, filter)[k],
        forall|i: int|
            0 <= i < listing.len() && is_candidate(#[trigger] listing[i], filter) ==> candidates(
                listing,
                filter,
            ).contains(i),
{
    let keep = is_candidate_at(listing, filter);
    lemma_chosen(listing.len(), keep);
    assert forall|i: int|
        0 <= i < listing.len() && is_candidate(#[trigger] listing[i], filter) implies candidates(
        listing,
        filter,
    ).contains(i) by {
        assert(keep(i));
    }
}

/// The positions of a list, as numbers.
pub open spec fn as_positions(list: Seq<usize>) -> Seq<int> {
    list.map_values(|i: usize| i as int)
}

/// Whether `filter` is the wildcard.
fn filter_is_wildcard(filter: &Vec<char>) -> (wild: bool)
    ensures
        wild == is_wildcard(filter@),
{
    if filter.len() == 1 && filter[0] == '*' {
        assert(filter@ =~= seq!['*']);
        true
    } else {
        assert(filter@.len() == 1 ==> filter@[0] != seq!['*'][0]);
        false
    }
}

/// Whether the entry is searched under the filter whose characters are `filter`.
fn passes(entry: &DirEntry, filter: &Vec<char>) -> (searched: bool)
    ensures
        searched == (entry.is_file && accepts(filter@, entry.path@)),
{
    entry.is_file && (filter_is_wildcard(filter) || find_first(
        &chars_of(entry.path.as_str()),
        filter,
    ).is_some())
}

/// Whether the entry is searched under `filter`.
pub fn entry_is_candidate(entry: &DirEntry, filter: &str) -> (searched: bool)
    ensures
        searched == (entry.is_file && accepts(filter@, entry.path@)),
{
    passes(entry, &chars_of(filter))
}

/// Selects the entries to search from what listing a directory produced: the
/// regular files whose path the filter accepts, by their positions in the
/// listing, in listing order. A directory that could not be listed, or one
/// entry that could not be read, fails the whole selection.
pub fn select_candidates(read: &DirRead, filter: &str) -> (selection: Result<Vec<usize>, GrepError>)
    ensures
        selection is Err <==> directory_failed(*read),
        selection matches Err(error) ==> error == GrepError::DirectoryAccess,
        selection matches Ok(picked) ==> as_positions(picked@) == candidates(
            entries_of(*read),
            filter@,
        ),
{
    let listing = match read {
        DirRead::Listed(listing) => listing,
        DirRead::Unavailable => {
            return Err(GrepError::DirectoryAccess);
        },
    };
    let needle = chars_of(filter);
    let mut picked: Vec<usize> = Vec::new();
    let mut position: usize = 0;
    proof {
        lemma_chosen_step(0, is_candidate_at(listing@, filter@));
        assert(as_positions(picked@) =~= Seq::<int>::empty());
    }
    while position < listing.len()
        invariant
            position <= listing.len(),
            needle@ == filter@,
            entries_of(*read) == listing@,
            forall|i: int| 0 <= i < position ==> !(#[trigger] listing@[i] is Failed),
            as_positions(picked@) == chosen(position as nat, is_candidate_at(listing@, filter@)),
        decreases listing.len() - position,
    {
        proof {
            lemma_chosen_step(position as nat, is_candidate_at(listing@, filter@));
        }
        match &listing[position] {
            EntryRead::Failed => {
                assert(entries_of(*read)[position as int] is Failed);
                return Err(GrepError::DirectoryAccess);
            },
            EntryRead::Entry(entry) => {
                if passes(entry, &needle) {
                    let ghost before = as_positions(picked@);
                    picked.push(position);
                    assert(as_positions(picked@) =~= before.push(position as int));
                }
            },
        }
        position += 1;
    }
    Ok(picked)
}

} // verus!
