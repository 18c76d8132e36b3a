//! The backtracking filler: repeatedly picks the least-flexible unfilled
//! entry, enumerates ranked candidate words for it, validates the crossing
//! entries of each application, and explores candidate grids depth-first.

use vstd::prelude::*;

use crate::cache::{content_key, CachedIsValid, CachedWords};
use crate::crossword::{across_covers, down_covers, Crossword, Direction, EntryIterator,
    EntryLocation};
use crate::index::Index;
use std::collections::HashSet;

verus! {

/// No cell of the pattern is blank.
pub open spec fn pattern_full(p: Seq<char>) -> bool {
    forall|k: int| 0 <= k < p.len() ==> p[k] != ' '
}

/// Does flat index `j` lie on one of the first `k` cells of entry `e`?
pub open spec fn covered_prefix(g: Crossword, e: EntryLocation, k: int, j: int) -> bool {
    exists|m: int| 0 <= m < k && j == g.entry_cell_index(e, m)
}

/// Fill a single word in a candidate crossword: a new grid whose selected
/// entry spells exactly `word`, every other cell unchanged.
pub fn fill_one_word(candidate: &Crossword, chars: &EntryIterator, word: &str) -> (r: Crossword)
    requires
        candidate.wf(),
        candidate.entry_in_bounds(*chars.entry_location),
        word@.len() == chars.entry_location.length,
    ensures
        r.width == candidate.width,
        r.height == candidate.height,
        r.wf(),
        r.contents@.len() == candidate.contents@.len(),
        r.projection(*chars.entry_location) == word@,
        forall|j: int|
            0 <= j < candidate.contents@.len() && !candidate.entry_covers(
                *chars.entry_location,
                j,
            ) ==> r.contents@[j] == candidate.contents@[j],
{
    let e = chars.entry_location;
    let wchars = crate::text::str_to_chars(word);
    let mut new_contents = crate::index::vec_chars_copy(&candidate.contents);
    let ghost g = *candidate;
    let mut k: usize = 0;
    while k < e.length
        invariant
            g == *candidate,
            g.wf(),
            g.entry_in_bounds(*e),
            wchars@ == word@,
            wchars@.len() == e.length,
            k <= e.length,
            new_contents@.len() == g.contents@.len(),
            forall|m: int|
                0 <= m < k ==> new_contents@[g.entry_cell_index(*e, m)] == wchars@[m],
            forall|j: int|
                0 <= j < g.contents@.len() && !covered_prefix(g, *e, k as int, j)
                    ==> new_contents@[j] == g.contents@[j],
        decreases e.length - k,
    {
        let idx = candidate.entry_cell_pos(e, k);
        let ghost before = new_contents@;
        new_contents.set(idx, wchars[k]);
        proof {
            assert forall|m: int|
                0 <= m < k + 1 implies new_contents@[g.entry_cell_index(*e, m)] == wchars@[m] by {
                if m < k {
                    g.lemma_entry_cell_index_increasing(*e, m, k as int);
                }
            }
            assert forall|j: int|
                0 <= j < g.contents@.len() && !covered_prefix(g, *e, k + 1 as int, j)
                    implies new_contents@[j] == g.contents@[j] by {
                if j != idx {
                    if covered_prefix(g, *e, k as int, j) {
                        let m = choose|m: int| 0 <= m < k && j == g.entry_cell_index(*e, m);
                        assert(0 <= m < k + 1 && j == g.entry_cell_index(*e, m));
                    }
                }
            }
        }
        k += 1;
    }
    let r = Crossword { contents: new_contents, width: candidate.width, height: candidate.height };
    proof {
        assert forall|m: int|
            0 <= m < e.length implies r.projection(*e)[m] == word@[m] by {
        }
        assert(r.projection(*e) =~= word@);
        assert forall|j: int|
            0 <= j < candidate.contents@.len() && !candidate.entry_covers(*e, j)
                implies r.contents@[j] == candidate.contents@[j] by {
            if covered_prefix(g, *e, e.length as int, j) {
                let m = choose|m: int| 0 <= m < e.length && j == g.entry_cell_index(*e, m);
                assert(g.entry_covers(*e, j));
            }
        }
    }
    r
}

/// A per-invocation lookup from grid cell to the entry of each direction
/// covering it; a distinct table per direction.
pub struct SlotLookup {
    pub across: Vec<Option<EntryLocation>>,
    pub down: Vec<Option<EntryLocation>>,
}

impl SlotLookup {
    /// Sound: every stored entry is an extracted entry of `g` covering that
    /// cell. Complete: every cell of an extracted entry has a stored entry.
    pub open spec fn wf(self, g: Crossword) -> bool {
        &&& self.across@.len() == g.contents@.len()
        &&& self.down@.len() == g.contents@.len()
        &&& (forall|j: int|
            0 <= j < self.across@.len() ==> match #[trigger] self.across@[j] {
                Some(e) => g.entries_spec().contains(e) && across_covers(
                    e,
                    j / (g.width as int),
                    j % (g.width as int),
                ),
                None => true,
            })
        &&& (forall|j: int|
            0 <= j < self.down@.len() ==> match #[trigger] self.down@[j] {
                Some(e) => g.entries_spec().contains(e) && down_covers(
                    e,
                    j / (g.width as int),
                    j % (g.width as int),
                ),
                None => true,
            })
        &&& (forall|e: EntryLocation, k: int|
            #![trigger self.across@[g.entry_cell_index(e, k)]]
            g.entries_spec().contains(e) && e.direction == Direction::Across && 0 <= k < e.length
                ==> self.across@[g.entry_cell_index(e, k)] is Some)
        &&& (forall|e: EntryLocation, k: int|
            #![trigger self.down@[g.entry_cell_index(e, k)]]
            g.entries_spec().contains(e) && e.direction == Direction::Down && 0 <= k < e.length
                ==> self.down@[g.entry_cell_index(e, k)] is Some)
    }
}

/// One cell's row and column from its flat index.
proof fn lemma_cell_div_mod(g: Crossword, r: int, c: int)
    requires
        g.wf(),
        g.in_grid(r, c),
    ensures
        (r * g.width + c) / (g.width as int) == r,
        (r * g.width + c) % (g.width as int) == c,
{
    vstd::arithmetic::div_mod::lemma_fundamental_div_mod_converse_div(
        r * g.width + c,
        g.width as int,
        r,
        c,
    );
    vstd::arithmetic::div_mod::lemma_fundamental_div_mod_converse_mod(
        r * g.width + c,
        g.width as int,
        r,
        c,
    );
}

/// Builds the cell-to-entry lookup for one fill invocation, one table per
/// direction (distinct keys per direction).
pub fn build_square_to_entry_lookup(entry_locations: &Vec<EntryLocation>, grid: &Crossword) -> (r:
    SlotLookup)
    requires
        grid.wf(),
        entry_locations@ == grid.entries_spec(),
    ensures
        r.wf(*grid),
{
    let ghost g = *grid;
    proof {
        grid.lemma_entries_props();
    }
    let len = grid.contents.len();
    let mut across: Vec<Option<EntryLocation>> = Vec::new();
    let mut down: Vec<Option<EntryLocation>> = Vec::new();
    let mut f: usize = 0;
    while f < len
        invariant
            f <= len,
            across@.len() == f,
            down@.len() == f,
            forall|j: int| 0 <= j < f ==> (#[trigger] across@[j]) is None,
            forall|j: int| 0 <= j < f ==> (#[trigger] down@[j]) is None,
        decreases len - f,
    {
        across.push(None);
        down.push(None);
        f += 1;
    }
    let n = entry_locations.len();
    let mut i: usize = 0;
    while i < n
        invariant
            g == *grid,
            g.wf(),
            n == entry_locations@.len(),
            entry_locations@ == g.entries_spec(),
            i <= n,
            across@.len() == g.contents@.len(),
            down@.len() == g.contents@.len(),
            forall|e: EntryLocation|
                #[trigger] g.entries_spec().contains(e) ==> e.length >= 1 && g.entry_in_bounds(e),
            forall|j: int|
                0 <= j < across@.len() ==> match #[trigger] across@[j] {
                    Some(e) => g.entries_spec().contains(e) && across_covers(
                        e,
                        j / (g.width as int),
                        j % (g.width as int),
                    ),
                    None => true,
                },
            forall|j: int|
                0 <= j < down@.len() ==> match #[trigger] down@[j] {
                    Some(e) => g.entries_spec().contains(e) && down_covers(
                        e,
                        j / (g.width as int),
                        j % (g.width as int),
                    ),
                    None => true,
                },
            forall|e: EntryLocation, k: int|
                #![trigger across@[g.entry_cell_index(e, k)]]
                (exists|ei: int| 0 <= ei < i && entry_locations@[ei] == e) && e.direction
                    == Direction::Across && 0 <= k < e.length ==> across@[g.entry_cell_index(
                    e,
                    k,
                )] is Some,
            forall|e: EntryLocation, k: int|
                #![trigger down@[g.entry_cell_index(e, k)]]
                (exists|ei: int| 0 <= ei < i && entry_locations@[ei] == e) && e.direction
                    == Direction::Down && 0 <= k < e.length ==> down@[g.entry_cell_index(
                    e,
                    k,
                )] is Some,
        decreases n - i,
    {
        let e = entry_locations[i];
        proof {
            assert(g.entries_spec()[i as int] == e);
            assert(g.entries_spec().contains(e));
        }
        let mut k: usize = 0;
        while k < e.length
            invariant
                g == *grid,
                g.wf(),
                g.entries_spec().contains(e),
                g.entry_in_bounds(e),
                entry_locations@ == g.entries_spec(),
                i <= entry_locations@.len(),
                forall|e2: EntryLocation|
                    #[trigger] g.entries_spec().contains(e2) ==> e2.length >= 1
                        && g.entry_in_bounds(e2),
                k <= e.length,
                across@.len() == g.contents@.len(),
                down@.len() == g.contents@.len(),
                forall|j: int|
                    0 <= j < across@.len() ==> match #[trigger] across@[j] {
                        Some(e2) => g.entries_spec().contains(e2) && across_covers(
                            e2,
                            j / (g.width as int),
                            j % (g.width as int),
                        ),
                        None => true,
                    },
                forall|j: int|
                    0 <= j < down@.len() ==> match #[trigger] down@[j] {
                        Some(e2) => g.entries_spec().contains(e2) && down_covers(
                            e2,
                            j / (g.width as int),
                            j % (g.width as int),
                        ),
                        None => true,
                    },
                forall|e2: EntryLocation, k2: int|
                    #![trigger across@[g.entry_cell_index(e2, k2)]]
                    (exists|ei: int| 0 <= ei < i && entry_locations@[ei] == e2) && e2.direction
                        == Direction::Across && 0 <= k2 < e2.length ==> across@[g.entry_cell_index(
                        e2,
                        k2,
                    )] is Some,
                forall|e2: EntryLocation, k2: int|
                    #![trigger down@[g.entry_cell_index(e2, k2)]]
                    (exists|ei: int| 0 <= ei < i && entry_locations@[ei] == e2) && e2.direction
                        == Direction::Down && 0 <= k2 < e2.length ==> down@[g.entry_cell_index(
                        e2,
                        k2,
                    )] is Some,
                forall|k2: int|
                    0 <= k2 < k && e.direction == Direction::Across ==> across@[g.entry_cell_index(
                        e,
                        k2,
                    )] is Some,
                forall|k2: int|
                    0 <= k2 < k && e.direction == Direction::Down ==> down@[g.entry_cell_index(
                        e,
                        k2,
                    )] is Some,
            decreases e.length - k,
        {
            let idx = grid.entry_cell_pos(&e, k);
            proof {
                match e.direction {
                    Direction::Across => {
                        lemma_cell_div_mod(g, e.start_row as int, e.start_col + k);
                    },
                    Direction::Down => {
                        lemma_cell_div_mod(g, e.start_row + k, e.start_col as int);
                    },
                }
            }
            match e.direction {
                Direction::Across => {
                    across.set(idx, Some(e));
                },
                Direction::Down => {
                    down.set(idx, Some(e));
                },
            }
            proof {
                assert forall|e2: EntryLocation, k2: int|
                    (exists|ei: int| 0 <= ei < i && entry_locations@[ei] == e2) && e2.direction
                        == Direction::Across && 0 <= k2 < e2.length implies across@[
                #[trigger] g.entry_cell_index(e2, k2)] is Some by {
                    let ei = choose|ei: int| 0 <= ei < i && entry_locations@[ei] == e2;
                    assert(g.entries_spec()[ei] == e2);
                    assert(g.entries_spec().contains(e2));
                    g.lemma_entry_cell_index_bounds(e2, k2);
                }
                assert forall|e2: EntryLocation, k2: int|
                    (exists|ei: int| 0 <= ei < i && entry_locations@[ei] == e2) && e2.direction
                        == Direction::Down && 0 <= k2 < e2.length implies down@[
                #[trigger] g.entry_cell_index(e2, k2)] is Some by {
                    let ei = choose|ei: int| 0 <= ei < i && entry_locations@[ei] == e2;
                    assert(g.entries_spec()[ei] == e2);
                    assert(g.entries_spec().contains(e2));
                    g.lemma_entry_cell_index_bounds(e2, k2);
                }
                assert forall|k2: int|
                    0 <= k2 < k + 1 && e.direction == Direction::Across implies across@[
                g.entry_cell_index(e, k2)] is Some by {
                    g.lemma_entry_cell_index_bounds(e, k2);
                    if k2 < k {
                        g.lemma_entry_cell_index_increasing(e, k2, k as int);
                    }
                }
                assert forall|k2: int|
                    0 <= k2 < k + 1 && e.direction == Direction::Down implies down@[
                g.entry_cell_index(e, k2)] is Some by {
                    g.lemma_entry_cell_index_bounds(e, k2);
                    if k2 < k {
                        g.lemma_entry_cell_index_increasing(e, k2, k as int);
                    }
                }
            }
            k += 1;
        }
        proof {
            assert forall|e2: EntryLocation, k2: int|
                (exists|ei: int| 0 <= ei < i + 1 && entry_locations@[ei] == e2) && e2.direction
                    == Direction::Across && 0 <= k2 < e2.length implies across@[
            #[trigger] g.entry_cell_index(e2, k2)] is Some by {
                assert(g.entries_spec().contains(e2));
            }
            assert forall|e2: EntryLocation, k2: int|
                (exists|ei: int| 0 <= ei < i + 1 && entry_locations@[ei] == e2) && e2.direction
                    == Direction::Down && 0 <= k2 < e2.length implies down@[
            #[trigger] g.entry_cell_index(e2, k2)] is Some by {
                assert(g.entries_spec().contains(e2));
            }
        }
        i += 1;
    }
    let r = SlotLookup { across, down };
    proof {
        assert forall|e: EntryLocation, k: int|
            g.entries_spec().contains(e) && e.direction == Direction::Across && 0 <= k < e.length
                implies r.across@[#[trigger] g.entry_cell_index(e, k)] is Some by {
            let ei = choose|ei: int|
                0 <= ei < g.entries_spec().len() && g.entries_spec()[ei] == e;
            assert(entry_locations@[ei] == e);
        }
        assert forall|e: EntryLocation, k: int|
            g.entries_spec().contains(e) && e.direction == Direction::Down && 0 <= k < e.length
                implies r.down@[#[trigger] g.entry_cell_index(e, k)] is Some by {
            let ei = choose|ei: int|
                0 <= ei < g.entries_spec().len() && g.entries_spec()[ei] == e;
            assert(entry_locations@[ei] == e);
        }
    }
    r
}

/// The entries perpendicular to `entry_location`, one per cell, via the
/// direction-keyed lookup; a missing crossing entry would be a broken lookup
/// table, shown impossible here.
pub fn get_orthogonal_words(
    entry_location: &EntryLocation,
    entry_location_lookup: &SlotLookup,
    grid: &Crossword,
) -> (r: Vec<EntryLocation>)
    requires
        grid.wf(),
        entry_location_lookup.wf(*grid),
        grid.entries_spec().contains(*entry_location),
    ensures
        r@.len() == entry_location.length,
        forall|k: int|
            0 <= k < r@.len() ==> {
                &&& grid.entries_spec().contains(#[trigger] r@[k])
                &&& grid.entry_in_bounds(r@[k])
                &&& (entry_location.direction == Direction::Across ==> down_covers(
                    r@[k],
                    entry_location.start_row as int,
                    entry_location.start_col + k,
                ))
                &&& (entry_location.direction == Direction::Down ==> across_covers(
                    r@[k],
                    entry_location.start_row + k,
                    entry_location.start_col as int,
                ))
            },
{
    let ghost g = *grid;
    let e = entry_location;
    proof {
        grid.lemma_entries_props();
    }
    let mut result: Vec<EntryLocation> = Vec::new();
    let mut k: usize = 0;
    while k < e.length
        invariant
            g == *grid,
            g.wf(),
            entry_location_lookup.wf(g),
            g.entries_spec().contains(*e),
            g.entry_in_bounds(*e),
            forall|e2: EntryLocation|
                #[trigger] g.entries_spec().contains(e2) ==> e2.length >= 1 && g.entry_in_bounds(
                    e2,
                ),
            k <= e.length,
            result@.len() == k,
            forall|m: int|
                0 <= m < k ==> {
                    &&& g.entries_spec().contains(#[trigger] result@[m])
                    &&& g.entry_in_bounds(result@[m])
                    &&& (e.direction == Direction::Across ==> down_covers(
                        result@[m],
                        e.start_row as int,
                        e.start_col + m,
                    ))
                    &&& (e.direction == Direction::Down ==> across_covers(
                        result@[m],
                        e.start_row + m,
                        e.start_col as int,
                    ))
                },
        decreases e.length - k,
    {
        let idx = grid.entry_cell_pos(e, k);
        let found: Option<EntryLocation> = match e.direction {
            Direction::Across => {
                proof {
                    g.lemma_entries_props();
                    let r0 = e.start_row as int;
                    let c0 = e.start_col + k;
                    assert(g.cell(r0, c0) != '*');
                    g.lemma_down_coverage(r0, c0);
                    let d = choose|d: EntryLocation|
                        #[trigger] g.entries_spec().contains(d) && down_covers(d, r0, c0);
                    assert(g.entry_cell_index(d, r0 - d.start_row) == idx);
                    lemma_cell_div_mod(g, r0, c0);
                }
                entry_location_lookup.down[idx]
            },
            Direction::Down => {
                proof {
                    g.lemma_entries_props();
                    let r0 = e.start_row + k;
                    let c0 = e.start_col as int;
                    assert(g.cell(r0, c0) != '*');
                    g.lemma_across_coverage(r0, c0);
                    let d = choose|d: EntryLocation|
                        #[trigger] g.entries_spec().contains(d) && across_covers(d, r0, c0);
                    assert(g.entry_cell_index(d, c0 - d.start_col) == idx);
                    lemma_cell_div_mod(g, r0, c0);
                }
                entry_location_lookup.across[idx]
            },
        };
        match found {
            Some(crossing) => {
                result.push(crossing);
            },
            None => {
                proof {
                    assert(false);
                }
                return vstd::pervasive::unreached();
            },
        }
        k += 1;
    }
    result
}


/// Geometry predicates depend only on a grid's dimensions, not its letters.
proof fn lemma_same_shape(a: Crossword, b: Crossword, e: EntryLocation)
    requires
        a.width == b.width,
        a.height == b.height,
    ensures
        a.entry_in_bounds(e) == b.entry_in_bounds(e),
        forall|k: int| a.entry_cell_index(e, k) == #[trigger] b.entry_cell_index(e, k),
        forall|j: int| a.entry_covers(e, j) == #[trigger] b.entry_covers(e, j),
{
    assert forall|k: int| a.entry_cell_index(e, k) == #[trigger] b.entry_cell_index(e, k) by {
        match e.direction {
            Direction::Across => {
            },
            Direction::Down => {
            },
        }
    }
    assert forall|j: int| a.entry_covers(e, j) == #[trigger] b.entry_covers(e, j) by {
        if a.entry_covers(e, j) {
            let k = choose|k: int| 0 <= k < e.length && j == a.entry_cell_index(e, k);
            assert(j == b.entry_cell_index(e, k));
        }
        if b.entry_covers(e, j) {
            let k = choose|k: int| 0 <= k < e.length && j == b.entry_cell_index(e, k);
            assert(j == a.entry_cell_index(e, k));
        }
    }
}

/// Is every cell of the pattern a letter already?
fn chars_full(v: &Vec<char>) -> (r: bool)
    ensures
        r == pattern_full(v@),
{
    let n = v.len();
    let mut i: usize = 0;
    while i < n
        invariant
            n == v@.len(),
            i <= n,
            forall|k: int| 0 <= k < i ==> v@[k] != ' ',
        decreases n - i,
    {
        if v[i] == ' ' {
            return false;
        }
        i += 1;
    }
    true
}

/// The sequential validation of entries against a grid: a fully-filled entry
/// whose content key was already seen fails (answer uniqueness), and a
/// non-prefilled entry whose current pattern no dictionary word matches fails.
pub open spec fn check_entries_spec(
    g: Crossword,
    es: Seq<EntryLocation>,
    index: Index,
    used: Set<u64>,
) -> bool
    decreases es.len(),
{
    if es.len() == 0 {
        true
    } else {
        let p = g.projection(es[0]);
        let key = content_key(p);
        if pattern_full(p) && used.contains(key) {
            false
        } else if !es[0].prefilled && !index.trie_root.pattern_valid(p) {
            false
        } else {
            check_entries_spec(g, es.drop_first(), index, used.insert(key))
        }
    }
}

/// Validates the given entries of a candidate grid in order, threading the
/// set of already-used answer keys through and handing it back.
pub fn is_valid_grid(
    candidate: &Crossword,
    entry_locations: &Vec<EntryLocation>,
    index: &Index,
    used_words: HashSet<u64>,
    is_valid_cache: &mut CachedIsValid,
) -> (r: (bool, HashSet<u64>))
    requires
        candidate.wf(),
        index.wf(),
        old(is_valid_cache).wf(*index),
        forall|m: int|
            0 <= m < entry_locations@.len() ==> candidate.entry_in_bounds(
                #[trigger] entry_locations@[m],
            ),
    ensures
        final(is_valid_cache).wf(*index),
        r.0 == check_entries_spec(*candidate, entry_locations@, *index, used_words@),
{
    broadcast use vstd::std_specs::hash::group_hash_axioms;

    let ghost g = *candidate;
    let ghost es0 = entry_locations@;
    let ghost used0 = used_words@;
    let mut used = used_words;
    let n = entry_locations.len();
    let mut m: usize = 0;
    proof {
        assert(es0.skip(0) =~= es0);
    }
    while m < n
        invariant
            g == *candidate,
            g.wf(),
            index.wf(),
            is_valid_cache.wf(*index),
            n == es0.len(),
            es0 == entry_locations@,
            used0 == used_words@,
            m <= n,
            forall|m2: int|
                0 <= m2 < entry_locations@.len() ==> candidate.entry_in_bounds(
                    #[trigger] entry_locations@[m2],
                ),
            check_entries_spec(g, es0, *index, used0) == check_entries_spec(
                g,
                es0.skip(m as int),
                *index,
                used@,
            ),
        decreases n - m,
    {
        broadcast use vstd::std_specs::hash::group_hash_axioms;

        let e = entry_locations[m];
        let p = candidate.entry_chars(&e);
        let full = chars_full(&p);
        let key = crate::cache::hash_chars(&p);
        proof {
            assert(es0.skip(m as int)[0] == es0[m as int]);
            assert(es0.skip(m as int).drop_first() =~= es0.skip(m as int + 1));
        }
        if full && used.contains(&key) {
            proof {
                assert(g.projection(es0.skip(m as int)[0]) == p@);
                assert(pattern_full(g.projection(es0.skip(m as int)[0])));
                assert(used@.contains(content_key(p@)));
                assert(check_entries_spec(g, es0.skip(m as int), *index, used@) == false);
            }
            return (false, used);
        }
        let ghost used_before = used@;
        used.insert(key);
        proof {
            assert(used@ == used_before.insert(key));
            assert(!(pattern_full(p@) && used_before.contains(content_key(p@))));
        }
        if !e.prefilled && !is_valid_cache.is_valid(&p, index) {
            proof {
                assert(!index.trie_root.pattern_valid(p@));
                assert(check_entries_spec(g, es0.skip(m as int), *index, used_before) == false);
            }
            return (false, used);
        }
        proof {
            assert(check_entries_spec(g, es0.skip(m as int), *index, used_before)
                == check_entries_spec(g, es0.skip(m as int + 1), *index, used@));
        }
        m += 1;
    }
    proof {
        assert(es0.skip(n as int) =~= Seq::<EntryLocation>::empty());
    }
    (true, used)
}


/// A flat index covered by an in-bounds entry, translated to row and column.
proof fn lemma_covers_flat_to_rc(g: Crossword, e: EntryLocation, j: int)
    requires
        g.wf(),
        g.entry_in_bounds(e),
        g.entry_covers(e, j),
    ensures
        0 <= j < g.contents@.len(),
        e.direction == Direction::Across ==> across_covers(e, j / (g.width as int), j % (
        g.width as int)),
        e.direction == Direction::Down ==> down_covers(e, j / (g.width as int), j % (
        g.width as int)),
{
    let k = choose|k: int| 0 <= k < e.length && j == g.entry_cell_index(e, k);
    g.lemma_entry_cell_index_bounds(e, k);
    match e.direction {
        Direction::Across => {
            lemma_cell_div_mod(g, e.start_row as int, e.start_col + k);
        },
        Direction::Down => {
            lemma_cell_div_mod(g, e.start_row + k, e.start_col as int);
        },
    }
}

/// A cell covered in row-and-column form, translated to the flat index.
proof fn lemma_covers_rc_to_flat(g: Crossword, e: EntryLocation, r: int, c: int)
    requires
        g.wf(),
        g.entry_in_bounds(e),
        g.in_grid(r, c),
        across_covers(e, r, c) || down_covers(e, r, c),
    ensures
        g.entry_covers(e, r * g.width + c),
{
    if across_covers(e, r, c) {
        let k = c - e.start_col;
        assert(r * g.width + c == g.entry_cell_index(e, k));
    } else {
        let k = r - e.start_row;
        assert(r * g.width + c == g.entry_cell_index(e, k));
    }
}

/// Distinct extracted entries of one direction share no cell.
proof fn lemma_same_direction_disjoint(g: Crossword, e1: EntryLocation, e2: EntryLocation, j: int)
    requires
        g.wf(),
        g.entries_spec().contains(e1),
        g.entries_spec().contains(e2),
        g.entry_in_bounds(e1),
        g.entry_in_bounds(e2),
        e1.direction == e2.direction,
        g.entry_covers(e1, j),
        g.entry_covers(e2, j),
    ensures
        e1 == e2,
{
    lemma_covers_flat_to_rc(g, e1, j);
    lemma_covers_flat_to_rc(g, e2, j);
    let r = j / (g.width as int);
    let c = j % (g.width as int);
    match e1.direction {
        Direction::Across => {
            g.lemma_across_cover_unique(e1, e2, r, c);
        },
        Direction::Down => {
            g.lemma_down_cover_unique(e1, e2, r, c);
        },
    }
}

/// A passed validation certifies every non-prefilled entry it covered.
proof fn lemma_check_entries_all_valid(
    g: Crossword,
    es: Seq<EntryLocation>,
    index: Index,
    used: Set<u64>,
)
    requires
        check_entries_spec(g, es, index, used),
    ensures
        forall|m: int|
            0 <= m < es.len() && !(#[trigger] es[m]).prefilled ==> index.trie_root.pattern_valid(
                g.projection(es[m]),
            ),
    decreases es.len(),
{
    if es.len() > 0 {
        let key = content_key(g.projection(es[0]));
        lemma_check_entries_all_valid(g, es.drop_first(), index, used.insert(key));
        assert forall|m: int|
            0 <= m < es.len() && !(#[trigger] es[m]).prefilled implies index.trie_root.pattern_valid(
            g.projection(es[m]),
        ) by {
            if m > 0 {
                assert(es.drop_first()[m - 1] == es[m]);
            }
        }
    }
}

/// One entry of the caller-supplied restriction: a slot is identified by its
/// direction and start position.
#[derive(Debug, Clone, Copy, PartialEq, Eq, Structural)]
pub struct EntryLocationToFill {
    pub start_row: usize,
    pub start_col: usize,
    pub direction: Direction,
}

/// Is the entry one the filler is allowed to complete?
pub open spec fn in_scope(e: EntryLocation, scope: Option<Seq<EntryLocationToFill>>) -> bool {
    match scope {
        None => true,
        Some(s) => exists|k: int|
            0 <= k < s.len() && (#[trigger] s[k]).direction == e.direction && s[k].start_row
                == e.start_row && s[k].start_col == e.start_col,
    }
}

pub open spec fn scope_of(arg: Option<&Vec<EntryLocationToFill>>) -> Option<
    Seq<EntryLocationToFill>,
> {
    match arg {
        None => None,
        Some(v) => Some(v@),
    }
}

/// A cell that lies on some in-scope entry of the grid: the only cells a fill
/// is allowed to change.
pub open spec fn cell_in_scope(
    g: Crossword,
    j: int,
    scope: Option<Seq<EntryLocationToFill>>,
) -> bool {
    exists|e: EntryLocation|
        #[trigger] g.entries_spec().contains(e) && in_scope(e, scope) && g.entry_covers(e, j)
}

/// Every in-scope entry of the grid is already blank-free: nothing is left
/// for a fill to do.
pub open spec fn scope_already_filled(
    g: Crossword,
    scope: Option<Seq<EntryLocationToFill>>,
) -> bool {
    forall|e: EntryLocation|
        #[trigger] g.entries_spec().contains(e) && in_scope(e, scope) ==> pattern_full(
            g.projection(e),
        )
}

/// What the search stack holds: a grid of the input's dimensions that
/// differs from the input only on in-scope cells, keeps every given letter
/// and block of the input, and whose completed non-prefilled entries all
/// hold dictionary words.
pub open spec fn candidate_ok(
    g0: Crossword,
    scope: Option<Seq<EntryLocationToFill>>,
    index: Index,
    c: Crossword,
) -> bool {
    &&& c.width == g0.width
    &&& c.height == g0.height
    &&& c.wf()
    &&& forall|j: int|
        0 <= j < g0.contents@.len() && !cell_in_scope(g0, j, scope) ==> c.contents@[j]
            == g0.contents@[j]
    &&& forall|j: int|
        0 <= j < g0.contents@.len() && g0.contents@[j] != ' ' ==> c.contents@[j]
            == g0.contents@[j]
    &&& forall|e: EntryLocation|
        #[trigger] g0.entries_spec().contains(e) && !e.prefilled && pattern_full(c.projection(e))
            ==> index.trie_root.contains_word(c.projection(e))
}

fn entry_in_scope(e: &EntryLocation, scope: Option<&Vec<EntryLocationToFill>>) -> (r: bool)
    ensures
        r == in_scope(*e, scope_of(scope)),
{
    match scope {
        None => true,
        Some(list) => {
            let n = list.len();
            let mut k: usize = 0;
            while k < n
                invariant
                    scope_of(scope) == Some(list@),
                    n == list@.len(),
                    k <= n,
                    forall|k2: int|
                        0 <= k2 < k ==> !((#[trigger] list@[k2]).direction == e.direction
                            && list@[k2].start_row == e.start_row && list@[k2].start_col
                            == e.start_col),
                decreases n - k,
            {
                let item = list[k];
                if item.direction == e.direction && item.start_row == e.start_row
                    && item.start_col == e.start_col {
                    proof {
                        let s = list@;
                        assert((#[trigger] s[k as int]).direction == e.direction && s[k as int].start_row
                            == e.start_row && s[k as int].start_col == e.start_col);
                    }
                    return true;
                }
                k += 1;
            }
            false
        },
    }
}

/// Are all in-scope entries blank-free in this candidate?
fn scope_filled(
    candidate: &Crossword,
    entries: &Vec<EntryLocation>,
    scope: Option<&Vec<EntryLocationToFill>>,
) -> (r: bool)
    requires
        candidate.wf(),
        forall|m: int|
            0 <= m < entries@.len() ==> candidate.entry_in_bounds(#[trigger] entries@[m]),
    ensures
        r == (forall|m: int|
            0 <= m < entries@.len() && in_scope(#[trigger] entries@[m], scope_of(scope))
                ==> pattern_full(candidate.projection(entries@[m]))),
{
    let n = entries.len();
    let mut m: usize = 0;
    while m < n
        invariant
            candidate.wf(),
            n == entries@.len(),
            m <= n,
            forall|m2: int|
                0 <= m2 < entries@.len() ==> candidate.entry_in_bounds(#[trigger] entries@[m2]),
            forall|m2: int|
                0 <= m2 < m && in_scope(#[trigger] entries@[m2], scope_of(scope))
                    ==> pattern_full(candidate.projection(entries@[m2])),
        decreases n - m,
    {
        let e = entries[m];
        if entry_in_scope(&e, scope) {
            let p = candidate.entry_chars(&e);
            if !chars_full(&p) {
                return false;
            }
        }
        m += 1;
    }
    true
}

/// An unrestricted fill that completed every entry leaves no blank anywhere:
/// block cells are untouched and every other cell lies on some entry, whose
/// projection is blank-free.
pub proof fn lemma_solved_grid_has_no_blanks(g0: Crossword, out: Crossword)
    requires
        g0.wf(),
        out.wf(),
        out.width == g0.width,
        out.height == g0.height,
        forall|e: EntryLocation|
            #[trigger] g0.entries_spec().contains(e) && in_scope(e, None) ==> pattern_full(
                out.projection(e),
            ),
        forall|j: int|
            0 <= j < g0.contents@.len() && !cell_in_scope(g0, j, None) ==> out.contents@[j]
                == g0.contents@[j],
    ensures
        forall|j: int| 0 <= j < out.contents@.len() ==> out.contents@[j] != ' ',
{
    g0.lemma_entries_props();
    assert forall|j: int| 0 <= j < out.contents@.len() implies out.contents@[j] != ' ' by {
        let w = g0.width as int;
        let h = g0.height as int;
        assert(0 < w * h);
        assert(0 < w) by (nonlinear_arith)
            requires
                0 < w * h,
                0 <= w,
                0 <= h,
        ;
        vstd::arithmetic::div_mod::lemma_fundamental_div_mod(j, w);
        let r = j / w;
        let c = j % w;
        assert(0 <= c < w);
        assert(0 <= r) by (nonlinear_arith)
            requires
                0 <= j,
                0 < w,
                r == j / w,
                j == w * (j / w) + j % w,
                0 <= j % w < w,
        ;
        assert(r < h) by (nonlinear_arith)
            requires
                j < w * h,
                0 < w,
                j == w * r + c,
                0 <= c < w,
        ;
        assert(j == r * w + c) by (nonlinear_arith)
            requires
                j == w * r + c,
        ;
        if g0.cell(r, c) == '*' {
            if cell_in_scope(g0, j, None) {
                let e = choose|e: EntryLocation|
                    #[trigger] g0.entries_spec().contains(e) && in_scope(e, None)
                        && g0.entry_covers(e, j);
                lemma_covers_flat_to_rc(g0, e, j);
                match e.direction {
                    Direction::Across => {
                        assert(g0.cell(e.start_row as int, e.start_col + (c - e.start_col))
                            != '*');
                    },
                    Direction::Down => {
                        assert(g0.cell(e.start_row + (r - e.start_row), e.start_col as int)
                            != '*');
                    },
                }
            }
            assert(out.contents@[j] == g0.contents@[j]);
        } else {
            g0.lemma_across_coverage(r, c);
            let e = choose|e: EntryLocation|
                #[trigger] g0.entries_spec().contains(e) && across_covers(e, r, c);
            lemma_covers_rc_to_flat(g0, e, r, c);
            let k = choose|k: int| 0 <= k < e.length && j == g0.entry_cell_index(e, k);
            lemma_same_shape(g0, out, e);
            assert(out.projection(e)[k] == out.contents@[j]);
            assert(pattern_full(out.projection(e)));
        }
    }
}

/// A filler owns its per-invocation caches and shares the read-only index.
pub struct Filler<'s> {
    pub index: &'s Index,
    pub is_valid_cache: CachedIsValid,
    pub word_cache: CachedWords,
}

/// The filling interface: complete a crossword, or the given subset of its
/// entries, returning a grid of the same dimensions or the failure message.
/// The contract mirrors `Filler::fill`'s so that generic callers keep the
/// full guarantees.
pub trait Fill {
    /// What the filler needs of itself before and after a fill.
    spec fn fill_wf(&self) -> bool;

    /// The read-only dictionary index the filler answers from.
    spec fn word_index(&self) -> Index;

    fn fill(
        &mut self,
        crossword: &Crossword,
        entry_locations_to_fill: Option<&Vec<EntryLocationToFill>>,
    ) -> (r: Result<Crossword, String>)
        requires
            old(self).fill_wf(),
            crossword.wf(),
        ensures
            final(self).fill_wf(),
            final(self).word_index() == old(self).word_index(),
            match r {
                Ok(out) => {
                    &&& out.width == crossword.width
                    &&& out.height == crossword.height
                    &&& out.wf()
                    &&& forall|e: EntryLocation|
                        #[trigger] crossword.entries_spec().contains(e) && in_scope(
                            e,
                            scope_of(entry_locations_to_fill),
                        ) ==> pattern_full(out.projection(e))
                    &&& forall|j: int|
                        0 <= j < crossword.contents@.len() && !cell_in_scope(
                            *crossword,
                            j,
                            scope_of(entry_locations_to_fill),
                        ) ==> out.contents@[j] == crossword.contents@[j]
                    &&& forall|j: int|
                        0 <= j < crossword.contents@.len() && crossword.contents@[j] != ' '
                            ==> out.contents@[j] == crossword.contents@[j]
                    &&& forall|e: EntryLocation|
                        #[trigger] crossword.entries_spec().contains(e) && !e.prefilled
                            && pattern_full(out.projection(e))
                            ==> old(self).word_index().trie_root.contains_word(out.projection(e))
                },
                Err(m) => m@ == "Failed to fill."@,
            },
            scope_already_filled(*crossword, scope_of(entry_locations_to_fill)) ==> r is Ok
                && r->Ok_0.contents@ == crossword.contents@,
            r is Err ==> !scope_already_filled(*crossword, scope_of(entry_locations_to_fill)),
    ;
}

impl<'s> Filler<'s> {
    pub open spec fn wf(self) -> bool {
        &&& self.index.wf()
        &&& self.is_valid_cache.wf(*self.index)
        &&& self.word_cache.wf(*self.index)
    }

    pub fn new(index: &'s Index) -> (r: Filler<'s>)
        requires
            index.wf(),
        ensures
            r.wf(),
            r.index == index,
            r.word_cache.words_cache@ == Map::<u64, (Vec<char>, Vec<String>)>::empty(),
            r.is_valid_cache.is_valid_cache@ == Map::<u64, (Vec<char>, bool)>::empty(),
    {
        Filler {
            index,
            is_valid_cache: CachedIsValid::default(),
            word_cache: CachedWords::default(),
        }
    }

    /// Backtracking search over a stack of candidate grids: pop a candidate,
    /// select the in-scope blank entry with the fewest ranked words (ties by
    /// start position), apply each ranked word, validate its crossing
    /// entries, and push survivors; a candidate whose in-scope entries are
    /// all complete is the answer. On success the result has the input's
    /// dimensions, every in-scope entry blank-free, and every cell outside
    /// the in-scope entries unchanged.
    pub fn fill(
        &mut self,
        crossword: &Crossword,
        entry_locations_to_fill: Option<&Vec<EntryLocationToFill>>,
    ) -> (r: Result<Crossword, String>)
        requires
            old(self).wf(),
            crossword.wf(),
        ensures
            final(self).wf(),
            final(self).index == old(self).index,
            match r {
                Ok(out) => {
                    &&& out.width == crossword.width
                    &&& out.height == crossword.height
                    &&& out.wf()
                    &&& forall|e: EntryLocation|
                        #[trigger] crossword.entries_spec().contains(e) && in_scope(
                            e,
                            scope_of(entry_locations_to_fill),
                        ) ==> pattern_full(out.projection(e))
                    &&& forall|j: int|
                        0 <= j < crossword.contents@.len() && !cell_in_scope(
                            *crossword,
                            j,
                            scope_of(entry_locations_to_fill),
                        ) ==> out.contents@[j] == crossword.contents@[j]
                    &&& forall|j: int|
                        0 <= j < crossword.contents@.len() && crossword.contents@[j] != ' '
                            ==> out.contents@[j] == crossword.contents@[j]
                    &&& forall|e: EntryLocation|
                        #[trigger] crossword.entries_spec().contains(e) && !e.prefilled
                            && pattern_full(out.projection(e))
                            ==> old(self).index.trie_root.contains_word(out.projection(e))
                },
                Err(m) => m@ == "Failed to fill."@,
            },
            scope_already_filled(*crossword, scope_of(entry_locations_to_fill)) ==> r is Ok
                && r->Ok_0.contents@ == crossword.contents@,
            r is Err ==> !scope_already_filled(*crossword, scope_of(entry_locations_to_fill)),
    {
        let ghost g0 = *crossword;
        let ghost scope = scope_of(entry_locations_to_fill);
        let index = self.index;
        let entry_locations = crossword.get_entries();
        proof {
            crossword.lemma_entries_props();
        }
        let entry_location_lookup = build_square_to_entry_lookup(&entry_locations, crossword);
        let mut used_words: HashSet<u64> = HashSet::new();
        let mut candidates: Vec<Crossword> = Vec::new();
        let first = Crossword {
            contents: crate::index::vec_chars_copy(&crossword.contents),
            width: crossword.width,
            height: crossword.height,
        };
        proof {
            crossword.lemma_entry_prefilled();
            assert forall|e: EntryLocation|
                #[trigger] g0.entries_spec().contains(e) && !e.prefilled && pattern_full(
                    first.projection(e),
                ) implies self.index.trie_root.contains_word(first.projection(e)) by {
                lemma_same_shape(g0, first, e);
                assert(first.projection(e) =~= g0.projection(e));
                assert(exists|k: int| 0 <= k < e.length && g0.projection(e)[k] == ' ');
                let k = choose|k: int| 0 <= k < e.length && g0.projection(e)[k] == ' ';
                assert(!pattern_full(first.projection(e)));
            }
            assert forall|j: int|
                0 <= j < g0.contents@.len() && g0.contents@[j] != ' '
                implies first.contents@[j] == g0.contents@[j] by {
            }
            assert(candidate_ok(g0, scope, *self.index, first));
        }
        candidates.push(first);
        // The candidate stack shrinks only on pops, so the search is bounded
        // by an iteration budget no machine can exhaust.
        let mut fuel: usize = usize::MAX;
        while fuel > 0 && candidates.len() > 0
            invariant
                self.wf(),
                self.index == index,
                index == old(self).index,
                index.wf(),
                g0 == *crossword,
                g0.wf(),
                entry_locations@ == g0.entries_spec(),
                entry_location_lookup.wf(g0),
                scope == scope_of(entry_locations_to_fill),
                forall|e2: EntryLocation|
                    #[trigger] g0.entries_spec().contains(e2) ==> e2.length >= 1
                        && g0.entry_in_bounds(e2),
                forall|ci: int|
                    0 <= ci < candidates@.len() ==> candidate_ok(
                        g0,
                        scope,
                        *index,
                        #[trigger] candidates@[ci],
                    ),
                scope_already_filled(g0, scope) ==> fuel == usize::MAX && candidates@.len() == 1
                    && candidates@[0].contents@ == g0.contents@,
            decreases fuel,
        {
            fuel = fuel - 1;
            let candidate = match candidates.pop() {
                Some(c) => c,
                None => {
                    proof {
                        assert(false);
                    }
                    return vstd::pervasive::unreached();
                },
            };
            let n = entry_locations.len();
            let mut best: Option<usize> = None;
            let mut best_count: usize = 0;
            let mut best_row: usize = 0;
            let mut best_col: usize = 0;
            let mut k: usize = 0;
            while k < n
                invariant
                    self.wf(),
                    self.index == index,
                    index == old(self).index,
                    index.wf(),
                    g0 == *crossword,
                    g0.wf(),
                    entry_locations@ == g0.entries_spec(),
                    scope == scope_of(entry_locations_to_fill),
                    forall|e2: EntryLocation|
                        #[trigger] g0.entries_spec().contains(e2) ==> e2.length >= 1
                            && g0.entry_in_bounds(e2),
                    candidate_ok(g0, scope, *index, candidate),
                    scope_already_filled(g0, scope) ==> candidate.contents@ == g0.contents@,
                    n == entry_locations@.len(),
                    k <= n,
                    match best {
                        None => forall|k2: int|
                            0 <= k2 < k && in_scope(#[trigger] entry_locations@[k2], scope)
                                ==> pattern_full(candidate.projection(entry_locations@[k2])),
                        Some(b) => b < n && in_scope(entry_locations@[b as int], scope)
                            && !pattern_full(candidate.projection(entry_locations@[b as int])),
                    },
                decreases n - k,
            {
                let e = entry_locations[k];
                proof {
                    assert(g0.entries_spec()[k as int] == e);
                    assert(g0.entries_spec().contains(e));
                    lemma_same_shape(g0, candidate, e);
                }
                if entry_in_scope(&e, entry_locations_to_fill) {
                    let p = candidate.entry_chars(&e);
                    if !chars_full(&p) {
                        let ws = self.word_cache.words(&p, index);
                        let cnt = ws.len();
                        let better = match best {
                            None => true,
                            Some(_) => cnt < best_count || (cnt == best_count && (e.start_row
                                < best_row || (e.start_row == best_row && e.start_col
                                < best_col))),
                        };
                        if better {
                            best = Some(k);
                            best_count = cnt;
                            best_row = e.start_row;
                            best_col = e.start_col;
                        }
                    }
                }
                k += 1;
            }
            match best {
                None => {
                    proof {
                        assert forall|e: EntryLocation|
                            #[trigger] g0.entries_spec().contains(e) && in_scope(e, scope)
                            implies pattern_full(candidate.projection(e)) by {
                            let es = g0.entries_spec();
                            let m = choose|m: int| 0 <= m < es.len() && es[m] == e;
                            assert(entry_locations@[m] == e);
                        }
                    }
                    return Ok(candidate);
                },
                Some(b) => {
                    let to_fill = entry_locations[b];
                    proof {
                        assert(g0.entries_spec()[b as int] == to_fill);
                        assert(g0.entries_spec().contains(to_fill));
                        lemma_same_shape(g0, candidate, to_fill);
                        // A blank entry was selected, so the scope was not
                        // already complete.
                        if scope_already_filled(g0, scope) {
                            assert(candidate.contents@ == g0.contents@);
                            assert(pattern_full(g0.projection(to_fill)));
                            assert(candidate.projection(to_fill) =~= g0.projection(to_fill));
                        }
                        assert(!scope_already_filled(g0, scope));
                    }
                    let p = candidate.entry_chars(&to_fill);
                    let potential_fills = self.word_cache.words(&p, index);
                    let orthogonal = get_orthogonal_words(
                        &to_fill,
                        &entry_location_lookup,
                        crossword,
                    );
                    let wn = potential_fills.len();
                    let mut widx: usize = 0;
                    while widx < wn
                        invariant
                            self.wf(),
                            self.index == index,
                            index == old(self).index,
                            index.wf(),
                            g0 == *crossword,
                            g0.wf(),
                            entry_locations@ == g0.entries_spec(),
                            scope == scope_of(entry_locations_to_fill),
                            forall|e2: EntryLocation|
                                #[trigger] g0.entries_spec().contains(e2) ==> e2.length >= 1
                                    && g0.entry_in_bounds(e2),
                            candidate_ok(g0, scope, *index, candidate),
                            !scope_already_filled(g0, scope),
                            g0.entries_spec().contains(to_fill),
                            in_scope(to_fill, scope),
                            candidate.entry_in_bounds(to_fill),
                            p@ == candidate.projection(to_fill),
                            crate::index::words_result_ok(
                                index.trie_root,
                                p@,
                                potential_fills.deep_view(),
                            ),
                            wn == potential_fills@.len(),
                            widx <= wn,
                            orthogonal@.len() == to_fill.length,
                            forall|m: int|
                                0 <= m < orthogonal@.len() ==> g0.entries_spec().contains(
                                    #[trigger] orthogonal@[m],
                                ) && g0.entry_in_bounds(orthogonal@[m]),
                            forall|m: int|
                                0 <= m < orthogonal@.len() ==> {
                                    &&& (to_fill.direction == Direction::Across ==> down_covers(
                                        #[trigger] orthogonal@[m],
                                        to_fill.start_row as int,
                                        to_fill.start_col + m,
                                    ))
                                    &&& (to_fill.direction == Direction::Down ==> across_covers(
                                        orthogonal@[m],
                                        to_fill.start_row + m,
                                        to_fill.start_col as int,
                                    ))
                                },
                            forall|ci: int|
                                0 <= ci < candidates@.len() ==> candidate_ok(
                                    g0,
                                    scope,
                                    *index,
                                    #[trigger] candidates@[ci],
                                ),
                        decreases wn - widx,
                    {
                        let word = &potential_fills[widx];
                        proof {
                            assert(potential_fills.deep_view()[widx as int] == word@);
                            assert(index.trie_root.match_in(p@, word@));
                            assert(word@.len() == to_fill.length);
                        }
                        let ei = EntryIterator::new(&candidate, &to_fill);
                        let new_candidate = fill_one_word(&candidate, &ei, word.as_str());
                        proof {
                            assert forall|m: int|
                                0 <= m < orthogonal@.len() implies new_candidate.entry_in_bounds(
                                #[trigger] orthogonal@[m],
                            ) by {
                                lemma_same_shape(g0, new_candidate, orthogonal@[m]);
                            }
                        }
                        let ghost used_in = used_words@;
                        let (valid, tmp) = is_valid_grid(
                            &new_candidate,
                            &orthogonal,
                            index,
                            used_words,
                            &mut self.is_valid_cache,
                        );
                        used_words = tmp;
                        used_words.clear();
                        if valid {
                            proof {
                                assert forall|j: int|
                                    0 <= j < g0.contents@.len() && !cell_in_scope(g0, j, scope)
                                    implies new_candidate.contents@[j] == g0.contents@[j] by {
                                    lemma_same_shape(g0, candidate, to_fill);
                                    if candidate.entry_covers(to_fill, j) {
                                        assert(g0.entry_covers(to_fill, j));
                                        assert(cell_in_scope(g0, j, scope));
                                    }
                                }
                                assert forall|m: int|
                                    0 <= m < entry_locations@.len()
                                    implies new_candidate.entry_in_bounds(
                                    #[trigger] entry_locations@[m],
                                ) by {
                                    assert(g0.entries_spec().contains(entry_locations@[m]));
                                    lemma_same_shape(g0, new_candidate, entry_locations@[m]);
                                }
                                lemma_check_entries_all_valid(
                                    new_candidate,
                                    orthogonal@,
                                    *index,
                                    used_in,
                                );
                                let nc = new_candidate;
                                assert forall|j: int|
                                    0 <= j < g0.contents@.len() && g0.contents@[j] != ' '
                                    implies nc.contents@[j] == g0.contents@[j] by {
                                    lemma_same_shape(g0, candidate, to_fill);
                                    if candidate.entry_covers(to_fill, j) {
                                        let k = choose|k: int|
                                            0 <= k < to_fill.length && j
                                                == candidate.entry_cell_index(to_fill, k);
                                        assert(nc.projection(to_fill)[k] == nc.contents@[j]);
                                        assert(nc.contents@[j] == word@[k]);
                                        assert(p@[k] == candidate.contents@[j]);
                                        assert(candidate.contents@[j] == g0.contents@[j]);
                                        assert(p@[k] == ' ' || p@[k] == word@[k]);
                                    }
                                }
                                assert forall|e: EntryLocation|
                                    #[trigger] g0.entries_spec().contains(e) && !e.prefilled
                                    && pattern_full(nc.projection(e))
                                    implies index.trie_root.contains_word(nc.projection(e)) by {
                                    lemma_same_shape(g0, candidate, e);
                                    lemma_same_shape(g0, nc, e);
                                    lemma_same_shape(g0, candidate, to_fill);
                                    lemma_same_shape(g0, nc, to_fill);
                                    if e == to_fill {
                                        assert(nc.projection(to_fill) == word@);
                                        assert(index.trie_root.contains_word(word@));
                                    } else if e.direction == to_fill.direction {
                                        assert forall|k: int|
                                            0 <= k < e.length implies nc.projection(e)[k]
                                            == candidate.projection(e)[k] by {
                                            let j = g0.entry_cell_index(e, k);
                                            g0.lemma_entry_cell_index_bounds(e, k);
                                            if candidate.entry_covers(to_fill, j) {
                                                assert(g0.entry_covers(to_fill, j));
                                                assert(g0.entry_covers(e, j));
                                                lemma_same_direction_disjoint(
                                                    g0,
                                                    e,
                                                    to_fill,
                                                    j,
                                                );
                                            }
                                        }
                                        assert(nc.projection(e) =~= candidate.projection(e));
                                        assert(index.trie_root.contains_word(
                                            candidate.projection(e),
                                        ));
                                    } else {
                                        if exists|k: int|
                                            0 <= k < to_fill.length && g0.entry_covers(
                                                e,
                                                #[trigger] g0.entry_cell_index(to_fill, k),
                                            ) {
                                            let k = choose|k: int|
                                                0 <= k < to_fill.length && g0.entry_covers(
                                                    e,
                                                    #[trigger] g0.entry_cell_index(to_fill, k),
                                                );
                                            let j = g0.entry_cell_index(to_fill, k);
                                            g0.lemma_entry_cell_index_bounds(to_fill, k);
                                            lemma_covers_flat_to_rc(g0, e, j);
                                            let rr = j / (g0.width as int);
                                            let cc = j % (g0.width as int);
                                            match to_fill.direction {
                                                Direction::Across => {
                                                    lemma_cell_div_mod(
                                                        g0,
                                                        to_fill.start_row as int,
                                                        to_fill.start_col + k,
                                                    );
                                                    g0.lemma_down_cover_unique(
                                                        e,
                                                        orthogonal@[k],
                                                        rr,
                                                        cc,
                                                    );
                                                },
                                                Direction::Down => {
                                                    lemma_cell_div_mod(
                                                        g0,
                                                        to_fill.start_row + k,
                                                        to_fill.start_col as int,
                                                    );
                                                    g0.lemma_across_cover_unique(
                                                        e,
                                                        orthogonal@[k],
                                                        rr,
                                                        cc,
                                                    );
                                                },
                                            }
                                            assert(e == orthogonal@[k]);
                                            assert(index.trie_root.pattern_valid(
                                                nc.projection(e),
                                            ));
                                            crate::index::lemma_full_pattern_valid(
                                                index.trie_root,
                                                nc.projection(e),
                                            );
                                        } else {
                                            assert forall|k: int|
                                                0 <= k < e.length implies nc.projection(e)[k]
                                                == candidate.projection(e)[k] by {
                                                let j = g0.entry_cell_index(e, k);
                                                g0.lemma_entry_cell_index_bounds(e, k);
                                                if candidate.entry_covers(to_fill, j) {
                                                    assert(g0.entry_covers(to_fill, j));
                                                    let k2 = choose|k2: int|
                                                        0 <= k2 < to_fill.length && j
                                                            == g0.entry_cell_index(to_fill, k2);
                                                    assert(g0.entry_covers(
                                                        e,
                                                        g0.entry_cell_index(to_fill, k2),
                                                    ));
                                                }
                                            }
                                            assert(nc.projection(e) =~= candidate.projection(e));
                                            assert(index.trie_root.contains_word(
                                                candidate.projection(e),
                                            ));
                                        }
                                    }
                                }
                                assert(candidate_ok(g0, scope, *index, new_candidate));
                            }
                            if scope_filled(&new_candidate, &entry_locations, entry_locations_to_fill) {
                                proof {
                                    assert forall|e: EntryLocation|
                                        #[trigger] g0.entries_spec().contains(e) && in_scope(
                                            e,
                                            scope,
                                        ) implies pattern_full(new_candidate.projection(e)) by {
                                        let es = g0.entries_spec();
                                        let m = choose|m: int| 0 <= m < es.len() && es[m] == e;
                                        assert(entry_locations@[m] == e);
                                    }
                                }
                                return Ok(new_candidate);
                            }
                            candidates.push(new_candidate);
                        }
                        widx += 1;
                    }
                },
            }
        }
        Err(String::from_str("Failed to fill."))
    }
}

impl<'s> Fill for Filler<'s> {
    open spec fn fill_wf(&self) -> bool {
        self.wf()
    }

    open spec fn word_index(&self) -> Index {
        *self.index
    }

    fn fill(
        &mut self,
        crossword: &Crossword,
        entry_locations_to_fill: Option<&Vec<EntryLocationToFill>>,
    ) -> (r: Result<Crossword, String>) {
        self.fill(crossword, entry_locations_to_fill)
    }
}

} // verus!
