//! A crossword-filling core: a grid model with slot extraction, a weighted
//! trie-backed word index answering pattern queries, a memoizing query cache,
//! and a backtracking filler that completes a grid so that every entry holds
//! a dictionary word.

use vstd::prelude::*;

pub mod cache;
pub mod crossword;
pub mod fill;
pub mod index;
pub mod text;

use crate::crossword::{strip_newlines, Crossword};
use crate::fill::{cell_in_scope, in_scope, pattern_full, EntryLocationToFill, Filler};
use crate::index::{dict_weight, Index};

verus! {

/// One dictionary entry as handed in by a caller.
#[derive(Debug, Clone, PartialEq, Eq)]
pub struct WeightedWord {
    pub word: String,
    pub weight: i32,
}

/// The weight of the last pair naming `w` among weighted words, or 0.
pub open spec fn weighted_dict_weight(ws: Seq<WeightedWord>, w: Seq<char>) -> i32
    decreases ws.len(),
{
    if ws.len() == 0 {
        0
    } else if ws.last().word@ == w {
        ws.last().weight
    } else {
        weighted_dict_weight(ws.drop_last(), w)
    }
}

proof fn lemma_dict_weight_matches(pairs: Seq<(String, i32)>, ws: Seq<WeightedWord>, w: Seq<char>)
    requires
        pairs.len() == ws.len(),
        forall|k: int|
            0 <= k < ws.len() ==> (#[trigger] pairs[k]).0@ == ws[k].word@ && pairs[k].1
                == ws[k].weight,
    ensures
        dict_weight(pairs, w) == weighted_dict_weight(ws, w),
    decreases ws.len(),
{
    if ws.len() > 0 {
        assert(pairs.last().0@ == ws.last().word@ && pairs.last().1 == ws.last().weight);
        assert forall|k: int|
            0 <= k < ws.drop_last().len() implies (#[trigger] pairs.drop_last()[k]).0@
            == ws.drop_last()[k].word@ && pairs.drop_last()[k].1 == ws.drop_last()[k].weight by {
            assert(pairs.drop_last()[k] == pairs[k]);
            assert(ws.drop_last()[k] == ws[k]);
        }
        lemma_dict_weight_matches(pairs.drop_last(), ws.drop_last(), w);
    }
}

/// On a successful solve: some parse of the input cells and some filled grid
/// of the same dimensions account for the output — every in-scope entry
/// blank-free, every cell outside the in-scope entries unchanged, and every
/// completed non-prefilled entry holding a dictionary word of the index.
pub open spec fn solve_result_ok(
    index: Index,
    cells0: Seq<char>,
    cols: int,
    rows: int,
    scope: Option<Seq<EntryLocationToFill>>,
    cells1: Seq<char>,
) -> bool {
    exists|cw: Crossword, outg: Crossword|
        #![trigger cw.contents@, outg.contents@]
        {
            &&& cw.contents@ == cells0
            &&& cw.width == cols
            &&& cw.height == rows
            &&& outg.contents@ == cells1
            &&& outg.width == cols
            &&& outg.height == rows
            &&& forall|e: crate::crossword::EntryLocation|
                #[trigger] cw.entries_spec().contains(e) && in_scope(e, scope) ==> pattern_full(
                    outg.projection(e),
                )
            &&& forall|j: int|
                0 <= j < cells0.len() && !cell_in_scope(cw, j, scope) ==> cells1[j] == cells0[j]
            &&& forall|j: int|
                0 <= j < cells0.len() && cells0[j] != ' ' ==> cells1[j] == cells0[j]
            &&& forall|e: crate::crossword::EntryLocation|
                #[trigger] cw.entries_spec().contains(e) && !e.prefilled && pattern_full(
                    outg.projection(e),
                ) ==> index.trie_root.contains_word(outg.projection(e))
        }
}

/// The grid these cells spell (at the given dimensions) has every in-scope
/// entry blank-free already.
pub open spec fn cells_scope_filled(
    cells: Seq<char>,
    cols: int,
    rows: int,
    scope: Option<Seq<EntryLocationToFill>>,
) -> bool {
    forall|cw: Crossword|
        cw.contents@ == cells && cw.width == cols && cw.height == rows
            ==> #[trigger] crate::fill::scope_already_filled(cw, scope)
}

pub open spec fn scope_of_arg(arg: Option<Vec<EntryLocationToFill>>) -> Option<
    Seq<EntryLocationToFill>,
> {
    match arg {
        None => None,
        Some(v) => Some(v@),
    }
}

/// The solving facade: an index built once from a weighted dictionary, and a
/// solve call per grid.
pub struct Solver {
    pub index: Index,
}

impl Solver {
    /// Builds the word index from the given weighted dictionary; a repeated
    /// word keeps the weight given last.
    pub fn new(words: Vec<WeightedWord>) -> (r: Solver)
        ensures
            r.index.wf(),
            forall|w: Seq<char>|
                #[trigger] r.index.trie_root.contains_word(w) <==> (exists|k: int|
                    0 <= k < words@.len() && (#[trigger] words@[k]).word@ == w),
            forall|w: Seq<char>|
                #[trigger] r.index.trie_root.word_weight(w) == weighted_dict_weight(words@, w),
    {
        let n = words.len();
        let mut pairs: Vec<(String, i32)> = Vec::new();
        let mut i: usize = 0;
        while i < n
            invariant
                n == words@.len(),
                i <= n,
                pairs@.len() == i,
                forall|k: int|
                    0 <= k < i ==> (#[trigger] pairs@[k]).0@ == words@[k].word@ && pairs@[k].1
                        == words@[k].weight,
            decreases n - i,
        {
            let word = words[i].word.clone();
            let weight = words[i].weight;
            pairs.push((word, weight));
            i += 1;
        }
        let index = Index::build(pairs);
        let r = Solver { index };
        proof {
            assert forall|w: Seq<char>|
                #[trigger] r.index.trie_root.contains_word(w) <==> (exists|k: int|
                    0 <= k < words@.len() && (#[trigger] words@[k]).word@ == w) by {
                if r.index.trie_root.contains_word(w) {
                    let k = choose|k: int|
                        0 <= k < pairs@.len() && (#[trigger] pairs@[k]).0@ == w;
                    assert(words@[k].word@ == w);
                }
                if exists|k: int| 0 <= k < words@.len() && (#[trigger] words@[k]).word@ == w {
                    let k = choose|k: int|
                        0 <= k < words@.len() && (#[trigger] words@[k]).word@ == w;
                    assert(pairs@[k].0@ == w);
                    assert(crate::index::dict_contains(pairs@, w));
                }
            }
            assert forall|w: Seq<char>|
                #[trigger] r.index.trie_root.word_weight(w) == weighted_dict_weight(words@, w) by {
                lemma_dict_weight_matches(pairs@, words@, w);
            }
        }
        r
    }

    /// Parses the grid text and fills it (or the given subset of its entries),
    /// returning the filled grid's flat character sequence. A text whose
    /// stripped length disagrees with `cols * rows` is rejected; an exhausted
    /// search reports failure.
    pub fn solve(
        &self,
        grid: String,
        rows: usize,
        cols: usize,
        clues_to_fill: Option<Vec<EntryLocationToFill>>,
    ) -> (r: Result<String, String>)
        requires
            self.index.wf(),
        ensures
            match r {
                Ok(out) => {
                    &&& strip_newlines(grid@).len() == cols * rows
                    &&& solve_result_ok(
                        self.index,
                        strip_newlines(grid@),
                        cols as int,
                        rows as int,
                        scope_of_arg(clues_to_fill),
                        out@,
                    )
                },
                Err(m) => {
                    if strip_newlines(grid@).len() != cols * rows {
                        m@ == "Input dimensions do not match."@
                    } else {
                        m@ == "Failed to fill."@
                    }
                },
            },
            strip_newlines(grid@).len() == cols * rows && cells_scope_filled(
                strip_newlines(grid@),
                cols as int,
                rows as int,
                scope_of_arg(clues_to_fill),
            ) ==> r is Ok && r->Ok_0@ == strip_newlines(grid@),
            r is Err && strip_newlines(grid@).len() == cols * rows ==> !cells_scope_filled(
                strip_newlines(grid@),
                cols as int,
                rows as int,
                scope_of_arg(clues_to_fill),
            ),
    {
        let ghost cells0 = strip_newlines(grid@);
        let ghost scope = scope_of_arg(clues_to_fill);
        let crossword = match Crossword::from_string(grid, cols, rows) {
            Ok(c) => c,
            Err(m) => {
                return Err(m);
            },
        };
        proof {
            if cells_scope_filled(cells0, cols as int, rows as int, scope) {
                assert(crate::fill::scope_already_filled(crossword, scope));
            }
        }
        let mut filler = Filler::new(&self.index);
        let filled = match clues_to_fill {
            Some(list) => {
                let res = filler.fill(&crossword, Some(&list));
                match res {
                    Ok(f) => f,
                    Err(m) => {
                        proof {
                            if cells_scope_filled(cells0, cols as int, rows as int, scope) {
                                assert(crate::fill::scope_already_filled(crossword, scope));
                            }
                        }
                        return Err(m);
                    },
                }
            },
            None => {
                match filler.fill(&crossword, None) {
                    Ok(f) => f,
                    Err(m) => {
                        proof {
                            if cells_scope_filled(cells0, cols as int, rows as int, scope) {
                                assert(crate::fill::scope_already_filled(crossword, scope));
                            }
                        }
                        return Err(m);
                    },
                }
            },
        };
        let out = crate::text::chars_to_string(&filled.contents);
        proof {
            assert(crossword.contents@ == strip_newlines(grid@));
            assert(filled.contents@ == out@);
        }
        Ok(out)
    }
}

} // verus!
