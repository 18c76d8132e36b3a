//! The query cache: memoizes word-index queries behind a 64-bit content hash
//! of the pattern. The pattern itself is stored beside each answer, so a hash
//! collision can never surface another pattern's answer; equal patterns hash
//! equally and hit the same entry.

use vstd::prelude::*;

use crate::index::{words_result_ok, Index};
use core::hash::{Hash, Hasher};
use rustc_hash::FxHasher;
use std::collections::HashMap;

verus! {

/// The 64-bit content key of a character sequence, as rustc-hash computes it.
pub uninterp spec fn content_key(s: Seq<char>) -> u64;

/// Relies on rustc-hash's `FxHasher`: a deterministic hasher with no
/// per-process seed, fed one character at a time, so for a fixed platform
/// word size the key depends on the hashed characters alone. Nothing here
/// relies on a key outliving one process: keys only index the in-memory
/// memos and the per-validation answer set.
#[verifier::external_body]
pub(crate) fn hash_chars(cs: &Vec<char>) -> (k: u64)
    ensures
        k == content_key(cs@),
{
    let mut hasher = FxHasher::default();
    for c in cs.iter() {
        c.hash(&mut hasher);
    }
    hasher.finish()
}

/// Element-wise comparison of two character buffers.
fn vec_chars_eq(a: &Vec<char>, b: &Vec<char>) -> (r: bool)
    ensures
        r == (a@ == b@),
{
    if a.len() != b.len() {
        return false;
    }
    let n = a.len();
    let mut i: usize = 0;
    while i < n
        invariant
            n == a@.len(),
            n == b@.len(),
            i <= n,
            forall|k: int| 0 <= k < i ==> a@[k] == b@[k],
        decreases n - i,
    {
        if a[i] != b[i] {
            return false;
        }
        i += 1;
    }
    proof {
        assert(a@ =~= b@);
    }
    true
}

/// Memo for ranked word lists, keyed by pattern content hash.
#[derive(Debug)]
pub struct CachedWords {
    pub words_cache: HashMap<u64, (Vec<char>, Vec<String>)>,
}

impl CachedWords {
    /// Every stored answer is the correct ranked word list for the pattern
    /// stored beside it, under its own content key.
    pub open spec fn wf(self, index: Index) -> bool {
        forall|k: u64| #[trigger]
            self.words_cache@.contains_key(k) ==> {
                let entry = self.words_cache@[k];
                &&& k == content_key(entry.0@)
                &&& words_result_ok(index.trie_root, entry.0@, entry.1.deep_view())
            }
    }

    pub fn default() -> (r: CachedWords)
        ensures
            r.words_cache@ == Map::<u64, (Vec<char>, Vec<String>)>::empty(),
            forall|index: Index| r.wf(index),
    {
        let m: HashMap<u64, (Vec<char>, Vec<String>)> = HashMap::new();
        let r = CachedWords { words_cache: m };
        proof {
            assert forall|index: Index| r.wf(index) by {
                assert(forall|k: u64| !(#[trigger] r.words_cache@.contains_key(k)));
            }
        }
        r
    }

    /// The ranked word list for `pattern`, answered from the memo when the
    /// same pattern was already queried, else computed and pinned: a repeat
    /// query leaves the cache unchanged and returns the pinned list, so one
    /// search never sees two orders of the same equal-weight words.
    pub fn words(&mut self, pattern: &Vec<char>, index: &Index) -> (r: Vec<String>)
        requires
            old(self).wf(*index),
            index.wf(),
        ensures
            final(self).wf(*index),
            words_result_ok(index.trie_root, pattern@, r.deep_view()),
            final(self).words_cache@.contains_key(content_key(pattern@)),
            final(self).words_cache@[content_key(pattern@)].0@ == pattern@,
            final(self).words_cache@[content_key(pattern@)].1.deep_view() == r.deep_view(),
            old(self).words_cache@.contains_key(content_key(pattern@)) && old(
                self,
            ).words_cache@[content_key(pattern@)].0@ == pattern@ ==> *final(self) == *old(self)
                && r.deep_view() == old(self).words_cache@[content_key(pattern@)].1.deep_view(),
    {
        broadcast use vstd::std_specs::hash::group_hash_axioms;

        let key = hash_chars(pattern);
        match self.words_cache.get(&key) {
            Some(entry) => {
                if vec_chars_eq(&entry.0, pattern) {
                    let r = clone_strings(&entry.1);
                    return r;
                }
            },
            None => {},
        }
        let ws = index.words(pattern);
        let stored = crate::index::vec_chars_copy(pattern);
        let copy = clone_strings(&ws);
        self.words_cache.insert(key, (stored, copy));
        proof {
            assert forall|k: u64| #[trigger]
                final(self).words_cache@.contains_key(k) implies {
                let entry = final(self).words_cache@[k];
                &&& k == content_key(entry.0@)
                &&& words_result_ok(index.trie_root, entry.0@, entry.1.deep_view())
            } by {
                if k != key {
                    assert(old(self).words_cache@.contains_key(k));
                }
            }
        }
        ws
    }
}

/// Element-wise copy of a word list.
fn clone_strings(v: &Vec<String>) -> (r: Vec<String>)
    ensures
        r.deep_view() == v.deep_view(),
{
    let mut r: Vec<String> = Vec::new();
    let n = v.len();
    let mut i: usize = 0;
    while i < n
        invariant
            n == v@.len(),
            i <= n,
            r@.len() == i,
            forall|k: int| 0 <= k < i ==> (#[trigger] r@[k])@ == v@[k]@,
        decreases n - i,
    {
        let s = v[i].clone();
        r.push(s);
        i += 1;
    }
    proof {
        assert forall|k: int| 0 <= k < n implies r.deep_view()[k] == v.deep_view()[k] by {
            assert(r.deep_view()[k] == r@[k]@);
            assert(v.deep_view()[k] == v@[k]@);
        }
        assert(r.deep_view() =~= v.deep_view());
    }
    r
}

/// Memo for pattern-validity answers, keyed by pattern content hash.
#[derive(Debug)]
pub struct CachedIsValid {
    pub is_valid_cache: HashMap<u64, (Vec<char>, bool)>,
}

impl CachedIsValid {
    /// Every stored answer is the validity of the pattern stored beside it,
    /// under its own content key.
    pub open spec fn wf(self, index: Index) -> bool {
        forall|k: u64| #[trigger]
            self.is_valid_cache@.contains_key(k) ==> {
                let entry = self.is_valid_cache@[k];
                &&& k == content_key(entry.0@)
                &&& entry.1 == index.trie_root.pattern_valid(entry.0@)
            }
    }

    pub fn default() -> (r: CachedIsValid)
        ensures
            r.is_valid_cache@ == Map::<u64, (Vec<char>, bool)>::empty(),
            forall|index: Index| r.wf(index),
    {
        let m: HashMap<u64, (Vec<char>, bool)> = HashMap::new();
        let r = CachedIsValid { is_valid_cache: m };
        proof {
            assert forall|index: Index| r.wf(index) by {
                assert(forall|k: u64| !(#[trigger] r.is_valid_cache@.contains_key(k)));
            }
        }
        r
    }

    /// Whether any dictionary word matches `chars`, answered from the memo
    /// when the same pattern was already queried, else computed and pinned.
    pub fn is_valid(&mut self, chars: &Vec<char>, index: &Index) -> (r: bool)
        requires
            old(self).wf(*index),
            index.wf(),
        ensures
            final(self).wf(*index),
            r == index.trie_root.pattern_valid(chars@),
    {
        broadcast use vstd::std_specs::hash::group_hash_axioms;

        let key = hash_chars(chars);
        match self.is_valid_cache.get(&key) {
            Some(entry) => {
                if vec_chars_eq(&entry.0, chars) {
                    let r = entry.1;
                    return r;
                }
            },
            None => {},
        }
        let r = index.is_valid(chars);
        let stored = crate::index::vec_chars_copy(chars);
        self.is_valid_cache.insert(key, (stored, r));
        proof {
            assert forall|k: u64| #[trigger]
                final(self).is_valid_cache@.contains_key(k) implies {
                let entry = final(self).is_valid_cache@[k];
                &&& k == content_key(entry.0@)
                &&& entry.1 == index.trie_root.pattern_valid(entry.0@)
            } by {
                if k != key {
                    assert(old(self).is_valid_cache@.contains_key(k));
                }
            }
        }
        r
    }
}

} // verus!
