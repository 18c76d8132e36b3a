//! The word index: a prefix tree over a weighted dictionary, answering
//! wildcard-pattern enumeration (`words`) and validity (`is_valid`) queries.

use vstd::prelude::*;

use rand::seq::SliceRandom;

verus! {

use vstd::multiset::Multiset;

/// One trie node: a mapping from next character to child (keys unique), a
/// terminal flag, and a weight meaningful only when terminal.
#[derive(Debug)]
pub struct TrieNode {
    pub children: Vec<(char, TrieNode)>,
    pub terminal: bool,
    pub weight: Option<i32>,
}

/// First child labelled `ch` in a child list.
pub open spec fn seq_child(s: Seq<(char, TrieNode)>, ch: char) -> Option<TrieNode>
    decreases s.len(),
{
    if s.len() == 0 {
        None
    } else if s[0].0 == ch {
        Some(s[0].1)
    } else {
        seq_child(s.drop_first(), ch)
    }
}

/// Does the pattern accept the word? Blank is a wildcard; lengths must agree.
pub open spec fn pattern_matches(p: Seq<char>, w: Seq<char>) -> bool {
    &&& p.len() == w.len()
    &&& forall|k: int| 0 <= k < p.len() ==> p[k] == ' ' || p[k] == w[k]
}

impl TrieNode {
    /// Child labels are unique at every node.
    pub open spec fn wf(self) -> bool
        decreases self,
    {
        &&& (forall|i: int, j: int|
            0 <= i < j < self.children@.len() ==> (#[trigger] self.children@[i]).0 != (
            #[trigger] self.children@[j]).0)
        &&& (forall|i: int|
            0 <= i < self.children@.len() ==> (#[trigger] self.children@[i]).1.wf())
    }

    /// The path spelled by `w` ends at a terminal node.
    pub open spec fn contains_word(self, w: Seq<char>) -> bool
        decreases w.len(),
    {
        if w.len() == 0 {
            self.terminal
        } else {
            match seq_child(self.children@, w[0]) {
                None => false,
                Some(child) => child.contains_word(w.drop_first()),
            }
        }
    }

    /// The weight stored for `w`, or 0 when `w` is absent or weightless.
    pub open spec fn word_weight(self, w: Seq<char>) -> i32
        decreases w.len(),
    {
        if w.len() == 0 {
            match self.weight {
                Some(x) => x,
                None => 0,
            }
        } else {
            match seq_child(self.children@, w[0]) {
                None => 0,
                Some(child) => child.word_weight(w.drop_first()),
            }
        }
    }

    /// `w` is a dictionary word accepted by the pattern `p`.
    pub open spec fn match_in(self, p: Seq<char>, w: Seq<char>) -> bool {
        pattern_matches(p, w) && self.contains_word(w)
    }

    /// Some dictionary word matches the pattern.
    pub open spec fn pattern_valid(self, p: Seq<char>) -> bool {
        exists|w: Seq<char>| self.match_in(p, w)
    }
}

proof fn lemma_seq_child_index(s: Seq<(char, TrieNode)>, ch: char)
    ensures
        match seq_child(s, ch) {
            Some(t) => exists|i: int|
                0 <= i < s.len() && (#[trigger] s[i]).0 == ch && s[i].1 == t,
            None => forall|i: int| 0 <= i < s.len() ==> (#[trigger] s[i]).0 != ch,
        },
    decreases s.len(),
{
    if s.len() == 0 {
    } else if s[0].0 == ch {
        assert(s[0].0 == ch && s[0].1 == seq_child(s, ch)->Some_0);
    } else {
        lemma_seq_child_index(s.drop_first(), ch);
        match seq_child(s.drop_first(), ch) {
            Some(t) => {
                let i = choose|i: int|
                    0 <= i < s.drop_first().len() && (#[trigger] s.drop_first()[i]).0 == ch
                        && s.drop_first()[i].1 == t;
                assert(s[i + 1].0 == ch && s[i + 1].1 == t);
            },
            None => {
                assert forall|i: int| 0 <= i < s.len() implies (#[trigger] s[i]).0 != ch by {
                    if i > 0 {
                        assert(s.drop_first()[i - 1] == s[i]);
                    }
                }
            },
        }
    }
}

/// With unique labels, looking up the label of entry `i` finds entry `i`.
proof fn lemma_seq_child_at(s: Seq<(char, TrieNode)>, i: int)
    requires
        forall|a: int, b: int|
            0 <= a < b < s.len() ==> (#[trigger] s[a]).0 != (#[trigger] s[b]).0,
        0 <= i < s.len(),
    ensures
        seq_child(s, s[i].0) == Some(s[i].1),
    decreases s.len(),
{
    if i == 0 {
    } else {
        assert(s[0].0 != s[i].0);
        assert forall|a: int, b: int|
            0 <= a < b < s.drop_first().len() implies (#[trigger] s.drop_first()[a]).0 != (
        #[trigger] s.drop_first()[b]).0 by {
            assert(s.drop_first()[a] == s[a + 1]);
            assert(s.drop_first()[b] == s[b + 1]);
        }
        assert(s.drop_first()[i - 1] == s[i]);
        lemma_seq_child_at(s.drop_first(), i - 1);
    }
}

proof fn lemma_seq_child_update_at(s: Seq<(char, TrieNode)>, i: int, v: (char, TrieNode), ch: char)
    requires
        0 <= i < s.len(),
        v.0 == s[i].0,
        forall|a: int, b: int|
            0 <= a < b < s.len() ==> (#[trigger] s[a]).0 != (#[trigger] s[b]).0,
    ensures
        seq_child(s.update(i, v), ch) == if ch == v.0 {
            Some(v.1)
        } else {
            seq_child(s, ch)
        },
    decreases s.len(),
{
    let s2 = s.update(i, v);
    assert(s2.len() == s.len());
    if i == 0 {
        assert(s2[0] == v);
        assert(s2.drop_first() =~= s.drop_first());
    } else {
        assert(s2[0] == s[0]);
        assert(s2.drop_first() =~= s.drop_first().update(i - 1, v));
        assert forall|a: int, b: int|
            0 <= a < b < s.drop_first().len() implies (#[trigger] s.drop_first()[a]).0 != (
        #[trigger] s.drop_first()[b]).0 by {
            assert(s.drop_first()[a] == s[a + 1]);
            assert(s.drop_first()[b] == s[b + 1]);
        }
        assert(s.drop_first()[i - 1] == s[i]);
        lemma_seq_child_update_at(s.drop_first(), i - 1, v, ch);
        if ch == v.0 {
            assert(s[0].0 != s[i].0);
            assert(seq_child(s2, ch) == seq_child(s2.drop_first(), ch));
        }
    }
}

proof fn lemma_seq_child_update(s: Seq<(char, TrieNode)>, i: int, v: (char, TrieNode))
    requires
        0 <= i < s.len(),
        v.0 == s[i].0,
        forall|a: int, b: int|
            0 <= a < b < s.len() ==> (#[trigger] s[a]).0 != (#[trigger] s[b]).0,
    ensures
        forall|ch: char|
            #[trigger] seq_child(s.update(i, v), ch) == if ch == v.0 {
                Some(v.1)
            } else {
                seq_child(s, ch)
            },
{
    assert forall|ch: char|
        #[trigger] seq_child(s.update(i, v), ch) == if ch == v.0 {
            Some(v.1)
        } else {
            seq_child(s, ch)
        } by {
        lemma_seq_child_update_at(s, i, v, ch);
    }
}

proof fn lemma_seq_child_push_at(s: Seq<(char, TrieNode)>, v: (char, TrieNode), ch: char)
    requires
        forall|i: int| 0 <= i < s.len() ==> (#[trigger] s[i]).0 != v.0,
    ensures
        seq_child(s.push(v), ch) == if ch == v.0 {
            Some(v.1)
        } else {
            seq_child(s, ch)
        },
    decreases s.len(),
{
    if s.len() == 0 {
        assert(s.push(v)[0] == v);
        assert(s.push(v).drop_first() =~= Seq::<(char, TrieNode)>::empty());
        if ch != v.0 {
            assert(seq_child(Seq::<(char, TrieNode)>::empty(), ch) is None);
            assert(seq_child(s.push(v), ch) is None);
            assert(seq_child(s, ch) is None);
        }
    } else {
        assert forall|i: int|
            0 <= i < s.drop_first().len() implies (#[trigger] s.drop_first()[i]).0 != v.0 by {
            assert(s.drop_first()[i] == s[i + 1]);
        }
        lemma_seq_child_push_at(s.drop_first(), v, ch);
        assert(s.push(v)[0] == s[0]);
        assert(s.push(v).drop_first() =~= s.drop_first().push(v));
        assert(s[0].0 != v.0);
        if ch == v.0 {
            assert(seq_child(s.push(v), ch) == seq_child(s.drop_first().push(v), ch));
            assert(seq_child(s.drop_first().push(v), ch) == Some(v.1));
        } else if s[0].0 == ch {
            assert(seq_child(s.push(v), ch) == Some(s[0].1));
            assert(seq_child(s, ch) == Some(s[0].1));
        } else {
            assert(seq_child(s.push(v), ch) == seq_child(s.drop_first().push(v), ch));
            assert(seq_child(s, ch) == seq_child(s.drop_first(), ch));
        }
    }
}

proof fn lemma_seq_child_push(s: Seq<(char, TrieNode)>, v: (char, TrieNode))
    requires
        forall|i: int| 0 <= i < s.len() ==> (#[trigger] s[i]).0 != v.0,
    ensures
        forall|ch: char|
            #[trigger] seq_child(s.push(v), ch) == if ch == v.0 {
                Some(v.1)
            } else {
                seq_child(s, ch)
            },
{
    assert forall|ch: char|
        #[trigger] seq_child(s.push(v), ch) == if ch == v.0 {
            Some(v.1)
        } else {
            seq_child(s, ch)
        } by {
        lemma_seq_child_push_at(s, v, ch);
    }
}


/// A word that starts with `word[i]` and continues as `word[i+1..]` is `word[i..]`.
proof fn lemma_cons_eq(w: Seq<char>, word: Seq<char>, i: int)
    requires
        0 <= i < word.len(),
        w.len() > 0,
        w[0] == word[i],
        w.drop_first() == word.skip(i + 1),
    ensures
        w == word.skip(i),
{
    assert(w.drop_first().len() == w.len() - 1);
    assert(word.skip(i + 1).len() == word.len() - i - 1);
    assert(w.len() == word.skip(i).len());
    assert forall|k: int| 0 <= k < w.len() implies w[k] == word.skip(i)[k] by {
        if k > 0 {
            assert(w.drop_first()[k - 1] == word.skip(i + 1)[k - 1]);
            assert(w.drop_first()[k - 1] == w[k]);
            assert(word.skip(i + 1)[k - 1] == word[i + k]);
            assert(word.skip(i)[k] == word[i + k]);
        }
    }
    assert(w =~= word.skip(i));
}

/// Find the position of the child labelled `ch`.
fn find_child(children: &Vec<(char, TrieNode)>, ch: char) -> (r: Option<usize>)
    ensures
        match r {
            Some(idx) => {
                &&& 0 <= idx < children@.len()
                &&& children@[idx as int].0 == ch
                &&& seq_child(children@, ch) == Some(children@[idx as int].1)
            },
            None => seq_child(children@, ch) is None,
        },
{
    let n = children.len();
    let mut idx: usize = 0;
    proof {
        assert(children@.skip(0) =~= children@);
    }
    while idx < n
        invariant
            n == children@.len(),
            idx <= n,
            seq_child(children@, ch) == seq_child(children@.skip(idx as int), ch),
            forall|i: int| 0 <= i < idx ==> (#[trigger] children@[i]).0 != ch,
        decreases n - idx,
    {
        if children[idx].0 == ch {
            proof {
                assert(children@.skip(idx as int)[0] == children@[idx as int]);
            }
            return Some(idx);
        }
        proof {
            assert(children@.skip(idx as int)[0] == children@[idx as int]);
            assert(children@.skip(idx as int).drop_first() =~= children@.skip(idx as int + 1));
        }
        idx += 1;
    }
    proof {
        assert(children@.skip(n as int).len() == 0);
    }
    None
}

impl TrieNode {
    /// A node with no children, not terminal: contains nothing.
    pub proof fn lemma_empty_node(self)
        requires
            self.children@.len() == 0,
            !self.terminal,
            self.weight is None,
        ensures
            forall|w: Seq<char>| !(#[trigger] self.contains_word(w)),
            forall|w: Seq<char>| #[trigger] self.word_weight(w) == 0,
    {
        assert forall|w: Seq<char>| !(#[trigger] self.contains_word(w)) by {
            if w.len() > 0 {
                assert(seq_child(self.children@, w[0]) is None);
            }
        }
        assert forall|w: Seq<char>| #[trigger] self.word_weight(w) == 0 by {
            if w.len() > 0 {
                assert(seq_child(self.children@, w[0]) is None);
            }
        }
    }

    /// Walks or extends the trie along `word[i..]`, marking the final node
    /// terminal with the given weight (overwriting any prior weight).
    fn add(self, word: &Vec<char>, i: usize, weight: i32) -> (r: TrieNode)
        requires
            self.wf(),
            i <= word@.len(),
        ensures
            r.wf(),
            forall|w: Seq<char>| #[trigger]
                r.contains_word(w) <==> (self.contains_word(w) || w == word@.skip(i as int)),
            r.word_weight(word@.skip(i as int)) == weight,
            forall|w: Seq<char>|
                w != word@.skip(i as int) ==> #[trigger] r.word_weight(w) == self.word_weight(w),
        decreases word@.len() - i,
    {
        let ghost suffix = word@.skip(i as int);
        let mut node = self;
        if i == word.len() {
            node.terminal = true;
            node.weight = Some(weight);
            proof {
                assert(suffix =~= Seq::<char>::empty());
                assert forall|w: Seq<char>| #[trigger]
                    node.contains_word(w) <==> (self.contains_word(w) || w == suffix) by {
                    if w.len() == 0 {
                        assert(w =~= suffix);
                    } else {
                        assert(node.contains_word(w) == self.contains_word(w));
                        assert(w != suffix);
                    }
                }
                assert forall|w: Seq<char>|
                    w != suffix implies #[trigger] node.word_weight(w) == self.word_weight(w) by {
                    if w.len() == 0 {
                        assert(w =~= Seq::<char>::empty());
                    }
                }
            }
            node
        } else {
            let ch = word[i];
            proof {
                assert(suffix.len() > 0);
                assert(suffix[0] == word@[i as int]);
                assert(suffix.drop_first() =~= word@.skip(i as int + 1));
            }
            match find_child(&node.children, ch) {
                Some(idx) => {
                    let ghost old_children = node.children@;
                    let (c0, child) = node.children.remove(idx);
                    let new_child = child.add(word, i + 1, weight);
                    node.children.insert(idx, (c0, new_child));
                    proof {
                        assert(node.children@ =~= old_children.update(idx as int, (c0, new_child)));
                        lemma_seq_child_update(old_children, idx as int, (c0, new_child));
                        self.lemma_add_step(node, ch, child, new_child, word@, i as int, weight);
                    }
                    node
                },
                None => {
                    let empty_node = TrieNode { children: Vec::new(), terminal: false, weight: None };
                    proof {
                        empty_node.lemma_empty_node();
                    }
                    let new_child = empty_node.add(word, i + 1, weight);
                    let ghost old_children = node.children@;
                    proof {
                        lemma_seq_child_index(old_children, ch);
                    }
                    node.children.push((ch, new_child));
                    proof {
                        lemma_seq_child_push(old_children, (ch, new_child));
                        self.lemma_add_step_new(node, ch, new_child, word@, i as int, weight);
                    }
                    node
                },
            }
        }
    }

    /// Shared postcondition argument for both `add` branches: `node` differs
    /// from `self` only in that the child at `ch` went from `child` (or
    /// nothing) to `new_child`.
    proof fn lemma_add_step(
        self,
        node: TrieNode,
        ch: char,
        child: TrieNode,
        new_child: TrieNode,
        word: Seq<char>,
        i: int,
        weight: i32,
    )
        requires
            0 <= i < word.len(),
            ch == word[i],
            node.terminal == self.terminal,
            node.weight == self.weight,
            forall|c: char| #[trigger]
                seq_child(node.children@, c) == if c == ch {
                    Some(new_child)
                } else {
                    seq_child(self.children@, c)
                },
            seq_child(self.children@, ch) == Some(child),
            forall|w: Seq<char>| #[trigger]
                new_child.contains_word(w) <==> (child.contains_word(w) || w == word.skip(i + 1)),
            new_child.word_weight(word.skip(i + 1)) == weight,
            forall|w: Seq<char>|
                w != word.skip(i + 1) ==> #[trigger] new_child.word_weight(w)
                    == child.word_weight(w),
        ensures
            forall|w: Seq<char>| #[trigger]
                node.contains_word(w) <==> (self.contains_word(w) || w == word.skip(i)),
            node.word_weight(word.skip(i)) == weight,
            forall|w: Seq<char>|
                w != word.skip(i) ==> #[trigger] node.word_weight(w) == self.word_weight(w),
    {
        let suffix = word.skip(i);
        assert(suffix.len() > 0);
        assert(suffix[0] == ch);
        assert(suffix.drop_first() =~= word.skip(i + 1));
        assert(seq_child(node.children@, ch) == Some(new_child));
        assert forall|w: Seq<char>| #[trigger]
            node.contains_word(w) <==> (self.contains_word(w) || w == suffix) by {
            if w.len() == 0 {
                assert(w != suffix);
            } else if w[0] == ch {
                assert(node.contains_word(w) == new_child.contains_word(w.drop_first()));
                assert(self.contains_word(w) == child.contains_word(w.drop_first()));
                assert(new_child.contains_word(w.drop_first()) <==> (child.contains_word(
                    w.drop_first(),
                ) || w.drop_first() == word.skip(i + 1)));
                if w.drop_first() == word.skip(i + 1) {
                    lemma_cons_eq(w, word, i);
                }
                if w == suffix {
                    assert(w.drop_first() == word.skip(i + 1));
                }
            } else {
                assert(w != suffix);
                assert(seq_child(node.children@, w[0]) == seq_child(self.children@, w[0]));
            }
        }
        assert(suffix[0] == ch && suffix.drop_first() == word.skip(i + 1));
        assert(node.word_weight(suffix) == new_child.word_weight(word.skip(i + 1)));
        assert forall|w: Seq<char>|
            w != suffix implies #[trigger] node.word_weight(w) == self.word_weight(w) by {
            if w.len() > 0 && w[0] == ch {
                assert(node.word_weight(w) == new_child.word_weight(w.drop_first()));
                assert(self.word_weight(w) == child.word_weight(w.drop_first()));
                assert(w.drop_first() != word.skip(i + 1)) by {
                    if w.drop_first() == word.skip(i + 1) {
                        lemma_cons_eq(w, word, i);
                    }
                }
            } else if w.len() > 0 {
                assert(seq_child(node.children@, w[0]) == seq_child(self.children@, w[0]));
            }
        }
    }

    /// As `lemma_add_step`, for the branch that grows a fresh child where
    /// the node had none labelled `ch`.
    proof fn lemma_add_step_new(
        self,
        node: TrieNode,
        ch: char,
        new_child: TrieNode,
        word: Seq<char>,
        i: int,
        weight: i32,
    )
        requires
            0 <= i < word.len(),
            ch == word[i],
            node.terminal == self.terminal,
            node.weight == self.weight,
            forall|c: char| #[trigger]
                seq_child(node.children@, c) == if c == ch {
                    Some(new_child)
                } else {
                    seq_child(self.children@, c)
                },
            seq_child(self.children@, ch) is None,
            forall|w: Seq<char>| #[trigger] new_child.contains_word(w) <==> w == word.skip(i + 1),
            new_child.word_weight(word.skip(i + 1)) == weight,
            forall|w: Seq<char>|
                w != word.skip(i + 1) ==> #[trigger] new_child.word_weight(w) == 0,
        ensures
            forall|w: Seq<char>| #[trigger]
                node.contains_word(w) <==> (self.contains_word(w) || w == word.skip(i)),
            node.word_weight(word.skip(i)) == weight,
            forall|w: Seq<char>|
                w != word.skip(i) ==> #[trigger] node.word_weight(w) == self.word_weight(w),
    {
        let suffix = word.skip(i);
        assert(suffix.len() > 0);
        assert(suffix[0] == ch);
        assert(suffix.drop_first() =~= word.skip(i + 1));
        assert(seq_child(node.children@, ch) == Some(new_child));
        assert forall|w: Seq<char>| #[trigger]
            node.contains_word(w) <==> (self.contains_word(w) || w == suffix) by {
            if w.len() == 0 {
                assert(w != suffix);
            } else if w[0] == ch {
                assert(node.contains_word(w) == new_child.contains_word(w.drop_first()));
                assert(!self.contains_word(w));
                if w.drop_first() == word.skip(i + 1) {
                    lemma_cons_eq(w, word, i);
                }
                if w == suffix {
                    assert(w.drop_first() == word.skip(i + 1));
                }
            } else {
                assert(w != suffix);
                assert(seq_child(node.children@, w[0]) == seq_child(self.children@, w[0]));
            }
        }
        assert(suffix[0] == ch && suffix.drop_first() == word.skip(i + 1));
        assert(node.word_weight(suffix) == new_child.word_weight(word.skip(i + 1)));
        assert forall|w: Seq<char>|
            w != suffix implies #[trigger] node.word_weight(w) == self.word_weight(w) by {
            if w.len() > 0 && w[0] == ch {
                assert(node.word_weight(w) == new_child.word_weight(w.drop_first()));
                assert(self.word_weight(w) == 0);
                assert(w.drop_first() != word.skip(i + 1)) by {
                    if w.drop_first() == word.skip(i + 1) {
                        lemma_cons_eq(w, word, i);
                    }
                }
            } else if w.len() > 0 {
                assert(seq_child(node.children@, w[0]) == seq_child(self.children@, w[0]));
            }
        }
    }
}


/// A word list entry produced for prefix `prefix` and pattern suffix `p`:
/// its word extends `prefix` by a match for `p`, and it carries that match's
/// dictionary weight.
pub open spec fn added_entry_ok(
    n: TrieNode,
    p: Seq<char>,
    prefix: Seq<char>,
    entry: (i32, Vec<char>),
) -> bool {
    &&& entry.1@.len() == prefix.len() + p.len()
    &&& entry.1@.take(prefix.len() as int) == prefix
    &&& n.match_in(p, entry.1@.skip(prefix.len() as int))
    &&& entry.0 == n.word_weight(entry.1@.skip(prefix.len() as int))
}

/// Some entry at index `from` or later holds exactly the word `w`.
pub open spec fn has_entry(entries: Seq<(i32, Vec<char>)>, from: int, w: Seq<char>) -> bool {
    exists|j: int| from <= j < entries.len() && (#[trigger] entries[j]).1@ == w
}

/// Splitting a suffix at its first character.
proof fn lemma_skip_cons(w: Seq<char>, m: int)
    requires
        0 <= m < w.len(),
    ensures
        w.skip(m) == seq![w[m]] + w.skip(m + 1),
{
    let lhs = w.skip(m);
    let rhs = seq![w[m]] + w.skip(m + 1);
    assert(lhs.len() == rhs.len());
    assert forall|k: int| 0 <= k < lhs.len() implies lhs[k] == rhs[k] by {
        if k > 0 {
            assert(w.skip(m + 1)[k - 1] == w[m + k]);
        }
    }
    assert(lhs =~= rhs);
}

impl TrieNode {
    /// Lifting a child match through an edge labelled `ch`.
    proof fn lemma_match_cons(self, p: Seq<char>, ch: char, child: TrieNode, s: Seq<char>)
        requires
            p.len() > 0,
            p[0] == ' ' || p[0] == ch,
            seq_child(self.children@, ch) == Some(child),
            child.match_in(p.drop_first(), s),
        ensures
            self.match_in(p, seq![ch] + s),
            self.word_weight(seq![ch] + s) == child.word_weight(s),
    {
        let w = seq![ch] + s;
        assert(w[0] == ch);
        assert(w.drop_first() =~= s);
        assert(w.len() == s.len() + 1);
        assert(p.drop_first().len() == p.len() - 1);
        assert forall|k: int| 0 <= k < p.len() implies p[k] == ' ' || p[k] == w[k] by {
            if k > 0 {
                assert(p.drop_first()[k - 1] == p[k]);
                assert(w[k] == s[k - 1]);
            }
        }
        assert(self.contains_word(w) == child.contains_word(w.drop_first()));
        assert(self.word_weight(w) == child.word_weight(w.drop_first()));
    }

    /// Lowering a match at this node to a match at the child its word enters.
    proof fn lemma_match_uncons(self, p: Seq<char>, w: Seq<char>)
        requires
            p.len() > 0,
            self.match_in(p, w),
        ensures
            w.len() > 0,
            p[0] == ' ' || p[0] == w[0],
            seq_child(self.children@, w[0]) is Some,
            (seq_child(self.children@, w[0])->Some_0).match_in(p.drop_first(), w.drop_first()),
    {
        assert(p[0] == ' ' || p[0] == w[0]);
        let child = seq_child(self.children@, w[0])->Some_0;
        assert(child.contains_word(w.drop_first()));
        assert(p.drop_first().len() == p.len() - 1);
        assert(w.drop_first().len() == w.len() - 1);
        assert forall|k: int|
            0 <= k < p.drop_first().len() implies p.drop_first()[k] == ' ' || p.drop_first()[k]
            == w.drop_first()[k] by {
            assert(p.drop_first()[k] == p[k + 1]);
            assert(w.drop_first()[k] == w[k + 1]);
        }
    }

    /// Depth-first enumeration: extends `result` with one entry for every
    /// dictionary word that matches `pattern[i..]` below this node, each
    /// prefixed by the path `partial`; `partial` is restored on return.
    fn fill_words(
        &self,
        pattern: &Vec<char>,
        i: usize,
        partial: &mut Vec<char>,
        result: &mut Vec<(i32, Vec<char>)>,
    )
        requires
            self.wf(),
            i <= pattern@.len(),
        ensures
            final(partial)@ == old(partial)@,
            final(result)@.len() >= old(result)@.len(),
            forall|j: int| 0 <= j < old(result)@.len() ==> final(result)@[j] == old(result)@[j],
            forall|j: int|
                old(result)@.len() <= j < final(result)@.len() ==> added_entry_ok(
                    *self,
                    pattern@.skip(i as int),
                    old(partial)@,
                    #[trigger] final(result)@[j],
                ),
            forall|s: Seq<char>|
                #[trigger] self.match_in(pattern@.skip(i as int), s) ==> has_entry(
                    final(result)@,
                    old(result)@.len() as int,
                    old(partial)@ + s,
                ),
            forall|j1: int, j2: int|
                old(result)@.len() <= j1 < j2 < final(result)@.len() ==> (
                #[trigger] final(result)@[j1]).1@ != (#[trigger] final(result)@[j2]).1@,
        decreases pattern@.len() - i,
    {
        let ghost p_suf = pattern@.skip(i as int);
        let ghost partial0 = partial@;
        let ghost base = result@;
        let pattern_len = pattern.len();
        if i == pattern_len {
            proof {
                assert(p_suf =~= Seq::<char>::empty());
            }
            if self.terminal {
                let wt: i32 = match self.weight {
                    Some(x) => x,
                    None => 0,
                };
                let copy = vec_chars_copy(partial);
                result.push((wt, copy));
                proof {
                    let entry = (wt, copy);
                    assert(result@ =~= base.push(entry));
                    assert(entry.1@.skip(partial0.len() as int) =~= Seq::<char>::empty());
                    assert(entry.1@.take(partial0.len() as int) =~= partial0);
                    assert(pattern_matches(p_suf, Seq::<char>::empty()));
                    assert(added_entry_ok(*self, p_suf, partial0, entry));
                    assert forall|s: Seq<char>|
                        #[trigger] self.match_in(p_suf, s) implies has_entry(
                        result@,
                        base.len() as int,
                        partial0 + s,
                    ) by {
                        assert(s.len() == 0);
                        assert(s =~= Seq::<char>::empty());
                        assert(partial0 + s =~= partial0);
                        assert(result@[base.len() as int].1@ == partial0 + s);
                    }
                }
            } else {
                proof {
                    assert forall|s: Seq<char>|
                        #[trigger] self.match_in(p_suf, s) implies has_entry(
                        result@,
                        base.len() as int,
                        partial0 + s,
                    ) by {
                        assert(s.len() == 0);
                        assert(s =~= Seq::<char>::empty());
                        assert(!self.contains_word(s));
                    }
                }
            }
        } else {
            let pc = pattern[i];
            proof {
                assert(i < pattern_len);
                assert(p_suf.len() == pattern@.len() - i);
                assert(p_suf[0] == pattern@[i as int]);
                assert(p_suf.drop_first() =~= pattern@.skip(i as int + 1));
            }
            if pc == ' ' {
                let n_children = self.children.len();
                let mut ci: usize = 0;
                while ci < n_children
                    invariant
                        self.wf(),
                        pattern_len == pattern@.len(),
                        i < pattern_len,
                        pattern@[i as int] == ' ',
                        p_suf == pattern@.skip(i as int),
                        p_suf.len() == pattern@.len() - i,
                        p_suf[0] == ' ',
                        p_suf.drop_first() == pattern@.skip(i as int + 1),
                        n_children == self.children@.len(),
                        ci <= n_children,
                        partial@ == partial0,
                        result@.len() >= base.len(),
                        forall|j: int| 0 <= j < base.len() ==> result@[j] == base[j],
                        forall|j: int|
                            base.len() <= j < result@.len() ==> added_entry_ok(
                                *self,
                                p_suf,
                                partial0,
                                #[trigger] result@[j],
                            ),
                        forall|s: Seq<char>|
                            self.match_in(p_suf, s) && (exists|m: int|
                                0 <= m < ci && (#[trigger] self.children@[m]).0 == s[0]) ==> #[trigger] has_entry(
                                result@,
                                base.len() as int,
                                partial0 + s,
                            ),
                        forall|j1: int, j2: int|
                            base.len() <= j1 < j2 < result@.len() ==> (#[trigger] result@[j1]).1@
                                != (#[trigger] result@[j2]).1@,
                        forall|j: int|
                            base.len() <= j < result@.len() ==> exists|m2: int|
                                0 <= m2 < ci && (#[trigger] result@[j]).1@[partial0.len() as int]
                                    == (#[trigger] self.children@[m2]).0,
                    decreases n_children - ci,
                {
                    let ghost res_before = result@;
                    let ch = self.children[ci].0;
                    let ghost child_g = self.children@[ci as int].1;
                    partial.push(ch);
                    proof {
                        assert(self.children@[ci as int].1.wf());
                        lemma_seq_child_at(self.children@, ci as int);
                    }
                    let child = &self.children[ci].1;
                    child.fill_words(pattern, i + 1, partial, result);
                    let _popped = partial.pop();
                    proof {
                        assert(partial@ =~= partial0);
                        let prefix1 = partial0.push(ch);
                        assert(prefix1.len() == partial0.len() + 1);
                        // soundness of the entries this child added
                        assert forall|j: int|
                            res_before.len() <= j < result@.len() implies added_entry_ok(
                            *self,
                            p_suf,
                            partial0,
                            #[trigger] result@[j],
                        ) by {
                            let entry = result@[j];
                            let w = entry.1@;
                            let m = partial0.len() as int;
                            assert(added_entry_ok(
                                child_g,
                                pattern@.skip(i as int + 1),
                                prefix1,
                                entry,
                            ));
                            assert(w.take(m + 1) == prefix1);
                            assert(w.take(m) =~= prefix1.take(m));
                            assert(prefix1.take(m) =~= partial0);
                            assert(w[m] == w.take(m + 1)[m]);
                            assert(w[m] == ch);
                            lemma_skip_cons(w, m);
                            self.lemma_match_cons(p_suf, ch, child_g, w.skip(m + 1));
                            assert(w.skip(m) == seq![ch] + w.skip(m + 1));
                        }
                        // each added word enters through this child's label
                        assert forall|j: int|
                            base.len() <= j < result@.len() implies exists|m2: int|
                            0 <= m2 < ci + 1 && (#[trigger] result@[j]).1@[partial0.len() as int]
                                == (#[trigger] self.children@[m2]).0 by {
                            if j < res_before.len() {
                                let m2 = choose|m2: int|
                                    0 <= m2 < ci && (#[trigger] res_before[j]).1@[partial0.len() as int]
                                        == (#[trigger] self.children@[m2]).0;
                                assert(result@[j] == res_before[j]);
                                assert(result@[j].1@[partial0.len() as int]
                                    == self.children@[m2].0);
                            } else {
                                let entry = result@[j];
                                let w = entry.1@;
                                let m = partial0.len() as int;
                                assert(added_entry_ok(
                                    child_g,
                                    pattern@.skip(i as int + 1),
                                    prefix1,
                                    entry,
                                ));
                                assert(w.take(m + 1) == prefix1);
                                assert(w[m] == w.take(m + 1)[m]);
                                assert(w[m] == ch);
                                assert(self.children@[ci as int].0 == ch);
                            }
                        }
                        // added words are pairwise distinct: the child's own
                        // batch is distinct, and earlier batches differ at
                        // the branch position by label uniqueness
                        assert forall|j1: int, j2: int|
                            base.len() <= j1 < j2 < result@.len() implies (
                        #[trigger] result@[j1]).1@ != (#[trigger] result@[j2]).1@ by {
                            let m = partial0.len() as int;
                            if j2 < res_before.len() {
                                assert(result@[j1] == res_before[j1]);
                                assert(result@[j2] == res_before[j2]);
                            } else if j1 >= res_before.len() {
                            } else {
                                let m2 = choose|m2: int|
                                    0 <= m2 < ci && (#[trigger] res_before[j1]).1@[m] == (
                                    #[trigger] self.children@[m2]).0;
                                assert(result@[j1] == res_before[j1]);
                                let entry = result@[j2];
                                let w = entry.1@;
                                assert(added_entry_ok(
                                    child_g,
                                    pattern@.skip(i as int + 1),
                                    prefix1,
                                    entry,
                                ));
                                assert(w.take(m + 1) == prefix1);
                                assert(w[m] == w.take(m + 1)[m]);
                                assert(w[m] == ch);
                                assert(self.children@[ci as int].0 == ch);
                                assert(self.children@[m2].0 != ch);
                                assert(result@[j1].1@[m] != w[m]);
                            }
                        }
                        // completeness so far
                        assert forall|s: Seq<char>|
                            self.match_in(p_suf, s) && (exists|m: int|
                                0 <= m < ci + 1 && (#[trigger] self.children@[m]).0 == s[0])
                            implies #[trigger] has_entry(
                            result@,
                            base.len() as int,
                            partial0 + s,
                        ) by {
                            let m = choose|m: int|
                                0 <= m < ci + 1 && (#[trigger] self.children@[m]).0 == s[0];
                            self.lemma_match_uncons(p_suf, s);
                            if m < ci {
                                assert(has_entry(res_before, base.len() as int, partial0 + s));
                                let j = choose|j: int|
                                    base.len() <= j < res_before.len() && (#[trigger] res_before[j]).1@
                                        == partial0 + s;
                                assert(result@[j] == res_before[j]);
                            } else {
                                assert(self.children@[ci as int].0 == s[0]);
                                assert(s[0] == ch);
                                lemma_seq_child_at(self.children@, ci as int);
                                assert(seq_child(self.children@, s[0]) == Some(child_g));
                                assert(child_g.match_in(
                                    pattern@.skip(i as int + 1),
                                    s.drop_first(),
                                ));
                                assert(has_entry(
                                    result@,
                                    res_before.len() as int,
                                    prefix1 + s.drop_first(),
                                ));
                                assert(prefix1 + s.drop_first() =~= partial0 + s) by {
                                    assert(s =~= seq![s[0]] + s.drop_first());
                                }
                                let j = choose|j: int|
                                    res_before.len() <= j < result@.len() && (#[trigger] result@[j]).1@
                                        == prefix1 + s.drop_first();
                                assert(base.len() <= j < result@.len());
                                assert(result@[j].1@ == partial0 + s);
                            }
                        }
                    }
                    ci += 1;
                }
                proof {
                    // every matching word enters through some child
                    assert forall|s: Seq<char>|
                        #[trigger] self.match_in(p_suf, s) implies has_entry(
                        result@,
                        base.len() as int,
                        partial0 + s,
                    ) by {
                        self.lemma_match_uncons(p_suf, s);
                        lemma_seq_child_index(self.children@, s[0]);
                    }
                }
            } else {
                match find_child(&self.children, pc) {
                    Some(idx) => {
                        let ghost child_g = self.children@[idx as int].1;
                        partial.push(pc);
                        proof {
                            assert(self.children@[idx as int].1.wf());
                        }
                        let child = &self.children[idx].1;
                        child.fill_words(pattern, i + 1, partial, result);
                        let _popped = partial.pop();
                        proof {
                            assert(partial@ =~= partial0);
                            let prefix1 = partial0.push(pc);
                            assert(prefix1.len() == partial0.len() + 1);
                            assert forall|j: int|
                                base.len() <= j < result@.len() implies added_entry_ok(
                                *self,
                                p_suf,
                                partial0,
                                #[trigger] result@[j],
                            ) by {
                                let entry = result@[j];
                                let w = entry.1@;
                                let m = partial0.len() as int;
                                assert(added_entry_ok(
                                    child_g,
                                    pattern@.skip(i as int + 1),
                                    prefix1,
                                    entry,
                                ));
                                assert(w.take(m + 1) == prefix1);
                                assert(w.take(m) =~= prefix1.take(m));
                                assert(prefix1.take(m) =~= partial0);
                                assert(w[m] == w.take(m + 1)[m]);
                                assert(w[m] == pc);
                                lemma_skip_cons(w, m);
                                self.lemma_match_cons(p_suf, pc, child_g, w.skip(m + 1));
                                assert(w.skip(m) == seq![pc] + w.skip(m + 1));
                            }
                            assert forall|s: Seq<char>|
                                #[trigger] self.match_in(p_suf, s) implies has_entry(
                                result@,
                                base.len() as int,
                                partial0 + s,
                            ) by {
                                self.lemma_match_uncons(p_suf, s);
                                assert(s[0] == pc);
                                assert(seq_child(self.children@, s[0]) == Some(child_g));
                                assert(child_g.match_in(
                                    pattern@.skip(i as int + 1),
                                    s.drop_first(),
                                ));
                                assert(has_entry(
                                    result@,
                                    base.len() as int,
                                    prefix1 + s.drop_first(),
                                ));
                                assert(prefix1 + s.drop_first() =~= partial0 + s) by {
                                    assert(s =~= seq![s[0]] + s.drop_first());
                                }
                                let j = choose|j: int|
                                    base.len() <= j < result@.len() && (#[trigger] result@[j]).1@
                                        == prefix1 + s.drop_first();
                                assert(result@[j].1@ == partial0 + s);
                            }
                        }
                    },
                    None => {
                        proof {
                            assert forall|s: Seq<char>|
                                #[trigger] self.match_in(p_suf, s) implies has_entry(
                                result@,
                                base.len() as int,
                                partial0 + s,
                            ) by {
                                self.lemma_match_uncons(p_suf, s);
                                assert(s[0] == pc);
                            }
                        }
                    },
                }
            }
        }
    }
}

/// Element-wise copy of a character buffer.
pub(crate) fn vec_chars_copy(v: &Vec<char>) -> (r: Vec<char>)
    ensures
        r@ == v@,
{
    let mut r: Vec<char> = Vec::new();
    let n = v.len();
    let mut i: usize = 0;
    while i < n
        invariant
            n == v@.len(),
            i <= n,
            r@ =~= v@.take(i as int),
        decreases n - i,
    {
        r.push(v[i]);
        i += 1;
    }
    proof {
        assert(v@.take(n as int) =~= v@);
    }
    r
}


impl TrieNode {
    /// Depth-first validity check: does any dictionary word below this node
    /// match `pattern[i..]`? Short-circuits on the first full match.
    fn is_valid_from(&self, pattern: &Vec<char>, i: usize) -> (r: bool)
        requires
            self.wf(),
            i <= pattern@.len(),
        ensures
            r == self.pattern_valid(pattern@.skip(i as int)),
        decreases pattern@.len() - i,
    {
        let ghost p_suf = pattern@.skip(i as int);
        let pattern_len = pattern.len();
        if i == pattern_len {
            proof {
                assert(p_suf =~= Seq::<char>::empty());
                if self.terminal {
                    assert(pattern_matches(p_suf, Seq::<char>::empty()));
                    assert(self.match_in(p_suf, Seq::<char>::empty()));
                } else {
                    assert forall|w: Seq<char>| !(#[trigger] self.match_in(p_suf, w)) by {
                        if w.len() == 0 {
                            assert(w =~= Seq::<char>::empty());
                            assert(!self.contains_word(w));
                        }
                    }
                }
            }
            self.terminal
        } else {
            let pc = pattern[i];
            proof {
                assert(i < pattern_len);
                assert(p_suf.len() == pattern@.len() - i);
                assert(p_suf[0] == pattern@[i as int]);
                assert(p_suf.drop_first() =~= pattern@.skip(i as int + 1));
            }
            if pc == ' ' {
                let n_children = self.children.len();
                let mut ci: usize = 0;
                while ci < n_children
                    invariant
                        self.wf(),
                        pattern_len == pattern@.len(),
                        i < pattern_len,
                        pattern@[i as int] == ' ',
                        p_suf == pattern@.skip(i as int),
                        p_suf.len() == pattern@.len() - i,
                        p_suf[0] == ' ',
                        p_suf.drop_first() == pattern@.skip(i as int + 1),
                        n_children == self.children@.len(),
                        ci <= n_children,
                        forall|m: int|
                            0 <= m < ci ==> !(#[trigger] self.children@[m]).1.pattern_valid(
                                pattern@.skip(i as int + 1),
                            ),
                    decreases n_children - ci,
                {
                    let ghost child_g = self.children@[ci as int].1;
                    proof {
                        assert(self.children@[ci as int].1.wf());
                    }
                    let child = &self.children[ci].1;
                    if child.is_valid_from(pattern, i + 1) {
                        proof {
                            lemma_seq_child_at(self.children@, ci as int);
                            let s = choose|s: Seq<char>| #[trigger]
                                child_g.match_in(pattern@.skip(i as int + 1), s);
                            self.lemma_match_cons(
                                p_suf,
                                self.children@[ci as int].0,
                                child_g,
                                s,
                            );
                        }
                        return true;
                    }
                    ci += 1;
                }
                proof {
                    assert forall|w: Seq<char>| !(#[trigger] self.match_in(p_suf, w)) by {
                        if self.match_in(p_suf, w) {
                            self.lemma_match_uncons(p_suf, w);
                            lemma_seq_child_index(self.children@, w[0]);
                            let m = choose|m: int|
                                0 <= m < self.children@.len() && (#[trigger] self.children@[m]).0
                                    == w[0] && self.children@[m].1 == seq_child(
                                    self.children@,
                                    w[0],
                                )->Some_0;
                            assert(self.children@[m].1.match_in(
                                pattern@.skip(i as int + 1),
                                w.drop_first(),
                            ));
                        }
                    }
                }
                false
            } else {
                match find_child(&self.children, pc) {
                    Some(idx) => {
                        let ghost child_g = self.children@[idx as int].1;
                        proof {
                            assert(self.children@[idx as int].1.wf());
                        }
                        let child = &self.children[idx].1;
                        let r = child.is_valid_from(pattern, i + 1);
                        proof {
                            if r {
                                let s = choose|s: Seq<char>| #[trigger]
                                    child_g.match_in(pattern@.skip(i as int + 1), s);
                                self.lemma_match_cons(p_suf, pc, child_g, s);
                            } else {
                                assert forall|w: Seq<char>| !(#[trigger] self.match_in(p_suf, w))
                                    by {
                                    if self.match_in(p_suf, w) {
                                        self.lemma_match_uncons(p_suf, w);
                                        assert(w[0] == pc);
                                        assert(child_g.match_in(
                                            pattern@.skip(i as int + 1),
                                            w.drop_first(),
                                        ));
                                    }
                                }
                            }
                        }
                        r
                    },
                    None => {
                        proof {
                            assert forall|w: Seq<char>| !(#[trigger] self.match_in(p_suf, w)) by {
                                if self.match_in(p_suf, w) {
                                    self.lemma_match_uncons(p_suf, w);
                                    assert(w[0] == pc);
                                }
                            }
                        }
                        false
                    },
                }
            }
        }
    }
}

/// `w` appears among the dictionary pairs.
pub open spec fn dict_contains(ws: Seq<(String, i32)>, w: Seq<char>) -> bool {
    exists|k: int| 0 <= k < ws.len() && (#[trigger] ws[k]).0@ == w
}

/// The weight of the last pair naming `w`, or 0 when none does.
pub open spec fn dict_weight(ws: Seq<(String, i32)>, w: Seq<char>) -> i32
    decreases ws.len(),
{
    if ws.len() == 0 {
        0
    } else if ws.last().0@ == w {
        ws.last().1
    } else {
        dict_weight(ws.drop_last(), w)
    }
}

/// Pairwise-distinct words survive any permutation of the pair list.
proof fn lemma_distinct_words_preserved(
    before: Seq<(i32, Vec<char>)>,
    after: Seq<(i32, Vec<char>)>,
)
    requires
        before.to_multiset() == after.to_multiset(),
        forall|j1: int, j2: int|
            0 <= j1 < j2 < before.len() ==> (#[trigger] before[j1]).1@ != (
            #[trigger] before[j2]).1@,
    ensures
        forall|j1: int, j2: int|
            0 <= j1 < j2 < after.len() ==> (#[trigger] after[j1]).1@ != (#[trigger] after[j2]).1@,
{
    broadcast use vstd::seq_lib::group_to_multiset_ensures;

    assert forall|a: int, b: int|
        0 <= a < before.len() && 0 <= b < before.len() && a != b implies before[a] != before[b] by {
        if a < b {
            assert(before[a].1@ != before[b].1@);
        } else {
            assert(before[b].1@ != before[a].1@);
        }
    }
    before.lemma_multiset_has_no_duplicates();
    after.lemma_multiset_has_no_duplicates_conv();
    assert forall|j1: int, j2: int|
        0 <= j1 < j2 < after.len() implies (#[trigger] after[j1]).1@ != (
    #[trigger] after[j2]).1@ by {
        if after[j1].1@ == after[j2].1@ {
            assert(after[j1] != after[j2]);
            assert(after.contains(after[j1]));
            assert(after.to_multiset().count(after[j1]) > 0);
            assert(before.to_multiset().count(after[j1]) > 0);
            assert(before.contains(after[j1]));
            assert(after.contains(after[j2]));
            assert(after.to_multiset().count(after[j2]) > 0);
            assert(before.to_multiset().count(after[j2]) > 0);
            assert(before.contains(after[j2]));
            let k1 = choose|k1: int| 0 <= k1 < before.len() && before[k1] == after[j1];
            let k2 = choose|k2: int| 0 <= k2 < before.len() && before[k2] == after[j2];
            assert(k1 != k2);
            if k1 < k2 {
                assert(before[k1].1@ != before[k2].1@);
            } else {
                assert(before[k2].1@ != before[k1].1@);
            }
        }
    }
}

/// What `words` must return for pattern `p`: every entry matches `p` and is
/// a dictionary word, every matching dictionary word appears exactly once,
/// and entries come ranked by weight, descending.
pub open spec fn words_result_ok(n: TrieNode, p: Seq<char>, ws: Seq<Seq<char>>) -> bool {
    &&& (forall|j: int| 0 <= j < ws.len() ==> n.match_in(p, #[trigger] ws[j]))
    &&& (forall|w: Seq<char>| #[trigger] n.match_in(p, w) ==> ws.contains(w))
    &&& (forall|j1: int, j2: int| 0 <= j1 < j2 < ws.len() ==> #[trigger] ws[j1] != #[trigger] ws[j2])
    &&& (forall|j1: int, j2: int|
        0 <= j1 < j2 < ws.len() ==> n.word_weight(#[trigger] ws[j1]) >= n.word_weight(
            #[trigger] ws[j2],
        ))
}

/// `is_valid(pattern)` is true iff `matching_words(pattern)` is non-empty,
/// for every pattern over the same dictionary.
pub proof fn lemma_valid_iff_some_word(n: TrieNode, p: Seq<char>, ws: Seq<Seq<char>>)
    requires
        words_result_ok(n, p, ws),
    ensures
        n.pattern_valid(p) <==> ws.len() > 0,
{
    if ws.len() > 0 {
        assert(n.match_in(p, ws[0]));
    }
    if n.pattern_valid(p) {
        let w = choose|w: Seq<char>| #[trigger] n.match_in(p, w);
        assert(ws.contains(w));
    }
}

/// `matching_words` never returns a word whose length differs from the
/// pattern length, and never one absent from the inserted dictionary.
pub proof fn lemma_words_sound(n: TrieNode, p: Seq<char>, ws: Seq<Seq<char>>)
    requires
        words_result_ok(n, p, ws),
    ensures
        forall|j: int|
            0 <= j < ws.len() ==> (#[trigger] ws[j]).len() == p.len() && n.contains_word(ws[j]),
{
    assert forall|j: int|
        0 <= j < ws.len() implies (#[trigger] ws[j]).len() == p.len() && n.contains_word(ws[j]) by {
        assert(n.match_in(p, ws[j]));
    }
}

/// On a blank-free pattern the validity query degenerates to dictionary
/// membership of the pattern itself: a completed, validated entry holds a
/// dictionary word.
pub proof fn lemma_full_pattern_valid(n: TrieNode, p: Seq<char>)
    requires
        forall|k: int| 0 <= k < p.len() ==> p[k] != ' ',
    ensures
        n.pattern_valid(p) <==> n.contains_word(p),
{
    if n.pattern_valid(p) {
        let w = choose|w: Seq<char>| #[trigger] n.match_in(p, w);
        assert forall|k: int| 0 <= k < p.len() implies p[k] == w[k] by {
        }
        assert(w =~= p);
    }
    if n.contains_word(p) {
        assert(pattern_matches(p, p));
        assert(n.match_in(p, p));
    }
}

/// A fully specified pattern matches exactly itself: its match list is the
/// one-element list of the pattern when the pattern is a dictionary word,
/// and empty otherwise.
pub proof fn lemma_words_of_full_pattern(n: TrieNode, p: Seq<char>, ws: Seq<Seq<char>>)
    requires
        words_result_ok(n, p, ws),
        forall|k: int| 0 <= k < p.len() ==> p[k] != ' ',
    ensures
        n.contains_word(p) ==> ws == seq![p],
        !n.contains_word(p) ==> ws == Seq::<Seq<char>>::empty(),
{
    assert forall|j: int| 0 <= j < ws.len() implies #[trigger] ws[j] == p by {
        assert(n.match_in(p, ws[j]));
        assert forall|k: int| 0 <= k < p.len() implies p[k] == ws[j][k] by {
        }
        assert(ws[j] =~= p);
    }
    if n.contains_word(p) {
        assert(pattern_matches(p, p));
        assert(n.match_in(p, p));
        assert(ws.contains(p));
        if ws.len() > 1 {
            assert(ws[0] == p && ws[1] == p);
        }
        assert(ws.len() == 1);
        assert(ws =~= seq![p]);
    } else {
        if ws.len() > 0 {
            assert(n.match_in(p, ws[0]));
            assert(ws[0] == p);
        }
        assert(ws =~= Seq::<Seq<char>>::empty());
    }
}

/// rand 0.8's thread-local generator, opaque to the verifier.
#[verifier::external_type_specification]
#[verifier::external_body]
pub struct ExThreadRng(rand::rngs::ThreadRng);

/// Relies on `rand::thread_rng`: nothing can be promised of a fresh
/// generator.
pub assume_specification[ rand::thread_rng ]() -> (r: rand::rngs::ThreadRng);

/// Relies on rand 0.8's `SliceRandom::shuffle`: an in-place permutation of
/// the slice; which permutation comes out is left unstated.
#[verifier::external_body]
fn shuffle_pairs(v: &mut Vec<(i32, Vec<char>)>, rng: &mut rand::rngs::ThreadRng)
    ensures
        final(v)@.to_multiset() == old(v)@.to_multiset(),
{
    v.shuffle(rng)
}

/// Stable only up to the randomized base order: sorts entries by weight,
/// highest first.
fn sort_pairs_desc(input: Vec<(i32, Vec<char>)>) -> (r: Vec<(i32, Vec<char>)>)
    ensures
        r@.to_multiset() == input@.to_multiset(),
        forall|a: int, b: int|
            0 <= a < b < r@.len() ==> (#[trigger] r@[a]).0 >= (#[trigger] r@[b]).0,
{
    broadcast use vstd::seq_lib::group_to_multiset_ensures;
    broadcast use vstd::multiset::group_multiset_axioms;

    let mut rest = input;
    let mut out: Vec<(i32, Vec<char>)> = Vec::new();
    proof {
        assert(out@.to_multiset().add(rest@.to_multiset()) =~= input@.to_multiset());
    }
    while rest.len() > 0
        invariant
            out@.to_multiset().add(rest@.to_multiset()) == input@.to_multiset(),
            forall|a: int, b: int|
                0 <= a < b < out@.len() ==> (#[trigger] out@[a]).0 >= (#[trigger] out@[b]).0,
            forall|a: int, b: int|
                0 <= a < out@.len() && 0 <= b < rest@.len() ==> (#[trigger] out@[a]).0 >= (
                #[trigger] rest@[b]).0,
        decreases rest@.len(),
    {
        let n = rest.len();
        let mut best: usize = 0;
        let mut bi: usize = 1;
        while bi < n
            invariant
                n == rest@.len(),
                n > 0,
                best < bi,
                bi <= n,
                forall|b: int| 0 <= b < bi ==> (#[trigger] rest@[b]).0 <= rest@[best as int].0,
            decreases n - bi,
        {
            if rest[bi].0 > rest[best].0 {
                best = bi;
            }
            bi += 1;
        }
        let ghost rest_before = rest@;
        let ghost out_before = out@;
        let item = rest.remove(best);
        out.push(item);
        proof {
            broadcast use vstd::seq_lib::group_to_multiset_ensures;
            broadcast use vstd::multiset::group_multiset_axioms;

            assert(rest@ == rest_before.remove(best as int));
            assert(item == rest_before[best as int]);
            assert(rest_before.remove(best as int).to_multiset() =~= rest_before.to_multiset()
                .remove(item));
            assert(out@ == out_before.push(item));
            assert(out_before.push(item).to_multiset() =~= out_before.to_multiset().insert(item));
            assert(rest_before.contains(item));
            assert(rest_before.to_multiset().count(item) > 0);
            assert(out@.to_multiset().add(rest@.to_multiset()) =~= input@.to_multiset());
            assert forall|b: int|
                0 <= b < rest@.len() implies item.0 >= (#[trigger] rest@[b]).0 by {
                if b < best {
                    assert(rest@[b] == rest_before[b]);
                } else {
                    assert(rest@[b] == rest_before[b + 1]);
                }
            }
        }
    }
    proof {
        assert(rest@.to_multiset() =~= Multiset::<(i32, Vec<char>)>::empty());
        assert(out@.to_multiset() =~= input@.to_multiset());
    }
    out
}

/// The word index: a trie built once from a weighted dictionary and treated
/// as read-only during search.
#[derive(Debug)]
pub struct Index {
    pub trie_root: TrieNode,
}

impl Index {
    pub open spec fn wf(self) -> bool {
        self.trie_root.wf()
    }

    /// Builds the index by inserting each `(word, weight)` pair in order;
    /// a repeated word keeps the weight given last.
    pub fn build(words: Vec<(String, i32)>) -> (r: Index)
        ensures
            r.wf(),
            forall|w: Seq<char>| #[trigger]
                r.trie_root.contains_word(w) <==> dict_contains(words@, w),
            forall|w: Seq<char>| #[trigger] r.trie_root.word_weight(w) == dict_weight(words@, w),
    {
        let mut root = TrieNode { children: Vec::new(), terminal: false, weight: None };
        proof {
            root.lemma_empty_node();
            assert(words@.take(0) =~= Seq::<(String, i32)>::empty());
        }
        let n = words.len();
        let mut k: usize = 0;
        while k < n
            invariant
                n == words@.len(),
                k <= n,
                root.wf(),
                forall|w: Seq<char>| #[trigger]
                    root.contains_word(w) <==> dict_contains(words@.take(k as int), w),
                forall|w: Seq<char>| #[trigger]
                    root.word_weight(w) == dict_weight(words@.take(k as int), w),
            decreases n - k,
        {
            let chars = crate::text::str_to_chars(words[k].0.as_str());
            let weight = words[k].1;
            let ghost prev = root;
            root = root.add(&chars, 0, weight);
            proof {
                let wk = words@[k as int].0@;
                assert(chars@.skip(0) =~= chars@);
                assert(chars@ == wk);
                let t0 = words@.take(k as int);
                let t1 = words@.take(k as int + 1);
                assert(t1.last() == words@[k as int]);
                assert(t1.drop_last() =~= t0);
                assert forall|w: Seq<char>| #[trigger]
                    root.contains_word(w) <==> dict_contains(t1, w) by {
                    if root.contains_word(w) {
                        if w == wk {
                            assert(t1[k as int].0@ == w);
                        } else {
                            assert(prev.contains_word(w));
                            let j = choose|j: int| 0 <= j < t0.len() && (#[trigger] t0[j]).0@ == w;
                            assert(t1[j].0@ == w);
                        }
                    }
                    if dict_contains(t1, w) {
                        let j = choose|j: int| 0 <= j < t1.len() && (#[trigger] t1[j]).0@ == w;
                        if j < k {
                            assert(t0[j].0@ == w);
                            assert(prev.contains_word(w));
                        } else {
                            assert(w == wk);
                        }
                    }
                }
                assert forall|w: Seq<char>| #[trigger]
                    root.word_weight(w) == dict_weight(t1, w) by {
                    if w == wk {
                        assert(dict_weight(t1, w) == words@[k as int].1);
                    } else {
                        assert(dict_weight(t1, w) == dict_weight(t0, w));
                    }
                }
            }
            k += 1;
        }
        proof {
            assert(words@.take(n as int) =~= words@);
        }
        Index { trie_root: root }
    }

    /// All dictionary words matching the pattern (blank as a wildcard),
    /// randomly shuffled, then ranked by weight, descending.
    pub fn words(&self, pattern: &Vec<char>) -> (r: Vec<String>)
        requires
            self.wf(),
        ensures
            words_result_ok(self.trie_root, pattern@, r.deep_view()),
    {
        broadcast use vstd::seq_lib::group_to_multiset_ensures;

        let mut pairs: Vec<(i32, Vec<char>)> = Vec::new();
        let mut partial: Vec<char> = Vec::new();
        self.trie_root.fill_words(pattern, 0, &mut partial, &mut pairs);
        let ghost root = self.trie_root;
        let ghost p = pattern@;
        proof {
            assert(p.skip(0) =~= p);
            assert forall|j: int|
                0 <= j < pairs@.len() implies root.match_in(p, (#[trigger] pairs@[j]).1@)
                && pairs@[j].0 == root.word_weight(pairs@[j].1@) by {
                assert(added_entry_ok(root, p.skip(0), Seq::<char>::empty(), pairs@[j]));
                assert(pairs@[j].1@.skip(0) =~= pairs@[j].1@);
            }
            assert forall|w: Seq<char>| #[trigger]
                root.match_in(p, w) implies pairs_have_word(pairs@, w) by {
                assert(has_entry(pairs@, 0, Seq::<char>::empty() + w));
                let j = choose|j: int|
                    0 <= j < pairs@.len() && (#[trigger] pairs@[j]).1@ == Seq::<char>::empty() + w;
                assert(Seq::<char>::empty() + w =~= w);
                assert(pairs@[j].1@ == w);
            }
        }
        let ghost pairs0 = pairs@;
        let mut rng = rand::thread_rng();
        shuffle_pairs(&mut pairs, &mut rng);
        proof {
            lemma_pairs_multiset_props(root, p, pairs@);
            lemma_distinct_words_preserved(pairs0, pairs@);
        }
        let ghost pairs1 = pairs@;
        let sorted = sort_pairs_desc(pairs);
        proof {
            lemma_pairs_multiset_props(root, p, sorted@);
            lemma_distinct_words_preserved(pairs1, sorted@);
        }
        let mut out: Vec<String> = Vec::new();
        let m = sorted.len();
        let mut j: usize = 0;
        while j < m
            invariant
                m == sorted@.len(),
                j <= m,
                out@.len() == j,
                forall|a: int| 0 <= a < j ==> (#[trigger] out@[a])@ == sorted@[a].1@,
                forall|a: int|
                    0 <= a < sorted@.len() ==> root.match_in(p, (#[trigger] sorted@[a]).1@)
                        && sorted@[a].0 == root.word_weight(sorted@[a].1@),
                forall|w: Seq<char>| #[trigger] root.match_in(p, w) ==> pairs_have_word(sorted@, w),
                forall|a: int, b: int|
                    0 <= a < b < sorted@.len() ==> (#[trigger] sorted@[a]).0 >= (
                    #[trigger] sorted@[b]).0,
                forall|a: int, b: int|
                    0 <= a < b < sorted@.len() ==> (#[trigger] sorted@[a]).1@ != (
                    #[trigger] sorted@[b]).1@,
            decreases m - j,
        {
            let s = crate::text::chars_to_string(&sorted[j].1);
            out.push(s);
            j += 1;
        }
        proof {
            let ws = out.deep_view();
            assert(ws.len() == sorted@.len());
            assert forall|a: int| 0 <= a < ws.len() implies #[trigger] ws[a] == sorted@[a].1@ by {
                assert(out.deep_view()[a] == out@[a]@);
            }
            assert forall|w: Seq<char>| #[trigger] root.match_in(p, w) implies ws.contains(w) by {
                let j0 = choose|j0: int|
                    0 <= j0 < sorted@.len() && (#[trigger] sorted@[j0]).1@ == w;
                assert(ws[j0] == w);
            }
            assert forall|j1: int, j2: int|
                0 <= j1 < j2 < ws.len() implies root.word_weight(#[trigger] ws[j1])
                >= root.word_weight(#[trigger] ws[j2]) by {
                assert(sorted@[j1].0 >= sorted@[j2].0);
            }
            assert forall|j1: int, j2: int|
                0 <= j1 < j2 < ws.len() implies #[trigger] ws[j1] != #[trigger] ws[j2] by {
                assert(ws[j1] == sorted@[j1].1@);
                assert(ws[j2] == sorted@[j2].1@);
            }
        }
        out
    }

    /// Is at least one dictionary word accepted by the pattern?
    pub fn is_valid(&self, chars: &Vec<char>) -> (r: bool)
        requires
            self.wf(),
        ensures
            r == self.trie_root.pattern_valid(chars@),
    {
        let r = self.trie_root.is_valid_from(chars, 0);
        proof {
            assert(chars@.skip(0) =~= chars@);
        }
        r
    }
}

/// Some pair in the list carries exactly the word `w`.
pub open spec fn pairs_have_word(pairs: Seq<(i32, Vec<char>)>, w: Seq<char>) -> bool {
    exists|j: int| 0 <= j < pairs.len() && (#[trigger] pairs[j]).1@ == w
}

/// Transfers the per-entry facts of a word-pair list across a permutation.
proof fn lemma_pairs_multiset_props(
    root: TrieNode,
    p: Seq<char>,
    after: Seq<(i32, Vec<char>)>,
)
    requires
        exists|before: Seq<(i32, Vec<char>)>|
            #[trigger] before.to_multiset() == after.to_multiset() && (forall|j: int|
                0 <= j < before.len() ==> root.match_in(p, (#[trigger] before[j]).1@)
                    && before[j].0 == root.word_weight(before[j].1@)) && (forall|w: Seq<char>|
                #[trigger] root.match_in(p, w) ==> pairs_have_word(before, w)),
    ensures
        forall|j: int|
            0 <= j < after.len() ==> root.match_in(p, (#[trigger] after[j]).1@) && after[j].0
                == root.word_weight(after[j].1@),
        forall|w: Seq<char>| #[trigger] root.match_in(p, w) ==> pairs_have_word(after, w),
{
    broadcast use vstd::seq_lib::group_to_multiset_ensures;

    let before = choose|before: Seq<(i32, Vec<char>)>|
        #[trigger] before.to_multiset() == after.to_multiset() && (forall|j: int|
            0 <= j < before.len() ==> root.match_in(p, (#[trigger] before[j]).1@) && before[j].0
                == root.word_weight(before[j].1@)) && (forall|w: Seq<char>|
            #[trigger] root.match_in(p, w) ==> pairs_have_word(before, w));
    assert forall|j: int|
        0 <= j < after.len() implies root.match_in(p, (#[trigger] after[j]).1@) && after[j].0
        == root.word_weight(after[j].1@) by {
        let x = after[j];
        assert(after.contains(x));
        assert(after.to_multiset().count(x) > 0);
        assert(before.to_multiset().count(x) > 0);
        assert(before.contains(x));
        let k = choose|k: int| 0 <= k < before.len() && before[k] == x;
        assert(root.match_in(p, before[k].1@));
    }
    assert forall|w: Seq<char>| #[trigger] root.match_in(p, w) implies pairs_have_word(after, w)
        by {
        let k = choose|k: int| 0 <= k < before.len() && (#[trigger] before[k]).1@ == w;
        let x = before[k];
        assert(before.contains(x));
        assert(before.to_multiset().count(x) > 0);
        assert(after.to_multiset().count(x) > 0);
        assert(after.contains(x));
        let j = choose|j: int| 0 <= j < after.len() && after[j] == x;
        assert(after[j].1@ == w);
    }
}

} // verus!


