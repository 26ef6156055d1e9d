//! A 26-ary prefix tree over letter indices.
//!
//! Each node owns up to one child per letter; a path from the root spells a
//! tile sequence, and nodes flagged `is_word` mark complete dictionary
//! entries.  The abstract model of a trie is the predicate [`Trie::contains`]
//! on sequences of letter indices.

use vstd::prelude::*;

verus! {

use vstd::string::StrSliceExecFns;

/// Number of letters in the tile alphabet.
pub const NUM_LETTERS: usize = 26;

/// The characters of `s`, collected into a vector.
pub fn str_chars(s: &str) -> (r: Vec<char>)
    ensures
        r@ == s@,
{
    let n = s.unicode_len();
    let mut r: Vec<char> = Vec::new();
    let mut i: usize = 0;
    while i < n
        invariant
            n == s@.len(),
            i <= n,
            r@.len() == i,
            forall|j: int| 0 <= j < i ==> r@[j] == s@[j],
        decreases n - i,
    {
        r.push(s.get_char(i));
        i += 1;
    }
    proof {
        assert(r@ =~= s@);
    }
    r
}

/// Relies on String::push: appends the given character to the end of the
/// string.
#[verifier::external_body]
pub(crate) fn push_char(s: &mut String, c: char)
    ensures
        final(s)@ == old(s)@.push(c),
{
    s.push(c);
}

/// True when `c` is one of the lowercase letters `'a'..='z'`.
pub open spec fn is_lower(c: char) -> bool {
    97 <= c as int <= 122
}

/// True when every character of `s` is a lowercase letter.
pub open spec fn all_lower(s: Seq<char>) -> bool {
    forall|i: int| 0 <= i < s.len() ==> is_lower(#[trigger] s[i])
}

/// The letter index (0..26) of each character of `s`.
pub open spec fn tiles_of(s: Seq<char>) -> Seq<int> {
    s.map(|_i: int, c: char| c as int - 97)
}

/// Letter to letter index: 'a' maps to 0, ..., 'z' to 25.
pub fn idx(letter: char) -> (i: usize)
    requires
        is_lower(letter),
    ensures
        i == letter as int - 97,
        i < 26,
{
    (letter as u32 - 97) as usize
}

/// Letter index back to its letter: 0 maps to 'a', ..., 25 to 'z'.
pub fn idx_to_char(i: usize) -> (c: char)
    requires
        i < 26,
    ensures
        c as int == 97 + i,
        is_lower(c),
{
    (97 + i as u8) as char
}

/// The sequence of letter indices, as mathematical integers.
pub open spec fn tile_ints(ts: Seq<usize>) -> Seq<int> {
    ts.map(|_i: int, t: usize| t as int)
}

/// True when `w` is an initial segment of `s`.
pub open spec fn is_seq_prefix(w: Seq<int>, s: Seq<int>) -> bool {
    w.len() <= s.len() && forall|i: int| 0 <= i < w.len() ==> w[i] == s[i]
}

/// One node of the prefix tree; the tree as a whole is the root node.
pub struct Trie {
    /// True when the path from the root to this node spells a complete word.
    pub is_word: bool,
    /// Generation stamp: the last scoring run that counted this node.
    pub mark: u32,
    /// One optional child per letter index; always exactly 26 slots.
    pub children: Vec<Option<Box<Trie>>>,
}

impl Trie {
    /// Well-formedness: every node has exactly one child slot per letter.
    pub open spec fn wf(self) -> bool
        decreases self,
    {
        &&& self.children@.len() == 26
        &&& forall|c: int|
            0 <= c < 26 ==> match #[trigger] self.children@[c] {
                Some(t) => t.wf(),
                None => true,
            }
    }

    /// True when this node has a child for letter index `c`.
    pub open spec fn has_child(self, c: int) -> bool {
        0 <= c < self.children@.len() && self.children@[c] is Some
    }

    /// The child subtree for letter index `c` (meaningful under `has_child`).
    pub open spec fn child_at(self, c: int) -> Trie {
        *self.children@[c]->0
    }

    /// True when a node exists on the path spelled by `w`.
    pub open spec fn has_prefix(self, w: Seq<int>) -> bool
        decreases w.len(),
    {
        w.len() == 0 || (self.has_child(w[0]) && self.child_at(w[0]).has_prefix(w.skip(1)))
    }

    /// The node reached by descending along `w` (meaningful under `has_prefix`).
    pub open spec fn node_at(self, w: Seq<int>) -> Trie
        decreases w.len(),
    {
        if w.len() == 0 {
            self
        } else if self.has_child(w[0]) {
            self.child_at(w[0]).node_at(w.skip(1))
        } else {
            self
        }
    }

    /// The abstract word set: true when `w` was inserted as a complete word.
    pub open spec fn contains(self, w: Seq<int>) -> bool
        decreases w.len(),
    {
        if w.len() == 0 {
            self.is_word
        } else {
            self.has_child(w[0]) && self.child_at(w[0]).contains(w.skip(1))
        }
    }

    /// Mutable access to one child slot.
    pub(crate) fn child_mut(&mut self, c: usize) -> (slot: &mut Option<Box<Trie>>)
        requires
            c < old(self).children@.len(),
        ensures
            *slot == old(self).children@[c as int],
            final(self).children@ == old(self).children@.update(c as int, *final(slot)),
            final(self).is_word == old(self).is_word,
            final(self).mark == old(self).mark,
    {
        &mut self.children[c]
    }

    /// Number of complete words stored in this subtree.
    pub open spec fn count_words(self) -> nat
        decreases self, 1int, 0int,
    {
        (if self.is_word {
            1nat
        } else {
            0nat
        }) + self.count_words_below(26)
    }

    /// Number of complete words stored under the first `c` child slots.
    pub open spec fn count_words_below(self, c: int) -> nat
        decreases self, 0int, c,
        via Self::count_words_below_dec
    {
        if c <= 0 {
            0nat
        } else {
            self.count_words_below(c - 1) + (if self.has_child(c - 1) {
                (*self.children@[c - 1]->0).count_words()
            } else {
                0nat
            })
        }
    }

    /// Number of nodes in this subtree, the node itself included.
    pub open spec fn count_nodes(self) -> nat
        decreases self, 1int, 0int,
    {
        1 + self.count_nodes_below(26)
    }

    /// Number of nodes under the first `c` child slots.
    pub open spec fn count_nodes_below(self, c: int) -> nat
        decreases self, 0int, c,
        via Self::count_nodes_below_dec
    {
        if c <= 0 {
            0nat
        } else {
            self.count_nodes_below(c - 1) + (if self.has_child(c - 1) {
                (*self.children@[c - 1]->0).count_nodes()
            } else {
                0nat
            })
        }
    }

    /// A child subtree sits strictly below its parent in the termination
    /// order.
    pub proof fn lemma_child_decreases(t: Trie, c: int)
        requires
            t.has_child(c),
        ensures
            decreases_to!(t => *t.children@[c]->0),
    {
        assert(decreases_to!(t => t.children));
        assert(decreases_to!(t.children => t.children@));
        assert(decreases_to!(t.children@ => t.children@[c]));
        assert(decreases_to!(t.children@[c] => *t.children@[c]->0));
    }

    /// Termination of [`Trie::count_words_below`]: a child subtree sits below
    /// its parent.
    #[via_fn]
    proof fn count_words_below_dec(self, c: int) {
        if c > 0 && self.has_child(c - 1) {
            Self::lemma_child_decreases(self, c - 1);
        }
    }

    /// Termination of [`Trie::count_nodes_below`]: a child subtree sits below
    /// its parent.
    #[via_fn]
    proof fn count_nodes_below_dec(self, c: int) {
        if c > 0 && self.has_child(c - 1) {
            Self::lemma_child_decreases(self, c - 1);
        }
    }

    /// Word counts over a growing range of child slots never shrink.
    proof fn lemma_count_words_below_mono(self, c1: int, c2: int)
        requires
            0 <= c1 <= c2,
        ensures
            self.count_words_below(c1) <= self.count_words_below(c2),
        decreases c2,
    {
        if c1 < c2 {
            self.lemma_count_words_below_mono(c1, c2 - 1);
        }
    }

    /// Node counts over a growing range of child slots never shrink.
    proof fn lemma_count_nodes_below_mono(self, c1: int, c2: int)
        requires
            0 <= c1 <= c2,
        ensures
            self.count_nodes_below(c1) <= self.count_nodes_below(c2),
        decreases c2,
    {
        if c1 < c2 {
            self.lemma_count_nodes_below_mono(c1, c2 - 1);
        }
    }

    /// A child subtree never stores more words than its parent.
    pub proof fn lemma_child_count_le(self, c: int)
        requires
            self.has_child(c),
            c < 26,
        ensures
            self.child_at(c).count_words() <= self.count_words(),
    {
        assert(self.count_words_below(c + 1) == self.count_words_below(c) + (if self.has_child(c) {
            (*self.children@[c]->0).count_words()
        } else {
            0nat
        }));
        self.lemma_count_words_below_mono(c + 1, 26);
    }

    /// A tree with no children stores no words below the root.
    proof fn lemma_count_words_below_none(self, c: int)
        requires
            forall|d: int| 0 <= d < 26 ==> !self.has_child(d),
            0 <= c <= 26,
        ensures
            self.count_words_below(c) == 0,
        decreases c,
    {
        if c > 0 {
            self.lemma_count_words_below_none(c - 1);
        }
    }

    /// Trees with the same children store the same words below the root.
    proof fn lemma_count_same_children(a: Trie, b: Trie, c: int)
        requires
            b.children@ == a.children@,
        ensures
            b.count_words_below(c) == a.count_words_below(c),
        decreases c,
    {
        if c > 0 {
            Self::lemma_count_same_children(a, b, c - 1);
        }
    }

    /// Replacing one child changes the word count by exactly the difference
    /// between the new and the old subtree.
    proof fn lemma_count_child_update(pre: Trie, post: Trie, b1: Trie, c: int, cc: int)
        requires
            0 <= c < 26,
            pre.children@.len() == 26,
            post.children@ == pre.children@.update(c, Some(Box::new(b1))),
            cc <= 26,
        ensures
            post.count_words_below(cc) + (if c < cc && pre.has_child(c) {
                pre.child_at(c).count_words()
            } else {
                0nat
            }) == pre.count_words_below(cc) + (if c < cc {
                b1.count_words()
            } else {
                0nat
            }),
        decreases cc,
    {
        if cc > 0 {
            Self::lemma_count_child_update(pre, post, b1, c, cc - 1);
            if cc - 1 == c {
                assert(*post.children@[c]->0 == b1);
            } else {
                assert(post.children@[cc - 1] == pre.children@[cc - 1]);
            }
        }
    }

    /// Count of words stored in the tree: nodes flagged as complete words.
    pub fn size(&self) -> (n: u32)
        requires
            self.wf(),
            self.count_words() <= u32::MAX,
        ensures
            n == self.count_words(),
        decreases *self,
    {
        let mut n: u32 = if self.is_word {
            1
        } else {
            0
        };
        let mut c: usize = 0;
        while c < 26
            invariant
                self.wf(),
                self.count_words() <= u32::MAX,
                c <= 26,
                n == (if self.is_word {
                    1nat
                } else {
                    0nat
                }) + self.count_words_below(c as int),
            decreases 26 - c,
        {
            proof {
                self.lemma_count_words_below_mono(c as int + 1, 26);
                assert(self.count_words_below(c as int + 1) == self.count_words_below(c as int)
                    + (match self.children@[c as int] {
                    Some(b) => b.count_words(),
                    None => 0nat,
                }));
            }
            match self.descend(c) {
                Some(t) => {
                    proof {
                        assert(decreases_to!(*self => *self.children@[c as int]->0));
                    }
                    let s = t.size();
                    n = n + s;
                },
                None => {},
            }
            c += 1;
        }
        n
    }

    /// Count of all nodes in the tree, the root included.
    pub fn num_nodes(&self) -> (n: u32)
        requires
            self.wf(),
            self.count_nodes() <= u32::MAX,
        ensures
            n == self.count_nodes(),
        decreases *self,
    {
        let mut n: u32 = 1;
        let mut c: usize = 0;
        while c < 26
            invariant
                self.wf(),
                self.count_nodes() <= u32::MAX,
                c <= 26,
                n == 1 + self.count_nodes_below(c as int),
            decreases 26 - c,
        {
            proof {
                self.lemma_count_nodes_below_mono(c as int + 1, 26);
                assert(self.count_nodes_below(c as int + 1) == self.count_nodes_below(c as int)
                    + (match self.children@[c as int] {
                    Some(b) => b.count_nodes(),
                    None => 0nat,
                }));
            }
            match self.descend(c) {
                Some(t) => {
                    proof {
                        assert(decreases_to!(*self => *self.children@[c as int]->0));
                    }
                    let s = t.num_nodes();
                    n = n + s;
                },
                None => {},
            }
            c += 1;
        }
        n
    }

    /// A fresh node: no children, not a word, generation stamp zero.
    pub fn new() -> (t: Trie)
        ensures
            t.wf(),
            !t.is_word,
            t.mark == 0,
            t.count_words() == 0,
            forall|c: int| 0 <= c < 26 ==> !t.has_child(c),
            forall|w: Seq<int>| !t.contains(w),
            forall|w: Seq<int>| t.has_prefix(w) ==> w.len() == 0,
    {
        let mut children: Vec<Option<Box<Trie>>> = Vec::new();
        while children.len() < 26
            invariant
                children@.len() <= 26,
                forall|c: int| 0 <= c < children@.len() ==> children@[c] is None,
            decreases 26 - children@.len(),
        {
            children.push(None);
        }
        let t = Trie { is_word: false, mark: 0, children };
        proof {
            assert forall|w: Seq<int>| !t.contains(w) by {
                if w.len() > 0 {
                    assert(!t.has_child(w[0]));
                }
            }
            assert forall|w: Seq<int>| t.has_prefix(w) implies w.len() == 0 by {
                if w.len() > 0 {
                    assert(!t.has_child(w[0]));
                }
            }
            t.lemma_count_words_below_none(26);
        }
        t
    }

    /// Insert the tile suffix `tiles[k..]` below this node: the word set
    /// gains exactly that suffix, and a node now exists exactly for the
    /// prefixes it already had and the prefixes of the new suffix.
    fn add_tiles(&mut self, tiles: &Vec<usize>, k: usize)
        requires
            old(self).wf(),
            k <= tiles@.len(),
            forall|m: int| 0 <= m < tiles@.len() ==> tiles@[m] < 26,
        ensures
            final(self).wf(),
            final(self).mark == old(self).mark,
            forall|w: Seq<int>|
                final(self).contains(w) <==> (old(self).contains(w) || w =~= tile_ints(
                    tiles@,
                ).skip(k as int)),
            forall|w: Seq<int>|
                final(self).has_prefix(w) <==> (old(self).has_prefix(w) || is_seq_prefix(
                    w,
                    tile_ints(tiles@).skip(k as int),
                )),
            forall|w: Seq<int>|
                old(self).has_prefix(w) ==> final(self).node_at(w).mark == old(self).node_at(
                    w,
                ).mark,
            forall|w: Seq<int>|
                !old(self).has_prefix(w) && final(self).has_prefix(w) ==> final(self).node_at(
                    w,
                ).mark == 0,
            final(self).count_words() == old(self).count_words() + (if old(self).contains(
                tile_ints(tiles@).skip(k as int),
            ) {
                0nat
            } else {
                1nat
            }),
        decreases tiles@.len() - k,
    {
        let ghost sfx = tile_ints(tiles@).skip(k as int);
        if k == tiles.len() {
            self.is_word = true;
            proof {
                assert(sfx.len() == 0);
                assert forall|w: Seq<int>|
                    self.contains(w) <==> (old(self).contains(w) || w =~= sfx) by {
                    if w.len() == 0 {
                        assert(w =~= sfx);
                    }
                }
                assert forall|w: Seq<int>|
                    self.has_prefix(w) <==> (old(self).has_prefix(w) || is_seq_prefix(
                        w,
                        sfx,
                    )) by {
                    if w.len() == 0 {
                        assert(self.has_prefix(w) && old(self).has_prefix(w));
                    }
                }
                assert forall|w: Seq<int>| old(self).has_prefix(w) implies self.node_at(w).mark
                    == old(self).node_at(w).mark by {
                    if w.len() > 0 {
                        assert(self.node_at(w) == old(self).node_at(w));
                    }
                }
                assert forall|w: Seq<int>| self.has_prefix(w) implies old(self).has_prefix(w) by {
                    if w.len() > 0 {
                        assert(self.has_child(w[0]) == old(self).has_child(w[0]));
                        assert(self.child_at(w[0]) == old(self).child_at(w[0]));
                    }
                }
                Self::lemma_count_same_children(*old(self), *self, 26);
                assert(old(self).contains(sfx) == old(self).is_word);
            }
        } else {
            let c = tiles[k];
            let ghost c_int = c as int;
            proof {
                assert(sfx[0] == c_int);
                assert(sfx.skip(1) =~= tile_ints(tiles@).skip(k as int + 1));
            }
            let slot = self.child_mut(c);
            match slot.take() {
                Some(mut b) => {
                    let ghost b0 = *b;
                    (&mut *b).add_tiles(tiles, k + 1);
                    let ghost b1 = *b;
                    *slot = Some(b);
                    proof {
                        Self::lemma_step_iff(*old(self), *self, b0, b1, c_int, sfx);
                    }
                },
                None => {
                    let mut nc = Trie::new();
                    let ghost b0 = nc;
                    nc.add_tiles(tiles, k + 1);
                    let ghost b1 = nc;
                    *slot = Some(Box::new(nc));
                    proof {
                        Self::lemma_step_iff(*old(self), *self, b0, b1, c_int, sfx);
                    }
                },
            }
        }
    }

    /// Insert the word spelled by `chars`, given as characters: the word set
    /// gains exactly that word, and nothing else changes.
    pub fn add_word_chars(&mut self, chars: &Vec<char>)
        requires
            old(self).wf(),
            all_lower(chars@),
        ensures
            final(self).wf(),
            final(self).mark == old(self).mark,
            forall|w: Seq<int>|
                final(self).contains(w) <==> (old(self).contains(w) || w =~= tiles_of(chars@)),
            forall|w: Seq<int>|
                final(self).has_prefix(w) <==> (old(self).has_prefix(w) || is_seq_prefix(
                    w,
                    tiles_of(chars@),
                )),
            forall|w: Seq<int>|
                old(self).has_prefix(w) ==> final(self).node_at(w).mark == old(self).node_at(
                    w,
                ).mark,
            forall|w: Seq<int>|
                !old(self).has_prefix(w) && final(self).has_prefix(w) ==> final(self).node_at(
                    w,
                ).mark == 0,
            final(self).count_words() == old(self).count_words() + (if old(self).contains(
                tiles_of(chars@),
            ) {
                0nat
            } else {
                1nat
            }),
    {
        let mut tiles: Vec<usize> = Vec::new();
        let mut i: usize = 0;
        while i < chars.len()
            invariant
                all_lower(chars@),
                i <= chars@.len(),
                tiles@.len() == i,
                forall|j: int| 0 <= j < i ==> tiles@[j] == chars@[j] as int - 97,
            decreases chars@.len() - i,
        {
            tiles.push(idx(chars[i]));
            i += 1;
        }
        proof {
            assert(tile_ints(tiles@).skip(0) =~= tiles_of(chars@));
        }
        self.add_tiles(&tiles, 0);
    }

    /// Insert the word spelled by `word`: the word set gains exactly that
    /// word, and nothing else changes.
    pub fn add_word(&mut self, word: &str)
        requires
            old(self).wf(),
            all_lower(word@),
        ensures
            final(self).wf(),
            final(self).mark == old(self).mark,
            forall|w: Seq<int>|
                final(self).contains(w) <==> (old(self).contains(w) || w =~= tiles_of(word@)),
            forall|w: Seq<int>|
                final(self).has_prefix(w) <==> (old(self).has_prefix(w) || is_seq_prefix(
                    w,
                    tiles_of(word@),
                )),
            forall|w: Seq<int>|
                old(self).has_prefix(w) ==> final(self).node_at(w).mark == old(self).node_at(
                    w,
                ).mark,
            forall|w: Seq<int>|
                !old(self).has_prefix(w) && final(self).has_prefix(w) ==> final(self).node_at(
                    w,
                ).mark == 0,
            final(self).count_words() == old(self).count_words() + (if old(self).contains(
                tiles_of(word@),
            ) {
                0nat
            } else {
                1nat
            }),
    {
        let chars = str_chars(word);
        self.add_word_chars(&chars);
    }

    /// True when some inserted word starts with the letter of index `i`.
    pub fn starts_word(&self, i: usize) -> (r: bool)
        ensures
            r == self.has_child(i as int),
    {
        i < self.children.len() && self.children[i].is_some()
    }

    /// The child node for letter index `i`, or `None` if no word or prefix
    /// uses that letter at this position.
    pub fn descend(&self, i: usize) -> (r: Option<&Trie>)
        requires
            self.wf(),
            i < 26,
        ensures
            match r {
                Some(t) => self.has_child(i as int) && *t == self.child_at(i as int) && t.wf(),
                None => !self.has_child(i as int),
            },
    {
        match &self.children[i] {
            Some(b) => Some(&**b),
            None => None,
        }
    }

    /// Mutable variant of [`Trie::descend`].
    pub fn descend_mut(&mut self, i: usize) -> (r: Option<&mut Trie>)
        requires
            old(self).wf(),
            i < 26,
        ensures
            r is Some <==> old(self).has_child(i as int),
            r matches Some(t) ==> *t == old(self).child_at(i as int),
            r matches Some(t) ==> final(self).children@ == old(self).children@.update(
                i as int,
                Some(Box::new(*final(t))),
            ),
            final(self).is_word == old(self).is_word,
            final(self).mark == old(self).mark,
            r is None ==> final(self).children@ =~= old(self).children@,
    {
        let slot = self.child_mut(i);
        match slot {
            Some(b) => Some(&mut **b),
            None => None,
        }
    }

    /// Descend along the tile suffix `tiles[k..]`, returning the node reached
    /// by the full suffix if every step exists.
    fn find_tiles(&self, tiles: &Vec<usize>, k: usize) -> (r: Option<&Trie>)
        requires
            self.wf(),
            k <= tiles@.len(),
            forall|m: int| 0 <= m < tiles@.len() ==> tiles@[m] < 26,
        ensures
            match r {
                Some(t) => self.has_prefix(tile_ints(tiles@).skip(k as int)) && *t == self.node_at(
                    tile_ints(tiles@).skip(k as int),
                ) && t.wf(),
                None => !self.has_prefix(tile_ints(tiles@).skip(k as int)),
            },
        decreases tiles@.len() - k,
    {
        let ghost sfx = tile_ints(tiles@).skip(k as int);
        if k == tiles.len() {
            Some(self)
        } else {
            proof {
                assert(sfx[0] == tiles@[k as int]);
                assert(sfx.skip(1) =~= tile_ints(tiles@).skip(k as int + 1));
            }
            match self.descend(tiles[k]) {
                Some(t) => t.find_tiles(tiles, k + 1),
                None => None,
            }
        }
    }

    /// Descend character by character; `None` when the full path is absent.
    pub fn find_word_chars(&self, chars: &Vec<char>) -> (r: Option<&Trie>)
        requires
            self.wf(),
            all_lower(chars@),
        ensures
            match r {
                Some(t) => self.has_prefix(tiles_of(chars@)) && *t == self.node_at(
                    tiles_of(chars@),
                ) && t.wf(),
                None => !self.has_prefix(tiles_of(chars@)),
            },
    {
        let mut tiles: Vec<usize> = Vec::new();
        let mut i: usize = 0;
        while i < chars.len()
            invariant
                all_lower(chars@),
                i <= chars@.len(),
                tiles@.len() == i,
                forall|j: int| 0 <= j < i ==> tiles@[j] == chars@[j] as int - 97,
            decreases chars@.len() - i,
        {
            tiles.push(idx(chars[i]));
            i += 1;
        }
        proof {
            assert(tile_ints(tiles@).skip(0) =~= tiles_of(chars@));
        }
        self.find_tiles(&tiles, 0)
    }

    /// The node reached by the full path of `word`, or `None` if absent.
    pub fn find_word(&self, word: &str) -> (r: Option<&Trie>)
        requires
            self.wf(),
            all_lower(word@),
        ensures
            match r {
                Some(t) => self.has_prefix(tiles_of(word@)) && *t == self.node_at(tiles_of(word@))
                    && t.wf(),
                None => !self.has_prefix(tiles_of(word@)),
            },
    {
        let chars = str_chars(word);
        self.find_word_chars(&chars)
    }

    /// True when `word` was inserted as a complete word.
    pub fn is_word(&self, word: &str) -> (r: bool)
        requires
            self.wf(),
            all_lower(word@),
        ensures
            r == self.contains(tiles_of(word@)),
    {
        proof {
            self.lemma_contains_via_node(tiles_of(word@));
        }
        match self.find_word(word) {
            Some(t) => t.is_word,
            None => false,
        }
    }

    /// Membership in the word set is path existence plus the word flag of the
    /// node the path reaches.
    pub proof fn lemma_contains_via_node(self, w: Seq<int>)
        ensures
            self.contains(w) == (self.has_prefix(w) && self.node_at(w).is_word),
        decreases w.len(),
    {
        if w.len() > 0 && self.has_child(w[0]) {
            self.child_at(w[0]).lemma_contains_via_node(w.skip(1));
        }
    }

    /// Recursively release the subtree.  Child nodes are owned exclusively by
    /// their parent, so dropping the node already frees the whole subtree;
    /// nothing is left to do, and the tree is unchanged while it lives.
    pub fn destroy(&mut self)
        ensures
            *final(self) == *old(self),
    {
    }

    /// Build a trie from the lines of a word file, one word per line, exactly
    /// as they stand: blank lines are dropped, every other line is inserted.
    /// Reading the file itself is the caller's concern.
    pub fn from_file(lines: &Vec<String>) -> (t: Trie)
        requires
            forall|k: int| 0 <= k < lines@.len() ==> all_lower((#[trigger] lines@[k])@),
        ensures
            t.wf(),
            forall|w: Seq<int>|
                t.contains(w) <==> exists|k: int|
                    0 <= k < lines@.len() && (#[trigger] lines@[k])@.len() > 0 && w =~= tiles_of(
                        lines@[k]@,
                    ),
            t.count_words() <= lines@.len(),
            forall|w: Seq<int>| t.has_prefix(w) ==> (#[trigger] t.node_at(w)).mark == 0,
    {
        let mut t = Trie::new();
        let mut k: usize = 0;
        while k < lines.len()
            invariant
                forall|j: int| 0 <= j < lines@.len() ==> all_lower((#[trigger] lines@[j])@),
                k <= lines@.len(),
                t.wf(),
                t.count_words() <= k,
                forall|w: Seq<int>| t.has_prefix(w) ==> (#[trigger] t.node_at(w)).mark == 0,
                forall|w: Seq<int>|
                    t.contains(w) <==> exists|j: int|
                        0 <= j < k && (#[trigger] lines@[j])@.len() > 0 && w =~= tiles_of(
                            lines@[j]@,
                        ),
            decreases lines@.len() - k,
        {
            let line: &String = &lines[k];
            if !line.as_str().is_empty() {
                let ghost tprev = t;
                t.add_word(line.as_str());
                proof {
                    assert forall|w: Seq<int>| t.contains(w) implies exists|j: int|
                        0 <= j < k + 1 && (#[trigger] lines@[j])@.len() > 0 && w =~= tiles_of(
                            lines@[j]@,
                        ) by {
                        if tprev.contains(w) {
                            let j = choose|j: int|
                                0 <= j < k && (#[trigger] lines@[j])@.len() > 0 && w =~= tiles_of(
                                    lines@[j]@,
                                );
                            assert(0 <= j < k + 1 && lines@[j]@.len() > 0 && w =~= tiles_of(
                                lines@[j]@,
                            ));
                        } else {
                            assert(0 <= k < k + 1 && lines@[k as int]@.len() > 0 && w =~= tiles_of(
                                lines@[k as int]@,
                            ));
                        }
                    }
                }
            } else {
                proof {
                    assert forall|w: Seq<int>| t.contains(w) implies exists|j: int|
                        0 <= j < k + 1 && (#[trigger] lines@[j])@.len() > 0 && w =~= tiles_of(
                            lines@[j]@,
                        ) by {
                        let j = choose|j: int|
                            0 <= j < k && (#[trigger] lines@[j])@.len() > 0 && w =~= tiles_of(
                                lines@[j]@,
                            );
                        assert(0 <= j < k + 1 && lines@[j]@.len() > 0 && w =~= tiles_of(lines@[j]@));
                    }
                }
            }
            k += 1;
        }
        t
    }

    /// Structural equality of two trees: same word flag, same generation
    /// stamp, and matching children throughout.  This is everything that
    /// telling two nodes apart can observe, and stands in for reference
    /// identity, which an owned value cannot carry.
    pub open spec fn same_tree(self, other: Trie) -> bool
        decreases self, 1int, 0int,
    {
        &&& self.is_word == other.is_word
        &&& self.mark == other.mark
        &&& self.children@.len() == other.children@.len()
        &&& Self::same_children_below(self, other, 26)
    }

    /// [`Trie::same_tree`], over the first `c` child slots.
    pub open spec fn same_children_below(a: Trie, b: Trie, c: int) -> bool
        decreases a, 0int, c,
        via Self::same_children_below_dec
    {
        c <= 0 || {
            &&& Self::same_children_below(a, b, c - 1)
            &&& a.has_child(c - 1) == b.has_child(c - 1)
            &&& (a.has_child(c - 1) && b.has_child(c - 1) ==> (*a.children@[c - 1]->0).same_tree(
                *b.children@[c - 1]->0,
            ))
        }
    }

    #[via_fn]
    proof fn same_children_below_dec(a: Trie, b: Trie, c: int) {
        if c > 0 && a.has_child(c - 1) {
            Self::lemma_child_decreases(a, c - 1);
        }
    }

    /// Unpack [`Trie::same_children_below`] at one child slot.
    proof fn lemma_same_below_child(a: Trie, b: Trie, c: int, cc: int)
        requires
            Self::same_children_below(a, b, cc),
            0 <= c < cc,
        ensures
            a.has_child(c) == b.has_child(c),
            a.has_child(c) ==> (*a.children@[c]->0).same_tree(*b.children@[c]->0),
        decreases cc,
    {
        if c < cc - 1 {
            Self::lemma_same_below_child(a, b, c, cc - 1);
        }
    }

    /// Decide structural equality of two trees.
    fn eq_tree(&self, other: &Trie) -> (r: bool)
        requires
            self.wf(),
            other.wf(),
        ensures
            r == self.same_tree(*other),
        decreases *self,
    {
        if self.is_word != other.is_word || self.mark != other.mark {
            proof {
                assert(!self.same_tree(*other));
            }
            return false;
        }
        let mut c: usize = 0;
        while c < 26
            invariant
                self.wf(),
                other.wf(),
                self.is_word == other.is_word,
                self.mark == other.mark,
                c <= 26,
                Self::same_children_below(*self, *other, c as int),
            decreases 26 - c,
        {
            match (self.descend(c), other.descend(c)) {
                (Some(x), Some(y)) => {
                    proof {
                        Self::lemma_child_decreases(*self, c as int);
                    }
                    if !x.eq_tree(y) {
                        proof {
                            if Self::same_children_below(*self, *other, 26) {
                                Self::lemma_same_below_child(*self, *other, c as int, 26);
                            }
                        }
                        return false;
                    }
                },
                (None, None) => {},
                _ => {
                    proof {
                        if Self::same_children_below(*self, *other, 26) {
                            Self::lemma_same_below_child(*self, *other, c as int, 26);
                        }
                    }
                    return false;
                },
            }
            c += 1;
        }
        true
    }

    /// After replacing (or creating) the child for letter `c` of `pre` with
    /// `b1`, where `b1` relates to the old child value `b0` as one insertion
    /// step for the suffix `sfx.skip(1)`, the whole node relates to `pre` as
    /// one insertion step for `sfx`.
    proof fn lemma_step_iff(pre: Trie, post: Trie, b0: Trie, b1: Trie, c_int: int, sfx: Seq<int>)
        requires
            pre.wf(),
            b1.wf(),
            sfx.len() > 0,
            sfx[0] == c_int,
            0 <= c_int < 26,
            post.children@ == pre.children@.update(c_int, Some(Box::new(b1))),
            post.is_word == pre.is_word,
            post.mark == pre.mark,
            pre.has_child(c_int) ==> b0 == pre.child_at(c_int),
            !pre.has_child(c_int) ==> (forall|w: Seq<int>| !b0.contains(w)) && (forall|w: Seq<int>|
                b0.has_prefix(w) ==> w.len() == 0),
            forall|w: Seq<int>| b0.has_prefix(w) ==> b1.node_at(w).mark == b0.node_at(w).mark,
            forall|w: Seq<int>|
                !b0.has_prefix(w) && b1.has_prefix(w) ==> b1.node_at(w).mark == 0,
            b1.mark == b0.mark,
            !pre.has_child(c_int) ==> b0.mark == 0 && b0.count_words() == 0,
            b1.count_words() == b0.count_words() + (if b0.contains(sfx.skip(1)) {
                0nat
            } else {
                1nat
            }),
            forall|w: Seq<int>| b1.contains(w) <==> (b0.contains(w) || w =~= sfx.skip(1)),
            forall|w: Seq<int>|
                b1.has_prefix(w) <==> (b0.has_prefix(w) || is_seq_prefix(w, sfx.skip(1))),
        ensures
            post.wf(),
            forall|w: Seq<int>| post.contains(w) <==> (pre.contains(w) || w =~= sfx),
            forall|w: Seq<int>|
                post.has_prefix(w) <==> (pre.has_prefix(w) || is_seq_prefix(w, sfx)),
            forall|w: Seq<int>| pre.has_prefix(w) ==> post.node_at(w).mark == pre.node_at(w).mark,
            forall|w: Seq<int>|
                !pre.has_prefix(w) && post.has_prefix(w) ==> post.node_at(w).mark == 0,
            post.count_words() == pre.count_words() + (if pre.contains(sfx) {
                0nat
            } else {
                1nat
            }),
    {
        Self::lemma_count_child_update(pre, post, b1, c_int, 26);
        assert(pre.contains(sfx) == (pre.has_child(c_int) && b0.contains(sfx.skip(1))));
        assert forall|w: Seq<int>|
            !pre.has_prefix(w) && post.has_prefix(w) implies post.node_at(w).mark == 0 by {
            if w.len() > 0 && w[0] == c_int {
                assert(post.has_child(c_int) && post.child_at(c_int) == b1);
                assert(post.node_at(w) == b1.node_at(w.skip(1)));
                if pre.has_child(c_int) {
                    assert(!b0.has_prefix(w.skip(1)));
                    assert(b1.has_prefix(w.skip(1)));
                } else {
                    if w.skip(1).len() == 0 {
                        assert(b1.node_at(w.skip(1)) == b1);
                    } else {
                        assert(!b0.has_prefix(w.skip(1)));
                        assert(b1.has_prefix(w.skip(1)));
                    }
                }
            } else if w.len() > 0 {
                assert(post.has_child(w[0]) == pre.has_child(w[0]));
                if pre.has_child(w[0]) {
                    assert(post.child_at(w[0]) == pre.child_at(w[0]));
                    assert(post.has_prefix(w) == pre.has_prefix(w));
                }
            }
        }
        assert forall|w: Seq<int>| post.contains(w) <==> (pre.contains(w) || w =~= sfx) by {
            if w.len() == 0 {
                assert(!(w =~= sfx));
            } else if w[0] == c_int {
                assert(post.has_child(c_int) && post.child_at(c_int) == b1);
                assert(post.contains(w) == b1.contains(w.skip(1)));
                assert(b1.contains(w.skip(1)) <==> (b0.contains(w.skip(1)) || w.skip(1) =~= sfx.skip(
                    1,
                )));
                if pre.has_child(c_int) {
                    assert(pre.contains(w) == b0.contains(w.skip(1)));
                } else {
                    assert(!pre.contains(w));
                    assert(!b0.contains(w.skip(1)));
                }
                Self::lemma_head_tail_eq(w, sfx, c_int);
            } else {
                assert(post.has_child(w[0]) == pre.has_child(w[0]));
                if pre.has_child(w[0]) {
                    assert(post.child_at(w[0]) == pre.child_at(w[0]));
                }
                assert(!(w =~= sfx));
            }
        }
        assert forall|w: Seq<int>|
            post.has_prefix(w) <==> (pre.has_prefix(w) || is_seq_prefix(w, sfx)) by {
            if w.len() == 0 {
            } else if w[0] == c_int {
                assert(post.has_child(c_int) && post.child_at(c_int) == b1);
                assert(post.has_prefix(w) == b1.has_prefix(w.skip(1)));
                assert(b1.has_prefix(w.skip(1)) <==> (b0.has_prefix(w.skip(1)) || is_seq_prefix(
                    w.skip(1),
                    sfx.skip(1),
                )));
                if pre.has_child(c_int) {
                    assert(pre.has_prefix(w) == b0.has_prefix(w.skip(1)));
                } else {
                    assert(!pre.has_prefix(w));
                    assert(b0.has_prefix(w.skip(1)) ==> w.skip(1).len() == 0);
                    assert(w.skip(1).len() == 0 ==> is_seq_prefix(w.skip(1), sfx.skip(1)));
                }
                Self::lemma_head_tail_prefix(w, sfx, c_int);
            } else {
                assert(post.has_child(w[0]) == pre.has_child(w[0]));
                if pre.has_child(w[0]) {
                    assert(post.child_at(w[0]) == pre.child_at(w[0]));
                }
                assert(!is_seq_prefix(w, sfx));
            }
        }
        assert forall|w: Seq<int>| pre.has_prefix(w) implies post.node_at(w).mark == pre.node_at(
            w,
        ).mark by {
            if w.len() > 0 {
                if w[0] == c_int {
                    assert(pre.has_child(c_int));
                    assert(b0.has_prefix(w.skip(1)));
                    assert(b1.node_at(w.skip(1)).mark == b0.node_at(w.skip(1)).mark);
                    assert(post.node_at(w) == b1.node_at(w.skip(1)));
                    assert(pre.node_at(w) == b0.node_at(w.skip(1)));
                } else {
                    assert(post.has_child(w[0]) == pre.has_child(w[0]));
                    if pre.has_child(w[0]) {
                        assert(post.child_at(w[0]) == pre.child_at(w[0]));
                        assert(post.node_at(w) == pre.node_at(w));
                    }
                }
            }
        }
    }

    /// A nonempty sequence equals `sfx` iff the heads match and the tails do.
    proof fn lemma_head_tail_eq(w: Seq<int>, sfx: Seq<int>, c_int: int)
        requires
            w.len() > 0,
            sfx.len() > 0,
            w[0] == c_int,
            sfx[0] == c_int,
        ensures
            (w =~= sfx) <==> (w.skip(1) =~= sfx.skip(1)),
    {
        if w.skip(1) =~= sfx.skip(1) {
            assert forall|i: int| 0 <= i < w.len() implies w[i] == sfx[i] by {
                if i > 0 {
                    assert(w[i] == w.skip(1)[i - 1]);
                    assert(sfx[i] == sfx.skip(1)[i - 1]);
                }
            }
            assert(w =~= sfx);
        }
        if w =~= sfx {
            assert(w.skip(1) =~= sfx.skip(1));
        }
    }

    /// A nonempty sequence is a prefix of `sfx` iff the heads match and the
    /// tail is a prefix of the tail.
    proof fn lemma_head_tail_prefix(w: Seq<int>, sfx: Seq<int>, c_int: int)
        requires
            w.len() > 0,
            sfx.len() > 0,
            w[0] == c_int,
            sfx[0] == c_int,
        ensures
            is_seq_prefix(w, sfx) <==> is_seq_prefix(w.skip(1), sfx.skip(1)),
    {
        if is_seq_prefix(w.skip(1), sfx.skip(1)) {
            assert forall|i: int| 0 <= i < w.len() implies w[i] == sfx[i] by {
                if i > 0 {
                    assert(w[i] == w.skip(1)[i - 1]);
                    assert(w.skip(1)[i - 1] == sfx.skip(1)[i - 1]);
                    assert(sfx[i] == sfx.skip(1)[i - 1]);
                }
            }
        }
        if is_seq_prefix(w, sfx) {
            assert forall|i: int| 0 <= i < w.skip(1).len() implies w.skip(1)[i] == sfx.skip(1)[i]
                by {
                assert(w.skip(1)[i] == w[i + 1]);
                assert(sfx.skip(1)[i] == sfx[i + 1]);
            }
        }
    }
}

/// Reconstruct a tile path from `root` to a node that looks like `node`,
/// searching depth-first over the letters in order; `None` exactly when no
/// node in the tree does.  Likeness is structural ([`Trie::same_tree`]):
/// two nodes holding the same flag, stamp and children cannot be told
/// apart.  When `root` itself matches, the empty path is returned.
pub fn reverse_lookup(root: &Trie, node: &Trie) -> (r: Option<String>)
    requires
        root.wf(),
        node.wf(),
    ensures
        match r {
            Some(s) => all_lower(s@) && root.has_prefix(tiles_of(s@)) && root.node_at(
                tiles_of(s@),
            ).same_tree(*node),
            None => forall|w: Seq<int>|
                root.has_prefix(w) ==> !(#[trigger] root.node_at(w)).same_tree(*node),
        },
        root.same_tree(*node) ==> (r matches Some(s) && s@ == Seq::<char>::empty()),
    decreases *root,
{
    if root.eq_tree(node) {
        proof {
            assert(tiles_of(Seq::<char>::empty()) =~= Seq::<int>::empty());
        }
        return Some(String::new());
    }
    let mut c: usize = 0;
    while c < NUM_LETTERS
        invariant
            root.wf(),
            node.wf(),
            !root.same_tree(*node),
            c <= 26,
            forall|w: Seq<int>|
                root.has_prefix(w) && w.len() > 0 && w[0] < c ==> !(#[trigger] root.node_at(
                    w,
                )).same_tree(*node),
        decreases 26 - c,
    {
        match root.descend(c) {
            Some(child) => {
                proof {
                    Trie::lemma_child_decreases(*root, c as int);
                }
                match reverse_lookup(child, node) {
                    Some(rest) => {
                        let mut s = String::new();
                        push_char(&mut s, idx_to_char(c));
                        s.append(rest.as_str());
                        proof {
                            let w = tiles_of(s@);
                            assert(s@[0] as int == 97 + c);
                            assert(w[0] == c as int);
                            assert forall|i: int| 0 <= i < w.skip(1).len() implies w.skip(1)[i]
                                == tiles_of(rest@)[i] by {
                                assert(w.skip(1)[i] == w[i + 1]);
                                assert(s@[i + 1] == rest@[i]);
                            }
                            assert(w.skip(1) =~= tiles_of(rest@));
                            assert(root.child_at(c as int).has_prefix(w.skip(1)));
                            assert(root.node_at(w) == child.node_at(w.skip(1)));
                            assert forall|i: int| 0 <= i < s@.len() implies is_lower(
                                #[trigger] s@[i],
                            ) by {
                                if i > 0 {
                                    assert(s@[i] == rest@[i - 1]);
                                }
                            }
                        }
                        return Some(s);
                    },
                    None => {
                        proof {
                            assert forall|w: Seq<int>|
                                root.has_prefix(w) && w.len() > 0 && w[0] < c + 1 implies !(
                            #[trigger] root.node_at(w)).same_tree(*node) by {
                                if w[0] == c as int {
                                    assert(root.child_at(c as int).has_prefix(w.skip(1)));
                                    assert(child.has_prefix(w.skip(1)));
                                    assert(root.node_at(w) == child.node_at(w.skip(1)));
                                }
                            }
                        }
                    },
                }
            },
            None => {
                proof {
                    assert forall|w: Seq<int>|
                        root.has_prefix(w) && w.len() > 0 && w[0] < c + 1 implies !(
                    #[trigger] root.node_at(w)).same_tree(*node) by {
                        if w[0] == c as int {
                            assert(!root.has_child(w[0]));
                        }
                    }
                }
            },
        }
        c += 1;
    }
    proof {
        assert forall|w: Seq<int>| root.has_prefix(w) implies !(#[trigger] root.node_at(
            w,
        )).same_tree(*node) by {
            if w.len() > 0 {
                assert(0 <= w[0] < 26);
            }
        }
    }
    None
}

} // verus!
