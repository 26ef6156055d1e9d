//! The 4x4 board and the depth-first scoring engine.
//!
//! The engine walks the grid and the dictionary tree simultaneously: one
//! depth-first search per starting cell, a path-local visited mask, and a
//! generation stamp per dictionary node so that a word found along several
//! paths is counted once per scoring run.  One run is captured exactly: it
//! stamps the nodes of the words that are stored and playable on the board
//! ([`findable`]) and not yet stamped ([`dfs_step`]), and returns the sum of
//! those words' scores ([`fresh_score`]).

use vstd::prelude::*;

use crate::trie::Trie;

verus! {

use crate::trie::all_lower;
use crate::trie::idx;
use crate::trie::idx_to_char;
use crate::trie::push_char;
use crate::trie::str_chars;

/// Why a board string was rejected.
#[derive(Debug, PartialEq, Eq, Structural)]
pub enum BoardError {
    /// The board string does not hold exactly one tile per cell.
    InvalidBoardLength,
    /// A tile is outside the lowercase letters 'a'..='z'.
    InvalidLetter,
}

/// A board string is playable when it holds one lowercase letter per cell.
pub open spec fn board_ok(s: Seq<char>) -> bool {
    s.len() == 16 && all_lower(s)
}

/// The 4x4 letter grid together with the scoring-run counter.
pub struct Boggler {
    bd: Vec<usize>,
    runs: u32,
}

impl Boggler {
    /// The sixteen letter indices of the grid; cell `(x, y)` sits at
    /// position `x + 4 * y`.
    pub closed spec fn cells(self) -> Seq<usize> {
        self.bd@
    }

    /// The number of scoring runs made so far.
    pub closed spec fn generation(self) -> u32 {
        self.runs
    }

    /// Well-formedness: sixteen cells, each holding a letter index.
    pub open spec fn wf(self) -> bool {
        self.cells().len() == 16 && forall|k: int| 0 <= k < 16 ==> #[trigger] self.cells()[k] < 26
    }

    /// An empty board: every cell holds letter index 0, no runs made yet.
    pub fn new() -> (b: Boggler)
        ensures
            b.wf(),
            b.generation() == 0,
            forall|k: int| 0 <= k < 16 ==> #[trigger] b.cells()[k] == 0,
    {
        let mut bd: Vec<usize> = Vec::new();
        while bd.len() < 16
            invariant
                bd@.len() <= 16,
                forall|k: int| 0 <= k < bd@.len() ==> #[trigger] bd@[k] == 0,
            decreases 16 - bd@.len(),
        {
            bd.push(0);
        }
        Boggler { bd, runs: 0 }
    }

    /// The board is always four cells wide.
    pub fn width(&self) -> (w: usize)
        ensures
            w == 4,
    {
        4
    }

    /// The board is always four cells tall.
    pub fn height(&self) -> (h: usize)
        ensures
            h == 4,
    {
        4
    }

    /// Store letter index `i` in cell `(x, y)`.
    pub fn set_cell(&mut self, x: usize, y: usize, i: usize)
        requires
            old(self).wf(),
            x < 4,
            y < 4,
            i < 26,
        ensures
            final(self).wf(),
            final(self).cells() == old(self).cells().update(x + 4 * y, i),
            final(self).generation() == old(self).generation(),
    {
        let slot = &mut self.bd[x + 4 * y];
        *slot = i;
    }

    /// Read the letter index of cell `(x, y)`.
    pub fn get_cell(&self, x: usize, y: usize) -> (i: usize)
        requires
            self.wf(),
            x < 4,
            y < 4,
        ensures
            i == self.cells()[x + 4 * y],
            i < 26,
    {
        self.bd[x + 4 * y]
    }

    /// Load a 16-tile board string, row-major: string position `k` goes to
    /// cell `(k % 4, k / 4)`.  Rejected strings leave the board unchanged.
    pub fn parse_board(&mut self, board: &str) -> (r: Result<(), BoardError>)
        requires
            old(self).wf(),
        ensures
            r is Ok <==> board_ok(board@),
            r == Err::<(), BoardError>(BoardError::InvalidBoardLength) <==> board@.len() != 16,
            r == Err::<(), BoardError>(BoardError::InvalidLetter) <==> (board@.len() == 16
                && !all_lower(board@)),
            final(self).wf(),
            final(self).generation() == old(self).generation(),
            r is Ok ==> forall|k: int|
                0 <= k < 16 ==> #[trigger] final(self).cells()[k] == board@[k] as int - 97,
            r is Err ==> *final(self) == *old(self),
    {
        let chars = str_chars(board);
        if chars.len() != 16 {
            return Err(BoardError::InvalidBoardLength);
        }
        let mut k: usize = 0;
        while k < 16
            invariant
                *self == *old(self),
                old(self).wf(),
                chars@.len() == 16,
                chars@ == board@,
                k <= 16,
                forall|j: int| 0 <= j < k ==> crate::trie::is_lower(#[trigger] chars@[j]),
            decreases 16 - k,
        {
            let c = chars[k];
            if c < 'a' || c > 'z' {
                return Err(BoardError::InvalidLetter);
            }
            k += 1;
        }
        let mut bd: Vec<usize> = Vec::new();
        let mut k: usize = 0;
        while k < 16
            invariant
                *self == *old(self),
                old(self).wf(),
                chars@.len() == 16,
                chars@ == board@,
                all_lower(chars@),
                k <= 16,
                bd@.len() == k,
                forall|j: int| 0 <= j < k ==> #[trigger] bd@[j] == board@[j] as int - 97,
                forall|j: int| 0 <= j < k ==> #[trigger] bd@[j] < 26,
            decreases 16 - k,
        {
            bd.push(idx(chars[k]));
            k += 1;
        }
        self.bd = bd;
        Ok(())
    }

    /// The inverse of [`Boggler::parse_board`]: rebuild the 16-tile string
    /// from the grid in the same row-major order.
    pub fn serialize(&self) -> (r: String)
        requires
            self.wf(),
        ensures
            board_ok(r@),
            forall|k: int| 0 <= k < 16 ==> #[trigger] r@[k] as int == self.cells()[k] + 97,
    {
        let mut r = String::new();
        let mut k: usize = 0;
        while k < 16
            invariant
                self.wf(),
                k <= 16,
                r@.len() == k,
                forall|j: int| 0 <= j < k ==> #[trigger] r@[j] as int == self.cells()[j] + 97,
            decreases 16 - k,
        {
            push_char(&mut r, idx_to_char(self.bd[k]));
            k += 1;
        }
        proof {
            assert forall|k: int| 0 <= k < 16 implies crate::trie::is_lower(#[trigger] r@[k]) by {
                assert(r@[k] as int == self.cells()[k] + 97);
            }
        }
        r
    }
}

/// No bit is set in the empty visited mask.
proof fn lemma_mask_zero(i: u32)
    ensures
        !mask_bit(0u32, i),
{
    assert((0u32 >> i) & 1 != 1) by (bit_vector);
}

/// True when the cell of linear index `ci` is marked in the visited mask.
pub open spec fn in_mask(u: u32, ci: int) -> bool {
    0 <= ci < 16 && mask_bit(u, ci as u32)
}

/// Adjacency of two cells given by linear index.
pub open spec fn adj_cells(a: int, b: int) -> bool {
    is_adjacent(a % 4, a / 4, b % 4, b / 4)
}

/// `p` is a legal playing path: in-bounds cells, no cell used twice, and
/// each consecutive pair of cells adjacent.
pub open spec fn path_ok(p: Seq<int>) -> bool {
    &&& forall|k: int| 0 <= k < p.len() ==> 0 <= #[trigger] p[k] < 16
    &&& forall|k1: int, k2: int| 0 <= k1 < k2 < p.len() ==> p[k1] != p[k2]
    &&& forall|k: int| 0 <= k < p.len() - 1 ==> adj_cells(#[trigger] p[k], p[k + 1])
}

/// The cells of `p` spell the tile word `w` on the grid `cells`.
pub open spec fn spells(cells: Seq<usize>, p: Seq<int>, w: Seq<int>) -> bool {
    p.len() == w.len() && forall|k: int| 0 <= k < p.len() ==> cells[#[trigger] p[k]] as int == w[k]
}

/// The tile word `w` can be played on the grid: some legal path spells it.
pub open spec fn findable(cells: Seq<usize>, w: Seq<int>) -> bool {
    exists|p: Seq<int>| path_ok(p) && #[trigger] spells(cells, p, w)
}

/// A legal path that starts at cell `start`, stays off the cells of `used`,
/// and whose cells after `start` spell `w`.
pub open spec fn ext_path(cells: Seq<usize>, used: u32, start: int, p: Seq<int>, w: Seq<int>) -> bool {
    &&& path_ok(p)
    &&& p.len() == w.len() + 1
    &&& p[0] == start
    &&& forall|k: int| 0 <= k < p.len() ==> !in_mask(used, #[trigger] p[k])
    &&& forall|k: int| 0 <= k < w.len() ==> cells[#[trigger] p[k + 1]] as int == w[k]
}

/// The search from cell `start` can still play `w`: some path off the
/// visited cells spells it.
pub open spec fn extendable(cells: Seq<usize>, used: u32, start: int, w: Seq<int>) -> bool {
    exists|p: Seq<int>| #[trigger] ext_path(cells, used, start, p, w)
}

/// One step of the search from `start`: move to the unvisited adjacent cell
/// `nb`, match the first tile of `w` there, and play the rest from `nb` with
/// `start` marked visited.
pub open spec fn step_to(cells: Seq<usize>, used: u32, start: int, nb: int, w: Seq<int>) -> bool {
    &&& 0 <= nb < 16
    &&& adj_cells(start, nb)
    &&& !in_mask(used | (1u32 << (start as u32)), nb)
    &&& cells[nb] as int == w[0]
    &&& extendable(cells, used | (1u32 << (start as u32)), nb, w.skip(1))
}

/// A cell's coordinates recovered from its linear index.
proof fn lemma_cell_coords(x: int, y: int)
    requires
        0 <= x < 4,
        0 <= y < 4,
    ensures
        (x + 4 * y) % 4 == x,
        (x + 4 * y) / 4 == y,
        0 <= x + 4 * y < 16,
{
}

/// The empty word is always playable from an unvisited cell.
proof fn lemma_extendable_empty(cells: Seq<usize>, used: u32, start: int)
    requires
        0 <= start < 16,
        !in_mask(used, start),
    ensures
        extendable(cells, used, start, Seq::<int>::empty()),
{
    let p = seq![start];
    assert(ext_path(cells, used, start, p, Seq::<int>::empty()));
}

/// A nonempty word is playable from `start` exactly when some unvisited
/// neighbor carries its first tile and the rest is playable from there.
proof fn lemma_extendable_step(cells: Seq<usize>, used: u32, start: int, w: Seq<int>)
    requires
        0 <= start < 16,
        !in_mask(used, start),
        w.len() > 0,
    ensures
        extendable(cells, used, start, w) <==> exists|nb: int|
            #[trigger] step_to(cells, used, start, nb, w),
{
    let used2 = used | (1u32 << (start as u32));
    assert forall|ci: int| 0 <= ci < 16 implies #[trigger] in_mask(used2, ci) == (in_mask(used, ci)
        || ci == start) by {
        lemma_mask_or_bit(used, start as u32, ci as u32);
    }
    if extendable(cells, used, start, w) {
        let p = choose|p: Seq<int>| ext_path(cells, used, start, p, w);
        let nb = p[1];
        let p2 = p.skip(1);
        assert(forall|k: int| 0 <= k < p2.len() ==> #[trigger] p2[k] == p[k + 1]);
        assert(cells[nb] as int == w[0]);
        assert forall|k: int| 0 <= k < w.skip(1).len() implies cells[#[trigger] p2[k + 1]] as int
            == w.skip(1)[k] by {
            assert(p2[k + 1] == p[k + 2]);
            assert(w.skip(1)[k] == w[k + 1]);
        }
        assert forall|k: int| 0 <= k < p2.len() implies !in_mask(used2, #[trigger] p2[k]) by {
            assert(p2[k] == p[k + 1]);
            assert(p[k + 1] != p[0]);
        }
        assert(ext_path(cells, used2, nb, p2, w.skip(1)));
        assert(step_to(cells, used, start, nb, w));
    }
    if exists|nb: int| #[trigger] step_to(cells, used, start, nb, w) {
        let nb = choose|nb: int| #[trigger] step_to(cells, used, start, nb, w);
        let p2 = choose|p2: Seq<int>| #[trigger] ext_path(cells, used2, nb, p2, w.skip(1));
        let p = seq![start] + p2;
        assert(p[0] == start);
        assert(forall|k: int| 0 <= k < p2.len() ==> #[trigger] p[k + 1] == p2[k]);
        assert forall|k1: int, k2: int| 0 <= k1 < k2 < p.len() implies p[k1] != p[k2] by {
            if k1 == 0 {
                assert(!in_mask(used2, p2[k2 - 1]));
                assert(in_mask(used2, start));
            } else {
                assert(p[k1] == p2[k1 - 1] && p[k2] == p2[k2 - 1]);
            }
        }
        assert forall|k: int| 0 <= k < p.len() - 1 implies adj_cells(#[trigger] p[k], p[k + 1]) by {
            if k == 0 {
                assert(p[1] == p2[0] == nb);
            } else {
                assert(p[k] == p2[k - 1] && p[k + 1] == p2[k]);
            }
        }
        assert forall|k: int| 0 <= k < p.len() implies !in_mask(used, #[trigger] p[k]) by {
            if k > 0 {
                assert(p[k] == p2[k - 1]);
                assert(!in_mask(used2, p2[k - 1]));
            }
        }
        assert forall|k: int| 0 <= k < w.len() implies cells[#[trigger] p[k + 1]] as int == w[k] by {
            assert(p[k + 1] == p2[k]);
            if k > 0 {
                assert(cells[p2[(k - 1) + 1]] as int == w.skip(1)[k - 1]);
                assert(w.skip(1)[k - 1] == w[k]);
            }
        }
        assert(ext_path(cells, used, start, p, w));
    }
}

/// A nonempty word is playable on the board exactly when some cell carries
/// its first tile and the rest is playable from that cell.
proof fn lemma_findable_unfold(cells: Seq<usize>, w: Seq<int>)
    requires
        w.len() > 0,
    ensures
        findable(cells, w) <==> exists|start: int|
            0 <= start < 16 && cells[start] as int == w[0] && #[trigger] extendable(
                cells,
                0u32,
                start,
                w.skip(1),
            ),
{
    assert forall|ci: int| 0 <= ci < 16 implies !in_mask(0u32, ci) by {
        lemma_mask_zero(ci as u32);
    }
    if findable(cells, w) {
        let p = choose|p: Seq<int>| path_ok(p) && #[trigger] spells(cells, p, w);
        let start = p[0];
        assert(cells[start] as int == w[0]);
        assert forall|k: int| 0 <= k < w.skip(1).len() implies cells[#[trigger] p[k + 1]] as int
            == w.skip(1)[k] by {
            assert(w.skip(1)[k] == w[k + 1]);
        }
        assert(ext_path(cells, 0u32, start, p, w.skip(1)));
        assert(extendable(cells, 0u32, start, w.skip(1)));
    }
    if exists|start: int|
        0 <= start < 16 && cells[start] as int == w[0] && #[trigger] extendable(
            cells,
            0u32,
            start,
            w.skip(1),
        ) {
        let start = choose|start: int|
            0 <= start < 16 && cells[start] as int == w[0] && #[trigger] extendable(
                cells,
                0u32,
                start,
                w.skip(1),
            );
        let p = choose|p: Seq<int>| #[trigger] ext_path(cells, 0u32, start, p, w.skip(1));
        assert forall|k: int| 0 <= k < p.len() implies cells[#[trigger] p[k]] as int == w[k] by {
            if k > 0 {
                assert(cells[p[(k - 1) + 1]] as int == w.skip(1)[k - 1]);
                assert(w.skip(1)[k - 1] == w[k]);
            }
        }
        assert(spells(cells, p, w));
    }
}

/// A full play of the nonempty word `w` begins at `start`: the cell carries
/// the first tile and the rest can be played from there on a fresh mask.
pub open spec fn cell_starts(cells: Seq<usize>, start: int, w: Seq<int>) -> bool {
    &&& 0 <= start < 16
    &&& cells[start] as int == w[0]
    &&& extendable(cells, 0u32, start, w.skip(1))
}

/// The neighbor at table position `j` lets the search play `w` next.
pub open spec fn nbr_step(
    cells: Seq<usize>,
    used_in: u32,
    start: int,
    nbrs: Seq<(usize, usize)>,
    j: int,
    w: Seq<int>,
) -> bool {
    step_to(cells, used_in, start, nbrs[j].0 + 4 * nbrs[j].1, w)
}

impl Boggler {
    /// One depth-first step at cell `(x, y)`: the cell's letter has already
    /// been matched into the dictionary node `t`, and the cells of `used_in`
    /// are taken by the path so far.  The call stamps into `t`'s subtree
    /// exactly the word nodes not yet stamped this run whose remaining
    /// letters can be played onward from this cell ([`extendable`]), and
    /// returns exactly the score those nodes contribute; a node already
    /// stamped contributes nothing.
    fn do_dfs(&self, x: usize, y: usize, len_in: usize, used_in: u32, t: &mut Trie) -> (score: u32)
        requires
            self.wf(),
            old(t).wf(),
            x < 4,
            y < 4,
            !mask_bit(used_in, (x + 4 * y) as u32),
            len_in <= 2 * mask_count(used_in, 16),
            11 * old(t).count_words() <= u32::MAX,
        ensures
            final(t).wf(),
            dfs_step(*old(t), *final(t), self.generation()),
            score == fresh_score(
                *old(t),
                *final(t),
                self.generation(),
                len_in + tile_len(self.cells()[x + 4 * y] as int),
            ),
            forall|w: Seq<int>|
                old(t).has_prefix(w) ==> ((final(t).node_at(w).mark != old(t).node_at(w).mark)
                    <==> (old(t).node_at(w).is_word && old(t).node_at(w).mark != self.generation()
                    && extendable(self.cells(), used_in, x + 4 * y, w))),
        decreases 16int - mask_count(used_in, 16),
    {
        let ghost t0 = *t;
        let ghost run = self.generation();
        let c = self.get_cell(x, y);
        let i = x + 4 * y;
        proof {
            lemma_mask_count_le(used_in, 16);
            lemma_mask_count_or(used_in, i as u32, 16);
        }
        let used = used_in | (1u32 << (i as u32));
        let len = len_in + (if c == Q {
            2
        } else {
            1
        });
        let mut score: u32 = 0;
        if t.is_word && t.mark != self.runs {
            t.mark = self.runs;
            score = word_score(len);
            proof {
                lemma_stamp(t0, *t, run, len as int);
            }
        } else {
            proof {
                lemma_dfs_refl(*t, run, len as int);
            }
        }
        proof {
            assert forall|w: Seq<int>| t0.has_prefix(w) && w.len() > 0 implies (*t).node_at(w)
                == t0.node_at(w) by {
                assert((*t).has_child(w[0]) == t0.has_child(w[0]));
                assert((*t).child_at(w[0]) == t0.child_at(w[0]));
            }
        }
        let nbrs = neighbors(x, y);
        let mut k: usize = 0;
        while k < nbrs.len()
            invariant
                self.wf(),
                x < 4,
                y < 4,
                c == self.cells()[x + 4 * y],
                c < 26,
                i == x + 4 * y,
                !mask_bit(used_in, i as u32),
                used == used_in | (1u32 << (i as u32)),
                mask_count(used, 16) == mask_count(used_in, 16) + 1,
                mask_count(used_in, 16) <= 16,
                len == len_in + tile_len(c as int),
                len <= 2 * mask_count(used, 16),
                run == self.generation(),
                k <= nbrs@.len(),
                forall|j: int|
                    0 <= j < nbrs@.len() ==> is_adjacent(
                        x as int,
                        y as int,
                        (#[trigger] nbrs@[j]).0 as int,
                        nbrs@[j].1 as int,
                    ),
                t0.wf(),
                11 * t0.count_words() <= u32::MAX,
                (*t).wf(),
                dfs_step(t0, *t, run),
                score == fresh_score(t0, *t, run, len as int),
                forall|w: Seq<int>|
                    t0.has_prefix(w) ==> (((*t).node_at(w).mark != t0.node_at(w).mark) <==> (
                    t0.node_at(w).is_word && t0.node_at(w).mark != run && (w.len() == 0 || exists|
                        j: int,
                    |
                        0 <= j < k && #[trigger] nbr_step(self.cells(), used_in, i as int, nbrs@, j, w)))),
            decreases nbrs@.len() - k,
        {
            let (cx, cy) = nbrs[k];
            let nidx = cx + 4 * cy;
            proof {
                lemma_mask_test(used, nidx as u32);
            }
            if used & (1u32 << (nidx as u32)) == 0 {
                let cc = self.get_cell(cx, cy);
                proof {
                    lemma_mask_count_le(used, 16);
                    lemma_dfs_preserves(t0, *t, run);
                    lemma_dfs_below_child(t0, *t, run, cc as int, 26);
                }
                if t.starts_word(cc) {
                    let ghost tpre = *t;
                    proof {
                        tpre.lemma_child_count_le(cc as int);
                    }
                    let slot = t.child_mut(cc);
                    match slot.take() {
                        Some(mut b) => {
                            let ghost b0 = *b;
                            let s2 = self.do_dfs(cx, cy, len, used, &mut *b);
                            let ghost b1 = *b;
                            *slot = Some(b);
                            proof {
                                lemma_child_update(tpre, *t, b0, b1, cc as int, run, len as int);
                                lemma_dfs_trans(t0, tpre, *t, run, len as int);
                                lemma_fresh_score_bound(t0, *t, run, len as int);
                                lemma_cell_coords(x as int, y as int);
                                lemma_cell_coords(cx as int, cy as int);
                                assert forall|w: Seq<int>| t0.has_prefix(w) implies (((*t).node_at(
                                    w,
                                ).mark != t0.node_at(w).mark) <==> (t0.node_at(w).is_word
                                    && t0.node_at(w).mark != run && (w.len() == 0 || exists|j: int|
                                    0 <= j < k + 1 && #[trigger] nbr_step(
                                        self.cells(),
                                        used_in,
                                        i as int,
                                        nbrs@,
                                        j,
                                        w,
                                    )))) by {
                                    lemma_dfs_node(t0, tpre, run, w);
                                    lemma_dfs_node(t0, *t, run, w);
                                    if w.len() == 0 {
                                        assert((*t).mark == tpre.mark);
                                    } else if w[0] == cc as int {
                                        assert((*t).has_child(cc as int) && (*t).child_at(
                                            cc as int,
                                        ) == b1);
                                        assert((*t).node_at(w) == b1.node_at(w.skip(1)));
                                        assert(tpre.node_at(w) == b0.node_at(w.skip(1)));
                                        assert(b0.has_prefix(w.skip(1)));
                                        assert((b1.node_at(w.skip(1)).mark != b0.node_at(
                                            w.skip(1),
                                        ).mark) <==> (b0.node_at(w.skip(1)).is_word && b0.node_at(
                                            w.skip(1),
                                        ).mark != run && extendable(
                                            self.cells(),
                                            used,
                                            nidx as int,
                                            w.skip(1),
                                        )));
                                        assert(adj_cells(i as int, nidx as int));
                                        assert(nbr_step(self.cells(), used_in, i as int, nbrs@, k
                                            as int, w) <==> extendable(
                                            self.cells(),
                                            used,
                                            nidx as int,
                                            w.skip(1),
                                        ));
                                        if t0.node_at(w).is_word && t0.node_at(w).mark != run && (
                                        exists|j: int|
                                            0 <= j < k + 1 && #[trigger] nbr_step(
                                                self.cells(),
                                                used_in,
                                                i as int,
                                                nbrs@,
                                                j,
                                                w,
                                            )) {
                                            let j = choose|j: int|
                                                0 <= j < k + 1 && #[trigger] nbr_step(
                                                    self.cells(),
                                                    used_in,
                                                    i as int,
                                                    nbrs@,
                                                    j,
                                                    w,
                                                );
                                            if j < k {
                                                assert(tpre.node_at(w).mark != t0.node_at(w).mark);
                                            }
                                        }
                                    } else {
                                        assert((*t).has_child(w[0]) == tpre.has_child(w[0]));
                                        if tpre.has_child(w[0]) {
                                            assert((*t).child_at(w[0]) == tpre.child_at(w[0]));
                                        }
                                        assert((*t).node_at(w) == tpre.node_at(w));
                                        if exists|j: int|
                                            0 <= j < k + 1 && #[trigger] nbr_step(
                                                self.cells(),
                                                used_in,
                                                i as int,
                                                nbrs@,
                                                j,
                                                w,
                                            ) {
                                            let j = choose|j: int|
                                                0 <= j < k + 1 && #[trigger] nbr_step(
                                                    self.cells(),
                                                    used_in,
                                                    i as int,
                                                    nbrs@,
                                                    j,
                                                    w,
                                                );
                                            if j == k {
                                                assert(false);
                                            }
                                        }
                                    }
                                }
                            }
                            score = score + s2;
                        },
                        None => {
                            proof {
                                assert(false);
                            }
                        },
                    }
                } else {
                    proof {
                        assert forall|w: Seq<int>|
                            t0.has_prefix(w) && w.len() > 0 && #[trigger] nbr_step(
                                self.cells(),
                                used_in,
                                i as int,
                                nbrs@,
                                k as int,
                                w,
                            ) implies false by {
                            assert(w[0] == cc as int);
                            assert(!t0.has_child(cc as int));
                        }
                    }
                }
            } else {
                proof {
                    assert forall|w: Seq<int>|
                        #[trigger] nbr_step(
                            self.cells(),
                            used_in,
                            i as int,
                            nbrs@,
                            k as int,
                            w,
                        ) implies false by {
                        assert(in_mask(used, nidx as int));
                    }
                }
            }
            k += 1;
        }
        proof {
            assert forall|w: Seq<int>| t0.has_prefix(w) implies (((*t).node_at(w).mark
                != t0.node_at(w).mark) <==> (t0.node_at(w).is_word && t0.node_at(w).mark != run
                && extendable(self.cells(), used_in, i as int, w))) by {
                assert(((*t).node_at(w).mark != t0.node_at(w).mark) <==> (t0.node_at(w).is_word
                    && t0.node_at(w).mark != run && (w.len() == 0 || exists|j: int|
                    0 <= j < k && #[trigger] nbr_step(
                        self.cells(),
                        used_in,
                        i as int,
                        nbrs@,
                        j,
                        w,
                    ))));
                if w.len() == 0 {
                    assert(w =~= Seq::<int>::empty());
                    lemma_extendable_empty(self.cells(), used_in, i as int);
                } else {
                    lemma_extendable_step(self.cells(), used_in, i as int, w);
                    if (*t).node_at(w).mark != t0.node_at(w).mark {
                        let j = choose|j: int|
                            0 <= j < k && #[trigger] nbr_step(
                                self.cells(),
                                used_in,
                                i as int,
                                nbrs@,
                                j,
                                w,
                            );
                        assert(step_to(
                            self.cells(),
                            used_in,
                            i as int,
                            nbrs@[j].0 + 4 * nbrs@[j].1,
                            w,
                        ));
                        assert(extendable(self.cells(), used_in, i as int, w));
                    }
                    if t0.node_at(w).is_word && t0.node_at(w).mark != run && extendable(
                        self.cells(),
                        used_in,
                        i as int,
                        w,
                    ) {
                        let nb = choose|nb: int|
                            #[trigger] step_to(self.cells(), used_in, i as int, nb, w);
                        lemma_cell_coords(x as int, y as int);
                        assert(is_adjacent(x as int, y as int, nb % 4, nb / 4));
                        let cxu = (nb % 4) as usize;
                        let cyu = (nb / 4) as usize;
                        assert(nbrs@.contains((cxu, cyu)));
                        let j = choose|j: int| 0 <= j < nbrs@.len() && nbrs@[j] == (cxu, cyu);
                        assert(nbrs@[j].0 + 4 * nbrs@[j].1 == nb);
                        assert(0 <= j < k && nbr_step(self.cells(), used_in, i as int, nbrs@, j, w));
                        assert((*t).node_at(w).mark != t0.node_at(w).mark);
                    }
                }
            }
        }
        score
    }


    /// Score the board against the dictionary: one new scoring run, one
    /// depth-first search per starting cell.  The run stamps exactly the
    /// word nodes whose words can be played on the board and are not yet
    /// stamped, and the total is exactly the sum of the stamped words'
    /// scores: a word found along several paths is counted once.
    pub fn score(&mut self, dict: &mut Trie) -> (total: u32)
        requires
            old(self).wf(),
            old(dict).wf(),
            old(self).generation() < u32::MAX,
            11 * old(dict).count_words() <= u32::MAX,
        ensures
            final(self).wf(),
            final(self).cells() == old(self).cells(),
            final(self).generation() == old(self).generation() + 1,
            final(dict).wf(),
            dfs_step(*old(dict), *final(dict), final(self).generation()),
            total == fresh_score(*old(dict), *final(dict), final(self).generation(), 0),
            forall|w: Seq<int>|
                old(dict).has_prefix(w) ==> ((final(dict).node_at(w).mark != old(dict).node_at(
                    w,
                ).mark) <==> (w.len() > 0 && old(dict).contains(w) && old(dict).node_at(w).mark
                    != final(self).generation() && findable(old(self).cells(), w))),
            forall|w: Seq<int>| final(dict).contains(w) == old(dict).contains(w),
            final(dict).count_words() == old(dict).count_words(),
    {
        let mut total: u32 = 0;
        self.runs = self.runs + 1;
        let ghost run = self.generation();
        let ghost d0 = *dict;
        proof {
            lemma_dfs_refl(d0, run, 0);
        }
        let mut cell: usize = 0;
        while cell < 16
            invariant
                self.wf(),
                self.cells() == old(self).cells(),
                self.generation() == old(self).generation() + 1,
                run == self.generation(),
                cell <= 16,
                d0.wf(),
                d0 == *old(dict),
                11 * d0.count_words() <= u32::MAX,
                (*dict).wf(),
                dfs_step(d0, *dict, run),
                total == fresh_score(d0, *dict, run, 0),
                forall|w: Seq<int>|
                    d0.has_prefix(w) ==> (((*dict).node_at(w).mark != d0.node_at(w).mark) <==> (
                    w.len() > 0 && d0.node_at(w).is_word && d0.node_at(w).mark != run && exists|
                        s: int,
                    |
                        0 <= s < cell && #[trigger] cell_starts(self.cells(), s, w))),
            decreases 16 - cell,
        {
            let x = cell % 4;
            let y = cell / 4;
            proof {
                assert(x + 4 * y == cell);
            }
            let c = self.get_cell(x, y);
            proof {
                lemma_dfs_preserves(d0, *dict, run);
                lemma_dfs_below_child(d0, *dict, run, c as int, 26);
            }
            if dict.starts_word(c) {
                let ghost dpre = *dict;
                proof {
                    dpre.lemma_child_count_le(c as int);
                    lemma_mask_zero((x + 4 * y) as u32);
                    lemma_mask_count_le(0u32, 16);
                }
                let slot = dict.child_mut(c);
                match slot.take() {
                    Some(mut b) => {
                        let ghost b0 = *b;
                        let s2 = self.do_dfs(x, y, 0, 0, &mut *b);
                        let ghost b1 = *b;
                        *slot = Some(b);
                        proof {
                            lemma_child_update(dpre, *dict, b0, b1, c as int, run, 0);
                            lemma_dfs_trans(d0, dpre, *dict, run, 0);
                            lemma_fresh_score_bound(d0, *dict, run, 0);
                            assert forall|w: Seq<int>| d0.has_prefix(w) implies (((*dict).node_at(
                                w,
                            ).mark != d0.node_at(w).mark) <==> (w.len() > 0 && d0.node_at(
                                w,
                            ).is_word && d0.node_at(w).mark != run && exists|s: int|
                                0 <= s < cell + 1 && #[trigger] cell_starts(
                                    self.cells(),
                                    s,
                                    w,
                                ))) by {
                                lemma_dfs_node(d0, dpre, run, w);
                                lemma_dfs_node(d0, *dict, run, w);
                                if w.len() == 0 {
                                    assert((*dict).mark == dpre.mark);
                                } else if w[0] == c as int {
                                    assert((*dict).has_child(c as int) && (*dict).child_at(
                                        c as int,
                                    ) == b1);
                                    assert((*dict).node_at(w) == b1.node_at(w.skip(1)));
                                    assert(dpre.node_at(w) == b0.node_at(w.skip(1)));
                                    assert(b0.has_prefix(w.skip(1)));
                                    assert((b1.node_at(w.skip(1)).mark != b0.node_at(
                                        w.skip(1),
                                    ).mark) <==> (b0.node_at(w.skip(1)).is_word && b0.node_at(
                                        w.skip(1),
                                    ).mark != run && extendable(
                                        self.cells(),
                                        0u32,
                                        cell as int,
                                        w.skip(1),
                                    )));
                                    assert(cell_starts(self.cells(), cell as int, w) <==>
                                        extendable(self.cells(), 0u32, cell as int, w.skip(1)));
                                    if w.len() > 0 && d0.node_at(w).is_word && d0.node_at(w).mark
                                        != run && (exists|s: int|
                                        0 <= s < cell + 1 && #[trigger] cell_starts(
                                            self.cells(),
                                            s,
                                            w,
                                        )) {
                                        let s0 = choose|s: int|
                                            0 <= s < cell + 1 && #[trigger] cell_starts(
                                                self.cells(),
                                                s,
                                                w,
                                            );
                                        if s0 < cell {
                                            assert(dpre.node_at(w).mark != d0.node_at(w).mark);
                                        }
                                    }
                                } else {
                                    assert((*dict).has_child(w[0]) == dpre.has_child(w[0]));
                                    if dpre.has_child(w[0]) {
                                        assert((*dict).child_at(w[0]) == dpre.child_at(w[0]));
                                    }
                                    assert((*dict).node_at(w) == dpre.node_at(w));
                                    if exists|s: int|
                                        0 <= s < cell + 1 && #[trigger] cell_starts(
                                            self.cells(),
                                            s,
                                            w,
                                        ) {
                                        let s0 = choose|s: int|
                                            0 <= s < cell + 1 && #[trigger] cell_starts(
                                                self.cells(),
                                                s,
                                                w,
                                            );
                                        if s0 == cell {
                                            assert(false);
                                        }
                                    }
                                }
                            }
                        }
                        total = total + s2;
                    },
                    None => {
                        proof {
                            assert(false);
                        }
                    },
                }
            } else {
                proof {
                    assert forall|w: Seq<int>|
                        d0.has_prefix(w) && w.len() > 0 && #[trigger] cell_starts(
                            self.cells(),
                            cell as int,
                            w,
                        ) implies false by {
                        assert(w[0] == c as int);
                        assert(!d0.has_child(c as int));
                    }
                }
            }
            cell += 1;
        }
        proof {
            lemma_dfs_preserves(d0, *dict, run);
            assert forall|w: Seq<int>| d0.has_prefix(w) implies (((*dict).node_at(w).mark
                != d0.node_at(w).mark) <==> (w.len() > 0 && d0.contains(w) && d0.node_at(w).mark
                != run && findable(self.cells(), w))) by {
                d0.lemma_contains_via_node(w);
                if w.len() > 0 {
                    lemma_findable_unfold(self.cells(), w);
                    if (*dict).node_at(w).mark != d0.node_at(w).mark {
                        let s0 = choose|s: int|
                            0 <= s < cell && #[trigger] cell_starts(self.cells(), s, w);
                        assert(0 <= s0 < 16 && self.cells()[s0] as int == w[0] && extendable(
                            self.cells(),
                            0u32,
                            s0,
                            w.skip(1),
                        ));
                        assert(findable(self.cells(), w));
                    }
                    if w.len() > 0 && d0.contains(w) && d0.node_at(w).mark != run && findable(
                        self.cells(),
                        w,
                    ) {
                        let s0 = choose|start: int|
                            0 <= start < 16 && self.cells()[start] as int == w[0]
                                && #[trigger] extendable(self.cells(), 0u32, start, w.skip(1));
                        assert(cell_starts(self.cells(), s0, w));
                        assert((*dict).node_at(w).mark != d0.node_at(w).mark);
                    }
                }
            }
        }
        total
    }
}

/// Every generation stamp in the tree is at most `g`.
pub open spec fn marks_through(t: Trie, g: u32) -> bool
    decreases t, 1int, 0int,
{
    t.mark <= g && marks_through_below(t, g, 26)
}

/// [`marks_through`], over the first `c` child slots.
pub open spec fn marks_through_below(t: Trie, g: u32, c: int) -> bool
    decreases t, 0int, c,
    via marks_through_below_dec
{
    c <= 0 || {
        &&& marks_through_below(t, g, c - 1)
        &&& (t.has_child(c - 1) ==> marks_through(*t.children@[c - 1]->0, g))
    }
}

#[via_fn]
proof fn marks_through_below_dec(t: Trie, g: u32, c: int) {
    if c > 0 && t.has_child(c - 1) {
        Trie::lemma_child_decreases(t, c - 1);
    }
}

/// Unpack [`marks_through`] at one node, named by its path.
proof fn lemma_marks_through_node(t: Trie, g: u32, w: Seq<int>)
    requires
        t.wf(),
        marks_through(t, g),
        t.has_prefix(w),
    ensures
        t.node_at(w).mark <= g,
    decreases w.len(),
{
    if w.len() > 0 {
        lemma_marks_below_child(t, g, w[0], 26);
        lemma_marks_through_node(*t.children@[w[0]]->0, g, w.skip(1));
    }
}

proof fn lemma_marks_below_child(t: Trie, g: u32, c: int, cc: int)
    requires
        marks_through_below(t, g, cc),
        0 <= c < cc,
        t.has_child(c),
    ensures
        marks_through(*t.children@[c]->0, g),
    decreases cc,
{
    if c < cc - 1 {
        lemma_marks_below_child(t, g, c, cc - 1);
    }
}

/// A bound that holds of every node's stamp, named by its path, holds of
/// the whole tree.
pub proof fn lemma_marks_through_intro(t: Trie, g: u32)
    requires
        t.wf(),
        forall|w: Seq<int>| t.has_prefix(w) ==> (#[trigger] t.node_at(w)).mark <= g,
    ensures
        marks_through(t, g),
    decreases t, 1int, 0int,
{
    assert(t.has_prefix(Seq::<int>::empty()));
    assert(t.node_at(Seq::<int>::empty()) == t);
    lemma_marks_through_intro_below(t, g, 26);
}

proof fn lemma_marks_through_intro_below(t: Trie, g: u32, c: int)
    requires
        t.wf(),
        c <= 26,
        forall|w: Seq<int>| t.has_prefix(w) ==> (#[trigger] t.node_at(w)).mark <= g,
    ensures
        marks_through_below(t, g, c),
    decreases t, 0int, c,
{
    if c > 0 {
        lemma_marks_through_intro_below(t, g, c - 1);
        if t.has_child(c - 1) {
            let ct = *t.children@[c - 1]->0;
            assert forall|w: Seq<int>| ct.has_prefix(w) implies (#[trigger] ct.node_at(w)).mark
                <= g by {
                let ww = seq![c - 1] + w;
                assert(ww[0] == c - 1);
                assert(ww.skip(1) =~= w);
                assert(t.has_prefix(ww));
                assert(t.node_at(ww) == ct.node_at(w));
            }
            Trie::lemma_child_decreases(t, c - 1);
            lemma_marks_through_intro(ct, g);
        }
    }
}

/// Two runs that stamp the same nodes score the same total, whatever their
/// generations: the total depends only on which word nodes are stamped.
proof fn lemma_fresh_pointwise(a: Trie, b: Trie, d: Trie, r1: u32, r2: u32, len: int)
    requires
        a.wf(),
        dfs_step(a, b, r1),
        dfs_step(b, d, r2),
        forall|w: Seq<int>|
            a.has_prefix(w) ==> ((b.node_at(w).mark != a.node_at(w).mark) == (d.node_at(w).mark
                != b.node_at(w).mark)),
    ensures
        fresh_score(a, b, r1, len) == fresh_score(b, d, r2, len),
    decreases a, 1int, 0int,
{
    assert(a.has_prefix(Seq::<int>::empty()));
    assert((b.mark != a.mark) == (d.mark != b.mark));
    lemma_fresh_pointwise_below(a, b, d, r1, r2, len, 26);
}

proof fn lemma_fresh_pointwise_below(
    a: Trie,
    b: Trie,
    d: Trie,
    r1: u32,
    r2: u32,
    len: int,
    c: int,
)
    requires
        a.wf(),
        dfs_step(a, b, r1),
        dfs_step(b, d, r2),
        c <= 26,
        forall|w: Seq<int>|
            a.has_prefix(w) ==> ((b.node_at(w).mark != a.node_at(w).mark) == (d.node_at(w).mark
                != b.node_at(w).mark)),
    ensures
        fresh_score_below(a, b, r1, len, c) == fresh_score_below(b, d, r2, len, c),
    decreases a, 0int, c,
{
    if c > 0 {
        lemma_fresh_pointwise_below(a, b, d, r1, r2, len, c - 1);
        lemma_dfs_below_child(a, b, r1, c - 1, 26);
        lemma_dfs_below_child(b, d, r2, c - 1, 26);
        if a.has_child(c - 1) {
            let ca = *a.children@[c - 1]->0;
            let cb = *b.children@[c - 1]->0;
            let cd = *d.children@[c - 1]->0;
            assert forall|w: Seq<int>| ca.has_prefix(w) implies ((cb.node_at(w).mark != ca.node_at(
                w,
            ).mark) == (cd.node_at(w).mark != cb.node_at(w).mark)) by {
                let ww = seq![c - 1] + w;
                assert(ww[0] == c - 1);
                assert(ww.skip(1) =~= w);
                assert(a.has_prefix(ww));
                assert(a.node_at(ww) == ca.node_at(w));
                assert(b.node_at(ww) == cb.node_at(w));
                assert(d.node_at(ww) == cd.node_at(w));
            }
            Trie::lemma_child_decreases(a, c - 1);
            lemma_fresh_pointwise(ca, cb, cd, r1, r2, len + tile_len(c - 1));
        }
    }
}

/// Two scoring runs in a row, with the board's cells and the dictionary's
/// words untouched in between, return the same total.  The hypotheses are
/// what [`Boggler::score`] ensures of each run; the stamps of the first run
/// never suppress the second, because the generation rises between them.
pub proof fn lemma_consecutive_runs_agree(
    cells: Seq<usize>,
    d0: Trie,
    d1: Trie,
    d2: Trie,
    g: u32,
    r1: u32,
    r2: u32,
)
    requires
        d0.wf(),
        marks_through(d0, g),
        g < r1 < r2,
        dfs_step(d0, d1, r1),
        dfs_step(d1, d2, r2),
        forall|w: Seq<int>|
            d0.has_prefix(w) ==> ((d1.node_at(w).mark != d0.node_at(w).mark) <==> (w.len() > 0
                && d0.contains(w) && d0.node_at(w).mark != r1 && findable(cells, w))),
        forall|w: Seq<int>|
            d1.has_prefix(w) ==> ((d2.node_at(w).mark != d1.node_at(w).mark) <==> (w.len() > 0
                && d1.contains(w) && d1.node_at(w).mark != r2 && findable(cells, w))),
    ensures
        fresh_score(d1, d2, r2, 0) == fresh_score(d0, d1, r1, 0),
{
    lemma_dfs_preserves(d0, d1, r1);
    assert forall|w: Seq<int>| d0.has_prefix(w) implies ((d1.node_at(w).mark != d0.node_at(
        w,
    ).mark) == (d2.node_at(w).mark != d1.node_at(w).mark)) by {
        lemma_marks_through_node(d0, g, w);
        lemma_dfs_node(d0, d1, r1, w);
        assert(d1.contains(w) == d0.contains(w));
        assert(d0.node_at(w).mark != r1);
        assert(d1.node_at(w).mark != r2);
    }
    lemma_fresh_pointwise(d0, d1, d2, r1, r2, 0);
}

/// Round trip: any board string accepted by `parse_board` is returned
/// letter for letter by `serialize`; the two contracts compose to the
/// identity.
pub proof fn lemma_parse_serialize_round_trip(s: Seq<char>, b: Boggler, r: Seq<char>)
    requires
        board_ok(s),
        forall|k: int| 0 <= k < 16 ==> #[trigger] b.cells()[k] == s[k] as int - 97,
        r.len() == 16,
        forall|k: int| 0 <= k < 16 ==> #[trigger] r[k] as int == b.cells()[k] + 97,
    ensures
        r == s,
{
    assert forall|k: int| 0 <= k < r.len() implies r[k] == s[k] by {
        assert(r[k] as int == s[k] as int);
    }
    assert(r =~= s);
}

/// Tile index of the letter 'q', whose tile stands for the digraph "qu".
pub const Q: usize = 16;

/// True when cell `(cx, cy)` is one of the up-to-eight board neighbors of
/// cell `(x, y)`: in bounds, distinct, and at most one step away.
pub open spec fn is_adjacent(x: int, y: int, cx: int, cy: int) -> bool {
    &&& 0 <= cx < 4
    &&& 0 <= cy < 4
    &&& !(cx == x && cy == y)
    &&& x - 1 <= cx <= x + 1
    &&& y - 1 <= cy <= y + 1
}

/// How many neighbors a cell has: 3 in a corner, 5 on an edge, 8 inside.
pub open spec fn neighbor_count(x: int, y: int) -> int {
    (if x == 0 || x == 3 {
        2int
    } else {
        3int
    }) * (if y == 0 || y == 3 {
        2int
    } else {
        3int
    }) - 1
}

/// The neighbors of cell `(x, y)` under 8-directional adjacency clipped to
/// the grid bounds: exactly the adjacent cells, each once.  The table
/// depends on the geometry alone, never on the letters in the grid.
pub fn neighbors(x: usize, y: usize) -> (r: Vec<(usize, usize)>)
    requires
        x < 4,
        y < 4,
    ensures
        r@.len() == neighbor_count(x as int, y as int),
        forall|k: int|
            0 <= k < r@.len() ==> is_adjacent(
                x as int,
                y as int,
                (#[trigger] r@[k]).0 as int,
                r@[k].1 as int,
            ),
        forall|cx: int, cy: int|
            is_adjacent(x as int, y as int, cx, cy) ==> r@.contains((cx as usize, cy as usize)),
        forall|k1: int, k2: int| 0 <= k1 < k2 < r@.len() ==> r@[k1] != r@[k2],
{
    let mut r: Vec<(usize, usize)> = Vec::new();
    if x > 0 {
        if y > 0 {
            r.push((x - 1, y - 1));
        }
        r.push((x - 1, y));
        if y < 3 {
            r.push((x - 1, y + 1));
        }
    }
    if y > 0 {
        r.push((x, y - 1));
    }
    if y < 3 {
        r.push((x, y + 1));
    }
    if x < 3 {
        if y > 0 {
            r.push((x + 1, y - 1));
        }
        r.push((x + 1, y));
        if y < 3 {
            r.push((x + 1, y + 1));
        }
    }
    proof {
        let ra: int = if x > 0 {
            (if y > 0 {
                1int
            } else {
                0int
            }) + 1 + (if y < 3 {
                1int
            } else {
                0int
            })
        } else {
            0int
        };
        let rb: int = ra + (if y > 0 {
            1int
        } else {
            0int
        }) + (if y < 3 {
            1int
        } else {
            0int
        });
        assert forall|cx: int, cy: int| is_adjacent(x as int, y as int, cx, cy) implies r@.contains(
            (cx as usize, cy as usize),
        ) by {
            let p = (cx as usize, cy as usize);
            if cx == x - 1 {
                if cy == y - 1 {
                    assert(r@[0] == p);
                } else if cy == y as int {
                    assert(r@[if y > 0 {
                        1int
                    } else {
                        0int
                    }] == p);
                } else {
                    assert(r@[if y > 0 {
                        2int
                    } else {
                        1int
                    }] == p);
                }
            } else if cx == x as int {
                if cy == y - 1 {
                    assert(r@[ra] == p);
                } else {
                    assert(r@[ra + if y > 0 {
                        1int
                    } else {
                        0int
                    }] == p);
                }
            } else {
                if cy == y - 1 {
                    assert(r@[rb] == p);
                } else if cy == y as int {
                    assert(r@[rb + if y > 0 {
                        1int
                    } else {
                        0int
                    }] == p);
                } else {
                    assert(r@[rb + if y > 0 {
                        2int
                    } else {
                        1int
                    }] == p);
                }
            }
        }
    }
    r
}

/// True when bit `i` of the visited mask is set.
pub open spec fn mask_bit(u: u32, i: u32) -> bool {
    (u >> i) & 1 == 1
}

/// How many of the first `k` bits of the visited mask are set.
pub open spec fn mask_count(u: u32, k: int) -> nat
    decreases k,
{
    if k <= 0 {
        0nat
    } else {
        mask_count(u, k - 1) + (if mask_bit(u, (k - 1) as u32) {
            1nat
        } else {
            0nat
        })
    }
}

/// Testing a mask bit with a shifted-in one matches [`mask_bit`].
proof fn lemma_mask_test(u: u32, i: u32)
    requires
        i < 16,
    ensures
        (u & (1u32 << i) == 0) == !mask_bit(u, i),
{
    assert((u & (1u32 << i) == 0) == !((u >> i) & 1 == 1)) by (bit_vector)
        requires
            i < 16,
    ;
}

/// Setting one bit flips exactly that bit.
proof fn lemma_mask_or_bit(u: u32, i: u32, j: u32)
    requires
        i < 16,
        j < 16,
    ensures
        mask_bit(u | (1u32 << i), j) == (mask_bit(u, j) || i == j),
{
    assert((((u | (1u32 << i)) >> j) & 1 == 1) == (((u >> j) & 1 == 1) || i == j)) by (bit_vector)
        requires
            i < 16,
            j < 16,
    ;
}

/// Setting one unset bit raises the count of set bits by exactly one.
proof fn lemma_mask_count_or(u: u32, i: u32, k: int)
    requires
        i < 16,
        !mask_bit(u, i),
        k <= 16,
    ensures
        mask_count(u | (1u32 << i), k) == mask_count(u, k) + if i < k {
            1nat
        } else {
            0nat
        },
    decreases k,
{
    if k > 0 {
        lemma_mask_count_or(u, i, k - 1);
        lemma_mask_or_bit(u, i, (k - 1) as u32);
    }
}

/// At most `k` of the first `k` bits are set.
proof fn lemma_mask_count_le(u: u32, k: int)
    requires
        0 <= k,
    ensures
        mask_count(u, k) <= k,
    decreases k,
{
    if k > 0 {
        lemma_mask_count_le(u, k - 1);
    }
}

/// How many letters a tile adds to a word: the "qu" tile counts for two.
pub open spec fn tile_len(c: int) -> int {
    if c == Q as int {
        2
    } else {
        1
    }
}

/// The Boggle score of a word of `len` letters: lengths beyond the table
/// reuse the last entry.
pub open spec fn spec_word_score(len: int) -> nat {
    if len < 3 {
        0
    } else if len <= 4 {
        1
    } else if len == 5 {
        2
    } else if len == 6 {
        3
    } else if len == 7 {
        5
    } else {
        11
    }
}

/// The Boggle score of a word of `len` letters.
pub fn word_score(len: usize) -> (s: u32)
    ensures
        s == spec_word_score(len as int),
        s <= 11,
{
    if len < 3 {
        0
    } else if len <= 4 {
        1
    } else if len == 5 {
        2
    } else if len == 6 {
        3
    } else if len == 7 {
        5
    } else {
        11
    }
}

/// One scoring run may only stamp word nodes whose mark is not yet `run`,
/// setting them to `run`; everything else about the tree stays as it was.
pub open spec fn dfs_step(a: Trie, b: Trie, run: u32) -> bool
    decreases a, 1int, 0int,
{
    &&& b.is_word == a.is_word
    &&& b.children@.len() == a.children@.len()
    &&& (b.mark == a.mark || (a.mark != run && b.mark == run && a.is_word))
    &&& dfs_step_below(a, b, run, 26)
}

/// [`dfs_step`], over the first `c` child slots.
pub open spec fn dfs_step_below(a: Trie, b: Trie, run: u32, c: int) -> bool
    decreases a, 0int, c,
    via dfs_step_below_dec
{
    c <= 0 || {
        &&& dfs_step_below(a, b, run, c - 1)
        &&& a.has_child(c - 1) == b.has_child(c - 1)
        &&& (a.has_child(c - 1) && b.has_child(c - 1) ==> dfs_step(
            *a.children@[c - 1]->0,
            *b.children@[c - 1]->0,
            run,
        ))
    }
}

#[via_fn]
proof fn dfs_step_below_dec(a: Trie, b: Trie, run: u32, c: int) {
    if c > 0 && a.has_child(c - 1) {
        Trie::lemma_child_decreases(a, c - 1);
    }
}

/// The total score contributed by the nodes whose mark moved to `run` between
/// `a` and `b`, when the node reached so far spells `len` letters.
pub open spec fn fresh_score(a: Trie, b: Trie, run: u32, len: int) -> nat
    decreases a, 1int, 0int,
{
    (if b.mark == run && a.mark != run {
        spec_word_score(len)
    } else {
        0nat
    }) + fresh_score_below(a, b, run, len, 26)
}

/// [`fresh_score`], over the first `c` child slots.
pub open spec fn fresh_score_below(a: Trie, b: Trie, run: u32, len: int, c: int) -> nat
    decreases a, 0int, c,
    via fresh_score_below_dec
{
    if c <= 0 {
        0nat
    } else {
        fresh_score_below(a, b, run, len, c - 1) + (if a.has_child(c - 1) && b.has_child(c - 1) {
            fresh_score(*a.children@[c - 1]->0, *b.children@[c - 1]->0, run, len + tile_len(c - 1))
        } else {
            0nat
        })
    }
}

#[via_fn]
proof fn fresh_score_below_dec(a: Trie, b: Trie, run: u32, len: int, c: int) {
    if c > 0 && a.has_child(c - 1) {
        Trie::lemma_child_decreases(a, c - 1);
    }
}

/// A word is playable when it is 3 to 17 characters long and every 'q' in it
/// is immediately followed by 'u'; a trailing 'q' is not playable.
pub open spec fn spec_is_boggle_word(s: Seq<char>) -> bool {
    &&& 3 <= s.len() <= 17
    &&& forall|i: int|
        0 <= i < s.len() && (#[trigger] s[i]) == 'q' ==> i + 1 < s.len() && s[i + 1] == 'u'
}

/// True when `word` may be played in Boggle: 3 to 17 characters, and every
/// 'q' immediately followed by 'u'.
pub fn is_boggle_word(word: &str) -> (r: bool)
    ensures
        r == spec_is_boggle_word(word@),
{
    let chars = str_chars(word);
    let n = chars.len();
    if n < 3 || n > 17 {
        return false;
    }
    let mut i: usize = 0;
    while i < n
        invariant
            chars@ == word@,
            n == chars@.len(),
            3 <= n <= 17,
            i <= n,
            forall|j: int|
                0 <= j < i && (#[trigger] chars@[j]) == 'q' ==> j + 1 < n && chars@[j + 1] == 'u',
        decreases n - i,
    {
        if chars[i] == 'q' {
            if i + 1 >= n {
                return false;
            }
            if chars[i + 1] != 'u' {
                return false;
            }
        }
        i += 1;
    }
    true
}

/// The tile form of a word, scanned left to right: each "qu" pair collapses
/// to a single 'q' tile, consuming two source characters; every other
/// character is copied and consumes one.
pub open spec fn spec_bogglify(s: Seq<char>) -> Seq<char>
    decreases s.len(),
{
    if s.len() == 0 {
        Seq::empty()
    } else if s[0] == 'q' && s.len() >= 2 {
        seq!['q'] + spec_bogglify(s.skip(2))
    } else {
        seq![s[0]] + spec_bogglify(s.skip(1))
    }
}

/// Rewrite every "qu" pair into a single 'q' tile, in one left-to-right
/// scan; other characters are untouched.
pub fn bogglify_word(word: &str) -> (r: String)
    ensures
        r@ == spec_bogglify(word@),
{
    let chars = str_chars(word);
    let n = chars.len();
    let mut r = String::new();
    let mut i: usize = 0;
    proof {
        assert(chars@.skip(0) =~= chars@);
        assert(Seq::<char>::empty() + spec_bogglify(chars@) =~= spec_bogglify(chars@));
    }
    while i < n
        invariant
            chars@ == word@,
            n == chars@.len(),
            i <= n,
            spec_bogglify(chars@) == r@ + spec_bogglify(chars@.skip(i as int)),
        decreases n - i,
    {
        let c = chars[i];
        let ghost r0 = r@;
        push_char(&mut r, c);
        let next: usize = if c == 'q' {
            if n - i >= 2 {
                i + 2
            } else {
                n
            }
        } else {
            i + 1
        };
        proof {
            let s0 = chars@.skip(i as int);
            assert(s0[0] == c);
            if c == 'q' && i + 2 <= n as int {
                assert(s0.skip(2) =~= chars@.skip(next as int));
                assert(spec_bogglify(s0) == seq!['q'] + spec_bogglify(chars@.skip(next as int)));
            } else {
                assert(s0.skip(1) =~= chars@.skip(i as int + 1));
                if c == 'q' {
                    assert(chars@.skip(i as int + 1) =~= chars@.skip(next as int));
                }
                assert(seq![s0[0]] =~= seq![c]);
                assert(spec_bogglify(s0) == seq![c] + spec_bogglify(chars@.skip(next as int)));
            }
            assert(r@ =~= r0 + seq![c]);
            assert((r0 + seq![c]) + spec_bogglify(chars@.skip(next as int)) =~= r0 + (seq![c]
                + spec_bogglify(chars@.skip(next as int))));
        }
        i = next;
    }
    proof {
        assert(spec_bogglify(chars@.skip(n as int)) =~= Seq::<char>::empty());
        assert(r@ + Seq::<char>::empty() =~= r@);
    }
    r
}

/// A word without any 'q' is its own tile form.
pub proof fn lemma_bogglify_no_q(s: Seq<char>)
    requires
        forall|i: int| 0 <= i < s.len() ==> (#[trigger] s[i]) != 'q',
    ensures
        spec_bogglify(s) == s,
    decreases s.len(),
{
    if s.len() > 0 {
        assert forall|i: int| 0 <= i < s.skip(1).len() implies (#[trigger] s.skip(1)[i]) != 'q' by {
            assert(s.skip(1)[i] == s[i + 1]);
        }
        lemma_bogglify_no_q(s.skip(1));
        assert(seq![s[0]] + s.skip(1) =~= s);
    } else {
        assert(spec_bogglify(s) =~= s);
    }
}

/// A playable word that holds no "qu" pair holds no 'q' at all, so its tile
/// form is the word itself.
pub proof fn lemma_bogglify_legal_without_qu(s: Seq<char>)
    requires
        spec_is_boggle_word(s),
        forall|i: int| 0 <= i && i + 1 < s.len() ==> !((#[trigger] s[i]) == 'q' && s[i + 1] == 'u'),
    ensures
        spec_bogglify(s) == s,
{
    assert forall|i: int| 0 <= i < s.len() implies (#[trigger] s[i]) != 'q' by {
        if s[i] == 'q' {
            assert(i + 1 < s.len() && s[i + 1] == 'u');
        }
    }
    lemma_bogglify_no_q(s);
}

/// Each "qu" pair collapses to a single 'q' tile: before the first 'q' the
/// word is copied, the pair becomes one 'q', and the scan goes on after it.
pub proof fn lemma_bogglify_collapses_qu(u: Seq<char>, v: Seq<char>)
    requires
        forall|i: int| 0 <= i < u.len() ==> (#[trigger] u[i]) != 'q',
    ensures
        spec_bogglify(u + seq!['q', 'u'] + v) == u + seq!['q'] + spec_bogglify(v),
    decreases u.len(),
{
    let s = u + seq!['q', 'u'] + v;
    if u.len() == 0 {
        assert(s[0] == 'q' && s.len() >= 2);
        assert(s.skip(2) =~= v);
        assert(seq!['q'] + spec_bogglify(v) =~= u + seq!['q'] + spec_bogglify(v));
    } else {
        assert(s[0] == u[0]);
        assert(s[0] != 'q');
        assert forall|i: int| 0 <= i < u.skip(1).len() implies (#[trigger] u.skip(1)[i]) != 'q' by {
            assert(u.skip(1)[i] == u[i + 1]);
        }
        lemma_bogglify_collapses_qu(u.skip(1), v);
        assert(s.skip(1) =~= u.skip(1) + seq!['q', 'u'] + v);
        assert(seq![s[0]] + (u.skip(1) + seq!['q'] + spec_bogglify(v)) =~= u + seq!['q']
            + spec_bogglify(v));
    }
}

/// The tile form of a lowercase word is lowercase: every tile is one of the
/// word's own characters.
pub proof fn lemma_bogglify_lower(s: Seq<char>)
    requires
        all_lower(s),
    ensures
        all_lower(spec_bogglify(s)),
    decreases s.len(),
{
    if s.len() > 0 {
        if s[0] == 'q' && s.len() >= 2 {
            assert(all_lower(s.skip(2)));
            lemma_bogglify_lower(s.skip(2));
            assert forall|i: int|
                0 <= i < spec_bogglify(s).len() implies crate::trie::is_lower(
                #[trigger] spec_bogglify(s)[i],
            ) by {
                if i > 0 {
                    assert(spec_bogglify(s)[i] == spec_bogglify(s.skip(2))[i - 1]);
                }
            }
        } else {
            assert(all_lower(s.skip(1)));
            lemma_bogglify_lower(s.skip(1));
            assert forall|i: int|
                0 <= i < spec_bogglify(s).len() implies crate::trie::is_lower(
                #[trigger] spec_bogglify(s)[i],
            ) by {
                if i > 0 {
                    assert(spec_bogglify(s)[i] == spec_bogglify(s.skip(1))[i - 1]);
                }
            }
        }
    }
}

/// Build a fresh dictionary from raw word lines: lines failing
/// [`is_boggle_word`] are dropped, the rest are bogglified and inserted.
/// The resulting word set holds exactly the tile forms of the playable
/// lines.
pub fn load_dictionary(lines: &Vec<String>) -> (t: Trie)
    requires
        forall|k: int|
            0 <= k < lines@.len() && spec_is_boggle_word((#[trigger] lines@[k])@) ==> all_lower(
                lines@[k]@,
            ),
    ensures
        t.wf(),
        forall|w: Seq<int>|
            t.contains(w) <==> exists|k: int|
                0 <= k < lines@.len() && spec_is_boggle_word((#[trigger] lines@[k])@) && w
                    =~= crate::trie::tiles_of(spec_bogglify(lines@[k]@)),
        t.count_words() <= lines@.len(),
        forall|w: Seq<int>| t.has_prefix(w) ==> (#[trigger] t.node_at(w)).mark == 0,
{
    let mut t = Trie::new();
    let mut k: usize = 0;
    while k < lines.len()
        invariant
            forall|j: int|
                0 <= j < lines@.len() && spec_is_boggle_word((#[trigger] lines@[j])@) ==> all_lower(
                    lines@[j]@,
                ),
            k <= lines@.len(),
            t.wf(),
            t.count_words() <= k,
            forall|w: Seq<int>| t.has_prefix(w) ==> (#[trigger] t.node_at(w)).mark == 0,
            forall|w: Seq<int>|
                t.contains(w) <==> exists|j: int|
                    0 <= j < k && spec_is_boggle_word((#[trigger] lines@[j])@) && w
                        =~= crate::trie::tiles_of(spec_bogglify(lines@[j]@)),
        decreases lines@.len() - k,
    {
        let line: &String = &lines[k];
        if is_boggle_word(line.as_str()) {
            let bw = bogglify_word(line.as_str());
            proof {
                lemma_bogglify_lower(lines@[k as int]@);
            }
            let ghost tprev = t;
            t.add_word(bw.as_str());
            proof {
                assert forall|w: Seq<int>| t.contains(w) implies exists|j: int|
                    0 <= j < k + 1 && spec_is_boggle_word((#[trigger] lines@[j])@) && w
                        =~= crate::trie::tiles_of(spec_bogglify(lines@[j]@)) by {
                    if tprev.contains(w) {
                        let j = choose|j: int|
                            0 <= j < k && spec_is_boggle_word((#[trigger] lines@[j])@) && w
                                =~= crate::trie::tiles_of(spec_bogglify(lines@[j]@));
                        assert(0 <= j < k + 1 && spec_is_boggle_word(lines@[j]@) && w
                            =~= crate::trie::tiles_of(spec_bogglify(lines@[j]@)));
                    } else {
                        assert(w =~= crate::trie::tiles_of(bw@));
                        assert(0 <= k < k + 1 && spec_is_boggle_word(lines@[k as int]@) && w
                            =~= crate::trie::tiles_of(spec_bogglify(lines@[k as int]@)));
                    }
                }
            }
        } else {
            proof {
                assert forall|w: Seq<int>| t.contains(w) implies exists|j: int|
                    0 <= j < k + 1 && spec_is_boggle_word((#[trigger] lines@[j])@) && w
                        =~= crate::trie::tiles_of(spec_bogglify(lines@[j]@)) by {
                    let j = choose|j: int|
                        0 <= j < k && spec_is_boggle_word((#[trigger] lines@[j])@) && w
                            =~= crate::trie::tiles_of(spec_bogglify(lines@[j]@));
                    assert(0 <= j < k + 1 && spec_is_boggle_word(lines@[j]@) && w
                        =~= crate::trie::tiles_of(spec_bogglify(lines@[j]@)));
                }
            }
        }
        k += 1;
    }
    t
}

/// A run that changes nothing is a valid run and contributes no score.
pub proof fn lemma_dfs_refl(a: Trie, run: u32, len: int)
    ensures
        dfs_step(a, a, run),
        fresh_score(a, a, run, len) == 0,
    decreases a, 1int, 0int,
{
    lemma_dfs_refl_below(a, run, len, 26);
}

proof fn lemma_dfs_refl_below(a: Trie, run: u32, len: int, c: int)
    ensures
        dfs_step_below(a, a, run, c),
        fresh_score_below(a, a, run, len, c) == 0,
    decreases a, 0int, c,
{
    if c > 0 {
        lemma_dfs_refl_below(a, run, len, c - 1);
        if a.has_child(c - 1) {
            Trie::lemma_child_decreases(a, c - 1);
            lemma_dfs_refl(*a.children@[c - 1]->0, run, len + tile_len(c - 1));
        }
    }
}

/// Two consecutive partial runs make one partial run, and their scores add:
/// a node stamped by the first run is never counted again by the second.
pub proof fn lemma_dfs_trans(a: Trie, b: Trie, d: Trie, run: u32, len: int)
    requires
        dfs_step(a, b, run),
        dfs_step(b, d, run),
    ensures
        dfs_step(a, d, run),
        fresh_score(a, d, run, len) == fresh_score(a, b, run, len) + fresh_score(b, d, run, len),
    decreases a, 1int, 0int,
{
    lemma_dfs_trans_below(a, b, d, run, len, 26);
}

proof fn lemma_dfs_trans_below(a: Trie, b: Trie, d: Trie, run: u32, len: int, c: int)
    requires
        dfs_step_below(a, b, run, c),
        dfs_step_below(b, d, run, c),
    ensures
        dfs_step_below(a, d, run, c),
        fresh_score_below(a, d, run, len, c) == fresh_score_below(a, b, run, len, c)
            + fresh_score_below(b, d, run, len, c),
    decreases a, 0int, c,
{
    if c > 0 {
        lemma_dfs_trans_below(a, b, d, run, len, c - 1);
        if a.has_child(c - 1) {
            Trie::lemma_child_decreases(a, c - 1);
            lemma_dfs_trans(
                *a.children@[c - 1]->0,
                *b.children@[c - 1]->0,
                *d.children@[c - 1]->0,
                run,
                len + tile_len(c - 1),
            );
        }
    }
}

/// A run's score is at most the flat maximum for each stored word: each word
/// node is stamped, and so counted, at most once.
pub proof fn lemma_fresh_score_bound(a: Trie, b: Trie, run: u32, len: int)
    requires
        dfs_step(a, b, run),
    ensures
        fresh_score(a, b, run, len) <= 11 * a.count_words(),
    decreases a, 1int, 0int,
{
    lemma_fresh_score_bound_below(a, b, run, len, 26);
}

proof fn lemma_fresh_score_bound_below(a: Trie, b: Trie, run: u32, len: int, c: int)
    requires
        dfs_step_below(a, b, run, c),
    ensures
        fresh_score_below(a, b, run, len, c) <= 11 * a.count_words_below(c),
    decreases a, 0int, c,
{
    if c > 0 {
        lemma_fresh_score_bound_below(a, b, run, len, c - 1);
        if a.has_child(c - 1) {
            Trie::lemma_child_decreases(a, c - 1);
            lemma_fresh_score_bound(
                *a.children@[c - 1]->0,
                *b.children@[c - 1]->0,
                run,
                len + tile_len(c - 1),
            );
        }
    }
}

/// The marks of a run do not change which words the tree stores, nor how
/// many.
pub proof fn lemma_dfs_preserves(a: Trie, b: Trie, run: u32)
    requires
        dfs_step(a, b, run),
    ensures
        b.count_words() == a.count_words(),
        a.wf() ==> forall|w: Seq<int>| b.contains(w) == a.contains(w),
        a.wf() ==> forall|w: Seq<int>| b.has_prefix(w) == a.has_prefix(w),
        a.wf() ==> b.wf(),
    decreases a, 1int, 0int,
{
    lemma_dfs_preserves_below(a, b, run, 26);
    if a.wf() {
        assert forall|w: Seq<int>| b.contains(w) == a.contains(w) by {
            lemma_dfs_contains(a, b, run, w);
        }
        assert forall|w: Seq<int>| b.has_prefix(w) == a.has_prefix(w) by {
            lemma_dfs_contains(a, b, run, w);
        }
    }
    if a.wf() {
        assert forall|c: int| 0 <= c < 26 implies match #[trigger] b.children@[c] {
            Some(t) => t.wf(),
            None => true,
        } by {
            lemma_dfs_below_child(a, b, run, c, 26);
            if a.has_child(c) {
                Trie::lemma_child_decreases(a, c);
                lemma_dfs_preserves(*a.children@[c]->0, *b.children@[c]->0, run);
            }
        }
    }
}

proof fn lemma_dfs_preserves_below(a: Trie, b: Trie, run: u32, c: int)
    requires
        dfs_step_below(a, b, run, c),
    ensures
        b.count_words_below(c) == a.count_words_below(c),
    decreases a, 0int, c,
{
    if c > 0 {
        lemma_dfs_preserves_below(a, b, run, c - 1);
        if a.has_child(c - 1) {
            Trie::lemma_child_decreases(a, c - 1);
            lemma_dfs_preserves(*a.children@[c - 1]->0, *b.children@[c - 1]->0, run);
        }
    }
}

/// Unpack [`dfs_step_below`] at one child slot.
proof fn lemma_dfs_below_child(a: Trie, b: Trie, run: u32, c: int, cc: int)
    requires
        dfs_step_below(a, b, run, cc),
        0 <= c < cc,
    ensures
        a.has_child(c) == b.has_child(c),
        a.has_child(c) ==> dfs_step(*a.children@[c]->0, *b.children@[c]->0, run),
    decreases cc,
{
    if c < cc - 1 {
        lemma_dfs_below_child(a, b, run, c, cc - 1);
    }
}

/// A run keeps word membership, one path at a time.
proof fn lemma_dfs_contains(a: Trie, b: Trie, run: u32, w: Seq<int>)
    requires
        dfs_step(a, b, run),
        a.wf(),
    ensures
        b.contains(w) == a.contains(w),
        b.has_prefix(w) == a.has_prefix(w),
    decreases w.len(),
{
    if w.len() > 0 {
        if 0 <= w[0] < 26 {
            lemma_dfs_below_child(a, b, run, w[0], 26);
            if a.has_child(w[0]) {
                lemma_dfs_contains(*a.children@[w[0]]->0, *b.children@[w[0]]->0, run, w.skip(1));
            }
        } else {
            assert(!a.has_child(w[0]) && !b.has_child(w[0]));
        }
    }
}

/// What a run may do to one node, named by its path: keep the word flag, and
/// move the mark only from a non-`run` value to `run`, only on a word node.
proof fn lemma_dfs_node(a: Trie, b: Trie, run: u32, w: Seq<int>)
    requires
        dfs_step(a, b, run),
        a.wf(),
        a.has_prefix(w),
    ensures
        b.has_prefix(w),
        b.node_at(w).is_word == a.node_at(w).is_word,
        b.node_at(w).mark == a.node_at(w).mark || (a.node_at(w).mark != run && b.node_at(w).mark
            == run && a.node_at(w).is_word),
    decreases w.len(),
{
    if w.len() > 0 {
        lemma_dfs_below_child(a, b, run, w[0], 26);
        lemma_dfs_node(*a.children@[w[0]]->0, *b.children@[w[0]]->0, run, w.skip(1));
    }
}

/// Stamping one unmarked word node is a valid run whose score is exactly that
/// word's score.
pub proof fn lemma_stamp(a: Trie, b: Trie, run: u32, len: int)
    requires
        a.is_word,
        a.mark != run,
        b.is_word == a.is_word,
        b.mark == run,
        b.children@ == a.children@,
    ensures
        dfs_step(a, b, run),
        fresh_score(a, b, run, len) == spec_word_score(len),
{
    lemma_same_children_below(a, b, run, len, 26);
}

proof fn lemma_same_children_below(a: Trie, b: Trie, run: u32, len: int, c: int)
    requires
        b.children@ == a.children@,
    ensures
        dfs_step_below(a, b, run, c),
        fresh_score_below(a, b, run, len, c) == 0,
    decreases c,
{
    if c > 0 {
        lemma_same_children_below(a, b, run, len, c - 1);
        if a.has_child(c - 1) {
            lemma_dfs_refl(*a.children@[c - 1]->0, run, len + tile_len(c - 1));
        }
    }
}

/// Replacing the child for letter `c` with the outcome of a run on that child
/// is a run on the whole node; the new letter lengthens the word by its tile.
pub proof fn lemma_child_update(pre: Trie, post: Trie, x: Trie, y: Trie, c: int, run: u32, len: int)
    requires
        0 <= c < 26,
        pre.children@.len() == 26,
        pre.has_child(c),
        x == pre.child_at(c),
        post.is_word == pre.is_word,
        post.mark == pre.mark,
        post.children@ == pre.children@.update(c, Some(Box::new(y))),
        dfs_step(x, y, run),
    ensures
        dfs_step(pre, post, run),
        fresh_score(pre, post, run, len) == fresh_score(x, y, run, len + tile_len(c)),
{
    lemma_child_update_below(pre, post, x, y, c, run, len, 26);
}

proof fn lemma_child_update_below(
    pre: Trie,
    post: Trie,
    x: Trie,
    y: Trie,
    c: int,
    run: u32,
    len: int,
    cc: int,
)
    requires
        0 <= c < 26,
        pre.children@.len() == 26,
        pre.has_child(c),
        x == pre.child_at(c),
        post.children@ == pre.children@.update(c, Some(Box::new(y))),
        dfs_step(x, y, run),
        cc <= 26,
    ensures
        dfs_step_below(pre, post, run, cc),
        fresh_score_below(pre, post, run, len, cc) == if c < cc {
            fresh_score(x, y, run, len + tile_len(c))
        } else {
            0nat
        },
    decreases cc,
{
    if cc > 0 {
        lemma_child_update_below(pre, post, x, y, c, run, len, cc - 1);
        if cc - 1 == c {
            assert(*post.children@[c]->0 == y);
        } else if pre.has_child(cc - 1) {
            assert(post.children@[cc - 1] == pre.children@[cc - 1]);
            lemma_dfs_refl(*pre.children@[cc - 1]->0, run, len + tile_len(cc - 1));
        } else {
            assert(post.children@[cc - 1] == pre.children@[cc - 1]);
        }
    }
}

} // verus!
