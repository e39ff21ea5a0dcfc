//! The depth-first search for dictionary words on the board.
use vstd::prelude::*;
use vstd::set_lib::{lemma_int_range, lemma_len_subset, lemma_subset_equality, set_int_range};
use crate::board::{flats, neighbour_flats, BoardMask, Index4x4, RuzzleBoard};
use crate::trie::TrieNode;

verus! {

/// A placement of a word: the cells visited, in order.
pub type Path = Vec<Index4x4>;

/// The flat positions of the neighbours of cell `f` of the four by four board.
pub open spec fn around(f: int) -> Seq<int> {
    neighbour_flats(4, 4, f % 4, f / 4)
}

/// The letters on the cells of `path`, in order.
pub open spec fn spelled(board: Seq<char>, path: Seq<int>) -> Seq<char> {
    path.map_values(|i: int| board[i])
}

/// The flat positions of each path of a list.
pub open spec fn paths_view(out: Seq<Path>) -> Seq<Seq<int>> {
    out.map_values(|p: Path| flats(p@))
}

/// A path of distinct cells of the four by four board.
pub open spec fn simple(p: Seq<int>) -> bool {
    &&& p.no_duplicates()
    &&& forall|i: int| 0 <= i < p.len() ==> 0 <= #[trigger] p[i] < 16
}

/// A non-empty simple path whose consecutive cells are neighbours.
pub open spec fn is_walk(p: Seq<int>) -> bool {
    &&& p.len() >= 1
    &&& simple(p)
    &&& forall|i: int| 0 <= i < p.len() - 1 ==> #[trigger] around(p[i]).contains(p[i + 1])
}

/// The paths that the search records once it has walked `path`: `path` itself
/// when it spells a word, then what each admissible neighbour of its last
/// cell leads to, the neighbours taken in their fixed order.
pub open spec fn found_from(root: TrieNode, board: Seq<char>, path: Seq<int>) -> Seq<Seq<int>>
    decreases 16 - path.len(), around(path.last()).len() + 2,
{
    (if root.has_word(spelled(board, path)) {
        seq![path]
    } else {
        seq![]
    }) + found_among(root, board, path, 0)
}

/// What the neighbours of the last cell of `path`, from position `k` of their
/// order on, lead to. A neighbour is admissible when it is not on `path` yet
/// and the letters with it added still begin a word; a branch never grows
/// past the sixteen cells of the board.
pub open spec fn found_among(root: TrieNode, board: Seq<char>, path: Seq<int>, k: int) -> Seq<
    Seq<int>,
>
    decreases 16 - path.len(), around(path.last()).len() + 1 - k,
{
    let nbrs = around(path.last());
    if k < 0 || k >= nbrs.len() || path.len() >= 16 {
        seq![]
    } else {
        let n = nbrs[k];
        (if !path.contains(n) && root.has_prefix(spelled(board, path.push(n))) {
            found_from(root, board, path.push(n))
        } else {
            seq![]
        }) + found_among(root, board, path, k + 1)
    }
}

/// The paths found from the starting cells `s` to fifteen, in order.
pub open spec fn found_starting_at(root: TrieNode, board: Seq<char>, s: int) -> Seq<Seq<int>>
    decreases 16 - s,
{
    if s < 0 || s >= 16 {
        seq![]
    } else {
        (if root.has_prefix(seq![board[s]]) {
            found_from(root, board, seq![s])
        } else {
            seq![]
        }) + found_starting_at(root, board, s + 1)
    }
}

/// Every path the solver reports for `root` and `board`, in order.
pub open spec fn solutions(root: TrieNode, board: Seq<char>) -> Seq<Seq<int>> {
    found_starting_at(root, board, 0)
}

/// A simple path has at most sixteen cells, and one of sixteen holds every
/// cell.
pub proof fn lemma_simple_len(p: Seq<int>)
    requires
        simple(p),
    ensures
        p.len() <= 16,
        p.len() == 16 ==> forall|n: int| 0 <= n < 16 ==> p.contains(n),
{
    p.unique_seq_to_set();
    let s = p.to_set();
    let r = set_int_range(0, 16);
    lemma_int_range(0, 16);
    assert(s.subset_of(r)) by {
        assert forall|n: int| s.contains(n) implies r.contains(n) by {
            let i = choose|i: int| 0 <= i < p.len() && p[i] == n;
        }
    }
    lemma_len_subset(s, r);
    if p.len() == 16 {
        lemma_subset_equality(s, r);
        assert forall|n: int| 0 <= n < 16 implies p.contains(n) by {
            assert(r.contains(n));
        }
    }
}

/// A copy of `p`.
fn copy_path(p: &Path) -> (r: Path)
    ensures
        r@ == p@,
{
    let mut r: Path = Vec::new();
    let mut i: usize = 0;
    while i < p.len()
        invariant
            i <= p@.len(),
            r@ == p@.take(i as int),
        decreases p@.len() - i,
    {
        r.push(p[i]);
        i = i + 1;
        assert(r@ =~= p@.take(i as int));
    }
    assert(r@ =~= p@);
    r
}

/// Searches on from cell `idx`, reached by the cells of `path`, with `node` the
/// trie node that the letters so far lead to and `visited` marking the cells
/// of `path`. Every word found is appended to `out`; `path` is as before on
/// return.
fn dfs(
    node: &TrieNode,
    board: &RuzzleBoard,
    visited: BoardMask,
    idx: Index4x4,
    path: &mut Path,
    out: &mut Vec<Path>,
    Ghost(root): Ghost<TrieNode>,
)
    requires
        root.wf(),
        node.wf(),
        idx.wf(),
        simple(flats(old(path)@).push(idx@ as int)),
        visited@.len() == 16,
        forall|c: int| 0 <= c < 16 ==> #[trigger] visited@[c] == flats(old(path)@).contains(c),
        forall|w: Seq<char>| #[trigger] node.has_word(w) == root.has_word(spelled(board@, flats(old(path)@).push(idx@ as int)) + w),
        forall|w: Seq<char>| #[trigger] node.has_prefix(w) == root.has_prefix(spelled(board@, flats(old(path)@).push(idx@ as int)) + w),
    ensures
        final(path)@ == old(path)@,
        paths_view(final(out)@) == paths_view(old(out)@) + found_from(root, board@, flats(old(path)@).push(idx@ as int)),
    decreases 16 - old(path)@.len(),
{
    let ghost p = flats(path@).push(idx@ as int);
    proof {
        board.lemma_len();
        lemma_simple_len(p);
    }
    let new_visited = visited.with_at(true, idx);
    assert forall|c: int| 0 <= c < 16 implies #[trigger] new_visited@[c] == p.contains(c) by {
        let old_flats = flats(path@);
        if c == idx@ {
            assert(p[p.len() - 1] == c);
        } else if old_flats.contains(c) {
            let i = choose|i: int| 0 <= i < old_flats.len() && old_flats[i] == c;
            assert(p[i] == c);
        } else if p.contains(c) {
            let i = choose|i: int| 0 <= i < p.len() && p[i] == c;
            assert(old_flats[i] == c);
        }
    }
    let neighbours = idx.get_neighbouring();
    let ghost start_path = path@;
    path.push(idx);
    assert(flats(path@) =~= p);
    let ghost out_start = paths_view(out@);
    if node.ends_word() {
        let copy = copy_path(path);
        out.push(copy);
        assert(node.has_word(Seq::<char>::empty()));
        assert(spelled(board@, p) + Seq::<char>::empty() =~= spelled(board@, p));
        assert(paths_view(out@) =~= out_start + seq![p]);
    } else {
        assert(!node.has_word(Seq::<char>::empty()));
        assert(spelled(board@, p) + Seq::<char>::empty() =~= spelled(board@, p));
    }
    let ghost out_mid = paths_view(out@);
    let mut k: usize = 0;
    while k < neighbours.len()
        invariant
            root.wf(),
            node.wf(),
            k <= neighbours@.len(),
            flats(neighbours@) == around(p.last()),
            forall|i: int| 0 <= i < neighbours@.len() ==> (#[trigger] neighbours@[i]).wf(),
            path@ == start_path.push(idx),
            start_path == old(path)@,
            flats(path@) == p,
            simple(p),
            board@.len() == 16,
            new_visited@.len() == 16,
            forall|c: int| 0 <= c < 16 ==> #[trigger] new_visited@[c] == p.contains(c),
            forall|w: Seq<char>| #[trigger] node.has_word(w) == root.has_word(spelled(board@, p) + w),
            forall|w: Seq<char>| #[trigger] node.has_prefix(w) == root.has_prefix(spelled(board@, p) + w),
            paths_view(out@) + found_among(root, board@, p, k as int) == out_mid + found_among(root, board@, p, 0),
        decreases neighbours@.len() - k,
    {
        let n = neighbours[k];
        let ghost nf = n@ as int;
        let ghost q = p.push(nf);
        assert(around(p.last())[k as int] == nf);
        let ghost out_before = paths_view(out@);
        if !*new_visited.index_by_coordinate(n) {
            let letter = *board.index_by_coordinate(n);
            assert(spelled(board@, q) =~= spelled(board@, p) + seq![letter]);
            match node.find_in_children(letter) {
                Some(child) => {
                    proof {
                        lemma_simple_len(p);
                        assert(!p.contains(nf));
                        assert(p.len() < 16);
                        assert(flats(path@).len() == path@.len());
                        assert(path@.len() < 16);
                        assert(simple(q)) by {
                            assert forall|i: int, j: int| 0 <= i < j < q.len() implies q[i] != q[j] by {
                                if j == q.len() - 1 {
                                    assert(p[i] == q[i]);
                                }
                            }
                        }
                        assert forall|w: Seq<char>| #[trigger] child.has_word(w) == root.has_word(spelled(board@, q) + w) by {
                            assert(spelled(board@, p) + (seq![letter] + w) =~= spelled(board@, q) + w);
                        }
                        assert forall|w: Seq<char>| #[trigger] child.has_prefix(w) == root.has_prefix(spelled(board@, q) + w) by {
                            assert(spelled(board@, p) + (seq![letter] + w) =~= spelled(board@, q) + w);
                        }
                        assert(spelled(board@, p) + seq![letter] =~= spelled(board@, q));
                    }
                    dfs(child, board, new_visited, n, path, out, Ghost(root));
                    assert(paths_view(out@) == out_before + found_from(root, board@, q));
                },
                None => {
                    assert(spelled(board@, p) + seq![letter] =~= spelled(board@, q));
                },
            }
        }
        assert(found_among(root, board@, p, k as int) =~= (if !p.contains(nf) && root.has_prefix(spelled(board@, q)) { found_from(root, board@, q) } else { seq![] }) + found_among(root, board@, p, k + 1));
        k = k + 1;
    }
    path.pop();
    assert(path@ =~= start_path);
}

/// Every placement of a dictionary word of `root` on `board`: for each
/// starting cell in row-major order, the paths that the depth-first search
/// finds from it, in the order it finds them.
pub fn solve(root: &TrieNode, board: &RuzzleBoard) -> (out: Vec<Path>)
    requires
        root.wf(),
    ensures
        paths_view(out@) == solutions(*root, board@),
{
    let mut out: Vec<Path> = Vec::new();
    let unvisited = BoardMask::from_bits(0);
    assert(forall|k: u16| #![auto] (0u16 >> k) & 1u16 == 0u16) by (bit_vector);
    let cells = Index4x4::all_indices_within_bounds();
    proof {
        board.lemma_len();
        assert(paths_view(out@) =~= Seq::<Seq<int>>::empty());
        assert(paths_view(out@) + found_starting_at(*root, board@, 0) =~= solutions(*root, board@));
    }
    let mut s: usize = 0;
    while s < cells.len()
        invariant
            s <= cells@.len(),
            cells@.len() == 16,
            forall|i: int| 0 <= i < cells@.len() ==> (#[trigger] cells@[i])@ == i && cells@[i].wf(),
            root.wf(),
            board@.len() == 16,
            unvisited@.len() == 16,
            forall|c: int| 0 <= c < 16 ==> !(#[trigger] unvisited@[c]),
            paths_view(out@) + found_starting_at(*root, board@, s as int) == solutions(*root, board@),
        decreases cells@.len() - s,
    {
        let idx = cells[s];
        let letter = *board.index_by_coordinate(idx);
        let ghost start = seq![s as int];
        let ghost out_before = paths_view(out@);
        assert(spelled(board@, start) =~= seq![letter]);
        match root.find_in_children(letter) {
            Some(child) => {
                let mut path: Path = Vec::new();
                proof {
                    assert(flats(path@).push(idx@ as int) =~= start);
                    assert forall|w: Seq<char>| #[trigger] child.has_word(w) == root.has_word(spelled(board@, start) + w) by {}
                    assert forall|w: Seq<char>| #[trigger] child.has_prefix(w) == root.has_prefix(spelled(board@, start) + w) by {}
                    assert(start.no_duplicates());
                }
                dfs(child, board, unvisited, idx, &mut path, &mut out, Ghost(*root));
            },
            None => {},
        }
        assert(found_starting_at(*root, board@, s as int) =~= (if root.has_prefix(seq![board@[s as int]]) { found_from(*root, board@, start) } else { seq![] }) + found_starting_at(*root, board@, s + 1));
        s = s + 1;
    }
    out
}

/// Every path of `rs` is a walk on the board that spells a word of `root`.
pub open spec fn all_spell_words(root: TrieNode, board: Seq<char>, rs: Seq<Seq<int>>) -> bool {
    forall|i: int|
        0 <= i < rs.len() ==> is_walk(#[trigger] rs[i]) && root.has_word(spelled(board, rs[i]))
}

/// Concatenation keeps `all_spell_words`.
proof fn lemma_concat_spell(root: TrieNode, board: Seq<char>, a: Seq<Seq<int>>, b: Seq<Seq<int>>)
    requires
        all_spell_words(root, board, a),
        all_spell_words(root, board, b),
    ensures
        all_spell_words(root, board, a + b),
{
    assert forall|i: int| 0 <= i < (a + b).len() implies is_walk(#[trigger] (a + b)[i]) && root.has_word(
        spelled(board, (a + b)[i]),
    ) by {
        if i < a.len() {
            assert((a + b)[i] == a[i]);
        } else {
            assert((a + b)[i] == b[i - a.len()]);
        }
    }
}

/// The neighbours of a cell of the board lie on the board.
proof fn lemma_around_inside(f: int)
    requires
        0 <= f < 16,
    ensures
        forall|i: int| 0 <= i < around(f).len() ==> 0 <= #[trigger] around(f)[i] < 16,
{
    crate::board::lemma_neighbour_flats(4, 4, f % 4, f / 4);
}

/// Each path found from a walk is a walk spelling a word.
proof fn lemma_found_from_sound(root: TrieNode, board: Seq<char>, path: Seq<int>)
    requires
        is_walk(path),
    ensures
        all_spell_words(root, board, found_from(root, board, path)),
    decreases 16 - path.len(), around(path.last()).len() + 2,
{
    let here: Seq<Seq<int>> = if root.has_word(spelled(board, path)) {
        seq![path]
    } else {
        seq![]
    };
    lemma_found_among_sound(root, board, path, 0);
    lemma_concat_spell(root, board, here, found_among(root, board, path, 0));
}

/// Each path found from the neighbours from position `k` on of the last cell
/// of a walk is a walk spelling a word.
proof fn lemma_found_among_sound(root: TrieNode, board: Seq<char>, path: Seq<int>, k: int)
    requires
        is_walk(path),
    ensures
        all_spell_words(root, board, found_among(root, board, path, k)),
    decreases 16 - path.len(), around(path.last()).len() + 1 - k,
{
    let nbrs = around(path.last());
    if k < 0 || k >= nbrs.len() || path.len() >= 16 {
    } else {
        let n = nbrs[k];
        let q = path.push(n);
        let here: Seq<Seq<int>> = if !path.contains(n) && root.has_prefix(spelled(board, q)) {
            found_from(root, board, q)
        } else {
            seq![]
        };
        if !path.contains(n) && root.has_prefix(spelled(board, q)) {
            lemma_around_inside(path.last());
            assert(is_walk(q)) by {
                assert forall|i: int, j: int| 0 <= i < j < q.len() implies q[i] != q[j] by {
                    if j == q.len() - 1 {
                        assert(path[i] == q[i]);
                    }
                }
                assert forall|i: int| 0 <= i < q.len() - 1 implies #[trigger] around(q[i]).contains(q[i + 1]) by {
                    if i == q.len() - 2 {
                        assert(around(q[i])[k] == q[i + 1]);
                    } else {
                        assert(around(path[i]).contains(path[i + 1]));
                    }
                }
            }
            lemma_found_from_sound(root, board, q);
        }
        lemma_found_among_sound(root, board, path, k + 1);
        lemma_concat_spell(root, board, here, found_among(root, board, path, k + 1));
    }
}

/// Each path found from starting cells `s` on is a walk spelling a word.
proof fn lemma_found_starting_at_sound(root: TrieNode, board: Seq<char>, s: int)
    ensures
        all_spell_words(root, board, found_starting_at(root, board, s)),
    decreases 16 - s,
{
    if 0 <= s < 16 {
        let start = seq![s];
        let here: Seq<Seq<int>> = if root.has_prefix(seq![board[s]]) {
            found_from(root, board, start)
        } else {
            seq![]
        };
        if root.has_prefix(seq![board[s]]) {
            lemma_found_from_sound(root, board, start);
        }
        lemma_found_starting_at_sound(root, board, s + 1);
        lemma_concat_spell(root, board, here, found_starting_at(root, board, s + 1));
    }
}

/// Every path that the solver reports visits no cell twice, stays on the
/// board, steps each time to a neighbouring cell, and spells a word of the
/// dictionary.
pub proof fn lemma_solutions_sound(root: TrieNode, board: Seq<char>)
    ensures
        forall|i: int|
            0 <= i < solutions(root, board).len() ==> (#[trigger] solutions(root, board)[i]).no_duplicates()
                && is_walk(solutions(root, board)[i]) && root.has_word(
                spelled(board, solutions(root, board)[i]),
            ),
{
    lemma_found_starting_at_sound(root, board, 0);
}

/// An element of either part is an element of a concatenation.
proof fn lemma_concat_contains(a: Seq<Seq<int>>, b: Seq<Seq<int>>, x: Seq<int>)
    requires
        a.contains(x) || b.contains(x),
    ensures
        (a + b).contains(x),
{
    if a.contains(x) {
        let i = choose|i: int| 0 <= i < a.len() && a[i] == x;
        assert((a + b)[i] == x);
    } else {
        let i = choose|i: int| 0 <= i < b.len() && b[i] == x;
        assert((a + b)[a.len() + i] == x);
    }
}

/// What the neighbours from position `k` on lead to is also found from any
/// earlier position `j`.
proof fn lemma_among_contains(root: TrieNode, board: Seq<char>, path: Seq<int>, j: int, k: int, x: Seq<int>)
    requires
        0 <= j <= k,
        found_among(root, board, path, k).contains(x),
    ensures
        found_among(root, board, path, j).contains(x),
    decreases k - j,
{
    if j < k {
        lemma_among_contains(root, board, path, j + 1, k, x);
        let nbrs = around(path.last());
        let n = nbrs[j];
        let q = path.push(n);
        let here: Seq<Seq<int>> = if !path.contains(n) && root.has_prefix(spelled(board, q)) {
            found_from(root, board, q)
        } else {
            seq![]
        };
        lemma_concat_contains(here, found_among(root, board, path, j + 1), x);
    }
}

/// A walk spelling a word is found from each of its non-empty beginnings.
proof fn lemma_found_from_complete(root: TrieNode, board: Seq<char>, p: Seq<int>, m: int)
    requires
        is_walk(p),
        root.has_word(spelled(board, p)),
        1 <= m <= p.len(),
    ensures
        found_from(root, board, p.take(m)).contains(p),
    decreases p.len() - m,
{
    let path = p.take(m);
    let here: Seq<Seq<int>> = if root.has_word(spelled(board, path)) {
        seq![path]
    } else {
        seq![]
    };
    if m == p.len() {
        assert(path =~= p);
        assert(here[0] == p);
        lemma_concat_contains(here, found_among(root, board, path, 0), p);
    } else {
        lemma_found_from_complete(root, board, p, m + 1);
        lemma_simple_len(p);
        let n = p[m];
        let q = path.push(n);
        assert(q =~= p.take(m + 1));
        assert(path.last() == p[m - 1]);
        let i = m - 1;
        assert(0 <= i < p.len() - 1);
        assert(around(p[i]).contains(p[i + 1]));
        assert(i + 1 == m);
        assert(around(p[m - 1]).contains(p[m]));
        let k = choose|k: int| 0 <= k < around(path.last()).len() && around(path.last())[k] == n;
        assert(!path.contains(n)) by {
            if path.contains(n) {
                let i = choose|i: int| 0 <= i < path.len() && path[i] == n;
                assert(p[i] == p[m]);
            }
        }
        assert(spelled(board, q) =~= spelled(board, p).take(m + 1));
        root.lemma_word_prefix(spelled(board, p), m + 1);
        lemma_concat_contains(found_from(root, board, q), found_among(root, board, path, k + 1), p);
        lemma_among_contains(root, board, path, 0, k, p);
        lemma_concat_contains(here, found_among(root, board, path, 0), p);
    }
}

/// A walk spelling a word whose first cell is `s` or later is found from the
/// starting cells `s` on.
proof fn lemma_found_starting_at_complete(root: TrieNode, board: Seq<char>, p: Seq<int>, s: int)
    requires
        is_walk(p),
        root.has_word(spelled(board, p)),
        0 <= s <= p[0],
    ensures
        found_starting_at(root, board, s).contains(p),
    decreases p[0] - s,
{
    let start = seq![s];
    let here: Seq<Seq<int>> = if root.has_prefix(seq![board[s]]) {
        found_from(root, board, start)
    } else {
        seq![]
    };
    if s < p[0] {
        lemma_found_starting_at_complete(root, board, p, s + 1);
    } else {
        lemma_found_from_complete(root, board, p, 1);
        assert(p.take(1) =~= start);
        assert(spelled(board, p).take(1) =~= seq![board[s]]);
        root.lemma_word_prefix(spelled(board, p), 1);
    }
    lemma_concat_contains(here, found_starting_at(root, board, s + 1), p);
}

/// Every walk on the board that visits no cell twice and spells a word of
/// the dictionary is among the paths that the solver reports.
pub proof fn lemma_solutions_complete(root: TrieNode, board: Seq<char>, p: Seq<int>)
    requires
        is_walk(p),
        root.has_word(spelled(board, p)),
    ensures
        solutions(root, board).contains(p),
{
    lemma_found_starting_at_complete(root, board, p, 0);
}

} // verus!
