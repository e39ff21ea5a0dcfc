//! A prefix trie holding the dictionary.
use vstd::prelude::*;

verus! {

broadcast use {vstd::seq::group_seq_axioms, vstd::std_specs::vec::group_vec_axioms};

/// A node of the prefix trie: the root carries no character, every other node
/// carries the character on the edge leading to it.
#[derive(Debug)]
pub struct TrieNode {
    ch: Option<char>,
    children: Vec<TrieNode>,
    /// Whether the characters from the root to this node spell a word.
    pub is_terminal: bool,
}

/// Whether `p` is a prefix of `s`.
pub open spec fn is_prefix(p: Seq<char>, s: Seq<char>) -> bool {
    p.len() <= s.len() && s.take(p.len() as int) == p
}

/// A non-empty sequence is its first element followed by the rest.
proof fn lemma_head_tail(w: Seq<char>)
    requires
        w.len() > 0,
    ensures
        w == seq![w[0]] + w.drop_first(),
{
    assert(w =~= seq![w[0]] + w.drop_first());
}

/// The first `n` elements of `c` followed by `rest` are `c` followed by the
/// first `n - 1` elements of `rest`.
proof fn lemma_take_cons(c: char, rest: Seq<char>, n: int)
    requires
        1 <= n <= rest.len() + 1,
    ensures
        (seq![c] + rest).take(n) == seq![c] + rest.take(n - 1),
{
    assert((seq![c] + rest).take(n) =~= seq![c] + rest.take(n - 1));
}

impl TrieNode {
    /// The character this node carries; none at the root.
    pub closed spec fn label(self) -> Option<char> {
        self.ch
    }

    /// The children of this node.
    pub closed spec fn kids(self) -> Seq<TrieNode> {
        self.children@
    }

    /// Every child carries a character, no two children of a node carry the
    /// same one, and the same holds further down.
    pub closed spec fn wf(self) -> bool
        decreases self,
    {
        &&& forall|i: int| 0 <= i < self.children@.len() ==> (#[trigger] self.children@[i]).ch is Some
        &&& forall|i: int, j: int|
            0 <= i < j < self.children@.len() ==> (#[trigger] self.children@[i]).ch != (
            #[trigger] self.children@[j]).ch
        &&& forall|i: int| 0 <= i < self.children@.len() ==> (#[trigger] self.children@[i]).wf()
    }

    /// Whether the path `w` leads from this node to a node of the trie.
    pub closed spec fn has_prefix(self, w: Seq<char>) -> bool
        decreases w.len(),
    {
        if w.len() == 0 {
            true
        } else {
            exists|i: int|
                0 <= i < self.children@.len() && (#[trigger] self.children@[i]).ch == Some(w[0])
                    && self.children@[i].has_prefix(w.drop_first())
        }
    }

    /// Whether the path `w` leads from this node to a node marked as the end of
    /// a word.
    pub closed spec fn has_word(self, w: Seq<char>) -> bool
        decreases w.len(),
    {
        if w.len() == 0 {
            self.is_terminal
        } else {
            exists|i: int|
                0 <= i < self.children@.len() && (#[trigger] self.children@[i]).ch == Some(w[0])
                    && self.children@[i].has_word(w.drop_first())
        }
    }

    /// Words and prefixes below the child labelled `c` are those below this
    /// node that start with `c`.
    pub proof fn lemma_child(self, i: int, c: char, w: Seq<char>)
        requires
            self.wf(),
            0 <= i < self.kids().len(),
            self.kids()[i].label() == Some(c),
        ensures
            self.has_word(seq![c] + w) == self.kids()[i].has_word(w),
            self.has_prefix(seq![c] + w) == self.kids()[i].has_prefix(w),
            self.kids()[i].wf(),
    {
        let cw = seq![c] + w;
        assert(cw.drop_first() =~= w);
        assert(cw[0] == c);
        if self.has_word(cw) {
            let j = choose|j: int|
                0 <= j < self.children@.len() && (#[trigger] self.children@[j]).ch == Some(cw[0])
                    && self.children@[j].has_word(cw.drop_first());
            assert(i == j);
        }
        if self.has_prefix(cw) {
            let j = choose|j: int|
                0 <= j < self.children@.len() && (#[trigger] self.children@[j]).ch == Some(cw[0])
                    && self.children@[j].has_prefix(cw.drop_first());
            assert(i == j);
        }
    }

    /// The path of a word reaches nodes all along the way.
    pub proof fn lemma_word_prefix(self, w: Seq<char>, m: int)
        requires
            0 <= m <= w.len(),
            self.has_word(w),
        ensures
            self.has_prefix(w.take(m)),
        decreases w.len(),
    {
        if m > 0 {
            let j = choose|j: int|
                0 <= j < self.children@.len() && (#[trigger] self.children@[j]).ch == Some(w[0])
                    && self.children@[j].has_word(w.drop_first());
            self.children@[j].lemma_word_prefix(w.drop_first(), m - 1);
            assert(w.take(m).drop_first() =~= w.drop_first().take(m - 1));
            assert(w.take(m)[0] == w[0]);
        }
    }

    /// A node carrying `character`, with no children, marking no word.
    fn from_char(character: char) -> (r: TrieNode)
        ensures
            r.wf(),
            r.label() == Some(character),
            r.kids().len() == 0,
            !r.is_terminal,
    {
        TrieNode { ch: Some(character), children: Vec::new(), is_terminal: false }
    }

    /// An empty trie: a root with no children that marks no word.
    pub fn new_root() -> (r: TrieNode)
        ensures
            r.wf(),
            r.label() is None,
            r.kids().len() == 0,
            forall|w: Seq<char>| !r.has_word(w),
            forall|w: Seq<char>| r.has_prefix(w) <==> w.len() == 0,
            r.count_nodes() == 1,
            r.count_leaves() == 1,
            r.depth() == 1,
    {
        TrieNode { ch: None, children: Vec::new(), is_terminal: false }
    }

    /// The position of the child carrying `key`, if there is one.
    fn position_of(&self, key: char) -> (r: Option<usize>)
        requires
            self.wf(),
        ensures
            r matches Some(i) ==> i < self.children@.len() && self.children@[i as int].ch == Some(key),
            r is None ==> forall|i: int| 0 <= i < self.children@.len() ==> #[trigger] self.children@[i].ch != Some(key),
    {
        let mut i: usize = 0;
        while i < self.children.len()
            invariant
                i <= self.children@.len(),
                forall|j: int| 0 <= j < i ==> #[trigger] self.children@[j].ch != Some(key),
            decreases self.children@.len() - i,
        {
            if self.children[i].ch == Some(key) {
                return Some(i);
            }
            i = i + 1;
        }
        None
    }

    /// Whether this node marks the end of a word.
    pub fn ends_word(&self) -> (r: bool)
        ensures
            r == self.has_word(Seq::empty()),
    {
        self.is_terminal
    }

    /// The child carrying `key`, if there is one.
    pub fn find_in_children(&self, key: char) -> (r: Option<&TrieNode>)
        requires
            self.wf(),
        ensures
            r matches Some(c) ==> c.wf() && c.label() == Some(key) && (forall|w: Seq<char>|
                #[trigger] c.has_word(w) == self.has_word(seq![key] + w)) && (forall|w: Seq<char>|
                #[trigger] c.has_prefix(w) == self.has_prefix(seq![key] + w)),
            r is None <==> !self.has_prefix(seq![key]),
    {
        match self.position_of(key) {
            Some(i) => {
                proof {
                    assert forall|w: Seq<char>| #[trigger] self.children@[i as int].has_word(w) == self.has_word(seq![key] + w) by {
                        self.lemma_child(i as int, key, w);
                    }
                    assert forall|w: Seq<char>| #[trigger] self.children@[i as int].has_prefix(w) == self.has_prefix(seq![key] + w) by {
                        self.lemma_child(i as int, key, w);
                    }
                    self.lemma_child(i as int, key, seq![]);
                    assert(seq![key] + Seq::<char>::empty() =~= seq![key]);
                    assert(self.children@[i as int].has_prefix(seq![]));
                }
                Some(&self.children[i])
            },
            None => {
                assert(seq![key].drop_first() =~= Seq::<char>::empty());
                assert(seq![key][0] == key);
                None
            },
        }
    }

    /// Marks the characters of `word` from position `start` on as a word
    /// below this node, adding the nodes that are missing.
    fn insert_from(&mut self, word: &str, start: usize, len: usize)
        requires
            old(self).wf(),
            len == word@.len(),
            start <= len,
        ensures
            final(self).wf(),
            final(self).ch == old(self).ch,
            forall|w: Seq<char>|
                #[trigger] final(self).has_word(w) == (old(self).has_word(w) || w == word@.skip(
                    start as int,
                )),
            forall|w: Seq<char>|
                #[trigger] final(self).has_prefix(w) == (old(self).has_prefix(w) || is_prefix(
                    w,
                    word@.skip(start as int),
                )),
        decreases len - start,
    {
        let ghost before = *self;
        let ghost s = word@.skip(start as int);
        if start == len {
            self.is_terminal = true;
            proof {
                assert forall|w: Seq<char>| #[trigger] self.has_word(w) == (before.has_word(w) || w == s) by {
                    if w.len() == 0 {
                        assert(w =~= s);
                    }
                }
                assert forall|w: Seq<char>| #[trigger] self.has_prefix(w) == (before.has_prefix(w) || is_prefix(w, s)) by {
                    if w.len() == 0 {
                        assert(s.take(0) =~= w);
                    }
                }
            }
        } else {
            let c = word.get_char(start);
            let ghost rest = word@.skip(start + 1);
            assert(s.drop_first() =~= rest);
            assert(s[0] == c);
            proof {
                lemma_head_tail(s);
            }
            match self.position_of(c) {
                Some(i) => {
                    let ghost old_child = self.children@[i as int];
                    self.children[i].insert_from(word, start + 1, len);
                    proof {
                        let nc = self.children@[i as int];
                        assert forall|w: Seq<char>| #[trigger] self.has_word(w) == (before.has_word(w) || w == s) by {
                            if w.len() > 0 {
                                if w =~= s {
                                    assert(w.drop_first() =~= rest);
                                    assert(nc.has_word(w.drop_first()));
                                }
                                lemma_head_tail(w);
                                if w[0] == c && w.drop_first() == rest {
                                    assert(w == s);
                                }
                                if before.has_word(w) {
                                    let j = choose|j: int| 0 <= j < before.children@.len() && (#[trigger] before.children@[j]).ch == Some(w[0]) && before.children@[j].has_word(w.drop_first());
                                    assert(self.children@[j].has_word(w.drop_first()));
                                }
                                if self.has_word(w) {
                                    let j = choose|j: int| 0 <= j < self.children@.len() && (#[trigger] self.children@[j]).ch == Some(w[0]) && self.children@[j].has_word(w.drop_first());
                                    if j == i && !old_child.has_word(w.drop_first()) {
                                        assert(w == s);
                                    }
                                }
                            }
                        }
                        assert forall|w: Seq<char>| #[trigger] self.has_prefix(w) == (before.has_prefix(w) || is_prefix(w, s)) by {
                            if w.len() > 0 {
                                if is_prefix(w, s) {
                                    assert(w[0] == s[0]);
                                    assert(w.drop_first() =~= rest.take(w.len() - 1));
                                    assert(nc.has_prefix(w.drop_first()));
                                }
                                lemma_head_tail(w);
                                if w.len() <= s.len() {
                                    lemma_take_cons(c, rest, w.len() as int);
                                }
                                if w[0] == c && is_prefix(w.drop_first(), rest) {
                                    assert(s.take(w.len() as int) == w);
                                }
                                if before.has_prefix(w) {
                                    let j = choose|j: int| 0 <= j < before.children@.len() && (#[trigger] before.children@[j]).ch == Some(w[0]) && before.children@[j].has_prefix(w.drop_first());
                                    assert(self.children@[j].has_prefix(w.drop_first()));
                                }
                                if self.has_prefix(w) {
                                    let j = choose|j: int| 0 <= j < self.children@.len() && (#[trigger] self.children@[j]).ch == Some(w[0]) && self.children@[j].has_prefix(w.drop_first());
                                    if j == i && !old_child.has_prefix(w.drop_first()) {
                                        assert(s.take(w.len() as int) == w);
                                    }
                                }
                            } else {
                                assert(s.take(0) =~= w);
                            }
                        }
                    }
                },
                None => {
                    let mut node = TrieNode::from_char(c);
                    let ghost empty_node = node;
                    node.insert_from(word, start + 1, len);
                    self.children.push(node);
                    proof {
                        let last = self.children@.len() - 1;
                        assert(self.children@[last] == node);
                        assert forall|w: Seq<char>| #[trigger] self.has_word(w) == (before.has_word(w) || w == s) by {
                            if w.len() > 0 {
                                if w =~= s {
                                    assert(w.drop_first() =~= rest);
                                    assert(node.has_word(w.drop_first()));
                                }
                                lemma_head_tail(w);
                                if w[0] == c && w.drop_first() == rest {
                                    assert(w == s);
                                }
                                if before.has_word(w) {
                                    let j = choose|j: int| 0 <= j < before.children@.len() && (#[trigger] before.children@[j]).ch == Some(w[0]) && before.children@[j].has_word(w.drop_first());
                                    assert(self.children@[j].has_word(w.drop_first()));
                                }
                                if self.has_word(w) {
                                    let j = choose|j: int| 0 <= j < self.children@.len() && (#[trigger] self.children@[j]).ch == Some(w[0]) && self.children@[j].has_word(w.drop_first());
                                    if j == last {
                                        assert(!empty_node.has_word(w.drop_first()));
                                    }
                                }
                            }
                        }
                        assert forall|w: Seq<char>| #[trigger] self.has_prefix(w) == (before.has_prefix(w) || is_prefix(w, s)) by {
                            if w.len() > 0 {
                                if is_prefix(w, s) {
                                    assert(w[0] == s[0]);
                                    assert(w.drop_first() =~= rest.take(w.len() - 1));
                                    assert(node.has_prefix(w.drop_first()));
                                }
                                lemma_head_tail(w);
                                if w.len() <= s.len() {
                                    lemma_take_cons(c, rest, w.len() as int);
                                }
                                if w[0] == c && is_prefix(w.drop_first(), rest) {
                                    assert(s.take(w.len() as int) == w);
                                }
                                if before.has_prefix(w) {
                                    let j = choose|j: int| 0 <= j < before.children@.len() && (#[trigger] before.children@[j]).ch == Some(w[0]) && before.children@[j].has_prefix(w.drop_first());
                                    assert(self.children@[j].has_prefix(w.drop_first()));
                                }
                                if self.has_prefix(w) {
                                    let j = choose|j: int| 0 <= j < self.children@.len() && (#[trigger] self.children@[j]).ch == Some(w[0]) && self.children@[j].has_prefix(w.drop_first());
                                    if j == last {
                                        if w.len() > 1 {
                                            assert(!empty_node.has_prefix(w.drop_first()));
                                        } else {
                                            assert(s.take(1) =~= w);
                                        }
                                    }
                                }
                            } else {
                                assert(s.take(0) =~= w);
                            }
                        }
                    }
                },
            }
        }
    }

    /// Adds `word` to the dictionary. Afterwards exactly the earlier words and
    /// `word` are words, and exactly the earlier prefixes and the prefixes of
    /// `word` are prefixes.
    pub fn add_word(&mut self, word: &str)
        requires
            old(self).wf(),
        ensures
            final(self).wf(),
            final(self).label() == old(self).label(),
            forall|w: Seq<char>|
                #[trigger] final(self).has_word(w) == (old(self).has_word(w) || w == word@),
            forall|w: Seq<char>|
                #[trigger] final(self).has_prefix(w) == (old(self).has_prefix(w) || is_prefix(
                    w,
                    word@,
                )),
    {
        let len = word.unicode_len();
        assert(word@.skip(0) =~= word@);
        self.insert_from(word, 0, len);
    }

    /// Whether `word` is in the dictionary: each of its characters leads to a
    /// child, and the node reached marks the end of a word.
    pub fn contains_word(&self, word: &str) -> (r: bool)
        requires
            self.wf(),
        ensures
            r == self.has_word(word@),
    {
        let len = word.unicode_len();
        let mut node = self;
        let mut i: usize = 0;
        assert forall|w: Seq<char>| #[trigger] node.has_word(w) == self.has_word(word@.take(0) + w) by {
            assert(word@.take(0) + w =~= w);
        }
        while i < len
            invariant
                i <= len,
                len == word@.len(),
                node.wf(),
                forall|w: Seq<char>| #[trigger] node.has_word(w) == self.has_word(word@.take(i as int) + w),
            decreases len - i,
        {
            let c = word.get_char(i);
            match node.find_in_children(c) {
                Some(child) => {
                    proof {
                        assert forall|w: Seq<char>| #[trigger] child.has_word(w) == self.has_word(word@.take(i + 1) + w) by {
                            assert(word@.take(i + 1) + w =~= word@.take(i as int) + (seq![c] + w));
                        }
                    }
                    node = child;
                },
                None => {
                    proof {
                        let rest = word@.skip(i as int);
                        assert(word@.take(i as int) + rest =~= word@);
                        assert(rest[0] == c);
                        assert(seq![c].drop_first() =~= Seq::<char>::empty());
                        if node.has_word(rest) {
                            let j = choose|j: int| 0 <= j < node.children@.len() && (#[trigger] node.children@[j]).ch == Some(rest[0]) && node.children@[j].has_word(rest.drop_first());
                            assert(node.children@[j].has_prefix(seq![c].drop_first()));
                        }
                    }
                    return false;
                },
            }
            i = i + 1;
        }
        assert(word@.take(len as int) + Seq::<char>::empty() =~= word@);
        assert(node.has_word(Seq::<char>::empty()) == node.is_terminal);
        node.is_terminal
    }

    /// The number of nodes in the trie, the root included.
    pub closed spec fn count_nodes(self) -> nat
        decreases self, self.kids().len() + 1,
    {
        1 + self.count_nodes_from(0)
    }

    /// The number of nodes below the children from position `k` on.
    pub closed spec fn count_nodes_from(self, k: int) -> nat
        decreases self, self.kids().len() - k,
    {
        if k < 0 || k >= self.children@.len() {
            0
        } else {
            self.children@[k].count_nodes() + self.count_nodes_from(k + 1)
        }
    }

    /// The number of nodes without children.
    pub closed spec fn count_leaves(self) -> nat
        decreases self, self.kids().len() + 1,
    {
        if self.children@.len() == 0 {
            1
        } else {
            self.count_leaves_from(0)
        }
    }

    /// The number of leaves below the children from position `k` on.
    pub closed spec fn count_leaves_from(self, k: int) -> nat
        decreases self, self.kids().len() - k,
    {
        if k < 0 || k >= self.children@.len() {
            0
        } else {
            self.children@[k].count_leaves() + self.count_leaves_from(k + 1)
        }
    }

    /// The number of nodes on a longest path down from this node, this node
    /// included.
    pub closed spec fn depth(self) -> nat
        decreases self, self.kids().len() + 1,
    {
        1 + self.depth_from(0)
    }

    /// The greatest depth among the children from position `k` on; zero when
    /// there are none.
    pub closed spec fn depth_from(self, k: int) -> nat
        decreases self, self.kids().len() - k,
    {
        if k < 0 || k >= self.children@.len() {
            0
        } else {
            let d = self.children@[k].depth();
            let e = self.depth_from(k + 1);
            if d >= e {
                d
            } else {
                e
            }
        }
    }

    /// The number of nodes: one for this node and those of its children.
    pub fn node_count(&self) -> (r: usize)
        requires
            self.count_nodes() <= usize::MAX,
        ensures
            r == self.count_nodes(),
        decreases self,
    {
        let mut sum: usize = 0;
        let mut i: usize = 0;
        while i < self.children.len()
            invariant
                i <= self.children@.len(),
                sum + self.count_nodes_from(i as int) == self.count_nodes_from(0),
                self.count_nodes() <= usize::MAX,
            decreases self.children@.len() - i,
        {
            let n = self.children[i].node_count();
            sum = sum + n;
            i = i + 1;
        }
        1 + sum
    }

    /// The number of leaves: one for a node without children, else the sum
    /// over its children.
    pub fn leaf_count(&self) -> (r: usize)
        requires
            self.count_leaves() <= usize::MAX,
        ensures
            r == self.count_leaves(),
        decreases self,
    {
        if self.children.len() == 0 {
            return 1;
        }
        let mut sum: usize = 0;
        let mut i: usize = 0;
        while i < self.children.len()
            invariant
                i <= self.children@.len(),
                self.children@.len() > 0,
                sum + self.count_leaves_from(i as int) == self.count_leaves_from(0),
                self.count_leaves() <= usize::MAX,
            decreases self.children@.len() - i,
        {
            let n = self.children[i].leaf_count();
            sum = sum + n;
            i = i + 1;
        }
        sum
    }

    /// The depth: one more than the greatest depth of a child, or one for a
    /// node without children.
    pub fn max_depth(&self) -> (r: usize)
        requires
            self.depth() <= usize::MAX,
        ensures
            r == self.depth(),
        decreases self,
    {
        let mut best: usize = 0;
        let mut i: usize = 0;
        while i < self.children.len()
            invariant
                i <= self.children@.len(),
                (if best >= self.depth_from(i as int) {
                    best as nat
                } else {
                    self.depth_from(i as int)
                }) == self.depth_from(0),
                self.depth() <= usize::MAX,
            decreases self.children@.len() - i,
        {
            let d = self.children[i].max_depth();
            if d > best {
                best = d;
            }
            i = i + 1;
        }
        1 + best
    }
}

} // verus!
