//! Prefix tree over a pluggable character set.

use vstd::prelude::*;

verus! {

/// A finite alphabet with a mapping from characters to dense indices.
pub trait CharSet {
    /// Size of the alphabet.
    spec fn char_size_spec() -> usize;

    /// The index of a character.
    spec fn to_int_spec(c: char) -> usize;

    proof fn to_int_spec_bounded(c: char)
        ensures
            Self::to_int_spec(c) < Self::char_size_spec(),
    ;

    fn char_size() -> (n: usize)
        ensures
            n == Self::char_size_spec(),
            1 <= n <= 256,
    ;

    fn to_int(c: char) -> (i: usize)
        ensures
            i == Self::to_int_spec(c),
            i < Self::char_size_spec(),
    ;
}

/// Upper-case ASCII letters.
pub struct LargeAsciiCharSet {}

impl CharSet for LargeAsciiCharSet {
    open spec fn char_size_spec() -> usize {
        26
    }

    open spec fn to_int_spec(c: char) -> usize {
        if (c as u32) < 65 {
            0usize
        } else if (c as u32) >= 65 + 25 {
            25usize
        } else {
            ((c as u32) - 65) as usize
        }
    }

    proof fn to_int_spec_bounded(c: char) {
    }

    fn char_size() -> usize {
        26
    }

    fn to_int(c: char) -> usize {
        let v = c as u32;
        if v < 65 {
            0
        } else if v >= 65 + 25 {
            25
        } else {
            (v - 65) as usize
        }
    }
}

/// Lower-case ASCII letters.
pub struct SmallAsciiCharSet {}

impl CharSet for SmallAsciiCharSet {
    open spec fn char_size_spec() -> usize {
        26
    }

    open spec fn to_int_spec(c: char) -> usize {
        if (c as u32) < 97 {
            0usize
        } else if (c as u32) >= 97 + 25 {
            25usize
        } else {
            ((c as u32) - 97) as usize
        }
    }

    proof fn to_int_spec_bounded(c: char) {
    }

    fn char_size() -> usize {
        26
    }

    fn to_int(c: char) -> usize {
        let v = c as u32;
        if v < 97 {
            0
        } else if v >= 97 + 25 {
            25
        } else {
            (v - 97) as usize
        }
    }
}

/// A node: child links (`0` marks an absent child, the root is never a
/// child), the number of words passing through, and the ids accepted here.
pub struct TrieNode<C> {
    next: Vec<usize>,
    exist: usize,
    accept: Vec<usize>,
    charset: core::marker::PhantomData<C>,
}

impl<C: CharSet> TrieNode<C> {
    /// A full child row with every link absent, nothing accepted.
    pub closed spec fn fresh(self) -> bool {
        &&& self.next@.len() == C::char_size_spec()
        &&& forall|c: int| 0 <= c < self.next@.len() ==> #[trigger] self.next@[c] == 0
        &&& self.accept@.len() == 0
        &&& self.exist == 0
    }

    /// A fresh node with no children.
    pub fn new() -> (r: TrieNode<C>)
        ensures
            r.fresh(),
    {
        let size = C::char_size();
        let mut next: Vec<usize> = Vec::new();
        let mut i: usize = 0;
        while i < size
            invariant
                next@.len() == i,
                i <= size,
                forall|c: int| 0 <= c < i ==> #[trigger] next@[c] == 0,
            decreases size - i,
        {
            next.push(0);
            i = i + 1;
        }
        TrieNode { next, exist: 0, accept: Vec::new(), charset: core::marker::PhantomData }
    }
}

/// A prefix tree holding indexed words.
pub struct TrieTree<C> {
    nodes: Vec<TrieNode<C>>,
    pub root: usize,
}

impl<C: CharSet> TrieTree<C> {
    /// Every node has a full child row, all links point into the arena, and
    /// children sit strictly after their parent (`0` marks an absent link).
    pub closed spec fn wf(self) -> bool {
        &&& 1 <= self.nodes@.len()
        &&& forall|k: int|
            0 <= k < self.nodes@.len() ==> (#[trigger] self.nodes@[k].next)@.len()
                == C::char_size_spec()
        &&& forall|k: int, c: int|
            0 <= k < self.nodes@.len() && 0 <= c < C::char_size_spec() ==> (
            #[trigger] self.nodes@[k].next@[c]) < self.nodes@.len() && (self.nodes@[k].next@[c]
                == 0 || self.nodes@[k].next@[c] > k)
    }

    /// Number of allocated nodes.
    pub closed spec fn spec_size(self) -> int {
        self.nodes@.len() as int
    }

    /// The pass-through counter of one node.
    pub closed spec fn exist_of(self, k: int) -> int {
        self.nodes@[k].exist as int
    }

    /// Number of nonempty words inserted through [`TrieTree::add`]: the
    /// root's pass-through counter.
    pub closed spec fn spec_count(self) -> int {
        self.exist_of(0)
    }

    /// The ids accepted at one node, in insertion order.
    pub closed spec fn accepts_of(self, k: int) -> Seq<usize> {
        self.nodes@[k].accept@
    }

    /// The link for character index `c` at node `k` (`0` when absent).
    pub closed spec fn child_of(self, k: int, c: int) -> int {
        self.nodes@[k].next@[c] as int
    }

    /// The node reached by following `s[i..]` from node `k`, or `-1` when
    /// the path leaves the tree.
    pub closed spec fn walk(self, s: Seq<char>, i: int, k: int) -> int
        decreases s.len() - i
            when 0 <= i <= s.len()
    {
        if i == s.len() {
            k
        } else {
            let nxt = self.child_of(k, C::to_int_spec(s[i]) as int);
            if nxt == 0 {
                -1
            } else {
                self.walk(s, i + 1, nxt)
            }
        }
    }

    /// The walk depends only on the link structure: states with the same
    /// arena size and links walk alike.
    proof fn lemma_walk_agree(self, other: Self, s: Seq<char>, i: int, k: int)
        requires
            self.wf(),
            other.wf(),
            self.spec_size() == other.spec_size(),
            0 <= i <= s.len(),
            0 <= k < self.spec_size(),
            forall|m: int, c: int|
                0 <= m < self.spec_size() && 0 <= c < C::char_size_spec()
                    ==> #[trigger] self.child_of(m, c) == #[trigger] other.child_of(m, c),
        ensures
            self.walk(s, i, k) == other.walk(s, i, k),
        decreases s.len() - i,
    {
        if i < s.len() {
            C::to_int_spec_bounded(s[i]);
            let nxt = self.child_of(k, C::to_int_spec(s[i]) as int);
            if nxt != 0 {
                self.lemma_walk_agree(other, s, i + 1, nxt);
            }
        }
    }

    /// The ids a prefix query of `s[i..]` from node `k` reports: those
    /// accepted at `k`, then the ones found deeper along the link of the
    /// next character, shorter prefixes first, stopping where the path
    /// ends.
    pub closed spec fn spec_hits(self, s: Seq<char>, i: int, k: int) -> Seq<usize>
        decreases s.len() - i
            when 0 <= i <= s.len()
    {
        if i == s.len() {
            self.accepts_of(k)
        } else {
            let c = C::to_int_spec(s[i]) as int;
            let nxt = self.child_of(k, c);
            if nxt == 0 {
                self.accepts_of(k)
            } else {
                self.accepts_of(k) + self.spec_hits(s, i + 1, nxt)
            }
        }
    }

    /// A tree holding only its root.
    pub fn new() -> (r: TrieTree<C>)
        ensures
            r.wf(),
            r.spec_size() == 1,
            r.spec_count() == 0,
    {
        let mut nodes: Vec<TrieNode<C>> = Vec::new();
        nodes.push(TrieNode::new());
        TrieTree { nodes, root: 0 }
    }

    /// Records word `id` at the node.
    fn update_direct(&mut self, node: usize, id: usize)
        requires
            old(self).wf(),
            node < old(self).spec_size(),
        ensures
            final(self).wf(),
            final(self).spec_size() == old(self).spec_size(),
            forall|m: int|
                0 <= m < old(self).spec_size()
                    ==> #[trigger] final(self).exist_of(m) == old(self).exist_of(m),
            final(self).accepts_of(node as int) == old(self).accepts_of(node as int).push(id),
            forall|m: int|
                0 <= m < old(self).spec_size() && m != node
                    ==> #[trigger] final(self).accepts_of(m) == old(self).accepts_of(m),
            forall|m: int, c: int|
                0 <= m < old(self).spec_size() && 0 <= c < C::char_size_spec()
                    ==> #[trigger] final(self).child_of(m, c) == old(self).child_of(m, c),
    {
        let slot = &mut self.nodes[node];
        slot.accept.push(id);
    }

    /// Counts one more word passing through the node.
    fn update_child(&mut self, node: usize)
        requires
            old(self).wf(),
            node < old(self).spec_size(),
        ensures
            final(self).wf(),
            final(self).spec_size() == old(self).spec_size(),
            final(self).exist_of(node as int) == (if old(self).exist_of(node as int)
                < usize::MAX {
                old(self).exist_of(node as int) + 1
            } else {
                old(self).exist_of(node as int)
            }),
            forall|m: int|
                0 <= m < old(self).spec_size() && m != node
                    ==> #[trigger] final(self).exist_of(m) == old(self).exist_of(m),
            forall|m: int|
                0 <= m < old(self).spec_size()
                    ==> #[trigger] final(self).accepts_of(m) == old(self).accepts_of(m),
            forall|m: int, c: int|
                0 <= m < old(self).spec_size() && 0 <= c < C::char_size_spec()
                    ==> #[trigger] final(self).child_of(m, c) == old(self).child_of(m, c),
    {
        let slot = &mut self.nodes[node];
        if slot.exist < usize::MAX {
            slot.exist = slot.exist + 1;
        }
    }

    /// Inserts the suffix of `s` starting at `str_idx` below `node_idx`,
    /// recording `id` at the word's end.
    pub fn add_inside(&mut self, s: &Vec<char>, str_idx: usize, node_idx: usize, id: usize)
        requires
            old(self).wf(),
            str_idx <= s@.len(),
            node_idx < old(self).spec_size(),
            old(self).spec_size() + (s@.len() - str_idx) <= 0x4000_0000,
        ensures
            final(self).wf(),
            old(self).spec_size() <= final(self).spec_size(),
            final(self).spec_size() <= old(self).spec_size() + (s@.len() - str_idx),
            forall|m: int|
                0 <= m < node_idx
                    ==> #[trigger] final(self).exist_of(m) == old(self).exist_of(m),
            str_idx < s@.len() ==> final(self).exist_of(node_idx as int) == (
            if old(self).exist_of(node_idx as int) < usize::MAX {
                old(self).exist_of(node_idx as int) + 1
            } else {
                old(self).exist_of(node_idx as int)
            }),
            str_idx == s@.len() ==> forall|m: int|
                0 <= m < old(self).spec_size()
                    ==> #[trigger] final(self).exist_of(m) == old(self).exist_of(m),
            forall|m: int, c: int|
                0 <= m < old(self).spec_size() && 0 <= c < C::char_size_spec()
                    && old(self).child_of(m, c) != 0
                    ==> #[trigger] final(self).child_of(m, c) == old(self).child_of(m, c),
            0 <= final(self).walk(s@, str_idx as int, node_idx as int),
            final(self).walk(s@, str_idx as int, node_idx as int) < final(self).spec_size(),
            final(self).accepts_of(final(self).walk(s@, str_idx as int, node_idx as int)) == (
            if 0 <= old(self).walk(s@, str_idx as int, node_idx as int) {
                old(self).accepts_of(old(self).walk(s@, str_idx as int, node_idx as int))
            } else {
                Seq::<usize>::empty()
            }).push(id),
            forall|m: int|
                0 <= m < old(self).spec_size()
                    && m != final(self).walk(s@, str_idx as int, node_idx as int)
                    ==> #[trigger] final(self).accepts_of(m) == old(self).accepts_of(m),
        decreases s@.len() - str_idx,
    {
        if str_idx == s.len() {
            self.update_direct(node_idx, id);
        } else {
            let c = C::to_int(s[str_idx]);
            let ghost pre = *self;
            if self.nodes[node_idx].next[c] == 0 {
                let child = self.nodes.len();
                let fresh = TrieNode::new();
                self.nodes.push(fresh);
                let slot = &mut self.nodes[node_idx];
                slot.next.set(c, child);
                proof {
                    assert(self.child_of(node_idx as int, c as int) == child);
                    assert(self.accepts_of(child as int) =~= Seq::<usize>::empty());
                    assert(forall|cc: int|
                        0 <= cc < C::char_size_spec() ==> #[trigger] self.child_of(
                            child as int,
                            cc,
                        ) == 0);
                }
            }
            let ghost mid = *self;
            let nxt = self.nodes[node_idx].next[c];
            if nxt != 0 {
                self.add_inside(s, str_idx + 1, nxt, id);
            }
            let ghost post = *self;
            self.update_child(node_idx);
            proof {
                let si = str_idx as int;
                let ni = node_idx as int;
                let ci = c as int;
                C::to_int_spec_bounded(s@[si]);
                // the link out of this node survives the deeper insertion
                assert(post.child_of(ni, ci) == nxt && self.child_of(ni, ci) == nxt);
                post.lemma_walk_agree(*self, s@, si + 1, nxt as int);
                assert(self.walk(s@, si, ni) == self.walk(s@, si + 1, nxt as int));
                assert(self.walk(s@, si + 1, nxt as int) == post.walk(s@, si + 1, nxt as int));
                if pre.child_of(ni, ci) != 0 {
                    assert(pre.walk(s@, si, ni) == pre.walk(s@, si + 1, nxt as int));
                } else {
                    assert(pre.walk(s@, si, ni) == -1);
                    if si + 1 == s@.len() {
                        assert(mid.walk(s@, si + 1, nxt as int) == nxt as int);
                        assert(mid.accepts_of(nxt as int) =~= Seq::<usize>::empty());
                    } else {
                        C::to_int_spec_bounded(s@[si + 1]);
                        assert(mid.child_of(nxt as int, C::to_int_spec(s@[si + 1]) as int)
                            == 0);
                        assert(mid.walk(s@, si + 1, nxt as int) == -1);
                    }
                }
            }
        }
    }

    /// Inserts `s` with the given id: afterwards the path of `s` exists and
    /// its terminal node accepts `id` after whatever it accepted before;
    /// no other node's accepted ids change.
    pub fn add_at(&mut self, s: &Vec<char>, id: usize)
        requires
            old(self).wf(),
            old(self).spec_size() + s@.len() <= 0x4000_0000,
        ensures
            final(self).wf(),
            old(self).spec_size() <= final(self).spec_size(),
            s@.len() > 0 ==> final(self).spec_count() == (if old(self).spec_count()
                < usize::MAX {
                old(self).spec_count() + 1
            } else {
                old(self).spec_count()
            }),
            s@.len() == 0 ==> final(self).spec_count() == old(self).spec_count(),
            0 <= final(self).walk(s@, 0, 0),
            final(self).walk(s@, 0, 0) < final(self).spec_size(),
            final(self).accepts_of(final(self).walk(s@, 0, 0)) == (
            if 0 <= old(self).walk(s@, 0, 0) {
                old(self).accepts_of(old(self).walk(s@, 0, 0))
            } else {
                Seq::<usize>::empty()
            }).push(id),
            forall|m: int|
                0 <= m < old(self).spec_size() && m != final(self).walk(s@, 0, 0)
                    ==> #[trigger] final(self).accepts_of(m) == old(self).accepts_of(m),
    {
        self.add_inside(s, 0, 0, id);
    }

    /// Inserts `s`, numbering it with the count of words added so far: the
    /// terminal node of `s` accepts that number after whatever it accepted
    /// before, and no other node's accepted ids change.
    pub fn add(&mut self, s: &Vec<char>)
        requires
            old(self).wf(),
            old(self).spec_size() + s@.len() <= 0x4000_0000,
        ensures
            final(self).wf(),
            old(self).spec_size() <= final(self).spec_size(),
            s@.len() > 0 ==> final(self).spec_count() == (if old(self).spec_count()
                < usize::MAX {
                old(self).spec_count() + 1
            } else {
                old(self).spec_count()
            }),
            s@.len() == 0 ==> final(self).spec_count() == old(self).spec_count(),
            0 <= final(self).walk(s@, 0, 0),
            final(self).walk(s@, 0, 0) < final(self).spec_size(),
            final(self).accepts_of(final(self).walk(s@, 0, 0)) == (
            if 0 <= old(self).walk(s@, 0, 0) {
                old(self).accepts_of(old(self).walk(s@, 0, 0))
            } else {
                Seq::<usize>::empty()
            }).push(old(self).spec_count() as usize),
            forall|m: int|
                0 <= m < old(self).spec_size() && m != final(self).walk(s@, 0, 0)
                    ==> #[trigger] final(self).accepts_of(m) == old(self).accepts_of(m),
    {
        let id = self.nodes[0].exist;
        self.add_at(s, id);
    }

    /// Ids of the inserted words that end along the path of `s[str_idx..]`
    /// from `node_idx`: every prefix of the query that is a stored word
    /// reports its ids, in path order.
    pub fn query_at(&self, s: &Vec<char>, str_idx: usize, node_idx: usize) -> (hits: Vec<usize>)
        requires
            self.wf(),
            str_idx <= s@.len(),
            node_idx < self.spec_size(),
        ensures
            hits@ == self.spec_hits(s@, str_idx as int, node_idx as int),
        decreases s@.len() - str_idx,
    {
        let mut hits: Vec<usize> = Vec::new();
        let accept_len = self.nodes[node_idx].accept.len();
        let mut i: usize = 0;
        while i < accept_len
            invariant
                self.wf(),
                node_idx < self.spec_size(),
                accept_len == self.nodes@[node_idx as int].accept@.len(),
                i <= accept_len,
                hits@ == self.accepts_of(node_idx as int).subrange(0, i as int),
            decreases accept_len - i,
        {
            proof {
                assert(self.accepts_of(node_idx as int).subrange(0, i + 1)
                    =~= self.accepts_of(node_idx as int).subrange(0, i as int).push(
                    self.accepts_of(node_idx as int)[i as int],
                ));
            }
            hits.push(self.nodes[node_idx].accept[i]);
            i = i + 1;
        }
        proof {
            assert(hits@ =~= self.accepts_of(node_idx as int));
        }
        if str_idx != s.len() {
            let c = C::to_int(s[str_idx]);
            let nxt = self.nodes[node_idx].next[c];
            if nxt == 0 {
                return hits;
            }
            let deeper = self.query_at(s, str_idx + 1, nxt);
            let mut j: usize = 0;
            let deeper_len = deeper.len();
            while j < deeper_len
                invariant
                    j <= deeper_len,
                    deeper_len == deeper@.len(),
                    hits@ == self.accepts_of(node_idx as int) + deeper@.subrange(0, j as int),
                decreases deeper_len - j,
            {
                proof {
                    assert((self.accepts_of(node_idx as int) + deeper@.subrange(0, j + 1)) =~= (
                    self.accepts_of(node_idx as int) + deeper@.subrange(0, j as int)).push(
                        deeper@[j as int],
                    ));
                }
                hits.push(deeper[j]);
                j = j + 1;
            }
            proof {
                assert(deeper@.subrange(0, deeper@.len() as int) =~= deeper@);
            }
        }
        hits
    }

    /// Ids of the stored words that are prefixes of `s`.
    pub fn query(&self, s: &Vec<char>) -> (hits: Vec<usize>)
        requires
            self.wf(),
        ensures
            hits@ == self.spec_hits(s@, 0, 0),
    {
        self.query_at(s, 0, 0)
    }

    /// Number of nonempty words inserted through [`TrieTree::add`].
    pub fn count(&self) -> (n: usize)
        requires
            self.wf(),
        ensures
            n == self.spec_count(),
    {
        self.nodes[0].exist
    }

    /// Number of allocated nodes.
    pub fn size(&self) -> (n: usize)
        requires
            self.wf(),
        ensures
            n == self.spec_size(),
    {
        self.nodes.len()
    }
}

} // verus!
