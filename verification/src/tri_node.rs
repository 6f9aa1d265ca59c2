//! Character-keyed prefix trie used to classify request paths.
//!
//! `search` deliberately returns the *first* terminal node met along the walk
//! (the shortest registered prefix of the query), not the longest match.

use vstd::prelude::*;

verus! {

/// One trie node: labelled children plus a flag marking the end of a
/// registered key. Child labels are kept pairwise distinct.
pub struct TrieNode {
    pub children: Vec<(char, TrieNode)>,
    pub is_end_of_key: bool,
}

impl TrieNode {
    /// Child labels are pairwise distinct, at every level.
    pub open spec fn wf(self) -> bool
        decreases self,
    {
        &&& (forall|i: int, j: int|
            0 <= i < j < self.children@.len() ==> (#[trigger] self.children@[i]).0 != (
            #[trigger] self.children@[j]).0)
        &&& (forall|i: int|
            0 <= i < self.children@.len() ==> (#[trigger] self.children@[i]).1.wf())
    }

    /// The key `k` is registered below this node: following `k` character by
    /// character reaches a node whose `is_end_of_key` flag is set.
    pub open spec fn contains_key(self, k: Seq<char>) -> bool
        decreases k.len(),
    {
        if k.len() == 0 {
            self.is_end_of_key
        } else {
            exists|i: int|
                0 <= i < self.children@.len() && (#[trigger] self.children@[i]).0 == k[0]
                    && self.children@[i].1.contains_key(k.skip(1))
        }
    }

    /// Some child carries the label `ch`.
    pub open spec fn has_child(self, ch: char) -> bool {
        exists|i: int| 0 <= i < self.children@.len() && (#[trigger] self.children@[i]).0 == ch
    }

    /// Index of the child labelled `ch` (meaningful only when `has_child`).
    pub open spec fn child_index(self, ch: char) -> int {
        choose|i: int| 0 <= i < self.children@.len() && (#[trigger] self.children@[i]).0 == ch
    }

    /// The child labelled `ch` (meaningful only when `has_child`).
    pub open spec fn child(self, ch: char) -> TrieNode {
        self.children@[self.child_index(ch)].1
    }

    /// Length of the prefix of `s` at which the walk from this node first
    /// meets a terminal node, if it meets one before dying or exhausting `s`.
    pub open spec fn node_search(self, s: Seq<char>) -> Option<int>
        decreases s.len(),
    {
        if s.len() == 0 {
            None
        } else if !self.has_child(s[0]) {
            None
        } else {
            let c = self.child(s[0]);
            if c.is_end_of_key {
                Some(1int)
            } else {
                match c.node_search(s.skip(1)) {
                    Some(k) => Some(1 + k),
                    None => None,
                }
            }
        }
    }

    pub fn new() -> (n: TrieNode)
        ensures
            n.wf(),
            n.children@.len() == 0,
            !n.is_end_of_key,
            forall|k: Seq<char>| !n.contains_key(k),
    {
        let n = TrieNode { children: Vec::new(), is_end_of_key: false };
        proof {
            assert forall|k: Seq<char>| !n.contains_key(k) by {
                if k.len() == 0 {
                } else {
                }
            }
        }
        n
    }
}

/// A node with the given label exists at a unique index, so the `choose` in
/// `child_index` picks exactly that index.
proof fn lemma_child_index_unique(n: TrieNode, ch: char, i: int)
    requires
        n.wf(),
        0 <= i < n.children@.len(),
        n.children@[i].0 == ch,
    ensures
        n.has_child(ch),
        n.child_index(ch) == i,
        n.child(ch) == n.children@[i].1,
{
    assert(n.has_child(ch));
    let j = n.child_index(ch);
    assert(0 <= j < n.children@.len() && n.children@[j].0 == ch);
    if i < j {
        assert(n.children@[i].0 != n.children@[j].0);
    } else if j < i {
        assert(n.children@[j].0 != n.children@[i].0);
    }
}

/// In a well-formed node, membership of a non-empty key goes through the
/// unique child carrying the key's first character.
proof fn lemma_contains_via_child(n: TrieNode, k: Seq<char>)
    requires
        n.wf(),
        k.len() > 0,
    ensures
        n.contains_key(k) <==> (n.has_child(k[0]) && n.child(k[0]).contains_key(k.skip(1))),
{
    if n.contains_key(k) {
        let i = choose|i: int|
            0 <= i < n.children@.len() && (#[trigger] n.children@[i]).0 == k[0]
                && n.children@[i].1.contains_key(k.skip(1));
        lemma_child_index_unique(n, k[0], i);
    }
    if n.has_child(k[0]) && n.child(k[0]).contains_key(k.skip(1)) {
        let i = n.child_index(k[0]);
        assert(0 <= i < n.children@.len() && n.children@[i].0 == k[0]
            && n.children@[i].1.contains_key(k.skip(1)));
    }
}

/// A node with no children and no terminal flag holds no key at all.
proof fn lemma_empty_node_contains_nothing(n: TrieNode, k: Seq<char>)
    requires
        n.children@.len() == 0,
        !n.is_end_of_key,
    ensures
        !n.contains_key(k),
{
}

/// Appending a fresh, empty child under a label not yet present keeps the
/// node well formed and registers no new key.
proof fn lemma_push_fresh(pre: TrieNode, post: TrieNode, ch: char, fresh: TrieNode)
    requires
        pre.wf(),
        !pre.has_child(ch),
        fresh.children@.len() == 0,
        !fresh.is_end_of_key,
        post.children@ == pre.children@.push((ch, fresh)),
        post.is_end_of_key == pre.is_end_of_key,
    ensures
        post.wf(),
        forall|k: Seq<char>| #[trigger] post.contains_key(k) <==> pre.contains_key(k),
        post.children@[post.children@.len() - 1].0 == ch,
{
    let plen = pre.children@.len() as int;
    assert(post.children@.len() == plen + 1);
    assert(fresh.wf());
    assert forall|i: int, j: int|
        0 <= i < j < post.children@.len() implies (#[trigger] post.children@[i]).0 != (
    #[trigger] post.children@[j]).0 by {
        if j == plen {
            assert(post.children@[j].0 == ch);
            assert(post.children@[i] == pre.children@[i]);
            assert(!pre.has_child(ch));
        }
    }
    assert(post.wf());
    assert forall|k: Seq<char>| #[trigger] post.contains_key(k) <==> pre.contains_key(k) by {
        if k.len() == 0 {
        } else {
            lemma_empty_node_contains_nothing(fresh, k.skip(1));
            if post.contains_key(k) {
                let i = choose|i: int|
                    0 <= i < post.children@.len() && (#[trigger] post.children@[i]).0 == k[0]
                        && post.children@[i].1.contains_key(k.skip(1));
                if i < plen {
                    assert(post.children@[i] == pre.children@[i]);
                    assert(pre.contains_key(k));
                } else {
                    assert(post.children@[i].1 == fresh);
                }
            }
            if pre.contains_key(k) {
                let i = choose|i: int|
                    0 <= i < pre.children@.len() && (#[trigger] pre.children@[i]).0 == k[0]
                        && pre.children@[i].1.contains_key(k.skip(1));
                assert(post.children@[i] == pre.children@[i]);
                assert(post.contains_key(k));
            }
        }
    }
}

/// Replacing the child at `idx` by a well-formed node under the same label
/// keeps the node well formed; keys through other labels are untouched, and
/// keys through this label are exactly those of the new child.
proof fn lemma_update_child(pre: TrieNode, post: TrieNode, idx: int, c2: TrieNode)
    requires
        pre.wf(),
        0 <= idx < pre.children@.len(),
        c2.wf(),
        post.children@ == pre.children@.update(idx, (pre.children@[idx].0, c2)),
        post.is_end_of_key == pre.is_end_of_key,
    ensures
        post.wf(),
        forall|k: Seq<char>|
            k.len() > 0 && k[0] == pre.children@[idx].0 ==> (#[trigger] post.contains_key(k)
                <==> c2.contains_key(k.skip(1))),
        forall|k: Seq<char>|
            k.len() > 0 && k[0] == pre.children@[idx].0 ==> (#[trigger] pre.contains_key(k)
                <==> pre.children@[idx].1.contains_key(k.skip(1))),
        forall|k: Seq<char>|
            k.len() > 0 && k[0] != pre.children@[idx].0 ==> (#[trigger] post.contains_key(k)
                <==> pre.contains_key(k)),
{
    let ch = pre.children@[idx].0;
    assert(post.children@.len() == pre.children@.len());
    assert forall|i: int| 0 <= i < post.children@.len() implies (#[trigger] post.children@[i]).0
        == pre.children@[i].0 by {}
    assert(post.wf());
    assert forall|k: Seq<char>|
        k.len() > 0 && k[0] == ch implies (#[trigger] post.contains_key(k) <==> c2.contains_key(
        k.skip(1))) by {
        lemma_contains_via_child(post, k);
        lemma_child_index_unique(post, ch, idx);
    }
    assert forall|k: Seq<char>|
        k.len() > 0 && k[0] == ch implies (#[trigger] pre.contains_key(k)
            <==> pre.children@[idx].1.contains_key(k.skip(1))) by {
        lemma_contains_via_child(pre, k);
        lemma_child_index_unique(pre, ch, idx);
    }
    assert forall|k: Seq<char>|
        k.len() > 0 && k[0] != ch implies (#[trigger] post.contains_key(k) <==> pre.contains_key(
        k)) by {
        lemma_contains_via_child(post, k);
        lemma_contains_via_child(pre, k);
        if post.has_child(k[0]) {
            let i = post.child_index(k[0]);
            assert(pre.children@[i].0 == k[0]);
            lemma_child_index_unique(pre, k[0], i);
            assert(i != idx);
            assert(post.children@[i].1 == pre.children@[i].1);
        }
        if pre.has_child(k[0]) {
            let i = pre.child_index(k[0]);
            assert(post.children@[i].0 == k[0]);
            lemma_child_index_unique(post, k[0], i);
        }
    }
}

/// Index of the first child labelled `ch`, if one exists.
fn find_child(children: &Vec<(char, TrieNode)>, ch: char) -> (r: Option<usize>)
    ensures
        match r {
            Some(i) => i < children@.len() && children@[i as int].0 == ch,
            None => forall|i: int| 0 <= i < children@.len() ==> (#[trigger] children@[i]).0 != ch,
        },
{
    let mut idx: usize = 0;
    while idx < children.len()
        invariant
            idx <= children@.len(),
            forall|i: int| 0 <= i < idx ==> (#[trigger] children@[i]).0 != ch,
        decreases children@.len() - idx,
    {
        if children[idx].0 == ch {
            return Some(idx);
        }
        idx += 1;
    }
    None
}

/// Register `key[pos..]` below `n`: walk or create one child per character
/// and mark the final node terminal.
fn node_insert(n: &mut TrieNode, key: &str, pos: usize)
    requires
        old(n).wf(),
        pos <= key@.len(),
    ensures
        final(n).wf(),
        forall|k: Seq<char>|
            #[trigger] final(n).contains_key(k) <==> (old(n).contains_key(k) || k == key@.skip(
                pos as int)),
    decreases key@.len() - pos,
{
    let len = key.unicode_len();
    if pos == len {
        n.is_end_of_key = true;
        proof {
            assert(key@.skip(pos as int) =~= Seq::<char>::empty());
            assert forall|k: Seq<char>|
                #[trigger] n.contains_key(k) <==> (old(n).contains_key(k) || k == key@.skip(
                    pos as int)) by {
                if k.len() == 0 {
                    assert(k =~= key@.skip(pos as int));
                } else {
                    assert(k != key@.skip(pos as int));
                }
            }
        }
    } else {
        let ch = key.get_char(pos);
        let idx: usize = match find_child(&n.children, ch) {
            Some(i) => i,
            None => {
                let fresh = TrieNode::new();
                proof {
                    assert(!n.has_child(ch)) by {
                        if n.has_child(ch) {
                            let i = n.child_index(ch);
                            assert(n.children@[i].0 == ch);
                        }
                    }
                }
                let ghost pre_push = *n;
                let ghost fresh_g = fresh;
                n.children.push((ch, fresh));
                proof {
                    lemma_push_fresh(pre_push, *n, ch, fresh_g);
                }
                n.children.len() - 1
            },
        };
        let ghost mid = *n;
        assert(mid.wf());
        assert(idx < mid.children@.len() && mid.children@[idx as int].0 == ch);
        assert(forall|k: Seq<char>|
            #[trigger] mid.contains_key(k) <==> old(n).contains_key(k));
        proof {
            assert forall|i: int|
                0 <= i < mid.children@.len() implies (#[trigger] mid.children@[i]).1.wf() by {}
        }
        node_insert(&mut n.children[idx].1, key, pos + 1);
        proof {
            let ghost c2 = n.children@[idx as int].1;
            assert(n.children@ =~= mid.children@.update(
                idx as int,
                (mid.children@[idx as int].0, c2),
            ));
            lemma_update_child(mid, *n, idx as int, c2);
            let rest = key@.skip(pos as int);
            assert(rest.len() > 0);
            assert(rest[0] == key@[pos as int]);
            assert(rest.skip(1) =~= key@.skip(pos as int + 1));
            assert forall|k: Seq<char>|
                #[trigger] n.contains_key(k) <==> (old(n).contains_key(k) || k == rest) by {
                if k.len() == 0 {
                    assert(k != rest);
                } else if k[0] == ch {
                    assert(n.contains_key(k) <==> c2.contains_key(k.skip(1)));
                    assert(mid.contains_key(k) <==> mid.children@[idx as int].1.contains_key(
                        k.skip(1)));
                    assert(c2.contains_key(k.skip(1)) <==> (mid.children@[
                        idx as int].1.contains_key(k.skip(1)) || k.skip(1) == rest.skip(1)));
                    if k.skip(1) == rest.skip(1) {
                        assert(k.len() == 1 + k.skip(1).len());
                        assert(rest.len() == 1 + rest.skip(1).len());
                        assert forall|m: int| 0 <= m < k.len() implies k[m] == rest[m] by {
                            if m > 0 {
                                assert(k.skip(1)[m - 1] == k[m]);
                                assert(rest.skip(1)[m - 1] == rest[m]);
                            }
                        }
                        assert(k =~= rest);
                    }
                    if k == rest {
                        assert(k.skip(1) == rest.skip(1));
                    }
                } else {
                    assert(n.contains_key(k) <==> mid.contains_key(k));
                    assert(k != rest);
                }
            }
        }
    }
}

/// Prefix trie over registered route prefixes.
pub struct Trie {
    pub root: TrieNode,
}

impl Trie {
    pub open spec fn wf(self) -> bool {
        self.root.wf()
    }

    /// The prefix `k` has been registered.
    pub open spec fn contains(self, k: Seq<char>) -> bool {
        self.root.contains_key(k)
    }

    /// What `search` returns: the prefix of `s` ending at the first terminal
    /// node met along the walk, if the walk meets one.
    pub open spec fn search_spec(self, s: Seq<char>) -> Option<Seq<char>> {
        match self.root.node_search(s) {
            Some(k) => Some(s.take(k)),
            None => None,
        }
    }

    pub fn new() -> (t: Trie)
        ensures
            t.wf(),
            forall|k: Seq<char>| !t.contains(k),
    {
        Trie { root: TrieNode::new() }
    }

    /// Register `key`. Re-inserting an already registered key is a no-op.
    pub fn insert(&mut self, key: &str)
        requires
            old(self).wf(),
        ensures
            final(self).wf(),
            forall|k: Seq<char>|
                #[trigger] final(self).contains(k) <==> (old(self).contains(k) || k == key@),
    {
        node_insert(&mut self.root, key, 0);
        proof {
            assert(key@.skip(0) =~= key@);
        }
    }

    /// Walk `s` one character at a time and return the accumulated prefix as
    /// soon as a terminal node is reached; return nothing if the walk dies or
    /// exhausts `s` first.
    pub fn search(&self, s: &str) -> (r: Option<String>)
        requires
            self.wf(),
        ensures
            match r {
                Some(m) => self.search_spec(s@) == Some(m@),
                None => self.search_spec(s@) is None,
            },
    {
        let n = s.unicode_len();
        let mut node: &TrieNode = &self.root;
        let mut i: usize = 0;
        proof {
            assert(s@.skip(0) =~= s@);
        }
        while i < n
            invariant
                n == s@.len(),
                i <= n,
                node.wf(),
                (match node.node_search(s@.skip(i as int)) {
                    Some(k) => self.root.node_search(s@) == Some(i + k),
                    None => self.root.node_search(s@) is None,
                }),
            decreases n - i,
        {
            let ch = s.get_char(i);
            proof {
                assert(s@.skip(i as int).len() > 0);
                assert(s@.skip(i as int)[0] == s@[i as int]);
            }
            match find_child(&node.children, ch) {
                None => {
                    proof {
                        assert(!node.has_child(ch)) by {
                            if node.has_child(ch) {
                                let j = node.child_index(ch);
                                assert(node.children@[j].0 == ch);
                            }
                        }
                    }
                    return None;
                },
                Some(ci) => {
                    proof {
                        lemma_child_index_unique(*node, ch, ci as int);
                    }
                    let next = &node.children[ci].1;
                    if next.is_end_of_key {
                        let m = s.substring_char(0, i + 1);
                        proof {
                            assert(node.node_search(s@.skip(i as int)) == Some(1int));
                            assert(s@.take(i + 1) =~= s@.subrange(0, i + 1));
                        }
                        return Some(String::from_str(m));
                    }
                    proof {
                        assert(s@.skip(i as int).skip(1) =~= s@.skip(i as int + 1));
                    }
                    node = next;
                    i += 1;
                },
            }
        }
        proof {
            assert(s@.skip(n as int).len() == 0);
        }
        None
    }
}

impl Default for Trie {
    /// An empty trie: nothing registered.
    fn default() -> (t: Trie)
        ensures
            t.wf(),
            forall|k: Seq<char>| !t.contains(k),
    {
        Trie::new()
    }
}

/// First-terminal-wins law at node level: a successful walk ends on the
/// shortest registered prefix of `s`, and a failed walk means no non-empty
/// prefix of `s` is registered below `n`.
proof fn lemma_node_search_first_terminal(n: TrieNode, s: Seq<char>)
    requires
        n.wf(),
    ensures
        match n.node_search(s) {
            Some(k) => {
                &&& 1 <= k <= s.len()
                &&& n.contains_key(s.take(k))
                &&& forall|j: int| 1 <= j < k ==> !n.contains_key(#[trigger] s.take(j))
            },
            None => forall|j: int| 1 <= j <= s.len() ==> !n.contains_key(#[trigger] s.take(j)),
        },
    decreases s.len(),
{
    if s.len() == 0 {
    } else if !n.has_child(s[0]) {
        assert forall|j: int| 1 <= j <= s.len() implies !n.contains_key(#[trigger] s.take(j)) by {
            assert(s.take(j)[0] == s[0]);
            lemma_contains_via_child(n, s.take(j));
        }
    } else {
        let c = n.child(s[0]);
        if c.is_end_of_key {
            assert(s.take(1)[0] == s[0]);
            lemma_contains_via_child(n, s.take(1));
            assert(s.take(1).skip(1) =~= Seq::<char>::empty());
            assert(c.contains_key(s.take(1).skip(1)));
        } else {
            lemma_node_search_first_terminal(c, s.skip(1));
            match c.node_search(s.skip(1)) {
                Some(kp) => {
                    let k = 1 + kp;
                    assert(s.take(k)[0] == s[0]);
                    lemma_contains_via_child(n, s.take(k));
                    assert(s.take(k).skip(1) =~= s.skip(1).take(kp));
                    assert(n.contains_key(s.take(k)));
                    assert forall|j: int| 1 <= j < k implies !n.contains_key(
                        #[trigger] s.take(j)) by {
                        assert(s.take(j)[0] == s[0]);
                        lemma_contains_via_child(n, s.take(j));
                        if j == 1 {
                            assert(s.take(1).skip(1) =~= Seq::<char>::empty());
                        } else {
                            assert(s.take(j).skip(1) =~= s.skip(1).take(j - 1));
                        }
                    }
                },
                None => {
                    assert forall|j: int| 1 <= j <= s.len() implies !n.contains_key(
                        #[trigger] s.take(j)) by {
                        assert(s.take(j)[0] == s[0]);
                        lemma_contains_via_child(n, s.take(j));
                        if j == 1 {
                            assert(s.take(1).skip(1) =~= Seq::<char>::empty());
                        } else {
                            assert(s.take(j).skip(1) =~= s.skip(1).take(j - 1));
                        }
                    }
                },
            }
        }
    }
}

/// First-terminal-wins matching law: a successful search yields a registered
/// non-empty literal prefix of the query, and no shorter non-empty prefix of
/// the query is registered; a failed search means no non-empty prefix of the
/// query is registered at all.
pub proof fn lemma_search_first_terminal(t: Trie, s: Seq<char>)
    requires
        t.wf(),
    ensures
        match t.search_spec(s) {
            Some(m) => {
                &&& 1 <= m.len() <= s.len()
                &&& m == s.take(m.len() as int)
                &&& t.contains(m)
                &&& forall|j: int| 1 <= j < m.len() ==> !t.contains(#[trigger] s.take(j))
            },
            None => forall|j: int| 1 <= j <= s.len() ==> !t.contains(#[trigger] s.take(j)),
        },
{
    lemma_node_search_first_terminal(t.root, s);
}

/// A trie in which nothing is registered matches no query, empty or not.
pub proof fn lemma_empty_trie_search_none(t: Trie, s: Seq<char>)
    requires
        t.wf(),
        forall|k: Seq<char>| !t.contains(k),
    ensures
        t.search_spec(s) is None,
{
    lemma_search_first_terminal(t, s);
    if t.search_spec(s) is Some {
        let m = t.search_spec(s)->Some_0;
        assert(!t.contains(m));
    }
}

} // verus!
