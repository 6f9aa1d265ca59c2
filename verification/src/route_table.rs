//! Binds registered route prefixes to backend pool slots.

use vstd::prelude::*;
use crate::tri_node::{Trie, lemma_search_first_terminal};

verus! {

/// Maps route names (registered prefixes) to backend pool slots. Built once
/// at startup, read-only afterwards. The trie and the binding list always
/// agree, which is what makes every successful prefix match resolvable to a
/// pool.
pub struct RouteTable {
    pub trie: Trie,
    pub bindings: Vec<(String, usize)>,
}

impl RouteTable {
    pub open spec fn wf(self) -> bool {
        &&& self.trie.wf()
        &&& (forall|i: int, j: int|
            0 <= i < j < self.bindings@.len() ==> (#[trigger] self.bindings@[i]).0@ != (
            #[trigger] self.bindings@[j]).0@)
        &&& (forall|k: Seq<char>|
            #[trigger] self.trie.contains(k) <==> exists|i: int|
                0 <= i < self.bindings@.len() && (#[trigger] self.bindings@[i]).0@ == k)
    }

    /// The route name `k` is registered.
    pub open spec fn is_registered(self, k: Seq<char>) -> bool {
        exists|i: int| 0 <= i < self.bindings@.len() && (#[trigger] self.bindings@[i]).0@ == k
    }

    /// Index of the binding for a registered route name.
    pub open spec fn binding_index(self, k: Seq<char>) -> int {
        choose|i: int| 0 <= i < self.bindings@.len() && (#[trigger] self.bindings@[i]).0@ == k
    }

    /// The pool slot bound to a registered route name.
    pub open spec fn pool_index_of(self, k: Seq<char>) -> int {
        self.bindings@[self.binding_index(k)].1 as int
    }

    pub fn new() -> (t: RouteTable)
        ensures
            t.wf(),
            t.bindings@.len() == 0,
            forall|k: Seq<char>| !t.trie.contains(k),
    {
        RouteTable { trie: Trie::new(), bindings: Vec::new() }
    }

    /// Bind `prefix` to the pool slot `pool`. The prefix must not already be
    /// bound; routes are registered once, at startup.
    pub fn register(&mut self, prefix: &str, pool: usize)
        requires
            old(self).wf(),
            forall|i: int|
                0 <= i < old(self).bindings@.len() ==> (#[trigger] old(self).bindings@[i]).0@
                    != prefix@,
        ensures
            final(self).wf(),
            final(self).bindings@.len() == old(self).bindings@.len() + 1,
            final(self).bindings@.subrange(0, old(self).bindings@.len() as int) == old(
                self,
            ).bindings@,
            final(self).bindings@.last().0@ == prefix@,
            final(self).bindings@.last().1 == pool,
            forall|k: Seq<char>|
                #[trigger] final(self).trie.contains(k) <==> (old(self).trie.contains(k) || k
                    == prefix@),
    {
        self.trie.insert(prefix);
        let owned = String::from_str(prefix);
        self.bindings.push((owned, pool));
        proof {
            let pre = old(self).bindings@;
            let post = self.bindings@;
            assert(post.subrange(0, pre.len() as int) =~= pre);
            assert forall|k: Seq<char>|
                #[trigger] self.trie.contains(k) <==> exists|i: int|
                    0 <= i < post.len() && (#[trigger] post[i]).0@ == k by {
                if self.trie.contains(k) {
                    if old(self).trie.contains(k) {
                        let i = choose|i: int| 0 <= i < pre.len() && (#[trigger] pre[i]).0@ == k;
                        assert(post[i].0@ == k);
                    } else {
                        assert(post[pre.len() as int].0@ == k);
                    }
                }
                if exists|i: int| 0 <= i < post.len() && (#[trigger] post[i]).0@ == k {
                    let i = choose|i: int| 0 <= i < post.len() && (#[trigger] post[i]).0@ == k;
                    if i < pre.len() {
                        assert(pre[i].0@ == k);
                        assert(old(self).trie.contains(k));
                    } else {
                        assert(k == prefix@);
                    }
                }
            }
        }
    }

    /// Which registered prefix, if any, classifies `path`: delegates to the
    /// trie's first-terminal-wins walk.
    pub fn prefix_for(&self, path: &str) -> (r: Option<String>)
        requires
            self.wf(),
        ensures
            match r {
                Some(m) => self.trie.search_spec(path@) == Some(m@),
                None => self.trie.search_spec(path@) is None,
            },
    {
        self.trie.search(path)
    }

    /// The pool slot bound to `name`: exact-key lookup over the bindings.
    /// Fails only for a name that was never registered.
    pub fn pool_for(&self, name: &String) -> (r: Option<usize>)
        requires
            self.wf(),
        ensures
            match r {
                Some(p) => self.is_registered(name@) && p as int == self.pool_index_of(name@),
                None => !self.is_registered(name@),
            },
    {
        let n = self.bindings.len();
        let mut i: usize = 0;
        while i < n
            invariant
                n == self.bindings@.len(),
                i <= n,
                self.wf(),
                forall|j: int| 0 <= j < i ==> (#[trigger] self.bindings@[j]).0@ != name@,
            decreases n - i,
        {
            if self.bindings[i].0.eq(name) {
                proof {
                    assert(self.bindings@[i as int].0@ == name@);
                    let w = self.binding_index(name@);
                    assert(0 <= w < self.bindings@.len() && self.bindings@[w].0@ == name@);
                    if w < i as int {
                        assert(self.bindings@[w].0@ != self.bindings@[i as int].0@);
                    } else if w > i as int {
                        assert(self.bindings@[i as int].0@ != self.bindings@[w].0@);
                    }
                }
                return Some(self.bindings[i].1);
            }
            i += 1;
        }
        None
    }
}

/// Internal-consistency law: a route name produced by a successful prefix
/// match is always bound to a pool, because the trie and the binding list
/// hold exactly the same prefixes.
pub proof fn lemma_match_resolves(t: RouteTable, path: Seq<char>)
    requires
        t.wf(),
    ensures
        match t.trie.search_spec(path) {
            Some(m) => t.is_registered(m),
            None => true,
        },
{
    lemma_search_first_terminal(t.trie, path);
}

} // verus!
