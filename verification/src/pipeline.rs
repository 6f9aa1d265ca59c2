//! The per-request pipeline: match route, authenticate if required, select a
//! peer, rewrite outbound headers.

use vstd::prelude::*;
use crate::conversions::headers::{header_entry, IdentityExtractor};
use crate::errors::PipelineError;
use crate::pool::{scan, BackendPool};
use crate::route_table::{lemma_match_resolves, RouteTable};

verus! {

/// What the pipeline hands back to the transport layer on success: the
/// resolved peer plus the header mutations to apply before forwarding.
#[derive(Debug)]
pub struct ForwardDecision {
    /// Address of the chosen upstream peer.
    pub peer_addr: String,
    /// Value for the injected `X-USER-ID` header, present exactly on
    /// authenticated routes.
    pub user_id: Option<String>,
    /// Fixed override for the outbound `Host` header.
    pub host: String,
    /// Fixed budget for the upstream connection attempt.
    pub connect_timeout_ms: u64,
}

/// Per-request scratch state threaded through the pipeline stages: created
/// at request start, discarded at request end. Currently empty.
pub struct RequestContext {}

/// Orchestrates one request: route matching, optional authentication, peer
/// selection, header rewriting. Routes and pools are registered once at
/// startup; afterwards only pool health flags and rotation cursors move.
pub struct RequestPipeline {
    pub table: RouteTable,
    pub pools: Vec<BackendPool>,
    pub auth_prefixes: Vec<String>,
    pub host_override: String,
    pub connect_timeout_ms: u64,
    pub max_attempts: usize,
}

impl RequestPipeline {
    pub open spec fn wf(self) -> bool {
        &&& self.table.wf()
        &&& (forall|i: int|
            0 <= i < self.table.bindings@.len() ==> (#[trigger] self.table.bindings@[i]).1
                < self.pools@.len())
        &&& (forall|i: int| 0 <= i < self.pools@.len() ==> (#[trigger] self.pools@[i]).wf())
    }

    /// The route name the path classifies to, if any.
    pub open spec fn route_of(self, path: Seq<char>) -> Option<Seq<char>> {
        self.table.trie.search_spec(path)
    }

    /// Whether the route name sits in the configured authentication-required
    /// set.
    pub open spec fn requires_auth(self, name: Seq<char>) -> bool {
        exists|i: int|
            0 <= i < self.auth_prefixes@.len() && (#[trigger] self.auth_prefixes@[i])@ == name
    }

    /// The full outcome of one request as a function of the pipeline state,
    /// the path, and the `Authorization` entry: either the chosen peer
    /// address with the optional injected identity, or the terminal error.
    pub open spec fn outcome_spec(self, path: Seq<char>, auth: Option<Seq<u8>>) -> Result<
        (Seq<char>, Option<Seq<char>>),
        PipelineError,
    > {
        match self.route_of(path) {
            None => Err(PipelineError::RouteNotFound),
            Some(name) => {
                if self.requires_auth(name) && IdentityExtractor::extract_spec(auth) is Err {
                    Err(PipelineError::AuthenticationRequired)
                } else {
                    let pool = self.pools@[self.table.pool_index_of(name)];
                    if pool.size() == 0 {
                        Err(PipelineError::NoHealthyBackend)
                    } else {
                        match scan(pool.available@, pool.cursor as int, self.max_attempts as nat) {
                            None => Err(PipelineError::NoHealthyBackend),
                            Some(s) => Ok(
                                (
                                    pool.addresses@[s]@,
                                    if self.requires_auth(name) {
                                        Some("Migo"@)
                                    } else {
                                        None
                                    },
                                ),
                            ),
                        }
                    }
                }
            },
        }
    }

    /// The pool states after one request: only a successful selection moves
    /// anything, and it moves exactly the matched route's rotation cursor.
    pub open spec fn pools_after(self, path: Seq<char>, auth: Option<Seq<u8>>) -> Seq<
        BackendPool,
    > {
        match self.outcome_spec(path, auth) {
            Err(_) => self.pools@,
            Ok(_) => {
                let name = self.route_of(path)->Some_0;
                let pi = self.table.pool_index_of(name);
                let pool = self.pools@[pi];
                let s = scan(
                    pool.available@,
                    pool.cursor as int,
                    self.max_attempts as nat,
                )->Some_0;
                self.pools@.update(
                    pi,
                    (BackendPool {
                        cursor: ((s + 1) % (pool.size() as int)) as usize,
                        ..pool
                    }),
                )
            },
        }
    }
}

/// Whether some element of `v` reads as `s`.
fn contains_string(v: &Vec<String>, s: &String) -> (r: bool)
    ensures
        r == exists|i: int| 0 <= i < v@.len() && (#[trigger] v@[i])@ == s@,
{
    let n = v.len();
    let mut i: usize = 0;
    while i < n
        invariant
            n == v@.len(),
            i <= n,
            forall|j: int| 0 <= j < i ==> (#[trigger] v@[j])@ != s@,
        decreases n - i,
    {
        if v[i].eq(s) {
            return true;
        }
        i += 1;
    }
    false
}

impl RequestPipeline {
    /// A pipeline with no routes and no pools yet.
    pub fn new(host_override: String, connect_timeout_ms: u64, max_attempts: usize) -> (p:
        RequestPipeline)
        ensures
            p.wf(),
            p.table.bindings@.len() == 0,
            p.pools@.len() == 0,
            p.auth_prefixes@.len() == 0,
            p.host_override == host_override,
            p.connect_timeout_ms == connect_timeout_ms,
            p.max_attempts == max_attempts,
            forall|path: Seq<char>| p.route_of(path) is None,
    {
        let p = RequestPipeline {
            table: RouteTable::new(),
            pools: Vec::new(),
            auth_prefixes: Vec::new(),
            host_override,
            connect_timeout_ms,
            max_attempts,
        };
        proof {
            assert forall|path: Seq<char>| p.route_of(path) is None by {
                crate::tri_node::lemma_empty_trie_search_none(p.table.trie, path);
            }
        }
        p
    }

    /// Register one route: bind `prefix` to a fresh pool over `addresses`,
    /// optionally adding the prefix to the authentication-required set. Part
    /// of startup; the prefix must not already be registered.
    pub fn add_route(&mut self, prefix: &str, addresses: Vec<String>, needs_auth: bool)
        requires
            old(self).wf(),
            forall|i: int|
                0 <= i < old(self).table.bindings@.len() ==> (#[trigger] old(
                    self,
                ).table.bindings@[i]).0@ != prefix@,
        ensures
            final(self).wf(),
            final(self).host_override == old(self).host_override,
            final(self).connect_timeout_ms == old(self).connect_timeout_ms,
            final(self).max_attempts == old(self).max_attempts,
            final(self).pools@.len() == old(self).pools@.len() + 1,
            final(self).pools@.subrange(0, old(self).pools@.len() as int) == old(self).pools@,
            final(self).pools@.last().addresses@ == addresses@,
            final(self).pools@.last().cursor == 0,
            forall|i: int|
                0 <= i < addresses@.len() ==> final(self).pools@.last().available@[i],
            final(self).table.bindings@.last().0@ == prefix@,
            final(self).table.bindings@.last().1 == old(self).pools@.len(),
            forall|k: Seq<char>|
                #[trigger] final(self).table.trie.contains(k) <==> (old(
                    self,
                ).table.trie.contains(k) || k == prefix@),
            forall|name: Seq<char>|
                #[trigger] final(self).requires_auth(name) <==> (old(self).requires_auth(name)
                    || (needs_auth && name == prefix@)),
    {
        let pool_idx = self.pools.len();
        self.table.register(prefix, pool_idx);
        self.pools.push(BackendPool::new(addresses));
        if needs_auth {
            self.auth_prefixes.push(String::from_str(prefix));
        }
        proof {
            let preb = old(self).table.bindings@;
            let postb = self.table.bindings@;
            assert forall|i: int| 0 <= i < postb.len() implies (#[trigger] postb[i]).1
                < self.pools@.len() by {
                if i < preb.len() {
                    assert(postb.subrange(0, preb.len() as int)[i] == postb[i]);
                }
            }
            let prea = old(self).auth_prefixes@;
            let posta = self.auth_prefixes@;
            assert forall|name: Seq<char>|
                #[trigger] self.requires_auth(name) <==> (old(self).requires_auth(name) || (
                needs_auth && name == prefix@)) by {
                if self.requires_auth(name) {
                    let i = choose|i: int|
                        0 <= i < posta.len() && (#[trigger] posta[i])@ == name;
                    if i < prea.len() {
                        assert(prea[i]@ == name);
                    }
                }
                if old(self).requires_auth(name) {
                    let i = choose|i: int| 0 <= i < prea.len() && (#[trigger] prea[i])@ == name;
                    assert(posta[i]@ == name);
                }
                if needs_auth && name == prefix@ {
                    assert(posta[posta.len() - 1]@ == name);
                }
            }
        }
    }

    /// Fresh scratch state for one request.
    pub fn new_ctx(&self) -> RequestContext {
        RequestContext {}
    }

    /// Run the whole pipeline for one request: match the path to a route,
    /// authenticate when the route demands it, pick a live peer by round
    /// robin, and produce the outbound header rewrites.
    pub fn handle_request(&mut self, path: &str, headers: &http::HeaderMap) -> (r: Result<
        ForwardDecision,
        PipelineError,
    >)
        requires
            old(self).wf(),
        ensures
            final(self).wf(),
            final(self).table == old(self).table,
            final(self).auth_prefixes == old(self).auth_prefixes,
            final(self).host_override == old(self).host_override,
            final(self).connect_timeout_ms == old(self).connect_timeout_ms,
            final(self).max_attempts == old(self).max_attempts,
            final(self).pools@ == old(self).pools_after(
                path@,
                header_entry(*headers, "Authorization"@),
            ),
            ({
                let outcome = old(self).outcome_spec(
                    path@,
                    header_entry(*headers, "Authorization"@),
                );
                match r {
                    Ok(d) => {
                        &&& outcome matches Ok(pair)
                        &&& d.peer_addr@ == pair.0
                        &&& (match (d.user_id, pair.1) {
                            (Some(u), Some(su)) => u@ == su,
                            (None, None) => true,
                            _ => false,
                        })
                        &&& d.host@ == old(self).host_override@
                        &&& d.connect_timeout_ms == old(self).connect_timeout_ms
                    },
                    Err(e) => outcome matches Err(e2) && e == e2,
                }
            }),
    {
        let ghost auth_entry = header_entry(*headers, "Authorization"@);
        // Route matching.
        let matched = self.table.prefix_for(path);
        let name = match matched {
            None => {
                return Err(PipelineError::RouteNotFound);
            },
            Some(n) => n,
        };
        // Authentication, only where the route demands it.
        let needs_auth = contains_string(&self.auth_prefixes, &name);
        let user_id: Option<String> = if needs_auth {
            match IdentityExtractor::extract(headers) {
                Err(e) => {
                    return Err(e);
                },
                Ok(tok) => match tok.get_user_id() {
                    Err(e) => {
                        return Err(e);
                    },
                    Ok(id) => Some(id),
                },
            }
        } else {
            None
        };
        // Peer selection over the matched route's pool.
        let pool_idx = match self.table.pool_for(&name) {
            None => {
                proof {
                    lemma_match_resolves(self.table, path@);
                    assert(false);
                }
                return Err(PipelineError::RouteNotFound);
            },
            Some(i) => i,
        };
        proof {
            let bi = self.table.binding_index(name@);
            assert(0 <= bi < self.table.bindings@.len() && self.table.bindings@[bi].0@
                == name@);
            assert(self.table.bindings@[bi].1 < self.pools@.len());
        }
        let attempts = self.max_attempts;
        let key: Vec<u8> = Vec::new();
        let sel = self.pools[pool_idx].select(key.as_slice(), attempts);
        match sel {
            Err(e) => {
                proof {
                    let i = pool_idx as int;
                    let oldp = old(self).pools@[i];
                    let newp = self.pools@[i];
                    assert(newp == oldp);
                    assert(self.pools@ =~= old(self).pools@);
                }
                Err(e)
            },
            Ok(addr) => {
                let host = self.host_override.clone();
                let timeout = self.connect_timeout_ms;
                proof {
                    let i = pool_idx as int;
                    let oldp = old(self).pools@[i];
                    let newp = self.pools@[i];
                    let s = scan(oldp.available@, oldp.cursor as int, attempts as nat)->Some_0;
                    assert(newp.cursor as int == (s + 1) % (oldp.size() as int));
                    assert(newp == (BackendPool {
                        cursor: (((s + 1) % (oldp.size() as int)) as usize),
                        ..oldp
                    }));
                    assert(self.pools@ =~= old(self).pools_after(path@, auth_entry));
                }
                Ok(
                    ForwardDecision {
                        peer_addr: addr,
                        user_id,
                        host,
                        connect_timeout_ms: timeout,
                    },
                )
            },
        }
    }
}

/// A route outside the authentication-required set never consults the
/// `Authorization` header: outcome and pool states are the same whatever the
/// header holds, including when it is absent.
pub proof fn lemma_unauthenticated_route_ignores_header(
    p: RequestPipeline,
    path: Seq<char>,
    a1: Option<Seq<u8>>,
    a2: Option<Seq<u8>>,
)
    requires
        p.wf(),
        match p.route_of(path) {
            Some(name) => !p.requires_auth(name),
            None => true,
        },
    ensures
        p.outcome_spec(path, a1) == p.outcome_spec(path, a2),
        p.pools_after(path, a1) == p.pools_after(path, a2),
{
}

/// A path matching no registered prefix fails with `RouteNotFound`, whatever
/// the `Authorization` header holds and whatever state the backend pools are
/// in; no pool is touched.
pub proof fn lemma_unmatched_path_is_route_not_found(
    p: RequestPipeline,
    path: Seq<char>,
    auth: Option<Seq<u8>>,
)
    requires
        p.wf(),
        p.route_of(path) is None,
    ensures
        p.outcome_spec(path, auth) == Err::<(Seq<char>, Option<Seq<char>>), PipelineError>(
            PipelineError::RouteNotFound,
        ),
        p.pools_after(path, auth) == p.pools@,
{
}

/// On an authenticated route, a missing or unreadable `Authorization` header
/// fails with `AuthenticationRequired`; a readable one always gets past the
/// identity step, and a forwarded request carries the resolved identity.
pub proof fn lemma_authenticated_route_gates_on_header(
    p: RequestPipeline,
    path: Seq<char>,
    auth: Option<Seq<u8>>,
)
    requires
        p.wf(),
        p.route_of(path) is Some,
        p.requires_auth(p.route_of(path)->Some_0),
    ensures
        IdentityExtractor::extract_spec(auth) is Err ==> p.outcome_spec(path, auth) == Err::<
            (Seq<char>, Option<Seq<char>>),
            PipelineError,
        >(PipelineError::AuthenticationRequired),
        IdentityExtractor::extract_spec(auth) is Ok ==> match p.outcome_spec(path, auth) {
            Ok(pair) => pair.1 == Some("Migo"@),
            Err(e) => e == PipelineError::NoHealthyBackend,
        },
{
}

} // verus!
