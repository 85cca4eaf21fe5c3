use vstd::prelude::*;
use serde_json::Value;
use crate::capability::{Capability, McpError, RemoteMcpServer, from_handler, lift_handler_result};

verus! {

/// Whether a sequence of keys holds no key twice.
pub open spec fn keys_unique(keys: Seq<Seq<char>>) -> bool {
    keys.no_duplicates()
}

/// The position of key `k` in `keys` (meaningful where `keys` contains `k`).
pub open spec fn key_at(keys: Seq<Seq<char>>, k: Seq<char>) -> int {
    choose|i: int| 0 <= i < keys.len() && keys[i] == k
}

/// The names of a sequence of capabilities, in order.
pub open spec fn cap_names<T, R, P>(caps: Seq<Capability<T, R, P>>) -> Seq<Seq<char>> {
    caps.map_values(|c: Capability<T, R, P>| c.spec_name())
}

/// The capability registered under `name`, if any.
pub open spec fn lookup_in<T, R, P>(caps: Seq<Capability<T, R, P>>, name: Seq<char>) -> Option<
    Capability<T, R, P>,
> {
    if cap_names(caps).contains(name) {
        Some(caps[key_at(cap_names(caps), name)])
    } else {
        None
    }
}

/// Registration: replaces the entry of the same name in place, or appends.
pub open spec fn register_in<T, R, P>(caps: Seq<Capability<T, R, P>>, c: Capability<T, R, P>) -> Seq<
    Capability<T, R, P>,
> {
    if cap_names(caps).contains(c.spec_name()) {
        caps.update(key_at(cap_names(caps), c.spec_name()), c)
    } else {
        caps.push(c)
    }
}

/// The ids of a sequence of peers, in order.
pub open spec fn peer_ids(peers: Seq<RemoteMcpServer>) -> Seq<Seq<char>> {
    peers.map_values(|p: RemoteMcpServer| p.id@)
}

/// Adding a peer: replaces the peer of the same id in place, or appends.
pub open spec fn add_peer_in(peers: Seq<RemoteMcpServer>, p: RemoteMcpServer) -> Seq<RemoteMcpServer> {
    if peer_ids(peers).contains(p.id@) {
        peers.update(key_at(peer_ids(peers), p.id@), p)
    } else {
        peers.push(p)
    }
}

/// The keys of the resource cache, in order.
pub open spec fn cache_keys(entries: Seq<(String, String)>) -> Seq<Seq<char>> {
    entries.map_values(|e: (String, String)| e.0@)
}

/// The cached content for `name`, if any.
pub open spec fn cache_get_in(entries: Seq<(String, String)>, name: Seq<char>) -> Option<Seq<char>> {
    if cache_keys(entries).contains(name) {
        Some(entries[key_at(cache_keys(entries), name)].1@)
    } else {
        None
    }
}

/// Whether a handler may be called on every input.
pub open spec fn handlers_total<T, R, P>(c: Capability<T, R, P>) -> bool where
    T: Fn(Value) -> Result<Value, String>,
    R: Fn() -> Result<String, String>,
    P: Fn(Value) -> Result<Vec<Value>, String>,
 {
    match c {
        Capability::Tool(t) => forall|v: Value| #[trigger] t.handler.requires((v,)),
        Capability::Resource(r) => r.handler.requires(()),
        Capability::Prompt(p) => forall|v: Value| #[trigger] p.handler.requires((v,)),
    }
}

/// Whether `transport` may be asked any peer for any name.
pub open spec fn transport_total<F>(transport: F) -> bool where
    F: Fn(&RemoteMcpServer, &str) -> Result<String, String>,
 {
    forall|p: &RemoteMcpServer, n: &str| #[trigger] transport.requires((p, n))
}

/// Whether asking `peer` for `name` through `transport` can fail.
pub open spec fn peer_fails<F>(transport: F, peer: RemoteMcpServer, name: &str) -> bool where
    F: Fn(&RemoteMcpServer, &str) -> Result<String, String>,
 {
    exists|e: String| #[trigger] transport.ensures((&peer, name), Err(e))
}

/// Whether some peer answers `name` with `content` through `transport`, every
/// peer registered before it failing.
pub open spec fn first_answer<F>(
    peers: Seq<RemoteMcpServer>,
    name: &str,
    transport: F,
    content: String,
) -> bool where F: Fn(&RemoteMcpServer, &str) -> Result<String, String> {
    exists|i: int|
        0 <= i < peers.len() && #[trigger] transport.ensures((&peers[i], name), Ok(content)) && (
        forall|j: int| 0 <= j < i ==> peer_fails(transport, #[trigger] peers[j], name))
}

/// The outcome of remote resolution: the first peer, in registration order,
/// that answers with content supplies the result, every peer before it having
/// failed; where every peer fails (or there are none) the result is
/// `AllPeersExhausted` for that name.
pub open spec fn resolved_by<F>(
    peers: Seq<RemoteMcpServer>,
    name: &str,
    transport: F,
    r: Result<String, McpError>,
) -> bool where F: Fn(&RemoteMcpServer, &str) -> Result<String, String> {
    match r {
        Ok(s) => first_answer(peers, name, transport, s),
        Err(e) => (e matches McpError::AllPeersExhausted(n) && n@ == name@) && (forall|j: int|
            0 <= j < peers.len() ==> peer_fails(transport, #[trigger] peers[j], name)),
    }
}

/// In a sequence of distinct keys, the position of the key found at `i` is `i`.
pub proof fn lemma_key_at(keys: Seq<Seq<char>>, i: int)
    requires
        keys_unique(keys),
        0 <= i < keys.len(),
    ensures
        keys.contains(keys[i]),
        key_at(keys, keys[i]) == i,
{
    assert(0 <= i < keys.len() && keys[i] == keys[i]);
    let j = key_at(keys, keys[i]);
    assert(0 <= j < keys.len() && keys[j] == keys[i]);
}

/// Appending a key that is absent keeps the keys distinct.
pub proof fn lemma_push_unique(keys: Seq<Seq<char>>, k: Seq<char>)
    requires
        keys_unique(keys),
        !keys.contains(k),
    ensures
        keys_unique(keys.push(k)),
{
    let ks = keys.push(k);
    assert forall|i: int, j: int| 0 <= i < ks.len() && 0 <= j < ks.len() && i != j implies ks[i]
        != ks[j] by {
        if i == keys.len() {
            assert(ks[j] == keys[j]);
        } else if j == keys.len() {
            assert(ks[i] == keys[i]);
        }
    }
}

/// A sequence of distinct keys that was extended or updated without changing
/// the key at `i` still places that key at `i`.
pub proof fn lemma_key_at_kept(old_keys: Seq<Seq<char>>, new_keys: Seq<Seq<char>>, k: Seq<char>)
    requires
        keys_unique(old_keys),
        keys_unique(new_keys),
        old_keys.contains(k),
        old_keys.len() <= new_keys.len(),
        forall|i: int| 0 <= i < old_keys.len() ==> new_keys[i] == old_keys[i],
    ensures
        new_keys.contains(k),
        key_at(new_keys, k) == key_at(old_keys, k),
{
    let i = key_at(old_keys, k);
    assert(new_keys[i] == k);
    lemma_key_at(new_keys, i);
}

/// Registration is last-write-wins by name: afterwards the name is listed
/// exactly once, looking it up yields the capability just registered, every
/// other name keeps what it had, and names stay distinct.
pub proof fn lemma_register_in<T, R, P>(caps: Seq<Capability<T, R, P>>, c: Capability<T, R, P>)
    requires
        keys_unique(cap_names(caps)),
    ensures
        keys_unique(cap_names(register_in(caps, c))),
        cap_names(register_in(caps, c)).contains(c.spec_name()),
        forall|i: int, j: int|
            0 <= i < cap_names(register_in(caps, c)).len() && 0 <= j < cap_names(
                register_in(caps, c),
            ).len() && cap_names(register_in(caps, c))[i] == c.spec_name() && cap_names(
                register_in(caps, c),
            )[j] == c.spec_name() ==> i == j,
        lookup_in(register_in(caps, c), c.spec_name()) == Some(c),
        forall|n: Seq<char>|
            n != c.spec_name() ==> #[trigger] lookup_in(register_in(caps, c), n) == lookup_in(caps, n),
{
    let names = cap_names(caps);
    let nc = register_in(caps, c);
    let new_names = cap_names(nc);
    if names.contains(c.spec_name()) {
        let k = key_at(names, c.spec_name());
        assert(new_names =~= names);
        assert forall|n: Seq<char>| n != c.spec_name() implies #[trigger] lookup_in(nc, n)
            == lookup_in(caps, n) by {
            if names.contains(n) {
                let m = key_at(names, n);
                assert(m != k);
            }
        }
        lemma_key_at(new_names, k);
    } else {
        assert(new_names =~= names.push(c.spec_name()));
        lemma_push_unique(names, c.spec_name());
        lemma_key_at(new_names, names.len() as int);
        assert forall|n: Seq<char>| n != c.spec_name() implies #[trigger] lookup_in(nc, n)
            == lookup_in(caps, n) by {
            if names.contains(n) {
                lemma_key_at_kept(names, new_names, n);
            } else {
                assert forall|i: int| 0 <= i < new_names.len() implies new_names[i] != n by {
                    if i < names.len() {
                        assert(new_names[i] == names[i]);
                    }
                }
            }
        }
    }
}

/// Registering two capabilities under one name leaves only the second
/// observable: looking the name up yields the second.
pub proof fn lemma_last_write_wins<T, R, P>(
    caps: Seq<Capability<T, R, P>>,
    first: Capability<T, R, P>,
    second: Capability<T, R, P>,
)
    requires
        keys_unique(cap_names(caps)),
        first.spec_name() == second.spec_name(),
    ensures
        lookup_in(register_in(register_in(caps, first), second), first.spec_name()) == Some(second),
{
    lemma_register_in(caps, first);
    lemma_register_in(register_in(caps, first), second);
}

/// A registry of named capabilities and remote peers, with a resource cache.
///
/// Names are unique across all capability kinds and peer ids are unique;
/// registering under a taken name or id replaces the earlier entry in place,
/// so listing follows the order of first registration.
pub struct McpServer<T, R, P> {
    local_capabilities: Vec<Capability<T, R, P>>,
    remote_servers: Vec<RemoteMcpServer>,
    resource_cache: Vec<(String, String)>,
}

impl<T, R, P> McpServer<T, R, P> where
    T: Fn(Value) -> Result<Value, String>,
    R: Fn() -> Result<String, String>,
    P: Fn(Value) -> Result<Vec<Value>, String>,
 {
    /// The registered capabilities, in order of first registration.
    pub closed spec fn capabilities(&self) -> Seq<Capability<T, R, P>> {
        self.local_capabilities@
    }

    /// The registered peers, in order of first registration.
    pub closed spec fn peers(&self) -> Seq<RemoteMcpServer> {
        self.remote_servers@
    }

    /// The cached resource contents, one entry per resource name.
    pub closed spec fn cache(&self) -> Seq<(String, String)> {
        self.resource_cache@
    }

    pub open spec fn wf(&self) -> bool {
        &&& keys_unique(cap_names(self.capabilities()))
        &&& forall|i: int|
            0 <= i < self.capabilities().len() ==> handlers_total(#[trigger] self.capabilities()[i])
        &&& keys_unique(peer_ids(self.peers()))
        &&& keys_unique(cache_keys(self.cache()))
    }

    pub fn new() -> (r: Self)
        ensures
            r.wf(),
            r.capabilities() =~= Seq::<Capability<T, R, P>>::empty(),
            r.peers() =~= Seq::<RemoteMcpServer>::empty(),
            r.cache() =~= Seq::<(String, String)>::empty(),
    {
        McpServer {
            local_capabilities: Vec::new(),
            remote_servers: Vec::new(),
            resource_cache: Vec::new(),
        }
    }

    /// The position of the capability named `name`, if one is registered.
    fn position_of(&self, name: &str) -> (r: Option<usize>)
        ensures
            match r {
                Some(i) => i < self.capabilities().len() && self.capabilities()[i as int].spec_name()
                    == name@,
                None => !cap_names(self.capabilities()).contains(name@),
            },
    {
        let key = name.to_owned();
        let mut i: usize = 0;
        while i < self.local_capabilities.len()
            invariant
                i <= self.local_capabilities.len(),
                key@ == name@,
                forall|j: int| 0 <= j < i ==> (#[trigger] self.capabilities()[j]).spec_name() != name@,
            decreases self.local_capabilities.len() - i,
        {
            if self.local_capabilities[i].name().eq(&key) {
                return Some(i);
            }
            i = i + 1;
        }
        proof {
            let names = cap_names(self.capabilities());
            assert forall|j: int| 0 <= j < names.len() implies names[j] != name@ by {
                assert(self.capabilities()[j].spec_name() != name@);
            }
        }
        None
    }
    /// The capability registered under `name`, if any; no side effect.
    pub fn lookup(&self, name: &str) -> (r: Option<&Capability<T, R, P>>)
        requires
            self.wf(),
        ensures
            match r {
                Some(c) => lookup_in(self.capabilities(), name@) == Some(*c),
                None => lookup_in(self.capabilities(), name@) is None,
            },
    {
        match self.position_of(name) {
            Some(i) => {
                proof {
                    lemma_key_at(cap_names(self.capabilities()), i as int);
                }
                Some(&self.local_capabilities[i])
            },
            None => None,
        }
    }

    /// Registers `capability` under its name, replacing any capability of
    /// that name (whatever its kind) without error.
    pub fn register_capability(&mut self, capability: Capability<T, R, P>)
        requires
            old(self).wf(),
            handlers_total(capability),
        ensures
            final(self).wf(),
            final(self).capabilities() == register_in(old(self).capabilities(), capability),
            final(self).peers() == old(self).peers(),
            final(self).cache() == old(self).cache(),
    {
        let ghost old_caps = self.capabilities();
        let ghost cname = capability.spec_name();
        let pos = self.position_of(capability.name().as_str());
        match pos {
            Some(i) => {
                proof {
                    lemma_key_at(cap_names(old_caps), i as int);
                }
                self.local_capabilities.set(i, capability);
                assert(cap_names(self.capabilities()) =~= cap_names(old_caps));
            },
            None => {
                self.local_capabilities.push(capability);
                assert(cap_names(self.capabilities()) =~= cap_names(old_caps).push(cname));
                proof {
                    lemma_push_unique(cap_names(old_caps), cname);
                }
            },
        }
    }

    /// Registers a remote peer under its id, replacing any peer of that id.
    pub fn add_remote_server(&mut self, server: RemoteMcpServer)
        requires
            old(self).wf(),
        ensures
            final(self).wf(),
            final(self).peers() == add_peer_in(old(self).peers(), server),
            final(self).capabilities() == old(self).capabilities(),
            final(self).cache() == old(self).cache(),
    {
        let ghost old_peers = self.peers();
        let mut i: usize = 0;
        while i < self.remote_servers.len()
            invariant
                i <= self.remote_servers.len(),
                self.remote_servers@ == old_peers,
                self.local_capabilities@ == old(self).local_capabilities@,
                self.resource_cache@ == old(self).resource_cache@,
                old(self).wf(),
                old_peers == old(self).peers(),
                forall|j: int| 0 <= j < i ==> (#[trigger] old_peers[j]).id@ != server.id@,
            decreases self.remote_servers.len() - i,
        {
            if self.remote_servers[i].id.eq(&server.id) {
                proof {
                    assert(peer_ids(old_peers)[i as int] == server.id@);
                    lemma_key_at(peer_ids(old_peers), i as int);
                }
                self.remote_servers.set(i, server);
                assert(peer_ids(self.peers()) =~= peer_ids(old_peers));
                return;
            }
            i = i + 1;
        }
        proof {
            let ids = peer_ids(old_peers);
            assert forall|j: int| 0 <= j < ids.len() implies ids[j] != server.id@ by {
                assert(old_peers[j].id@ != server.id@);
            }
            lemma_push_unique(ids, server.id@);
        }
        self.remote_servers.push(server);
        assert(peer_ids(self.peers()) =~= peer_ids(old_peers).push(server.id@));
    }

    /// The names of all registered capabilities, in order of first registration.
    pub fn list_capabilities(&self) -> (r: Vec<String>)
        ensures
            r@.map_values(|s: String| s@) == cap_names(self.capabilities()),
    {
        let mut names: Vec<String> = Vec::new();
        let mut i: usize = 0;
        while i < self.local_capabilities.len()
            invariant
                i <= self.local_capabilities.len(),
                names@.map_values(|s: String| s@) =~= cap_names(self.capabilities()).take(i as int),
            decreases self.local_capabilities.len() - i,
        {
            let ghost before = names@;
            names.push(self.local_capabilities[i].name().clone());
            proof {
                let all = cap_names(self.capabilities());
                assert(all.take(i + 1) =~= all.take(i as int).push(all[i as int]));
                assert(names@ =~= before.push(names@[i as int]));
                assert(names@.map_values(|s: String| s@) =~= before.map_values(|s: String| s@).push(
                    names@[i as int]@,
                ));
            }
            i = i + 1;
        }
        assert(cap_names(self.capabilities()).take(i as int) =~= cap_names(self.capabilities()));
        names
    }

    /// Tries each peer in registration order and returns the first content
    /// obtained; a failing peer passes the request on to the next one.
    pub fn resolve_remote<F>(&self, name: &str, transport: F) -> (r: Result<String, McpError>) where
        F: Fn(&RemoteMcpServer, &str) -> Result<String, String>,

        requires
            transport_total(transport),
        ensures
            resolved_by(self.peers(), name, transport, r),
    {
        let mut i: usize = 0;
        while i < self.remote_servers.len()
            invariant
                i <= self.remote_servers.len(),
                transport_total(transport),
                forall|j: int| 0 <= j < i ==> peer_fails(transport, #[trigger] self.peers()[j], name),
            decreases self.remote_servers.len() - i,
        {
            let peer = &self.remote_servers[i];
            let outcome = transport(peer, name);
            match outcome {
                Ok(content) => {
                    assert(first_answer(self.peers(), name, transport, content));
                    return Ok(content);
                },
                Err(e) => {
                    assert(transport.ensures((&self.peers()[i as int], name), Err(e)));
                    assert(peer_fails(transport, self.peers()[i as int], name));
                },
            }
            i = i + 1;
        }
        Err(McpError::AllPeersExhausted(name.to_owned()))
    }

    /// Fetching a looked-up capability: a resource's handler is invoked and
    /// its content returned; tools and prompts cannot be fetched.
    fn handle_local_capability(&self, capability: &Capability<T, R, P>) -> (r: Result<String, McpError>)
        requires
            handlers_total(*capability),
        ensures
            match *capability {
                Capability::Resource(res) => exists|h: Result<String, String>|
                    #[trigger] res.handler.ensures((), h) && r == from_handler(h),
                _ => r matches Err(McpError::NotFetchable(n)) && n@ == capability.spec_name(),
            },
    {
        match capability {
            Capability::Tool(tool) => Err(McpError::NotFetchable(tool.name.clone())),
            Capability::Resource(resource) => {
                let h = (resource.handler)();
                lift_handler_result(h)
            },
            Capability::Prompt(prompt) => Err(McpError::NotFetchable(prompt.name.clone())),
        }
    }

    /// Fetches the content of the capability named `name`.
    ///
    /// A local resource is read by invoking its handler every time: the
    /// resource cache is deliberately not consulted nor filled here (callers
    /// that want caching use `cached_resource` and `cache_resource`). A local
    /// tool or prompt is not fetchable. A name absent locally is resolved
    /// through the peers, or is `NotFound` when there are none.
    pub fn fetch_capability<F>(&self, name: &str, transport: F) -> (r: Result<String, McpError>) where
        F: Fn(&RemoteMcpServer, &str) -> Result<String, String>,

        requires
            self.wf(),
            transport_total(transport),
        ensures
            match lookup_in(self.capabilities(), name@) {
                None => if self.peers().len() == 0 {
                    r matches Err(McpError::NotFound(n)) && n@ == name@
                } else {
                    resolved_by(self.peers(), name, transport, r)
                },
                Some(Capability::Resource(res)) => exists|h: Result<String, String>|
                    #[trigger] res.handler.ensures((), h) && r == from_handler(h),
                Some(_) => r matches Err(McpError::NotFetchable(n)) && n@ == name@,
            },
    {
        match self.position_of(name) {
            Some(i) => {
                proof {
                    lemma_key_at(cap_names(self.capabilities()), i as int);
                }
                self.handle_local_capability(&self.local_capabilities[i])
            },
            None => {
                if self.remote_servers.len() == 0 {
                    Err(McpError::NotFound(name.to_owned()))
                } else {
                    self.resolve_remote(name, transport)
                }
            },
        }
    }

    /// Executes the tool named `name` on `input`, locally only.
    pub fn execute_tool(&self, name: &str, input: Value) -> (r: Result<Value, McpError>)
        requires
            self.wf(),
        ensures
            match lookup_in(self.capabilities(), name@) {
                None => r matches Err(McpError::NotFound(n)) && n@ == name@,
                Some(Capability::Tool(t)) => exists|h: Result<Value, String>|
                    #[trigger] t.handler.ensures((input,), h) && r == from_handler(h),
                Some(_) => r matches Err(McpError::WrongVariant(n)) && n@ == name@,
            },
    {
        match self.position_of(name) {
            Some(i) => {
                proof {
                    lemma_key_at(cap_names(self.capabilities()), i as int);
                }
                match &self.local_capabilities[i] {
                    Capability::Tool(tool) => {
                        let h = (tool.handler)(input);
                        lift_handler_result(h)
                    },
                    _ => Err(McpError::WrongVariant(name.to_owned())),
                }
            },
            None => Err(McpError::NotFound(name.to_owned())),
        }
    }
    /// The cached content for the resource named `name`, if any.
    pub fn cached_resource(&self, name: &str) -> (r: Option<String>)
        requires
            self.wf(),
        ensures
            match r {
                Some(s) => cache_get_in(self.cache(), name@) == Some(s@),
                None => cache_get_in(self.cache(), name@) is None,
            },
    {
        let key = name.to_owned();
        let mut i: usize = 0;
        while i < self.resource_cache.len()
            invariant
                i <= self.resource_cache.len(),
                self.wf(),
                key@ == name@,
                forall|j: int| 0 <= j < i ==> (#[trigger] self.cache()[j]).0@ != name@,
            decreases self.resource_cache.len() - i,
        {
            if self.resource_cache[i].0.eq(&key) {
                proof {
                    assert(cache_keys(self.cache())[i as int] == name@);
                    lemma_key_at(cache_keys(self.cache()), i as int);
                }
                return Some(self.resource_cache[i].1.clone());
            }
            i = i + 1;
        }
        proof {
            let keys = cache_keys(self.cache());
            assert forall|j: int| 0 <= j < keys.len() implies keys[j] != name@ by {
                assert(self.cache()[j].0@ != name@);
            }
        }
        None
    }

    /// Stores `content` as the cached content of resource `name`, replacing
    /// any earlier entry for that name; other entries are kept.
    pub fn cache_resource(&mut self, name: String, content: String)
        requires
            old(self).wf(),
        ensures
            final(self).wf(),
            cache_get_in(final(self).cache(), name@) == Some(content@),
            forall|k: Seq<char>|
                k != name@ ==> #[trigger] cache_get_in(final(self).cache(), k) == cache_get_in(
                    old(self).cache(),
                    k,
                ),
            final(self).capabilities() == old(self).capabilities(),
            final(self).peers() == old(self).peers(),
    {
        let ghost old_entries = self.cache();
        let ghost key = name@;
        let mut i: usize = 0;
        while i < self.resource_cache.len()
            invariant
                i <= self.resource_cache.len(),
                self.resource_cache@ == old_entries,
                self.local_capabilities@ == old(self).local_capabilities@,
                self.remote_servers@ == old(self).remote_servers@,
                old(self).wf(),
                old_entries == old(self).cache(),
                key == name@,
                forall|j: int| 0 <= j < i ==> (#[trigger] old_entries[j]).0@ != name@,
            decreases self.resource_cache.len() - i,
        {
            let same = self.resource_cache[i].0.eq(&name);
            if same {
                proof {
                    assert(self.resource_cache@[i as int].0@ == name@);
                    assert(old_entries[i as int].0@ == name@);
                    assert(cache_keys(old_entries)[i as int] == key);
                    lemma_key_at(cache_keys(old_entries), i as int);
                }
                self.resource_cache.set(i, (name, content));
                proof {
                    let keys = cache_keys(old_entries);
                    assert(cache_keys(self.cache()) =~= keys);
                    assert forall|k: Seq<char>| k != key implies #[trigger] cache_get_in(
                        self.cache(),
                        k,
                    ) == cache_get_in(old_entries, k) by {
                        if keys.contains(k) {
                            assert(key_at(keys, k) != i);
                        }
                    }
                }
                return;
            }
            i = i + 1;
        }
        let ghost keys = cache_keys(old_entries);
        proof {
            assert forall|j: int| 0 <= j < keys.len() implies keys[j] != key by {
                assert(old_entries[j].0@ != key);
            }
            lemma_push_unique(keys, key);
        }
        self.resource_cache.push((name, content));
        proof {
            let new_keys = cache_keys(self.cache());
            assert(new_keys =~= keys.push(key));
            lemma_key_at(new_keys, keys.len() as int);
            assert forall|k: Seq<char>| k != key implies #[trigger] cache_get_in(self.cache(), k)
                == cache_get_in(old_entries, k) by {
                if keys.contains(k) {
                    lemma_key_at_kept(keys, new_keys, k);
                } else {
                    assert forall|j: int| 0 <= j < new_keys.len() implies new_keys[j] != k by {
                        if j < keys.len() {
                            assert(new_keys[j] == keys[j]);
                        }
                    }
                }
            }
        }
    }
}

} // verus!
