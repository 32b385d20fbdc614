//! The registry of serviced domains, hosts and routes, and the choice of an
//! upstream for a request.

use vstd::prelude::*;
use crate::http11::Request;
use crate::serv_auth::Preauthed;
use crate::serv_conn::ServiceConnection;
use crate::text::{bytes_eq_all, ends_with, starts_with, str_eq, str_len, text_bytes};

verus! {

/// Number of bytes that open a service's second connection.
pub const PREAUTH_LEN: usize = 12;

/// The four bytes `lolb` that mark a service's second connection.
pub const PREAUTH_PREFIX: [u8; 4] = [0x6c, 0x6f, 0x6c, 0x62];

/// How a service proves that it may serve a domain.
#[derive(Debug, Clone)]
pub enum ServiceAuth {
    /// A secret string shared between the balancer and the service.
    PresharedKey(String),
}

impl ServiceAuth {
    /// The secret.
    pub open spec fn secret(&self) -> Seq<char> {
        match self {
            ServiceAuth::PresharedKey(x) => x@,
        }
    }

    /// Whether `secret` is the shared secret. Every byte is compared, so
    /// that the time taken does not tell where the first difference stands.
    pub fn is_valid(&self, secret: &str) -> (r: bool)
        ensures
            r == (secret@ == self.secret()),
    {
        match self {
            ServiceAuth::PresharedKey(x) => {
                let same = bytes_eq_all(secret.as_bytes(), x.as_str().as_bytes());
                proof {
                    if same {
                        crate::text::lemma_text_bytes_injective(secret@, x@);
                    }
                }
                same
            },
        }
    }
}

/// A route under a host: a path prefix and the upstreams that serve it.
#[derive(Debug)]
pub struct ServiceRoute {
    prefix: String,
    connections: Vec<ServiceConnection>,
}

/// A TLS certificate with its private key, both in PEM.
#[derive(Debug, Clone, PartialEq, Eq)]
pub struct Certificate {
    pub private_key: String,
    pub certificate: String,
}

/// A certificate as plain values.
pub struct CertificateView {
    pub private_key: Seq<char>,
    pub certificate: Seq<char>,
}

impl View for Certificate {
    type V = CertificateView;

    open spec fn view(&self) -> CertificateView {
        CertificateView { private_key: self.private_key@, certificate: self.certificate@ }
    }
}

/// An optional certificate as plain values.
pub open spec fn cert_view(cert: Option<Certificate>) -> Option<CertificateView> {
    match cert {
        Some(c) => Some(c@),
        None => None,
    }
}

/// A host under a domain, with its certificate, if it is known, and its
/// routes.
#[derive(Debug)]
pub struct ServiceHost {
    host: String,
    cert: Option<Certificate>,
    routes: Vec<ServiceRoute>,
}

/// A serviced domain, with how services authenticate for it and its hosts.
#[derive(Debug)]
pub struct ServiceDomain {
    domain: String,
    auth: ServiceAuth,
    hosts: Vec<ServiceHost>,
}

/// All serviced domains, and the upstreams that are connected.
#[derive(Debug)]
pub struct Services {
    domains: Vec<ServiceDomain>,
    live: Vec<ServiceConnection>,
}

/// A route as plain values.
pub struct RouteView {
    pub prefix: Seq<char>,
    pub connections: Seq<ServiceConnection>,
}

/// A host as plain values.
pub struct HostView {
    pub host: Seq<char>,
    pub cert: Option<CertificateView>,
    pub routes: Seq<RouteView>,
}

/// A domain as plain values.
pub struct DomainView {
    pub domain: Seq<char>,
    pub secret: Seq<char>,
    pub hosts: Seq<HostView>,
}

/// The registry as plain values.
pub struct ServicesView {
    pub domains: Seq<DomainView>,
    pub live: Seq<ServiceConnection>,
}

impl View for ServiceRoute {
    type V = RouteView;

    closed spec fn view(&self) -> RouteView {
        RouteView { prefix: self.prefix@, connections: self.connections@ }
    }
}

impl View for ServiceHost {
    type V = HostView;

    closed spec fn view(&self) -> HostView {
        HostView {
            host: self.host@,
            cert: cert_view(self.cert),
            routes: self.routes@.map_values(|r: ServiceRoute| r@),
        }
    }
}

impl View for ServiceDomain {
    type V = DomainView;

    closed spec fn view(&self) -> DomainView {
        DomainView {
            domain: self.domain@,
            secret: self.auth.secret(),
            hosts: self.hosts@.map_values(|h: ServiceHost| h@),
        }
    }
}

impl View for Services {
    type V = ServicesView;

    closed spec fn view(&self) -> ServicesView {
        ServicesView {
            domains: self.domains@.map_values(|d: ServiceDomain| d@),
            live: self.live@,
        }
    }
}

/// Whether a domain covers a host name: the domain ends the host name.
pub open spec fn domain_covers(domain: Seq<char>, host: Seq<char>) -> bool {
    text_bytes(domain).is_suffix_of(text_bytes(host))
}

/// Whether a route's prefix begins a path.
pub open spec fn prefix_covers(prefix: Seq<char>, path: Seq<char>) -> bool {
    text_bytes(prefix).is_prefix_of(text_bytes(path))
}

/// Whether `d` is the domain chosen for `host`: it covers the host, no
/// covering domain is longer, and every covering domain after it is shorter.
pub open spec fn is_best_domain(domains: Seq<DomainView>, host: Seq<char>, d: int) -> bool {
    &&& 0 <= d < domains.len()
    &&& domain_covers(domains[d].domain, host)
    &&& forall|j: int|
        0 <= j < domains.len() && domain_covers(#[trigger] domains[j].domain, host) ==> text_bytes(
            domains[j].domain,
        ).len() <= text_bytes(domains[d].domain).len()
    &&& forall|j: int|
        d < j < domains.len() && domain_covers(#[trigger] domains[j].domain, host) ==> text_bytes(
            domains[j].domain,
        ).len() < text_bytes(domains[d].domain).len()
}

/// Whether `h` is the first host of that very name.
pub open spec fn is_first_host(hosts: Seq<HostView>, host: Seq<char>, h: int) -> bool {
    &&& 0 <= h < hosts.len()
    &&& hosts[h].host == host
    &&& forall|j: int| 0 <= j < h ==> (#[trigger] hosts[j]).host != host
}

/// Whether `k` is the route chosen for `path`: its prefix begins the path,
/// no such prefix is longer, and every such prefix after it is shorter.
pub open spec fn is_best_route(routes: Seq<RouteView>, path: Seq<char>, k: int) -> bool {
    &&& 0 <= k < routes.len()
    &&& prefix_covers(routes[k].prefix, path)
    &&& forall|j: int|
        0 <= j < routes.len() && prefix_covers(#[trigger] routes[j].prefix, path) ==> text_bytes(
            routes[j].prefix,
        ).len() <= text_bytes(routes[k].prefix).len()
    &&& forall|j: int|
        k < j < routes.len() && prefix_covers(#[trigger] routes[j].prefix, path) ==> text_bytes(
            routes[j].prefix,
        ).len() < text_bytes(routes[k].prefix).len()
}

/// Whether a request for `host` and `path` is routed to route `k` of host
/// `h` of domain `d`.
pub open spec fn is_target(s: ServicesView, host: Seq<char>, path: Seq<char>, d: int, h: int, k: int)
    -> bool {
    &&& is_best_domain(s.domains, host, d)
    &&& is_first_host(s.domains[d].hosts, host, h)
    &&& is_best_route(s.domains[d].hosts[h].routes, path, k)
}

/// The upstreams of a route that are still connected, in their order.
pub open spec fn alive(connections: Seq<ServiceConnection>, live: Seq<ServiceConnection>) -> Seq<
    ServiceConnection,
> {
    connections.filter(|c: ServiceConnection| live.contains(c))
}

/// The registry with the upstreams of one route replaced.
pub open spec fn with_connections(
    s: ServicesView,
    d: int,
    h: int,
    k: int,
    connections: Seq<ServiceConnection>,
) -> ServicesView {
    let domain = s.domains[d];
    let host = domain.hosts[h];
    let route = RouteView { connections, ..host.routes[k] };
    let host = HostView { routes: host.routes.update(k, route), ..host };
    let domain = DomainView { hosts: domain.hosts.update(h, host), ..domain };
    ServicesView { domains: s.domains.update(d, domain), ..s }
}

/// Why no upstream was found for a request.
#[derive(Debug, Clone, Copy, PartialEq, Eq, Structural)]
pub enum RouteError {
    /// No domain, host or route of the registry matches the request.
    NoRoute,
    /// The route that matches has no upstream that is still connected.
    NoUpstream,
}

/// The index of the first entry of `names` that is `name`.
pub open spec fn first_named(names: Seq<Seq<char>>, name: Seq<char>) -> Option<int>
    decreases names.len(),
{
    if names.len() == 0 {
        None
    } else {
        match first_named(names.drop_last(), name) {
            Some(i) => Some(i),
            None => if names.last() == name {
                Some(names.len() - 1)
            } else {
                None
            },
        }
    }
}

proof fn lemma_first_named(names: Seq<Seq<char>>, name: Seq<char>)
    ensures
        match first_named(names, name) {
            Some(i) => 0 <= i < names.len() && names[i] == name && forall|j: int|
                0 <= j < i ==> names[j] != name,
            None => forall|j: int| 0 <= j < names.len() ==> names[j] != name,
        },
    decreases names.len(),
{
    if names.len() > 0 {
        let rest = names.drop_last();
        lemma_first_named(rest, name);
        assert forall|j: int| 0 <= j < rest.len() implies rest[j] == names[j] by {}
        match first_named(rest, name) {
            Some(i) => {
                assert forall|j: int| 0 <= j < i implies names[j] != name by {
                    assert(rest[j] != name);
                }
            },
            None => {
                assert forall|j: int| 0 <= j < rest.len() implies names[j] != name by {
                    assert(rest[j] != name);
                }
            },
        }
    }
}

/// The names of the domains, in order.
pub open spec fn domain_names(domains: Seq<DomainView>) -> Seq<Seq<char>> {
    domains.map_values(|d: DomainView| d.domain)
}

/// The names of the hosts, in order.
pub open spec fn host_names(hosts: Seq<HostView>) -> Seq<Seq<char>> {
    hosts.map_values(|h: HostView| h.host)
}

/// The prefixes of the routes, in order.
pub open spec fn route_prefixes(routes: Seq<RouteView>) -> Seq<Seq<char>> {
    routes.map_values(|r: RouteView| r.prefix)
}

/// A host with one more upstream under `prefix`: under the first route of
/// that prefix, or under a new last route.
pub open spec fn host_with(host: HostView, prefix: Seq<char>, c: ServiceConnection) -> HostView {
    match first_named(route_prefixes(host.routes), prefix) {
        Some(k) => HostView {
            routes: host.routes.update(
                k,
                RouteView { connections: host.routes[k].connections.push(c), ..host.routes[k] },
            ),
            ..host
        },
        None => HostView {
            routes: host.routes.push(RouteView { prefix, connections: seq![c] }),
            ..host
        },
    }
}

/// A domain with one more upstream under `host` and `prefix`: under the
/// first host of that name, or under a new last host.
pub open spec fn domain_with(
    domain: DomainView,
    host: Seq<char>,
    prefix: Seq<char>,
    c: ServiceConnection,
) -> DomainView {
    match first_named(host_names(domain.hosts), host) {
        Some(h) => DomainView {
            hosts: domain.hosts.update(h, host_with(domain.hosts[h], prefix, c)),
            ..domain
        },
        None => DomainView {
            hosts: domain.hosts.push(
                host_with(HostView { host, cert: None, routes: Seq::empty() }, prefix, c),
            ),
            ..domain
        },
    }
}

/// The registry with one more upstream, which counts as connected, under
/// `host` and `prefix` in domain `d`.
pub open spec fn with_upstream(
    s: ServicesView,
    d: int,
    host: Seq<char>,
    prefix: Seq<char>,
    c: ServiceConnection,
) -> ServicesView {
    ServicesView {
        domains: s.domains.update(d, domain_with(s.domains[d], host, prefix, c)),
        live: s.live.push(c),
    }
}

/// Whether `k` is the first route of that very prefix.
pub open spec fn is_first_route(routes: Seq<RouteView>, prefix: Seq<char>, k: int) -> bool {
    &&& 0 <= k < routes.len()
    &&& routes[k].prefix == prefix
    &&& forall|j: int| 0 <= j < k ==> (#[trigger] routes[j]).prefix != prefix
}

proof fn lemma_host_with(host: HostView, prefix: Seq<char>, c: ServiceConnection) -> (k: int)
    ensures
        host_with(host, prefix, c).host == host.host,
        is_first_route(host_with(host, prefix, c).routes, prefix, k),
        host_with(host, prefix, c).routes[k].connections.len() > 0,
        host_with(host, prefix, c).routes[k].connections.last() == c,
{
    let names = route_prefixes(host.routes);
    lemma_first_named(names, prefix);
    match first_named(names, prefix) {
        Some(k) => {
            assert forall|j: int| 0 <= j < k implies (#[trigger] host_with(
                host,
                prefix,
                c,
            ).routes[j]).prefix != prefix by {
                assert(names[j] != prefix);
            }
            k
        },
        None => {
            let k = host.routes.len() as int;
            assert forall|j: int| 0 <= j < k implies (#[trigger] host_with(
                host,
                prefix,
                c,
            ).routes[j]).prefix != prefix by {
                assert(names[j] != prefix);
            }
            k
        },
    }
}

proof fn lemma_domain_with(domain: DomainView, host: Seq<char>, prefix: Seq<char>, c: ServiceConnection)
    -> (at: (int, int))
    ensures
        domain_with(domain, host, prefix, c).domain == domain.domain,
        is_first_host(domain_with(domain, host, prefix, c).hosts, host, at.0),
        is_first_route(domain_with(domain, host, prefix, c).hosts[at.0].routes, prefix, at.1),
        domain_with(domain, host, prefix, c).hosts[at.0].routes[at.1].connections.len() > 0,
        domain_with(domain, host, prefix, c).hosts[at.0].routes[at.1].connections.last() == c,
{
    let names = host_names(domain.hosts);
    lemma_first_named(names, host);
    let after = domain_with(domain, host, prefix, c);
    match first_named(names, host) {
        Some(h) => {
            let k = lemma_host_with(domain.hosts[h], prefix, c);
            assert(names[h] == host);
            assert forall|j: int| 0 <= j < h implies (#[trigger] after.hosts[j]).host != host by {
                assert(names[j] != host);
            }
            (h, k)
        },
        None => {
            let h = domain.hosts.len() as int;
            let k = lemma_host_with(HostView { host, cert: None, routes: Seq::empty() }, prefix, c);
            assert forall|j: int| 0 <= j < h implies (#[trigger] after.hosts[j]).host != host by {
                assert(names[j] != host);
            }
            (h, k)
        },
    }
}

impl ServiceRoute {
    pub fn new(prefix: &str) -> (r: ServiceRoute)
        ensures
            r@ == (RouteView { prefix: prefix@, connections: Seq::empty() }),
    {
        ServiceRoute { prefix: prefix.to_owned(), connections: Vec::new() }
    }

    pub fn prefix(&self) -> (r: &str)
        ensures
            r@ == self@.prefix,
    {
        self.prefix.as_str()
    }

    pub fn add_connection(&mut self, c: ServiceConnection)
        ensures
            final(self)@ == (RouteView {
                connections: old(self)@.connections.push(c),
                ..old(self)@
            }),
    {
        self.connections.push(c);
    }

    /// Drops the upstreams that are not among `live`.
    fn prune(&mut self, live: &Vec<ServiceConnection>)
        ensures
            final(self)@ == (RouteView {
                connections: alive(old(self)@.connections, live@),
                ..old(self)@
            }),
    {
        let mut kept: Vec<ServiceConnection> = Vec::new();
        let ghost pred = |c: ServiceConnection| live@.contains(c);
        let mut i: usize = 0;
        while i < self.connections.len()
            invariant
                i <= self.connections@.len(),
                *self == *old(self),
                pred == |c: ServiceConnection| live@.contains(c),
                kept@ == self.connections@.take(i as int).filter(pred),
            decreases self.connections@.len() - i,
        {
            let c = self.connections[i];
            proof {
                let next = self.connections@.take(i + 1);
                assert(next.drop_last() =~= self.connections@.take(i as int));
                assert(next.last() == c);
                reveal(Seq::filter);
            }
            if is_live(live, c) {
                kept.push(c);
            }
            i = i + 1;
        }
        assert(self.connections@.take(i as int) =~= self.connections@);
        self.connections = kept;
    }
}

/// Whether `c` is among the connected upstreams.
fn is_live(live: &Vec<ServiceConnection>, c: ServiceConnection) -> (r: bool)
    ensures
        r == live@.contains(c),
{
    let mut i: usize = 0;
    while i < live.len()
        invariant
            i <= live@.len(),
            forall|k: int| 0 <= k < i ==> live@[k] != c,
        decreases live@.len() - i,
    {
        if live[i] == c {
            return true;
        }
        i = i + 1;
    }
    false
}

impl ServiceHost {
    pub fn new(host: &str) -> (r: ServiceHost)
        ensures
            r@ == (HostView { host: host@, cert: None, routes: Seq::empty() }),
    {
        let r = ServiceHost { host: host.to_owned(), cert: None, routes: Vec::new() };
        assert(r@.routes =~= Seq::empty());
        r
    }

    pub fn host(&self) -> (r: &str)
        ensures
            r@ == self@.host,
    {
        self.host.as_str()
    }

    /// The certificate of the host, if it is known.
    pub fn cert(&self) -> (r: Option<&Certificate>)
        ensures
            match r {
                Some(c) => self@.cert == Some(c@),
                None => self@.cert is None,
            },
    {
        self.cert.as_ref()
    }

    /// Gives the host its certificate, in place of the one it had.
    pub fn set_cert(&mut self, cert: Certificate)
        ensures
            final(self)@ == (HostView { cert: Some(cert@), ..old(self)@ }),
    {
        self.cert = Some(cert);
    }

    /// The first route of that very prefix, if any.
    fn route_named(&self, p: &Preauthed) -> (r: Option<usize>)
        ensures
            match r {
                Some(k) => k < self.routes@.len() && first_named(
                    route_prefixes(self@.routes),
                    p@.prefix,
                ) == Some(k as int),
                None => first_named(route_prefixes(self@.routes), p@.prefix) is None,
            },
    {
        let ghost names = route_prefixes(self@.routes);
        let mut idx: usize = 0;
        while idx < self.routes.len()
            invariant
                idx <= self.routes@.len(),
                names == route_prefixes(self@.routes),
                forall|j: int| 0 <= j < idx ==> names[j] != p@.prefix,
            decreases self.routes@.len() - idx,
        {
            assert(names[idx as int] == self.routes@[idx as int]@.prefix);
            if p.is_same_prefix(&self.routes[idx]) {
                proof {
                    lemma_first_named(names, p@.prefix);
                }
                return Some(idx);
            }
            idx = idx + 1;
        }
        proof {
            lemma_first_named(names, p@.prefix);
        }
        None
    }

    /// Adds an upstream under the record's prefix: to the first route of
    /// that prefix, or to a new route behind the others.
    pub fn add_preauthed(&mut self, p: &Preauthed, c: ServiceConnection)
        ensures
            final(self)@ == host_with(old(self)@, p@.prefix, c),
    {
        match self.route_named(p) {
            Some(idx) => {
                self.routes[idx].add_connection(c);
                assert(self@.routes =~= host_with(old(self)@, p@.prefix, c).routes);
            },
            None => {
                let idx = self.routes.len();
                self.routes.push(ServiceRoute::new(p.prefix()));
                self.routes[idx].add_connection(c);
                assert(self@.routes =~= host_with(old(self)@, p@.prefix, c).routes);
            },
        }
    }

    /// The route chosen for `path`, if any.
    fn find_route(&self, path: &str) -> (r: Option<usize>)
        ensures
            match r {
                Some(k) => is_best_route(self@.routes, path@, k as int),
                None => forall|j: int|
                    0 <= j < self@.routes.len() ==> !prefix_covers(
                        #[trigger] self@.routes[j].prefix,
                        path@,
                    ),
            },
    {
        let mut best: Option<usize> = None;
        let mut best_len: usize = 0;
        let mut i: usize = 0;
        while i < self.routes.len()
            invariant
                i <= self.routes@.len(),
                self@.routes.len() == self.routes@.len(),
                match best {
                    Some(k) => {
                        &&& k < i
                        &&& best_len == text_bytes(self@.routes[k as int].prefix).len()
                        &&& prefix_covers(self@.routes[k as int].prefix, path@)
                        &&& forall|j: int|
                            0 <= j < i && prefix_covers(#[trigger] self@.routes[j].prefix, path@)
                                ==> text_bytes(self@.routes[j].prefix).len() <= best_len
                        &&& forall|j: int|
                            k < j < i && prefix_covers(#[trigger] self@.routes[j].prefix, path@)
                                ==> text_bytes(self@.routes[j].prefix).len() < best_len
                    },
                    None => forall|j: int|
                        0 <= j < i ==> !prefix_covers(#[trigger] self@.routes[j].prefix, path@),
                },
            decreases self.routes@.len() - i,
        {
            let route = &self.routes[i];
            assert(self@.routes[i as int] == route@);
            if starts_with(path.as_bytes(), route.prefix.as_str().as_bytes()) {
                let len = str_len(route.prefix.as_str());
                if best.is_none() || len >= best_len {
                    best = Some(i);
                    best_len = len;
                }
            }
            i = i + 1;
        }
        best
    }
}

impl ServiceDomain {
    /// A domain without hosts.
    pub fn new(domain: &str, auth: ServiceAuth) -> (r: ServiceDomain)
        ensures
            r@ == (DomainView { domain: domain@, secret: auth.secret(), hosts: Seq::empty() }),
    {
        let r = ServiceDomain { domain: domain.to_owned(), auth, hosts: Vec::new() };
        assert(r@.hosts =~= Seq::empty());
        r
    }

    pub fn domain(&self) -> (r: &str)
        ensures
            r@ == self@.domain,
    {
        self.domain.as_str()
    }

    /// The first host of the record's host name, if any.
    fn host_named(&self, p: &Preauthed) -> (r: Option<usize>)
        ensures
            match r {
                Some(h) => h < self.hosts@.len() && first_named(host_names(self@.hosts), p@.host)
                    == Some(h as int),
                None => first_named(host_names(self@.hosts), p@.host) is None,
            },
    {
        let ghost names = host_names(self@.hosts);
        let mut idx: usize = 0;
        while idx < self.hosts.len()
            invariant
                idx <= self.hosts@.len(),
                names == host_names(self@.hosts),
                forall|j: int| 0 <= j < idx ==> names[j] != p@.host,
            decreases self.hosts@.len() - idx,
        {
            assert(names[idx as int] == self.hosts@[idx as int]@.host);
            if p.is_same_host(&self.hosts[idx]) {
                proof {
                    lemma_first_named(names, p@.host);
                }
                return Some(idx);
            }
            idx = idx + 1;
        }
        proof {
            lemma_first_named(names, p@.host);
        }
        None
    }

    /// Adds an upstream under the record's host and prefix: to the first
    /// host of that name, or to a new host behind the others.
    pub fn add_preauthed(&mut self, p: &Preauthed, c: ServiceConnection)
        ensures
            final(self)@ == domain_with(old(self)@, p@.host, p@.prefix, c),
    {
        match self.host_named(p) {
            Some(idx) => {
                self.hosts[idx].add_preauthed(p, c);
                assert(self@.hosts =~= domain_with(old(self)@, p@.host, p@.prefix, c).hosts);
            },
            None => {
                let idx = self.hosts.len();
                self.hosts.push(ServiceHost::new(p.host()));
                self.hosts[idx].add_preauthed(p, c);
                assert(self@.hosts =~= domain_with(old(self)@, p@.host, p@.prefix, c).hosts);
            },
        }
    }

    /// The first host of that very name, if any.
    fn find_host(&self, host: &str) -> (r: Option<usize>)
        ensures
            match r {
                Some(h) => is_first_host(self@.hosts, host@, h as int),
                None => forall|j: int|
                    0 <= j < self@.hosts.len() ==> (#[trigger] self@.hosts[j]).host != host@,
            },
    {
        let mut i: usize = 0;
        while i < self.hosts.len()
            invariant
                i <= self.hosts@.len(),
                self@.hosts.len() == self.hosts@.len(),
                forall|j: int| 0 <= j < i ==> (#[trigger] self@.hosts[j]).host != host@,
            decreases self.hosts@.len() - i,
        {
            assert(self@.hosts[i as int] == self.hosts@[i as int]@);
            if str_eq(self.hosts[i].host.as_str(), host) {
                return Some(i);
            }
            i = i + 1;
        }
        None
    }
}

impl Services {
    /// A registry without domains or upstreams.
    pub fn new() -> (r: Services)
        ensures
            r@.domains == Seq::<DomainView>::empty(),
            r@.live == Seq::<ServiceConnection>::empty(),
    {
        let r = Services { domains: Vec::new(), live: Vec::new() };
        assert(r@.domains =~= Seq::empty());
        r
    }

    /// Adds a domain to serve, behind those that are there.
    pub fn add_domain(&mut self, domain: ServiceDomain)
        ensures
            final(self)@ == (ServicesView {
                domains: old(self)@.domains.push(domain@),
                ..old(self)@
            }),
    {
        self.domains.push(domain);
        assert(self@.domains =~= old(self)@.domains.push(domain@));
    }

    /// The first domain of the record's domain name, if any.
    fn domain_named(&self, p: &Preauthed) -> (r: Option<usize>)
        ensures
            match r {
                Some(d) => d < self.domains@.len() && first_named(
                    domain_names(self@.domains),
                    p@.domain,
                ) == Some(d as int),
                None => first_named(domain_names(self@.domains), p@.domain) is None,
            },
    {
        let ghost names = domain_names(self@.domains);
        let mut idx: usize = 0;
        while idx < self.domains.len()
            invariant
                idx <= self.domains@.len(),
                names == domain_names(self@.domains),
                forall|j: int| 0 <= j < idx ==> names[j] != p@.domain,
            decreases self.domains@.len() - idx,
        {
            assert(names[idx as int] == self.domains@[idx as int]@.domain);
            if p.is_same_domain(&self.domains[idx]) {
                proof {
                    lemma_first_named(names, p@.domain);
                }
                return Some(idx);
            }
            idx = idx + 1;
        }
        proof {
            lemma_first_named(names, p@.domain);
        }
        None
    }

    /// Whether `secret` is the secret of the record's domain: of the first
    /// domain of that name. `false` where there is no such domain.
    pub fn is_valid_secret(&self, p: &Preauthed, secret: &str) -> (r: bool)
        ensures
            r == match first_named(domain_names(self@.domains), p@.domain) {
                Some(d) => secret@ == self@.domains[d].secret,
                None => false,
            },
    {
        match self.domain_named(p) {
            Some(d) => {
                assert(self@.domains[d as int] == self.domains@[d as int]@);
                self.domains[d].auth.is_valid(secret)
            },
            None => false,
        }
    }

    /// Whether some domain has the record's name.
    pub fn has_domain(&self, p: &Preauthed) -> (r: bool)
        ensures
            r == first_named(domain_names(self@.domains), p@.domain) is Some,
    {
        self.domain_named(p).is_some()
    }

    /// Registers an upstream that a service has opened: it counts as
    /// connected from now on, and is added under the record's host and prefix
    /// in the first domain of the record's name. The domain must be there.
    pub fn add_preauthed(&mut self, p: Preauthed, c: ServiceConnection)
        requires
            first_named(domain_names(old(self)@.domains), p@.domain) is Some,
        ensures
            ({
                let d = first_named(domain_names(old(self)@.domains), p@.domain)->Some_0;
                final(self)@ == with_upstream(old(self)@, d, p@.host, p@.prefix, c)
            }),
    {
        let found = self.domain_named(&p);
        let i = found.unwrap();
        let ghost d = i as int;
        assert(old(self)@.domains[d] == old(self).domains@[d]@);
        self.domains[i].add_preauthed(&p, c);
        self.live.push(c);
        assert(self@.domains =~= old(self)@.domains.update(
            d,
            domain_with(old(self)@.domains[d], p@.host, p@.prefix, c),
        ));
    }

    /// Notes that an upstream has gone: no request is routed to it from now
    /// on. Routes that still name it drop it when they are next chosen.
    pub fn disconnect(&mut self, c: ServiceConnection)
        ensures
            final(self)@ == (ServicesView {
                live: old(self)@.live.filter(|x: ServiceConnection| x != c),
                ..old(self)@
            }),
    {
        let mut kept: Vec<ServiceConnection> = Vec::new();
        let ghost pred = |x: ServiceConnection| x != c;
        let mut i: usize = 0;
        while i < self.live.len()
            invariant
                i <= self.live@.len(),
                *self == *old(self),
                pred == |x: ServiceConnection| x != c,
                kept@ == self.live@.take(i as int).filter(pred),
            decreases self.live@.len() - i,
        {
            let x = self.live[i];
            proof {
                let next = self.live@.take(i + 1);
                assert(next.drop_last() =~= self.live@.take(i as int));
                assert(next.last() == x);
                reveal(Seq::filter);
            }
            if x != c {
                kept.push(x);
            }
            i = i + 1;
        }
        assert(self.live@.take(i as int) =~= self.live@);
        self.live = kept;
        assert(self@.domains =~= old(self)@.domains);
    }

    /// The domain chosen for `host`, if any.
    fn find_domain(&self, host: &str) -> (r: Option<usize>)
        ensures
            match r {
                Some(d) => is_best_domain(self@.domains, host@, d as int),
                None => forall|j: int|
                    0 <= j < self@.domains.len() ==> !domain_covers(
                        #[trigger] self@.domains[j].domain,
                        host@,
                    ),
            },
    {
        let mut best: Option<usize> = None;
        let mut best_len: usize = 0;
        let mut i: usize = 0;
        while i < self.domains.len()
            invariant
                i <= self.domains@.len(),
                self@.domains.len() == self.domains@.len(),
                match best {
                    Some(k) => {
                        &&& k < i
                        &&& best_len == text_bytes(self@.domains[k as int].domain).len()
                        &&& domain_covers(self@.domains[k as int].domain, host@)
                        &&& forall|j: int|
                            0 <= j < i && domain_covers(#[trigger] self@.domains[j].domain, host@)
                                ==> text_bytes(self@.domains[j].domain).len() <= best_len
                        &&& forall|j: int|
                            k < j < i && domain_covers(#[trigger] self@.domains[j].domain, host@)
                                ==> text_bytes(self@.domains[j].domain).len() < best_len
                    },
                    None => forall|j: int|
                        0 <= j < i ==> !domain_covers(#[trigger] self@.domains[j].domain, host@),
                },
            decreases self.domains@.len() - i,
        {
            let domain = &self.domains[i];
            assert(self@.domains[i as int] == domain@);
            if ends_with(host.as_bytes(), domain.domain.as_str().as_bytes()) {
                let len = str_len(domain.domain.as_str());
                if best.is_none() || len >= best_len {
                    best = Some(i);
                    best_len = len;
                }
            }
            i = i + 1;
        }
        best
    }

    /// Chooses the upstream for a request to `host` and `path`.
    ///
    /// The domain is the longest that ends the host name; within it the host
    /// of that very name; within that the route with the longest prefix that
    /// begins the path. Where one of the three is missing there is no route.
    /// The upstreams of the chosen route that are no longer connected are
    /// dropped from it, and the first that remains is the answer.
    pub fn route_to(&mut self, host: &str, path: &str) -> (r: Result<ServiceConnection, RouteError>)
        ensures
            (forall|d: int, h: int, k: int| !is_target(old(self)@, host@, path@, d, h, k)) ==> r
                == Err::<ServiceConnection, RouteError>(RouteError::NoRoute) && final(self)@ == old(
                self,
            )@,
            forall|d: int, h: int, k: int|
                is_target(old(self)@, host@, path@, d, h, k) ==> {
                    let left = alive(
                        old(self)@.domains[d].hosts[h].routes[k].connections,
                        old(self)@.live,
                    );
                    &&& final(self)@ == with_connections(old(self)@, d, h, k, left)
                    &&& r == if left.len() == 0 {
                        Err::<ServiceConnection, RouteError>(RouteError::NoUpstream)
                    } else {
                        Ok::<ServiceConnection, RouteError>(left[0])
                    }
                },
            r matches Ok(c) ==> old(self)@.live.contains(c),
    {
        let d = match self.find_domain(host) {
            Some(d) => d,
            None => {
                return Err(RouteError::NoRoute);
            },
        };
        assert(self@.domains[d as int] == self.domains@[d as int]@);
        let h = match self.domains[d].find_host(host) {
            Some(h) => h,
            None => {
                return Err(RouteError::NoRoute);
            },
        };
        assert(self@.domains[d as int].hosts[h as int] == self.domains@[d as int].hosts@[h as int]@);
        let k = match self.domains[d].hosts[h].find_route(path) {
            Some(k) => k,
            None => {
                return Err(RouteError::NoRoute);
            },
        };
        assert(is_target(old(self)@, host@, path@, d as int, h as int, k as int));
        let ghost left = alive(
            old(self)@.domains[d as int].hosts[h as int].routes[k as int].connections,
            old(self)@.live,
        );
        self.domains[d].hosts[h].routes[k].prune(&self.live);
        proof {
            let want = with_connections(old(self)@, d as int, h as int, k as int, left);
            assert(self@.domains[d as int].hosts[h as int].routes =~= want.domains[d as int].hosts[h as int].routes);
            assert(self@.domains[d as int].hosts =~= want.domains[d as int].hosts);
            assert(self@.domains =~= want.domains);
            assert(self@ == want);
        }
        let route = &self.domains[d].hosts[h].routes[k];
        if route.connections.len() == 0 {
            Err(RouteError::NoUpstream)
        } else {
            let c = route.connections[0];
            proof {
                let all = old(self)@.domains[d as int].hosts[h as int].routes[k as int].connections;
                let pred = |c: ServiceConnection| old(self)@.live.contains(c);
                all.lemma_filter_contains_rev(pred, c);
            }
            Ok(c)
        }
    }

    /// Chooses the upstream for a request: for its host and its path.
    pub fn route(&mut self, req: &Request) -> (r: Result<ServiceConnection, RouteError>)
        ensures
            (forall|d: int, h: int, k: int|
                !is_target(old(self)@, req@.target.host, req@.target.path, d, h, k)) ==> r == Err::<
                ServiceConnection,
                RouteError,
            >(RouteError::NoRoute) && final(self)@ == old(self)@,
            forall|d: int, h: int, k: int|
                is_target(old(self)@, req@.target.host, req@.target.path, d, h, k) ==> {
                    let left = alive(
                        old(self)@.domains[d].hosts[h].routes[k].connections,
                        old(self)@.live,
                    );
                    &&& final(self)@ == with_connections(old(self)@, d, h, k, left)
                    &&& r == if left.len() == 0 {
                        Err::<ServiceConnection, RouteError>(RouteError::NoUpstream)
                    } else {
                        Ok::<ServiceConnection, RouteError>(left[0])
                    }
                },
            r matches Ok(c) ==> old(self)@.live.contains(c),
    {
        self.route_to(req.host(), req.path())
    }

    /// The route chosen for a path has the longest prefix among the routes
    /// of its host whose prefix begins the path.
    pub proof fn law_longest_prefix(
        s: ServicesView,
        host: Seq<char>,
        path: Seq<char>,
        d: int,
        h: int,
        k: int,
        other: int,
    )
        requires
            is_target(s, host, path, d, h, k),
            0 <= other < s.domains[d].hosts[h].routes.len(),
            prefix_covers(s.domains[d].hosts[h].routes[other].prefix, path),
        ensures
            s.domains[d].hosts[h].host == host,
            text_bytes(s.domains[d].hosts[h].routes[other].prefix).len() <= text_bytes(
                s.domains[d].hosts[h].routes[k].prefix,
            ).len(),
    {
    }

    /// An upstream that was registered is found again. It counts as
    /// connected. It stands last in the first route of its prefix, under the
    /// first host of its name, in its domain. So that route has a connected
    /// upstream to pass a request to, and every upstream that a request for
    /// this host is passed to by that route is a connected one.
    pub proof fn law_registered_is_found(
        s: ServicesView,
        d: int,
        host: Seq<char>,
        prefix: Seq<char>,
        c: ServiceConnection,
    ) -> (at: (int, int))
        requires
            0 <= d < s.domains.len(),
        ensures
            ({
                let after = with_upstream(s, d, host, prefix, c);
                let route = after.domains[d].hosts[at.0].routes[at.1];
                &&& after.live.contains(c)
                &&& after.domains.len() == s.domains.len()
                &&& after.domains[d].domain == s.domains[d].domain
                &&& is_first_host(after.domains[d].hosts, host, at.0)
                &&& is_first_route(after.domains[d].hosts[at.0].routes, prefix, at.1)
                &&& route.connections.len() > 0
                &&& route.connections.last() == c
                &&& alive(route.connections, after.live).contains(c)
            }),
    {
        let after = with_upstream(s, d, host, prefix, c);
        let at = lemma_domain_with(s.domains[d], host, prefix, c);
        let route = after.domains[d].hosts[at.0].routes[at.1];
        assert(after.live.last() == c);
        let connected = |x: ServiceConnection| after.live.contains(x);
        route.connections.lemma_filter_contains(connected, route.connections.len() - 1);
        at
    }

    /// A request is routed to one route at most.
    pub proof fn law_one_target(
        s: ServicesView,
        host: Seq<char>,
        path: Seq<char>,
        a: (int, int, int),
        b: (int, int, int),
    )
        requires
            is_target(s, host, path, a.0, a.1, a.2),
            is_target(s, host, path, b.0, b.1, b.2),
        ensures
            a == b,
    {
    }
}

} // verus!
