use lolb::persist::{accept_preauthed, load_preauthed, save_preauthed, MemoryPersist, Persist, PersistKey};
use lolb::serv_auth::{Preauthed, ReconnectKey};
use lolb::serv_conn::ServiceConnection;
use lolb::service::{RouteError, ServiceAuth, ServiceDomain, ServiceHost, ServiceRoute, Services};
use lolb::text::{bytes_eq, bytes_eq_all, ends_with, eq_ignore_case, parse_decimal, starts_with, str_eq};
use lolb::util::current_time_millis;
use lolb::error::LolbError;

fn preauthed(domain: &str, host: &str, prefix: &str) -> Preauthed {
    Preauthed::new(1_000, domain.to_string(), host.to_string(), prefix.to_string())
}

fn registry() -> Services {
    let mut services = Services::new();
    services.add_domain(ServiceDomain::new(
        "example.com",
        ServiceAuth::PresharedKey("secret".to_string()),
    ));
    services
}

#[test]
fn text_helpers() {
    assert!(bytes_eq(b"abc", b"abc"));
    assert!(!bytes_eq(b"abc", b"abd"));
    assert!(!bytes_eq(b"abc", b"ab"));
    assert!(bytes_eq_all(b"", b""));
    assert!(bytes_eq_all(b"secret", b"secret"));
    assert!(!bytes_eq_all(b"secret", b"secreT"));
    assert!(!bytes_eq_all(b"secret", b"secrets"));
    assert!(!bytes_eq_all(b"secrets", b"secret"));
    assert!(starts_with(b"/api/v1/users", b"/api/v1"));
    assert!(starts_with(b"/api", b""));
    assert!(!starts_with(b"/ap", b"/api"));
    assert!(ends_with(b"svc.example.com", b"example.com"));
    assert!(!ends_with(b"svc.example.org", b"example.com"));
    assert!(!ends_with(b"com", b"example.com"));
    assert!(eq_ignore_case(b"Content-Length", b"content-length"));
    assert!(eq_ignore_case(b"HOST", b"host"));
    assert!(!eq_ignore_case(b"hos", b"host"));
    assert!(!eq_ignore_case(b"[ost", b"{ost"));
    assert!(str_eq("a", "a"));
    assert!(!str_eq("a", "b"));
}

#[test]
fn decimal_numbers() {
    assert_eq!(parse_decimal(b"0"), Some(0));
    assert_eq!(parse_decimal(b"5"), Some(5));
    assert_eq!(parse_decimal(b"0012"), Some(12));
    assert_eq!(parse_decimal(b"18446744073709551615"), Some(usize::MAX));
    assert_eq!(parse_decimal(b"18446744073709551616"), None);
    assert_eq!(parse_decimal(b"99999999999999999999999"), None);
    assert_eq!(parse_decimal(b""), None);
    assert_eq!(parse_decimal(b"+5"), None);
    assert_eq!(parse_decimal(b"5 "), None);
    assert_eq!(parse_decimal(b"1a"), None);
}

#[test]
fn longest_prefix_routing() {
    let mut services = registry();
    services.add_preauthed(preauthed("example.com", "svc.example.com", "/"), ServiceConnection(1));
    services.add_preauthed(preauthed("example.com", "svc.example.com", "/api/v1"), ServiceConnection(2));
    assert_eq!(services.route_to("svc.example.com", "/api/v1/users"), Ok(ServiceConnection(2)));
    assert_eq!(services.route_to("svc.example.com", "/health"), Ok(ServiceConnection(1)));
    assert_eq!(services.route_to("svc.example.com", "/api/v1"), Ok(ServiceConnection(2)));
    assert_eq!(services.route_to("svc.example.com", "/api/v"), Ok(ServiceConnection(1)));
}

#[test]
fn the_chosen_prefix_is_the_longest_whatever_the_order() {
    let mut services = registry();
    services.add_preauthed(preauthed("example.com", "h.example.com", "/a/b/c"), ServiceConnection(3));
    services.add_preauthed(preauthed("example.com", "h.example.com", "/a"), ServiceConnection(1));
    services.add_preauthed(preauthed("example.com", "h.example.com", "/a/b"), ServiceConnection(2));
    assert_eq!(services.route_to("h.example.com", "/a/b/c/d"), Ok(ServiceConnection(3)));
    assert_eq!(services.route_to("h.example.com", "/a/b/x"), Ok(ServiceConnection(2)));
    assert_eq!(services.route_to("h.example.com", "/a/x"), Ok(ServiceConnection(1)));
    assert_eq!(services.route_to("h.example.com", "/x"), Err(RouteError::NoRoute));
}

#[test]
fn the_host_must_match_exactly_and_the_domain_must_end_it() {
    let mut services = registry();
    services.add_preauthed(preauthed("example.com", "svc.example.com", "/"), ServiceConnection(1));
    assert_eq!(services.route_to("other.example.com", "/"), Err(RouteError::NoRoute));
    assert_eq!(services.route_to("svc.example.org", "/"), Err(RouteError::NoRoute));
    assert_eq!(services.route_to("a.svc.example.com", "/"), Err(RouteError::NoRoute));
    assert_eq!(services.route_to("", "/"), Err(RouteError::NoRoute));
}

#[test]
fn the_longest_domain_wins() {
    let mut services = Services::new();
    services.add_domain(ServiceDomain::new("c.com", ServiceAuth::PresharedKey("1".to_string())));
    services.add_domain(ServiceDomain::new("b.c.com", ServiceAuth::PresharedKey("2".to_string())));
    services.add_preauthed(preauthed("c.com", "a.b.c.com", "/"), ServiceConnection(1));
    // the host is only known under the shorter domain, but the longer one is chosen
    assert_eq!(services.route_to("a.b.c.com", "/"), Err(RouteError::NoRoute));
    services.add_preauthed(preauthed("b.c.com", "a.b.c.com", "/"), ServiceConnection(2));
    assert_eq!(services.route_to("a.b.c.com", "/"), Ok(ServiceConnection(2)));
    assert_eq!(services.route_to("x.c.com", "/"), Err(RouteError::NoRoute));
}

#[test]
fn dead_upstreams_are_never_returned() {
    let mut services = registry();
    services.add_preauthed(preauthed("example.com", "svc.example.com", "/"), ServiceConnection(1));
    services.add_preauthed(preauthed("example.com", "svc.example.com", "/"), ServiceConnection(2));
    assert_eq!(services.route_to("svc.example.com", "/x"), Ok(ServiceConnection(1)));
    services.disconnect(ServiceConnection(1));
    assert_eq!(services.route_to("svc.example.com", "/x"), Ok(ServiceConnection(2)));
    services.disconnect(ServiceConnection(2));
    assert_eq!(services.route_to("svc.example.com", "/x"), Err(RouteError::NoUpstream));
    services.add_preauthed(preauthed("example.com", "svc.example.com", "/"), ServiceConnection(3));
    assert_eq!(services.route_to("svc.example.com", "/x"), Ok(ServiceConnection(3)));
}

#[test]
fn secrets_are_checked_against_the_domain_of_the_record() {
    let services = registry();
    let p = preauthed("example.com", "svc.example.com", "/");
    assert!(services.is_valid_secret(&p, "secret"));
    assert!(!services.is_valid_secret(&p, "secre"));
    assert!(!services.is_valid_secret(&p, "secret!"));
    assert!(!services.is_valid_secret(&p, ""));
    let stranger = preauthed("example.org", "svc.example.org", "/");
    assert!(!services.is_valid_secret(&stranger, "secret"));
    assert!(services.has_domain(&p));
    assert!(!services.has_domain(&stranger));
    assert!(ServiceAuth::PresharedKey("k".to_string()).is_valid("k"));
}

#[test]
fn parts_of_the_registry() {
    let mut route = ServiceRoute::new("/x");
    assert_eq!(route.prefix(), "/x");
    route.add_connection(ServiceConnection(4));
    let host = ServiceHost::new("h.example.com");
    assert_eq!(host.host(), "h.example.com");
    let domain = ServiceDomain::new("example.com", ServiceAuth::PresharedKey("s".to_string()));
    assert_eq!(domain.domain(), "example.com");
    let p = preauthed("example.com", "h.example.com", "/x");
    assert!(p.is_same_domain(&domain) && p.is_same_host(&host) && p.is_same_prefix(&route));
    assert_eq!((p.domain(), p.host(), p.prefix(), p.created()), ("example.com", "h.example.com", "/x", 1_000));
}

#[test]
fn a_record_is_valid_for_ten_seconds() {
    let p = preauthed("example.com", "svc.example.com", "/");
    assert!(p.is_valid_at(1_000));
    assert!(p.is_valid_at(2_000));
    assert!(p.is_valid_at(10_999));
    assert!(!p.is_valid_at(11_000));
    assert!(!p.is_valid_at(11_001));
    assert!(!p.is_valid_at(u64::MAX));
    assert!(!p.is_valid_at(999));
    assert!(!p.is_valid());
}

#[test]
fn the_clock_runs() {
    let now = current_time_millis();
    // later than 2020-01-01
    assert!(now > 1_577_836_800_000);
    let fresh = Preauthed::new(now, "d".to_string(), "h".to_string(), "/".to_string());
    assert!(fresh.is_valid());
}

#[test]
fn an_expired_record_is_rejected_even_if_stored() {
    let mut store = MemoryPersist::new();
    let key = ReconnectKey(42);
    save_preauthed(&mut store, key, b"record").unwrap();
    let bytes = load_preauthed(&mut store, key).unwrap();
    assert_eq!(bytes, Some(b"record".to_vec()));
    let record = preauthed("example.com", "svc.example.com", "/");
    assert!(matches!(accept_preauthed(Some(record), 11_000), Err(LolbError::Protocol(_))));
    let record = preauthed("example.com", "svc.example.com", "/");
    assert!(accept_preauthed(Some(record), 10_999).is_ok());
    assert!(matches!(accept_preauthed(None, 0), Err(LolbError::Protocol(_))));
}

#[test]
fn a_key_redeems_at_most_once() {
    let mut store = MemoryPersist::new();
    let key = ReconnectKey(0x0102_0304_0506_0708);
    save_preauthed(&mut store, key, b"{}").unwrap();
    save_preauthed(&mut store, ReconnectKey(9), b"other").unwrap();
    assert_eq!(load_preauthed(&mut store, key).unwrap(), Some(b"{}".to_vec()));
    assert_eq!(load_preauthed(&mut store, key).unwrap(), None);
    assert_eq!(store.load(&PersistKey::ReconnectKey(key.0)).unwrap(), None);
    assert_eq!(store.load(&PersistKey::ReconnectKey(9)).unwrap(), Some(b"other".to_vec()));
}

#[test]
fn the_store_keeps_the_last_value_of_a_key() {
    let mut store = MemoryPersist::new();
    let cert = PersistKey::Acme("cert".to_string());
    assert_eq!(store.load(&cert).unwrap(), None);
    store.save(&cert, b"one").unwrap();
    store.save(&PersistKey::ReconnectKey(1), b"x").unwrap();
    store.save(&cert, b"two").unwrap();
    assert_eq!(store.load(&cert).unwrap(), Some(b"two".to_vec()));
    assert_eq!(store.take(&cert).unwrap(), Some(b"two".to_vec()));
    assert_eq!(store.load(&cert).unwrap(), None);
    assert_eq!(store.take(&cert).unwrap(), None);
    assert_eq!(store.load(&PersistKey::ReconnectKey(1)).unwrap(), Some(b"x".to_vec()));
    assert!(cert.same(&cert.copy()));
    assert!(!cert.same(&PersistKey::ReconnectKey(1)));
    assert!(!PersistKey::Acme("a".to_string()).same(&PersistKey::Acme("b".to_string())));
}
