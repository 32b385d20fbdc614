//! Records of services that have authenticated and are about to reconnect.

use vstd::prelude::*;
use crate::service::{ServiceDomain, ServiceHost, ServiceRoute};
use crate::text::str_eq;
use crate::util::current_time_millis;

verus! {

/// How long a record can be redeemed after it was created, in milliseconds.
pub const PREAUTH_VALID_MILLIS: u64 = 10_000;

/// The secret that a service sends ahead of its second connection.
#[derive(Debug, Clone, Copy, PartialEq, Eq, Hash, Structural)]
pub struct ReconnectKey(pub u64);

/// What a service stated when it authenticated: where its connection is to
/// be routed, and when the record was made.
#[derive(Debug)]
pub struct Preauthed {
    created: u64,
    domain: String,
    host: String,
    prefix: String,
}

/// A record as plain values.
pub struct PreauthedView {
    pub created: u64,
    pub domain: Seq<char>,
    pub host: Seq<char>,
    pub prefix: Seq<char>,
}

impl View for Preauthed {
    type V = PreauthedView;

    closed spec fn view(&self) -> PreauthedView {
        PreauthedView {
            created: self.created,
            domain: self.domain@,
            host: self.host@,
            prefix: self.prefix@,
        }
    }
}

/// Whether a record made at `created` can be redeemed at `now`: not before
/// it was made, and less than ten seconds after.
pub open spec fn valid_at(created: u64, now: u64) -> bool {
    created <= now && now - created < 10_000
}

impl Preauthed {
    /// A record made at `created` (Unix time in milliseconds).
    pub fn new(created: u64, domain: String, host: String, prefix: String) -> (r: Preauthed)
        ensures
            r@ == (PreauthedView { created, domain: domain@, host: host@, prefix: prefix@ }),
    {
        Preauthed { created, domain, host, prefix }
    }

    pub fn created(&self) -> (r: u64)
        ensures
            r == self@.created,
    {
        self.created
    }

    /// Whether the record can be redeemed at `now` (Unix time in
    /// milliseconds).
    pub fn is_valid_at(&self, now: u64) -> (r: bool)
        ensures
            r == valid_at(self@.created, now),
    {
        self.created <= now && now - self.created < PREAUTH_VALID_MILLIS
    }

    /// Whether the record can be redeemed now: `is_valid_at` for the time
    /// that the machine's clock shows. Nothing is promised of the answer,
    /// since nothing is known of the clock.
    pub fn is_valid(&self) -> (r: bool) {
        let now = current_time_millis();
        self.is_valid_at(now)
    }

    pub fn domain(&self) -> (r: &str)
        ensures
            r@ == self@.domain,
    {
        self.domain.as_str()
    }

    pub fn host(&self) -> (r: &str)
        ensures
            r@ == self@.host,
    {
        self.host.as_str()
    }

    pub fn prefix(&self) -> (r: &str)
        ensures
            r@ == self@.prefix,
    {
        self.prefix.as_str()
    }

    pub fn is_same_domain(&self, s: &ServiceDomain) -> (r: bool)
        ensures
            r == (self@.domain == s@.domain),
    {
        str_eq(self.domain.as_str(), s.domain())
    }

    pub fn is_same_host(&self, s: &ServiceHost) -> (r: bool)
        ensures
            r == (self@.host == s@.host),
    {
        str_eq(self.host.as_str(), s.host())
    }

    pub fn is_same_prefix(&self, s: &ServiceRoute) -> (r: bool)
        ensures
            r == (self@.prefix == s@.prefix),
    {
        str_eq(self.prefix.as_str(), s.prefix())
    }

    /// A record of age ten seconds or more is not valid, whatever else holds.
    pub proof fn law_expires(created: u64, now: u64)
        requires
            now - created >= 10_000,
        ensures
            !valid_at(created, now),
    {
    }
}

} // verus!
