use vstd::prelude::*;
use vstd::string::*;
use crate::rules::extract_domains;
use crate::rules::extract_rule_domains;

verus! {

/// A configuration fault found while preparing a Traefik API client.
#[derive(Clone, Copy, PartialEq, Eq, Structural, Debug)]
pub enum TraefikUserError {
    NoHosts,
    NoPrefix,
    NoSuffix,
}

impl TraefikUserError {
    /// A human-readable description of the fault.
    pub fn message(&self) -> (r: &'static str) {
        match self {
            TraefikUserError::NoHosts => "No valid Traefik host found.",
            TraefikUserError::NoPrefix => "No valid Traefik URL prefix has been specified",
            TraefikUserError::NoSuffix => "No valid Traefik URL suffix has been specified",
        }
    }
}

/// The settings a Traefik API client is built from: an optional host
/// plus the URL prefix/suffix template and the shared credentials.
#[derive(Clone, Debug)]
pub struct TraefikAPIClientDetails {
    pub host: Option<String>,
    pub prefix: Option<String>,
    pub suffix: Option<String>,
    pub user: String,
    pub password: String,
}

impl TraefikAPIClientDetails {
    /// Check that the templated parts of the client settings are all
    /// present: first the prefix, then the suffix, then the host.
    pub fn validate(&self) -> (r: Result<(), TraefikUserError>)
        ensures
            match r {
                Ok(_) => self.prefix is Some && self.suffix is Some && self.host is Some,
                Err(e) => match e {
                    TraefikUserError::NoPrefix => self.prefix is None,
                    TraefikUserError::NoSuffix => self.prefix is Some && self.suffix is None,
                    TraefikUserError::NoHosts => self.prefix is Some && self.suffix is Some
                        && self.host is None,
                },
            },
    {
        if !self.prefix.is_some() {
            return Err(TraefikUserError::NoPrefix);
        }
        if !self.suffix.is_some() {
            return Err(TraefikUserError::NoSuffix);
        }
        if !self.host.is_some() {
            return Err(TraefikUserError::NoHosts);
        }
        Ok(())
    }

    /// The same settings retargeted at one concrete host, validated.
    pub fn from_custom_host(&self, host: &str) -> (r: Result<
        TraefikAPIClientDetails,
        TraefikUserError,
    >)
        ensures
            match r {
                Ok(d) => self.prefix is Some && self.suffix is Some && d.prefix == self.prefix
                    && d.suffix == self.suffix && d.user == self.user && d.password
                    == self.password && (d.host matches Some(h) && h@ == host@),
                Err(e) => match e {
                    TraefikUserError::NoPrefix => self.prefix is None,
                    TraefikUserError::NoSuffix => self.prefix is Some && self.suffix is None,
                    TraefikUserError::NoHosts => false,
                },
            },
    {
        let details = TraefikAPIClientDetails {
            host: Some(String::from_str(host)),
            prefix: self.prefix.clone(),
            suffix: self.suffix.clone(),
            user: self.user.clone(),
            password: self.password.clone(),
        };
        match details.validate() {
            Ok(_) => Ok(details),
            Err(e) => Err(e),
        }
    }

    /// The base URL of the targeted Traefik API: prefix, host and
    /// suffix joined in that order.
    pub fn base_url_string(&self) -> (r: String)
        requires
            self.prefix is Some,
            self.host is Some,
            self.suffix is Some,
        ensures
            r@ == self.prefix->0@ + self.host->0@ + self.suffix->0@,
    {
        let mut url = String::new();
        match &self.prefix {
            Some(p) => url.append(p.as_str()),
            None => {},
        }
        match &self.host {
            Some(h) => url.append(h.as_str()),
            None => {},
        }
        match &self.suffix {
            Some(s) => url.append(s.as_str()),
            None => {},
        }
        url
    }
}

/// What a base64 encoding of a byte sequence under the standard
/// alphabet with padding looks like.
pub uninterp spec fn base64_std(bytes: Seq<u8>) -> Seq<char>;

/// Relies on base64's `Engine::encode` with the `BASE64_STANDARD`
/// engine: the result is a pure function of the input bytes alone.
#[verifier::external_body]
fn base64_encode(input: &str) -> (r: String)
    ensures
        r@ == base64_std(input.spec_bytes()),
{
    base64::Engine::encode(&base64::prelude::BASE64_STANDARD, input)
}

/// The value of a basic-authentication header for the configured
/// credentials: the word `Basic`, a space, and the base64 encoding of
/// `user:password`.
pub open spec fn basic_auth_spec(user: Seq<char>, password: Seq<char>) -> Seq<char> {
    seq!['B', 'a', 's', 'i', 'c', ' '] + base64_std(
        vstd::utf8::encode_utf8(user + seq![':'] + password),
    )
}

impl TraefikAPIClientDetails {
    /// The basic-authentication header value for these credentials.
    pub fn basic_auth_value(&self) -> (r: String)
        ensures
            r@ == basic_auth_spec(self.user@, self.password@),
    {
        proof {
            reveal_strlit(":");
            reveal_strlit("Basic ");
            assert(":"@ =~= seq![':']);
            assert("Basic "@ =~= seq!['B', 'a', 's', 'i', 'c', ' ']);
        }
        let mut cred = String::from_str(self.user.as_str());
        cred.append(":");
        cred.append(self.password.as_str());
        assert(cred@ == self.user@ + seq![':'] + self.password@) by {
            assert((self.user@ + seq![':']) + self.password@ =~= self.user@ + seq![':']
                + self.password@);
        }
        let encoded = base64_encode(cred.as_str());
        let mut r = String::from_str("Basic ");
        r.append(encoded.as_str());
        r
    }
}

/// One routing rule fetched from a Traefik instance: the backend
/// service, the matcher expression, and the middlewares attached to
/// it, if any.
#[derive(Clone, Debug)]
pub struct TraefikRouter {
    pub service: String,
    pub rule: String,
    pub middlewares: Option<Vec<String>>,
}

/// Route identity for deduplication: the service and the rule
/// expression alone; middlewares are not part of the key.
pub open spec fn same_route_key(a: TraefikRouter, b: TraefikRouter) -> bool {
    a.service@ == b.service@ && a.rule@ == b.rule@
}

/// Whether two routes are the same under the deduplication key.
pub fn route_key_eq(a: &TraefikRouter, b: &TraefikRouter) -> (r: bool)
    ensures
        r == same_route_key(*a, *b),
{
    a.service == b.service && a.rule == b.rule
}

impl TraefikRouter {
    /// The domain candidates named by this route's rule expression, in
    /// order of appearance.
    pub fn get_domain_list(&self) -> (r: Vec<String>)
        ensures
            r.deep_view() == extract_domains(self.rule@),
    {
        extract_rule_domains(self.rule.as_str())
    }
}

} // verus!
