//! Splitting a websocket URL into host and port, with scheme-based port
//! defaults; the URI grammar itself is handled by the `http` crate.
use http::uri::InvalidUri;
use http::Uri;
use vstd::prelude::*;
use vstd::string::{StrSliceExecFns, StringExecFns};

verus! {

#[verifier::external_type_specification]
#[verifier::external_body]
pub struct ExUri(Uri);

#[verifier::external_type_specification]
#[verifier::external_body]
pub struct ExInvalidUri(InvalidUri);

/// Why a URL could not be split into host and port.
#[derive(Debug)]
pub enum UrlError {
    /// The URL carries no host.
    Protocol,
    /// The URL names no port and no scheme with a default one.
    Host,
    /// The URL does not parse as a URI.
    Parse(InvalidUri),
}

/// Relies on `str::parse::<http::Uri>` (`Uri`'s `FromStr`): parses the URL
/// or reports why it is not a URI.
#[verifier::external_body]
fn parse_uri(url: &str) -> (r: Result<Uri, InvalidUri>) {
    url.parse::<Uri>()
}

/// Relies on `Uri::host`: the URI's host part, if it has one.
#[verifier::external_body]
fn uri_host(uri: &Uri) -> (r: Option<String>) {
    uri.host().map(|h| h.to_owned())
}

/// Relies on `Uri::port_u16`: the explicit port, if the URI names one.
#[verifier::external_body]
fn uri_port_u16(uri: &Uri) -> (r: Option<u16>) {
    uri.port_u16()
}

/// Relies on `Uri::scheme_str`: the scheme, if the URI names one.
#[verifier::external_body]
fn uri_scheme_str(uri: &Uri) -> (r: Option<String>) {
    uri.scheme_str().map(|s| s.to_owned())
}

/// A bracketed IPv6 host with its brackets stripped; any other host as it
/// stands.
pub open spec fn host_of(h: Seq<char>) -> Seq<char> {
    if h.len() >= 2 && h[0] == '[' {
        h.subrange(1, h.len() - 1)
    } else {
        h
    }
}

/// Strips the brackets around an IPv6 host; they are part of the URI
/// grammar, not of the address.
pub fn host_value(h: &str) -> (r: String)
    ensures
        r@ == host_of(h@),
{
    let n = h.unicode_len();
    if n >= 2 && h.get_char(0) == '[' {
        let s = h.substring_char(1, n - 1);
        String::from_str(s)
    } else {
        String::from_str(h)
    }
}

/// The port to connect to: the explicit one when given, else the scheme's
/// default, 443 for `wss` and 80 for `ws`.
pub open spec fn resolve_port_spec(explicit: Option<u16>, scheme: Option<Seq<char>>) -> Option<
    u16,
> {
    match explicit {
        Some(p) => Some(p),
        None => match scheme {
            Some(s) => if s == "wss"@ {
                Some(443u16)
            } else if s == "ws"@ {
                Some(80u16)
            } else {
                None
            },
            None => None,
        },
    }
}

/// Picks the port from the explicit port and the scheme.
pub fn resolve_port(explicit: Option<u16>, scheme: &Option<String>) -> (r: Option<u16>)
    ensures
        r == resolve_port_spec(
            explicit,
            match *scheme {
                Some(s) => Some(s@),
                None => None,
            },
        ),
{
    match explicit {
        Some(p) => Some(p),
        None => match scheme {
            Some(s) => {
                if crate::str_eq(s.as_str(), "wss") {
                    Some(443)
                } else if crate::str_eq(s.as_str(), "ws") {
                    Some(80)
                } else {
                    None
                }
            },
            None => None,
        },
    }
}

fn domain(uri: &Uri) -> Option<String> {
    match uri_host(uri) {
        Some(h) => Some(host_value(h.as_str())),
        None => None,
    }
}

fn port(uri: &Uri) -> Option<u16> {
    let explicit = uri_port_u16(uri);
    let scheme = uri_scheme_str(uri);
    resolve_port(explicit, &scheme)
}

/// Splits a websocket URL into the host to dial and the port: the URL's own
/// port, or the scheme's default. A URL that does not parse, has no host, or
/// has no port and no known scheme is refused with the matching error.
pub fn split_url(url: &str) -> Result<(String, u16), UrlError> {
    let uri = match parse_uri(url) {
        Ok(u) => u,
        Err(e) => {
            return Err(UrlError::Parse(e));
        },
    };
    let d = match domain(&uri) {
        Some(d) => d,
        None => {
            return Err(UrlError::Protocol);
        },
    };
    let p = match port(&uri) {
        Some(p) => p,
        None => {
            return Err(UrlError::Host);
        },
    };
    Ok((d, p))
}

} // verus!
