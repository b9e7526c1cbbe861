//! Where a request to another server goes.
use vstd::prelude::*;

verus! {

/// Host and port of a URI, as [`hyper::Uri`] reads them. `None` if the text is no URI; the host
/// and the port are `None` if the URI does not name them.
pub uninterp spec fn uri_authority(text: Seq<char>) -> Option<(Option<Seq<char>>, Option<u16>)>;

/// The host and port of an authority, as texts and numbers.
pub open spec fn authority_view(authority: Option<(Option<String>, Option<u16>)>) -> Option<
    (Option<Seq<char>>, Option<u16>),
> {
    match authority {
        None => None,
        Some((None, port)) => Some((None, port)),
        Some((Some(host), port)) => Some((Some(host@), port)),
    }
}

/// Parses a text as a [`hyper::Uri`], and takes its host and port. What comes out is determined by
/// the text; which texts are URIs, and what their parts are, is not stated.
#[verifier::external_body]
fn parse_authority(text: &str) -> (authority: Option<(Option<String>, Option<u16>)>)
    ensures
        authority_view(authority) == uri_authority(text@),
{
    match text.parse::<hyper::Uri>() {
        Err(_) => None,
        Ok(uri) => match uri.host() {
            None => Some((None, uri.port_u16())),
            Some(host) => Some((Some(host.to_owned()), uri.port_u16())),
        },
    }
}

/// Why a request cannot be sent.
#[derive(Debug, Clone, Copy, PartialEq, Eq, Structural)]
pub enum TargetError {
    InvalidUri,
    NoHost,
}

/// The port of a server that a URI names no port for.
pub const DEFAULT_PORT: u16 = 80;

/// Host and port to connect to, from the parts of a URI.
pub open spec fn target_of(authority: Option<(Option<Seq<char>>, Option<u16>)>) -> Result<
    (Seq<char>, u16),
    TargetError,
> {
    match authority {
        None => Err(TargetError::InvalidUri),
        Some((None, _)) => Err(TargetError::NoHost),
        Some((Some(host), port)) => Ok(
            (
                host,
                match port {
                    Some(port) => port,
                    None => DEFAULT_PORT,
                },
            ),
        ),
    }
}

/// Host and port to connect to, from the parts of a URI.
pub fn choose_target(authority: Option<(Option<String>, Option<u16>)>) -> (target: Result<
    (String, u16),
    TargetError,
>)
    ensures
        match target {
            Ok((host, port)) => target_of(authority_view(authority)) == Ok::<
                (Seq<char>, u16),
                TargetError,
            >((host@, port)),
            Err(error) => target_of(authority_view(authority)) == Err::<
                (Seq<char>, u16),
                TargetError,
            >(error),
        },
{
    match authority {
        None => Err(TargetError::InvalidUri),
        Some((None, _)) => Err(TargetError::NoHost),
        Some((Some(host), port)) => {
            let port: u16 = match port {
                Some(port) => port,
                None => DEFAULT_PORT,
            };
            Ok((host, port))
        },
    }
}

/// Host and port that a request to a URI is sent to.
pub fn target(url: &str) -> (target: Result<(String, u16), TargetError>)
    ensures
        match target {
            Ok((host, port)) => target_of(uri_authority(url@)) == Ok::<
                (Seq<char>, u16),
                TargetError,
            >((host@, port)),
            Err(error) => target_of(uri_authority(url@)) == Err::<(Seq<char>, u16), TargetError>(
                error,
            ),
        },
{
    choose_target(parse_authority(url))
}

/// A request goes to the host that its URI names, at the port that it names, or else at port 80. It
/// goes nowhere if the URI names no host, or if there is no URI.
pub proof fn law_requests_go_where_their_uri_says(host: Seq<char>, port: u16, any: Option<u16>)
    ensures
        target_of(Some((Some(host), Some(port)))) == Ok::<(Seq<char>, u16), TargetError>(
            (host, port),
        ),
        target_of(Some((Some(host), None))) == Ok::<(Seq<char>, u16), TargetError>((host, 80)),
        target_of(Some((None, any))) == Err::<(Seq<char>, u16), TargetError>(TargetError::NoHost),
        target_of(None) == Err::<(Seq<char>, u16), TargetError>(TargetError::InvalidUri),
{
}

/// The parts of a URI are taken as they are.
pub proof fn law_parts_are_taken_as_they_are(host: String, port: Option<u16>)
    ensures
        authority_view(Some((Some(host), port))) == Some((Some(host@), port)),
        authority_view(Some((None, port))) == Some((None::<Seq<char>>, port)),
        authority_view(None) is None,
{
}

} // verus!
