//! How a locator is fetched: by HTTP(S) or from the local file system.
use vstd::prelude::*;
use vstd::string::*;

verus! {

/// How to fetch a locator's content.
#[derive(Debug, PartialEq, Eq)]
pub enum Fetcher {
    /// An `http://` or `https://` URL, fetched over the network as it stands.
    Url(String),
    /// A `file://` locator; holds the path that follows the scheme.
    File(String),
}

/// Why a locator cannot be fetched.
#[derive(Debug, Clone, Copy, PartialEq, Eq, Structural)]
pub enum FetchError {
    /// The locator starts with neither `http` nor `file`.
    UnsupportedScheme,
    /// A `file` locator too short to hold a path after `file://`.
    MissingPath,
}

impl FetchError {
    pub fn message(&self) -> (r: String)
        ensures
            *self == FetchError::UnsupportedScheme ==> r@
                == "unsupported scheme, only http/https/file are supported"@,
            *self == FetchError::MissingPath ==> r@ == "no path after the file scheme"@,
    {
        match self {
            FetchError::UnsupportedScheme => String::from_str(
                "unsupported scheme, only http/https/file are supported",
            ),
            FetchError::MissingPath => String::from_str("no path after the file scheme"),
        }
    }
}

/// The length of the `file://` segment that is stripped from a file locator.
pub const FILE_SCHEME_LEN: usize = 7;

pub open spec fn starts_with4(s: Seq<char>, a: char, b: char, c: char, d: char) -> bool {
    s.len() >= 4 && s[0] == a && s[1] == b && s[2] == c && s[3] == d
}

pub open spec fn is_http(s: Seq<char>) -> bool {
    starts_with4(s, 'h', 't', 't', 'p')
}

pub open spec fn is_file(s: Seq<char>) -> bool {
    starts_with4(s, 'f', 'i', 'l', 'e')
}

/// Picks how to fetch `source` by its first four characters: `http` (which covers
/// `https`) fetches the URL; `file` reads the path after the `file://` segment; any
/// other prefix is refused.
pub fn fetcher_for(source: &str) -> (r: Result<Fetcher, FetchError>)
    ensures
        is_http(source@) ==> (r matches Ok(Fetcher::Url(u)) && u@ == source@),
        is_file(source@) && source@.len() >= FILE_SCHEME_LEN ==> (r matches Ok(Fetcher::File(p))
            && p@ == source@.subrange(FILE_SCHEME_LEN as int, source@.len() as int)),
        is_file(source@) && source@.len() < FILE_SCHEME_LEN ==> r == Err::<Fetcher, FetchError>(
            FetchError::MissingPath,
        ),
        !is_http(source@) && !is_file(source@) ==> r == Err::<Fetcher, FetchError>(
            FetchError::UnsupportedScheme,
        ),
{
    let len = source.unicode_len();
    if len < 4 {
        return Err(FetchError::UnsupportedScheme);
    }
    let c0 = source.get_char(0);
    let c1 = source.get_char(1);
    let c2 = source.get_char(2);
    let c3 = source.get_char(3);
    if c0 == 'h' && c1 == 't' && c2 == 't' && c3 == 'p' {
        Ok(Fetcher::Url(String::from_str(source)))
    } else if c0 == 'f' && c1 == 'i' && c2 == 'l' && c3 == 'e' {
        if len < FILE_SCHEME_LEN {
            Err(FetchError::MissingPath)
        } else {
            Ok(Fetcher::File(String::from_str(source.substring_char(FILE_SCHEME_LEN, len))))
        }
    } else {
        Err(FetchError::UnsupportedScheme)
    }
}

} // verus!
