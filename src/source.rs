//! Where a lockfile comes from: a plain path, a `file` URL or an HTTP(S) URL.
use vstd::prelude::*;

verus! {

/// What a lockfile location names.
#[derive(Debug)]
pub enum SourceKind {
    /// Not a URL: a path on the filesystem.
    Path,
    /// A `file` URL.
    FileUrl,
    /// An `http` or `https` URL.
    HttpUrl,
    /// A URL with a scheme that cannot be fetched.
    Unsupported(String),
    /// Text that fails to parse as a URL for another reason.
    Invalid(String),
}

/// What parsing `s` as a URL gives: its scheme when it parses, otherwise
/// whether the failure is a relative reference without a base.
pub uninterp spec fn url_scheme(s: Seq<char>) -> Result<Seq<char>, bool>;

/// Relies on `url::Url::parse` and `url::Url::scheme`: the scheme of the
/// parsed URL; on failure, `None` for a relative URL without a base and the
/// error's text for any other error.
#[verifier::external_body]
fn parse_scheme(src: &str) -> (r: Result<String, Option<String>>)
    ensures
        r is Ok <==> url_scheme(src@) is Ok,
        r is Ok ==> r->Ok_0@ == url_scheme(src@)->Ok_0,
        r is Err ==> (r->Err_0 is None <==> url_scheme(src@) == Err::<Seq<char>, bool>(true)),
{
    match url::Url::parse(src) {
        Ok(u) => Ok(u.scheme().to_string()),
        Err(url::ParseError::RelativeUrlWithoutBase) => Err(None),
        Err(e) => Err(Some(e.to_string())),
    }
}

/// Classifies a location from what parsing it as a URL gave: a scheme, a
/// relative reference (`Err(None)`) or another error.
pub fn classify_parsed(parsed: Result<String, Option<String>>) -> (r: SourceKind)
    ensures
        match parsed {
            Ok(s) => if s@ == "file"@ {
                r is FileUrl
            } else if s@ == "http"@ || s@ == "https"@ {
                r is HttpUrl
            } else {
                r is Unsupported && r->Unsupported_0@ == s@
            },
            Err(None) => r is Path,
            Err(Some(m)) => r is Invalid && r->Invalid_0@ == m@,
        },
{
    match parsed {
        Ok(s) => {
            if s == String::from_str("file") {
                SourceKind::FileUrl
            } else if s == String::from_str("http") || s == String::from_str("https") {
                SourceKind::HttpUrl
            } else {
                SourceKind::Unsupported(s)
            }
        },
        Err(None) => SourceKind::Path,
        Err(Some(m)) => SourceKind::Invalid(m),
    }
}

/// Classifies a lockfile location.
pub fn classify_source(src: &str) -> (r: SourceKind)
    ensures
        url_scheme(src@) is Ok ==> {
            let s = url_scheme(src@)->Ok_0;
            &&& r is FileUrl <==> s == "file"@
            &&& r is HttpUrl <==> (s == "http"@ || s == "https"@)
            &&& r is Unsupported <==> !(s == "file"@ || s == "http"@ || s == "https"@)
            &&& r is Unsupported ==> r->Unsupported_0@ == s
        },
        url_scheme(src@) == Err::<Seq<char>, bool>(true) ==> r is Path,
        url_scheme(src@) == Err::<Seq<char>, bool>(false) ==> r is Invalid,
{
    proof {
        reveal_strlit("file");
        reveal_strlit("http");
        reveal_strlit("https");
        assert("file"@[0] != "http"@[0]);
        assert("file"@.len() != "https"@.len());
        assert("http"@.len() != "https"@.len());
    }
    classify_parsed(parse_scheme(src))
}

} // verus!
