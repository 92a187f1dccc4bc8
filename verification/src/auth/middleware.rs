//! Who a request acts for: the API key check and the filesystem identity
//! carried by the request's headers.
use vstd::prelude::*;

use crate::error::{AppError, ErrorView};
use crate::text::{
    char_views, chars_of, parse_unsigned_chars, split_chars, split_on, spec_parse_unsigned, trim,
    trim_chars,
};

verus! {

/// The identity a file operation runs as.
#[derive(Debug, Clone)]
pub struct AuthApiKey {
    pub uid: u32,
    pub gid: u32,
    pub groups: Vec<u32>,
}

/// A request whose API key is valid, with no identity needed.
#[derive(Debug, Clone, Copy)]
pub struct AuthApiKeyOnly;

/// The view of an optional header value.
pub open spec fn header_view(h: Option<&str>) -> Option<Seq<char>> {
    match h {
        Some(s) => Some(s@),
        None => None,
    }
}

/// A `u32` header value, as `str::parse` reads it.
pub open spec fn spec_header_u32(h: Option<Seq<char>>) -> Option<u32> {
    match h {
        None => None,
        Some(s) => match spec_parse_unsigned(s, u32::MAX as nat) {
            Some(n) => Some(n as u32),
            None => None,
        },
    }
}

/// One comma-separated group, trimmed, if it is a `u32`.
pub open spec fn parse_group(piece: Seq<char>) -> Option<u32> {
    match spec_parse_unsigned(trim(piece), u32::MAX as nat) {
        Some(n) => Some(n as u32),
        None => None,
    }
}

/// The supplementary groups of a comma-separated list: the pieces that are
/// numbers, in order; the others are skipped.
pub open spec fn spec_parse_groups(h: Option<Seq<char>>) -> Seq<u32> {
    match h {
        None => Seq::empty(),
        Some(s) => split_on(s, ',').filter_map(|p: Seq<char>| parse_group(p)),
    }
}

/// Whether the API key given matches the configured one.
pub open spec fn api_key_valid(given: Option<Seq<char>>, configured: Seq<char>) -> bool {
    given == Some(configured)
}

/// What `authenticate` answers: unauthorized without the right key; a bad
/// request without a numeric uid; forbidden for uid 0; a bad request without
/// a numeric gid; else the identity.
pub open spec fn spec_authenticate(
    api_key: Option<Seq<char>>,
    configured: Seq<char>,
    uid: Option<Seq<char>>,
    gid: Option<Seq<char>>,
    groups: Option<Seq<char>>,
) -> Result<(u32, u32, Seq<u32>), ErrorView> {
    if !api_key_valid(api_key, configured) {
        Err(ErrorView::Unauthorized)
    } else {
        match spec_header_u32(uid) {
            None => Err(ErrorView::BadRequest("X-FS-UID header is required"@)),
            Some(u) => if u == 0 {
                Err(ErrorView::Forbidden)
            } else {
                match spec_header_u32(gid) {
                    None => Err(ErrorView::BadRequest("X-FS-GID header is required"@)),
                    Some(g) => Ok((u, g, spec_parse_groups(groups))),
                }
            },
        }
    }
}

/// The view of an authentication outcome.
pub open spec fn auth_view(r: Result<AuthApiKey, AppError>) -> Result<(u32, u32, Seq<u32>), ErrorView> {
    match r {
        Ok(a) => Ok((a.uid, a.gid, a.groups@)),
        Err(e) => Err(e@),
    }
}

fn header_u32(h: Option<&str>) -> (r: Option<u32>)
    ensures
        r == spec_header_u32(header_view(h)),
{
    match h {
        None => None,
        Some(s) => match parse_unsigned_chars(chars_of(s).as_slice(), u32::MAX as u64) {
            Some(n) => Some(n as u32),
            None => None,
        },
    }
}

fn parse_groups(h: Option<&str>) -> (r: Vec<u32>)
    ensures
        r@ == spec_parse_groups(header_view(h)),
{
    let mut out: Vec<u32> = Vec::new();
    match h {
        None => out,
        Some(s) => {
            let chars = chars_of(s);
            let parts = split_chars(&chars, ',');
            let ghost segs = split_on(s@, ',');
            let ghost f = |p: Seq<char>| parse_group(p);
            let mut i: usize = 0;
            assert(segs.take(0) =~= Seq::<Seq<char>>::empty());
            while i < parts.len()
                invariant
                    char_views(parts@) == segs,
                    segs == split_on(s@, ','),
                    f == (|p: Seq<char>| parse_group(p)),
                    i <= parts@.len(),
                    out@ == segs.take(i as int).filter_map(f),
                decreases parts@.len() - i,
            {
                assert(segs[i as int] == parts@[i as int]@);
                assert(segs.take(i + 1).drop_last() =~= segs.take(i as int));
                let t = trim_chars(parts[i].as_slice());
                match parse_unsigned_chars(t.as_slice(), u32::MAX as u64) {
                    Some(n) => {
                        out.push(n as u32);
                    },
                    None => {},
                }
                assert(out@ =~= segs.take(i + 1).filter_map(f));
                i = i + 1;
            }
            assert(segs.take(parts@.len() as int) =~= segs);
            out
        },
    }
}

fn key_matches(given: Option<&str>, configured: &str) -> (b: bool)
    ensures
        b == api_key_valid(header_view(given), configured@),
{
    match given {
        None => false,
        Some(k) => String::from_str(k) == String::from_str(configured),
    }
}

/// Checks the API key of a request that needs no identity.
pub fn check_api_key(api_key: Option<&str>, configured: &str) -> (r: Result<AuthApiKeyOnly, AppError>)
    ensures
        r is Ok <==> api_key_valid(header_view(api_key), configured@),
        r matches Err(e) ==> e@ == ErrorView::Unauthorized,
{
    if key_matches(api_key, configured) {
        Ok(AuthApiKeyOnly)
    } else {
        Err(AppError::Unauthorized)
    }
}

/// Checks the API key and reads the identity headers (`X-FS-UID`,
/// `X-FS-GID`, `X-FS-Groups`) of a request.
pub fn authenticate(
    api_key: Option<&str>,
    configured: &str,
    uid: Option<&str>,
    gid: Option<&str>,
    groups: Option<&str>,
) -> (r: Result<AuthApiKey, AppError>)
    ensures
        auth_view(r) == spec_authenticate(
            header_view(api_key),
            configured@,
            header_view(uid),
            header_view(gid),
            header_view(groups),
        ),
{
    if !key_matches(api_key, configured) {
        return Err(AppError::Unauthorized);
    }
    let u = match header_u32(uid) {
        None => {
            return Err(AppError::BadRequest(String::from_str("X-FS-UID header is required")));
        },
        Some(u) => u,
    };
    if u == 0 {
        return Err(AppError::Forbidden);
    }
    let g = match header_u32(gid) {
        None => {
            return Err(AppError::BadRequest(String::from_str("X-FS-GID header is required")));
        },
        Some(g) => g,
    };
    Ok(AuthApiKey { uid: u, gid: g, groups: parse_groups(groups) })
}

/// A request that acts for the root user is refused, whatever else it holds.
pub proof fn law_root_identity_refused(
    api_key: Option<Seq<char>>,
    configured: Seq<char>,
    uid: Option<Seq<char>>,
    gid: Option<Seq<char>>,
    groups: Option<Seq<char>>,
)
    requires
        spec_header_u32(uid) == Some(0u32),
    ensures
        spec_authenticate(api_key, configured, uid, gid, groups) is Err,
        api_key_valid(api_key, configured) ==> spec_authenticate(
            api_key,
            configured,
            uid,
            gid,
            groups,
        ) == Err::<(u32, u32, Seq<u32>), ErrorView>(ErrorView::Forbidden),
{
}

/// Without the configured API key a request is unauthorized, whatever else
/// it holds.
pub proof fn law_wrong_key_unauthorized(
    api_key: Option<Seq<char>>,
    configured: Seq<char>,
    uid: Option<Seq<char>>,
    gid: Option<Seq<char>>,
    groups: Option<Seq<char>>,
)
    requires
        !api_key_valid(api_key, configured),
    ensures
        spec_authenticate(api_key, configured, uid, gid, groups) == Err::<
            (u32, u32, Seq<u32>),
            ErrorView,
        >(ErrorView::Unauthorized),
{
}

} // verus!
