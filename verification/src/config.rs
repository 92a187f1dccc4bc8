//! The service's configuration, from the values of its environment.
use vstd::prelude::*;

use crate::text::{char_views, chars_of, split_chars, split_on, string_of, trim, trim_chars};

verus! {

/// The configuration of the service.
pub struct AppConfig {
    pub api_key: String,
    pub listen_addr: String,
    pub mount_points_raw: String,
    pub cors_origins: Vec<String>,
}

/// The address listened on where none is configured.
pub open spec fn default_listen_addr() -> Seq<char> {
    "127.0.0.1:3000"@
}

/// A comma-separated piece, trimmed, if it is not empty.
pub open spec fn non_empty_trimmed(piece: Seq<char>) -> Option<Seq<char>> {
    if trim(piece).len() > 0 {
        Some(trim(piece))
    } else {
        None
    }
}

/// The origins of a comma-separated list: each trimmed, empty ones dropped.
pub open spec fn spec_cors_origins(raw: Seq<char>) -> Seq<Seq<char>> {
    split_on(raw, ',').filter_map(|p: Seq<char>| non_empty_trimmed(p))
}

/// The views of a list of strings.
pub open spec fn string_views(v: Seq<String>) -> Seq<Seq<char>> {
    v.map_values(|s: String| s@)
}

/// Parses a comma-separated list of CORS origins.
pub fn parse_cors_origins(raw: &str) -> (r: Vec<String>)
    ensures
        string_views(r@) == spec_cors_origins(raw@),
{
    let chars = chars_of(raw);
    let parts = split_chars(&chars, ',');
    let ghost segs = split_on(raw@, ',');
    let ghost f = |p: Seq<char>| non_empty_trimmed(p);
    let mut out: Vec<String> = Vec::new();
    let mut i: usize = 0;
    assert(segs.take(0) =~= Seq::<Seq<char>>::empty());
    while i < parts.len()
        invariant
            char_views(parts@) == segs,
            segs == split_on(raw@, ','),
            f == (|p: Seq<char>| non_empty_trimmed(p)),
            i <= parts@.len(),
            string_views(out@) == segs.take(i as int).filter_map(f),
        decreases parts@.len() - i,
    {
        assert(segs[i as int] == parts@[i as int]@);
        assert(segs.take(i + 1).drop_last() =~= segs.take(i as int));
        let t = trim_chars(parts[i].as_slice());
        if t.len() > 0 {
            out.push(string_of(t.as_slice()));
            assert(string_views(out@) =~= string_views(out@.drop_last()).push(t@));
        }
        assert(string_views(out@) =~= segs.take(i + 1).filter_map(f));
        i = i + 1;
    }
    assert(segs.take(parts@.len() as int) =~= segs);
    out
}

impl AppConfig {
    /// The configuration from the environment's values: the API key, and the
    /// listen address, mount points and CORS origins where they are set.
    pub fn from_values(
        api_key: String,
        listen_addr: Option<String>,
        mount_points_raw: Option<String>,
        cors_raw: Option<String>,
    ) -> (c: AppConfig)
        ensures
            c.api_key@ == api_key@,
            c.listen_addr@ == match listen_addr {
                Some(a) => a@,
                None => default_listen_addr(),
            },
            c.mount_points_raw@ == match mount_points_raw {
                Some(m) => m@,
                None => Seq::<char>::empty(),
            },
            string_views(c.cors_origins@) == spec_cors_origins(
                match cors_raw {
                    Some(r) => r@,
                    None => Seq::<char>::empty(),
                },
            ),
    {
        let cors_origins = match &cors_raw {
            Some(r) => parse_cors_origins(r.as_str()),
            None => parse_cors_origins(""),
        };
        proof {
            reveal_strlit("");
        }
        AppConfig {
            api_key,
            listen_addr: match listen_addr {
                Some(a) => a,
                None => String::from_str("127.0.0.1:3000"),
            },
            mount_points_raw: match mount_points_raw {
                Some(m) => m,
                None => String::new(),
            },
            cors_origins,
        }
    }
}

/// How cross-origin requests are answered.
pub enum CorsPolicy {
    /// No CORS layer.
    Disabled,
    /// Any origin, any method, any header.
    Permissive,
    /// These origins, with any method and header.
    Origins(Vec<String>),
}

/// The CORS policy of a configuration: none without origins, permissive for
/// the single origin `*`, else the list of origins.
pub fn cors_policy(config: &AppConfig) -> (p: CorsPolicy)
    ensures
        config.cors_origins@.len() == 0 ==> p is Disabled,
        config.cors_origins@.len() == 1 && config.cors_origins@[0]@ == "*"@ ==> p is Permissive,
        !(config.cors_origins@.len() == 0) && !(config.cors_origins@.len() == 1
            && config.cors_origins@[0]@ == "*"@) ==> (p matches CorsPolicy::Origins(o)
            && string_views(o@) == string_views(config.cors_origins@)),
{
    if config.cors_origins.len() == 0 {
        return CorsPolicy::Disabled;
    }
    let star = String::from_str("*");
    if config.cors_origins.len() == 1 && config.cors_origins[0] == star {
        return CorsPolicy::Permissive;
    }
    let mut out: Vec<String> = Vec::new();
    let mut i: usize = 0;
    while i < config.cors_origins.len()
        invariant
            i <= config.cors_origins@.len(),
            string_views(out@) == string_views(config.cors_origins@).take(i as int),
        decreases config.cors_origins@.len() - i,
    {
        let o = config.cors_origins[i].clone();
        assert(o@ == config.cors_origins@[i as int]@);
        let ghost before = out@;
        out.push(o);
        assert(string_views(out@) =~= string_views(before).push(o@));
        assert(string_views(out@) =~= string_views(config.cors_origins@).take(i + 1));
        i = i + 1;
    }
    assert(string_views(config.cors_origins@).take(config.cors_origins@.len() as int)
        =~= string_views(config.cors_origins@));
    CorsPolicy::Origins(out)
}

} // verus!
