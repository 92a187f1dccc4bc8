//! Named mount points: the directories that the service exposes.
use vstd::prelude::*;

use crate::text::{
    lemma_split_no_sep, lemma_trim_idempotent, lemma_trim_sub, occurs_at, chars_of, find_char, lemma_find_char_found, find_char_index, split_chars, split_on, string_of, sub_chars,
    trim, trim_chars, char_views,
};

verus! {

/// A directory exposed to clients under a short name.
#[derive(Debug, Clone)]
pub struct MountPoint {
    pub name: String,
    pub path: String,
}

impl View for MountPoint {
    type V = (Seq<char>, Seq<char>);

    open spec fn view(&self) -> (Seq<char>, Seq<char>) {
        (self.name@, self.path@)
    }
}

/// One `name:path` entry of the configuration: trimmed, split at its first
/// `:`, both halves trimmed again and both non-empty.
pub open spec fn parse_mount_entry(entry: Seq<char>) -> Option<(Seq<char>, Seq<char>)> {
    let t = trim(entry);
    match find_char(t, ':') {
        None => None,
        Some(i) => {
            let name = trim(t.take(i));
            let path = trim(t.skip(i + 1));
            if name.len() == 0 || path.len() == 0 {
                None
            } else {
                Some((name, path))
            }
        },
    }
}

/// The mount points that a `name1:/path1,name2:/path2` string lists, in
/// order; an entry that is not of that shape is skipped.
pub open spec fn parse_mounts(raw: Seq<char>) -> Seq<(Seq<char>, Seq<char>)> {
    if raw.len() == 0 {
        Seq::empty()
    } else {
        split_on(raw, ',').filter_map(|e: Seq<char>| parse_mount_entry(e))
    }
}

/// The views of a list of mount points.
pub open spec fn mount_views(ms: Seq<MountPoint>) -> Seq<(Seq<char>, Seq<char>)> {
    ms.map_values(|m: MountPoint| m@)
}

fn parse_entry(entry: &Vec<char>) -> (r: Option<MountPoint>)
    ensures
        match r {
            Some(m) => parse_mount_entry(entry@) == Some(m@),
            None => parse_mount_entry(entry@) is None,
        },
{
    let t = trim_chars(entry.as_slice());
    proof {
        lemma_find_char_found(t@, ':');
    }
    match find_char_index(t.as_slice(), ':') {
        None => None,
        Some(i) => {
            let name_raw = sub_chars(t.as_slice(), 0, i);
            let path_raw = sub_chars(t.as_slice(), i + 1, t.len());
            assert(name_raw@ =~= t@.take(i as int));
            assert(path_raw@ =~= t@.skip(i + 1));
            let name = trim_chars(name_raw.as_slice());
            let path = trim_chars(path_raw.as_slice());
            if name.len() == 0 || path.len() == 0 {
                None
            } else {
                Some(MountPoint { name: string_of(name.as_slice()), path: string_of(path.as_slice()) })
            }
        },
    }
}

impl MountPoint {
    /// Parses mount points from the `name1:/path1,name2:/path2` format.
    pub fn parse_all(raw: &str) -> (r: Vec<MountPoint>)
        ensures
            mount_views(r@) == parse_mounts(raw@),
    {
        let chars = chars_of(raw);
        let mut out: Vec<MountPoint> = Vec::new();
        if chars.len() == 0 {
            assert(mount_views(out@) =~= Seq::empty());
            return out;
        }
        let entries = split_chars(&chars, ',');
        let ghost segs = split_on(raw@, ',');
        let ghost f = |e: Seq<char>| parse_mount_entry(e);
        let mut i: usize = 0;
        assert(segs.take(0) =~= Seq::<Seq<char>>::empty());
        while i < entries.len()
            invariant
                char_views(entries@) == segs,
                segs == split_on(raw@, ','),
                f == (|e: Seq<char>| parse_mount_entry(e)),
                i <= entries@.len(),
                mount_views(out@) == segs.take(i as int).filter_map(f),
            decreases entries@.len() - i,
        {
            let parsed = parse_entry(&entries[i]);
            assert(segs[i as int] == entries@[i as int]@);
            assert(segs.take(i + 1).drop_last() =~= segs.take(i as int));
            match parsed {
                Some(m) => {
                    out.push(m);
                    assert(mount_views(out@) =~= mount_views(out@.drop_last()).push(
                        out@.last()@,
                    ));
                    assert(mount_views(out@) =~= segs.take(i + 1).filter_map(f));
                },
                None => {},
            }
            i = i + 1;
        }
        assert(segs.take(entries@.len() as int) =~= segs);
        out
    }
}


/// Every mount point parsed has a name and a path, neither empty nor with
/// whitespace at its ends, and the name holds no `,` or `:`.
pub proof fn law_parsed_mounts_well_formed(raw: Seq<char>, i: int)
    requires
        0 <= i < parse_mounts(raw).len(),
    ensures
        parse_mounts(raw)[i].0.len() > 0,
        parse_mounts(raw)[i].1.len() > 0,
        trim(parse_mounts(raw)[i].0) == parse_mounts(raw)[i].0,
        trim(parse_mounts(raw)[i].1) == parse_mounts(raw)[i].1,
        !parse_mounts(raw)[i].0.contains(':'),
        !parse_mounts(raw)[i].0.contains(','),
{
    let segs = split_on(raw, ',');
    let f = |e: Seq<char>| parse_mount_entry(e);
    let m = parse_mounts(raw)[i];
    assert(segs.filter_map(f).contains(m));
    segs.lemma_filter_map_contains(f, m);
    let e = choose|e: Seq<char>| #[trigger] segs.contains(e) && f(e) == Some(m);
    lemma_split_no_sep(raw, ',', e);
    let t = trim(e);
    lemma_find_char_found(t, ':');
    let k = find_char(t, ':')->Some_0;
    lemma_trim_idempotent(t.take(k));
    lemma_trim_idempotent(t.skip(k + 1));
    lemma_trim_sub(t.take(k));
    lemma_trim_sub(e);
    let a = choose|a: int| #[trigger] occurs_at(trim(t.take(k)), t.take(k), a);
    let b = choose|b: int| #[trigger] occurs_at(trim(e), e, b);
    assert forall|j: int| 0 <= j < m.0.len() implies m.0[j] != ':' && m.0[j] != ',' by {
        assert(m.0[j] == t.take(k)[a + j]);
        assert(t[a + j] == e[b + a + j]);
        assert(e.contains(e[b + a + j]));
    }
}

} // verus!
