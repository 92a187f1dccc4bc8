//! Paths relative to a mount point, and the checks that keep a resolved
//! path inside its mount.
//!
//! Paths are Unix paths held as strings. The component model follows
//! `std::path::Path` on Unix: a leading `/` is the root, a leading `.` on a
//! relative path is the current directory, empty and `.` pieces elsewhere
//! are skipped, and `..` is the parent directory.
use vstd::prelude::*;

use crate::models::mount::{mount_views, MountPoint};
use crate::text::{char_views, chars_of, split_chars, split_on, string_of, sub_chars};

verus! {

/// The `/`-separated pieces of a path, empty ones included.
pub open spec fn path_segments(s: Seq<char>) -> Seq<Seq<char>> {
    split_on(s, '/')
}

/// The piece `..`.
pub open spec fn dot_dot() -> Seq<char> {
    seq!['.', '.']
}

/// The piece `.`.
pub open spec fn dot() -> Seq<char> {
    seq!['.']
}

/// Whether a path names a parent directory (`..`) anywhere.
pub open spec fn spec_has_path_traversal(s: Seq<char>) -> bool {
    path_segments(s).contains(dot_dot())
}

/// Whether the path starts at the root.
pub open spec fn has_root(s: Seq<char>) -> bool {
    s.len() > 0 && s[0] == '/'
}

/// Whether a relative path starts with the current directory `.`.
pub open spec fn has_cur_dir_start(s: Seq<char>) -> bool {
    !has_root(s) && s.len() > 0 && s[0] == '.' && (s.len() == 1 || s[1] == '/')
}

/// Whether a piece is skipped among the components (empty or `.`).
pub open spec fn is_skipped_piece(p: Seq<char>) -> bool {
    p.len() == 0 || p == dot()
}

/// The pieces that are components: all but the empty ones and `.`.
pub open spec fn kept_pieces(segs: Seq<Seq<char>>) -> Seq<Seq<char>>
    decreases segs.len(),
{
    if segs.len() == 0 {
        segs
    } else if is_skipped_piece(segs.last()) {
        kept_pieces(segs.drop_last())
    } else {
        kept_pieces(segs.drop_last()).push(segs.last())
    }
}

/// The components of a path, as `Path::components` yields them. The root is
/// written `/` and the current directory `.`: no other component is either.
pub open spec fn path_components(s: Seq<char>) -> Seq<Seq<char>> {
    let head: Seq<Seq<char>> = if has_root(s) {
        seq![seq!['/']]
    } else if has_cur_dir_start(s) {
        seq![dot()]
    } else {
        Seq::empty()
    };
    head + kept_pieces(path_segments(s))
}

/// `Path::starts_with`: the components of `base` begin those of `p`.
pub open spec fn spec_path_starts_with(p: Seq<char>, base: Seq<char>) -> bool {
    path_components(base).is_prefix_of(path_components(p))
}

/// `Path::join`: an absolute `rel` replaces `base`; otherwise `rel` follows
/// `base`, with a `/` between them where `base` does not end with one.
pub open spec fn path_join(base: Seq<char>, rel: Seq<char>) -> Seq<char> {
    if has_root(rel) {
        rel
    } else if base.len() > 0 && base.last() != '/' {
        base + seq!['/'] + rel
    } else {
        base + rel
    }
}

/// `s` without its leading `/` characters (`trim_start_matches('/')`).
pub open spec fn trim_leading_slashes(s: Seq<char>) -> Seq<char>
    decreases s.len(),
{
    if s.len() > 0 && s[0] == '/' {
        trim_leading_slashes(s.drop_first())
    } else {
        s
    }
}

/// Whether the path contains a `..` component.
pub fn has_path_traversal(rel_path: &str) -> (b: bool)
    ensures
        b == spec_has_path_traversal(rel_path@),
{
    let chars = chars_of(rel_path);
    let segs = split_chars(&chars, '/');
    let ghost views = char_views(segs@);
    let mut i: usize = 0;
    while i < segs.len()
        invariant
            views == char_views(segs@),
            views == path_segments(rel_path@),
            i <= segs@.len(),
            forall|j: int| 0 <= j < i ==> views[j] != dot_dot(),
        decreases segs@.len() - i,
    {
        let seg = &segs[i];
        assert(views[i as int] == seg@);
        if seg.len() == 2 && seg[0] == '.' && seg[1] == '.' {
            assert(seg@ =~= dot_dot());
            return true;
        }
        assert(seg@ != dot_dot());
        i = i + 1;
    }
    false
}

/// The leading `/` characters of `s` removed.
pub fn strip_leading_slashes(s: &[char]) -> (t: Vec<char>)
    ensures
        t@ == trim_leading_slashes(s@),
{
    let mut i: usize = 0;
    assert(s@.skip(0) =~= s@);
    while i < s.len() && s[i] == '/'
        invariant
            i <= s@.len(),
            trim_leading_slashes(s@) == trim_leading_slashes(s@.skip(i as int)),
        decreases s@.len() - i,
    {
        assert(s@.skip(i as int).drop_first() =~= s@.skip(i + 1));
        i = i + 1;
    }
    assert(s@.skip(i as int) =~= s@.subrange(i as int, s@.len() as int));
    sub_chars(s, i, s.len())
}

/// `base` joined with `rel` as `Path::join` does it.
pub fn join_chars(base: &[char], rel: &[char]) -> (r: Vec<char>)
    ensures
        r@ == path_join(base@, rel@),
{
    if rel.len() > 0 && rel[0] == '/' {
        return sub_chars(rel, 0, rel.len());
    }
    let mut r = sub_chars(base, 0, base.len());
    assert(r@ =~= base@);
    if base.len() > 0 && base[base.len() - 1] != '/' {
        r.push('/');
    }
    let mut i: usize = 0;
    let ghost start = r@;
    while i < rel.len()
        invariant
            i <= rel@.len(),
            r@ == start + rel@.take(i as int),
        decreases rel@.len() - i,
    {
        r.push(rel[i]);
        i = i + 1;
        assert(r@ =~= start + rel@.take(i as int));
    }
    assert(rel@.take(rel@.len() as int) =~= rel@);
    r
}

/// The pieces that are components, computed.
fn kept_pieces_exec(segs: &Vec<Vec<char>>) -> (r: Vec<Vec<char>>)
    ensures
        char_views(r@) == kept_pieces(char_views(segs@)),
{
    let ghost views = char_views(segs@);
    let mut r: Vec<Vec<char>> = Vec::new();
    let mut i: usize = 0;
    assert(views.take(0) =~= Seq::<Seq<char>>::empty());
    while i < segs.len()
        invariant
            views == char_views(segs@),
            i <= segs@.len(),
            char_views(r@) == kept_pieces(views.take(i as int)),
        decreases segs@.len() - i,
    {
        let seg = &segs[i];
        assert(views.take(i + 1).drop_last() =~= views.take(i as int));
        assert(views.take(i + 1).last() == seg@);
        let skipped = seg.len() == 0 || (seg.len() == 1 && seg[0] == '.');
        assert(skipped == is_skipped_piece(seg@)) by {
            if seg@.len() == 1 && seg@[0] == '.' {
                assert(seg@ =~= dot());
            }
        }
        if !skipped {
            let copy = sub_chars(seg.as_slice(), 0, seg.len());
            assert(copy@ =~= seg@);
            r.push(copy);
            assert(char_views(r@) =~= char_views(r@.drop_last()).push(copy@));
        }
        i = i + 1;
    }
    assert(views.take(segs@.len() as int) =~= views);
    r
}

/// The components of a path, computed.
pub fn components_of(s: &[char]) -> (r: Vec<Vec<char>>)
    ensures
        char_views(r@) == path_components(s@),
{
    let segs = split_chars(&sub_chars(s, 0, s.len()), '/');
    assert(s@.subrange(0, s@.len() as int) =~= s@);
    let kept = kept_pieces_exec(&segs);
    let mut r: Vec<Vec<char>> = Vec::new();
    if s.len() > 0 && s[0] == '/' {
        let mut root: Vec<char> = Vec::new();
        root.push('/');
        r.push(root);
    } else if s.len() > 0 && s[0] == '.' && (s.len() == 1 || s[1] == '/') {
        let mut cur: Vec<char> = Vec::new();
        cur.push('.');
        r.push(cur);
    }
    let ghost head = char_views(r@);
    assert(head == (if has_root(s@) {
        seq![seq!['/']]
    } else if has_cur_dir_start(s@) {
        seq![dot()]
    } else {
        Seq::<Seq<char>>::empty()
    }));
    let mut i: usize = 0;
    while i < kept.len()
        invariant
            i <= kept@.len(),
            char_views(r@) == head + char_views(kept@).take(i as int),
        decreases kept@.len() - i,
    {
        let copy = sub_chars(kept[i].as_slice(), 0, kept[i].len());
        assert(copy@ =~= kept@[i as int]@);
        let ghost before = r@;
        r.push(copy);
        assert(char_views(r@) =~= char_views(before).push(copy@));
        assert(char_views(r@) =~= head + char_views(kept@).take(i + 1));
        i = i + 1;
    }
    assert(char_views(kept@).take(kept@.len() as int) =~= char_views(kept@));
    r
}

/// Whether two character vectors are equal.
pub fn chars_eq(a: &[char], b: &[char]) -> (e: bool)
    ensures
        e == (a@ == b@),
{
    if a.len() != b.len() {
        return false;
    }
    let mut i: usize = 0;
    while i < a.len()
        invariant
            a@.len() == b@.len(),
            i <= a@.len(),
            forall|j: int| 0 <= j < i ==> a@[j] == b@[j],
        decreases a@.len() - i,
    {
        if a[i] != b[i] {
            return false;
        }
        i = i + 1;
    }
    assert(a@ =~= b@);
    true
}

/// `Path::starts_with`, computed on path strings.
pub fn path_starts_with(p: &str, base: &str) -> (b: bool)
    ensures
        b == spec_path_starts_with(p@, base@),
{
    let pc = components_of(chars_of(p).as_slice());
    let bc = components_of(chars_of(base).as_slice());
    let ghost pv = char_views(pc@);
    let ghost bv = char_views(bc@);
    if bc.len() > pc.len() {
        return false;
    }
    let mut i: usize = 0;
    while i < bc.len()
        invariant
            pv == char_views(pc@),
            bv == char_views(bc@),
            pv == path_components(p@),
            bv == path_components(base@),
            bc@.len() <= pc@.len(),
            i <= bc@.len(),
            forall|j: int| 0 <= j < i ==> bv[j] == pv[j],
        decreases bc@.len() - i,
    {
        assert(bv[i as int] == bc@[i as int]@);
        assert(pv[i as int] == pc@[i as int]@);
        if !chars_eq(bc[i].as_slice(), pc[i].as_slice()) {
            assert(bv[i as int] != pv[i as int]);
            assert(!bv.is_prefix_of(pv)) by {
                if bv.is_prefix_of(pv) {
                    let sub = pv.subrange(0, bv.len() as int);
                    assert(bv == sub);
                    assert(sub[i as int] == pv[i as int]);
                    assert(bv[i as int] == pv[i as int]);
                }
            }
            return false;
        }
        i = i + 1;
    }
    assert(bv =~= pv.subrange(0, bv.len() as int));
    true
}


/// Where the body of a path begins: after its root `/` or its leading `.`.
pub open spec fn body_start(s: Seq<char>) -> int {
    if has_root(s) || has_cur_dir_start(s) {
        1
    } else {
        0
    }
}

/// The index of the last `/` in `p` at or after `lo`.
pub open spec fn rfind_sep(p: Seq<char>, lo: int) -> Option<int>
    decreases p.len(),
{
    if p.len() == 0 || p.len() <= lo {
        None
    } else if p.last() == '/' {
        Some(p.len() - 1)
    } else {
        rfind_sep(p.drop_last(), lo)
    }
}

pub proof fn lemma_rfind_sep(p: Seq<char>, lo: int)
    requires
        0 <= lo,
    ensures
        rfind_sep(p, lo) matches Some(k) ==> lo <= k < p.len() && p[k] == '/' && forall|j: int|
            k < j < p.len() ==> #[trigger] p[j] != '/',
        rfind_sep(p, lo) is None ==> forall|j: int| lo <= j < p.len() ==> #[trigger] p[j] != '/',
    decreases p.len(),
{
    if p.len() > 0 && p.len() > lo && p.last() != '/' {
        let q = p.drop_last();
        lemma_rfind_sep(q, lo);
        assert forall|j: int| 0 <= j < q.len() implies #[trigger] q[j] == p[j] by {}
        match rfind_sep(q, lo) {
            Some(k) => {
                assert forall|j: int| k < j < p.len() implies #[trigger] p[j] != '/' by {
                    if j < q.len() {
                        assert(q[j] != '/');
                    }
                }
            },
            None => {
                assert forall|j: int| lo <= j < p.len() implies #[trigger] p[j] != '/' by {
                    if j < q.len() {
                        assert(q[j] != '/');
                    }
                }
            },
        }
    }
}

/// Where the last piece of `p` (after `lo`) begins.
pub open spec fn back_piece_start(p: Seq<char>, lo: int) -> int {
    match rfind_sep(p, lo) {
        Some(k) => k + 1,
        None => lo,
    }
}

/// The last piece of `p`: what follows its last `/` (not before `lo`).
pub open spec fn back_piece(p: Seq<char>, lo: int) -> Seq<char> {
    p.subrange(back_piece_start(p, lo), p.len() as int)
}

/// `p` without its last piece and the `/` before it.
pub open spec fn before_back_piece(p: Seq<char>, lo: int) -> Seq<char> {
    match rfind_sep(p, lo) {
        Some(k) => p.take(k),
        None => p.take(lo),
    }
}

/// `p` without trailing empty and `.` pieces, as far back as `lo`.
pub open spec fn strip_skipped_back(p: Seq<char>, lo: int) -> Seq<char>
    decreases p.len(),
{
    if 0 <= lo < p.len() && is_skipped_piece(back_piece(p, lo)) {
        proof {
            lemma_rfind_sep(p, lo);
        }
        strip_skipped_back(before_back_piece(p, lo), lo)
    } else {
        p
    }
}

proof fn lemma_strip_bounds(p: Seq<char>, lo: int)
    requires
        0 <= lo <= p.len(),
    ensures
        lo <= strip_skipped_back(p, lo).len() <= p.len(),
        strip_skipped_back(p, lo) == p.take(strip_skipped_back(p, lo).len() as int),
        strip_skipped_back(p, lo).len() > lo ==> !is_skipped_piece(
            back_piece(strip_skipped_back(p, lo), lo),
        ),
    decreases p.len(),
{
    lemma_rfind_sep(p, lo);
    if lo < p.len() && is_skipped_piece(back_piece(p, lo)) {
        let q = before_back_piece(p, lo);
        lemma_strip_bounds(q, lo);
        let r = strip_skipped_back(q, lo);
        assert(r =~= p.take(r.len() as int));
    } else {
        assert(p.take(p.len() as int) =~= p);
    }
}

/// The last component of a path, if it is a name (`Path::file_name`).
pub open spec fn path_file_name(s: Seq<char>) -> Option<Seq<char>> {
    let lo = body_start(s);
    let p = strip_skipped_back(s, lo);
    if p.len() > lo && back_piece(p, lo) != dot_dot() {
        Some(back_piece(p, lo))
    } else {
        None
    }
}

/// The path without its last component (`Path::parent`): `None` for the
/// root alone and for the empty path.
pub open spec fn path_parent(s: Seq<char>) -> Option<Seq<char>> {
    let lo = body_start(s);
    let p = strip_skipped_back(s, lo);
    if p.len() > lo {
        Some(strip_skipped_back(before_back_piece(p, lo), lo))
    } else if has_cur_dir_start(s) {
        Some(Seq::empty())
    } else {
        None
    }
}

/// The last `/` of `s[..len]` at or after `lo`.
fn rfind_sep_exec(s: &[char], len: usize, lo: usize) -> (r: Option<usize>)
    requires
        lo <= len <= s@.len(),
    ensures
        match r {
            Some(k) => rfind_sep(s@.take(len as int), lo as int) == Some(k as int),
            None => rfind_sep(s@.take(len as int), lo as int) is None,
        },
{
    let mut j: usize = len;
    while j > lo
        invariant
            lo <= j <= len <= s@.len(),
            rfind_sep(s@.take(len as int), lo as int) == rfind_sep(s@.take(j as int), lo as int),
        decreases j,
    {
        assert(s@.take(j as int).drop_last() =~= s@.take(j - 1));
        if s[j - 1] == '/' {
            return Some(j - 1);
        }
        j = j - 1;
    }
    None
}

/// The length of `s[..len]` once trailing skipped pieces are stripped.
fn strip_skipped_back_exec(s: &[char], len: usize, lo: usize) -> (r: usize)
    requires
        lo <= len <= s@.len(),
    ensures
        strip_skipped_back(s@.take(len as int), lo as int) == s@.take(r as int),
        lo <= r <= len,
{
    let mut cur: usize = len;
    while cur > lo
        invariant
            lo <= cur <= len <= s@.len(),
            strip_skipped_back(s@.take(len as int), lo as int) == strip_skipped_back(
                s@.take(cur as int),
                lo as int,
            ),
        decreases cur,
    {
        let ghost p = s@.take(cur as int);
        proof {
            lemma_rfind_sep(p, lo as int);
        }
        let found = rfind_sep_exec(s, cur, lo);
        let start: usize = match found {
            Some(k) => k + 1,
            None => lo,
        };
        let skipped = start == cur || (start + 1 == cur && s[start] == '.');
        assert(back_piece(p, lo as int) =~= s@.subrange(start as int, cur as int));
        assert(start <= cur);
        assert(skipped == is_skipped_piece(back_piece(p, lo as int))) by {
            let piece = s@.subrange(start as int, cur as int);
            if start + 1 == cur && s@[start as int] == '.' {
                assert(piece =~= dot());
            }
            if piece == dot() {
                assert(piece.len() == 1);
                assert(piece[0] == s@[start as int]);
            }
        }
        if !skipped {
            return cur;
        }
        let next: usize = match found {
            Some(k) => k,
            None => lo,
        };
        assert(before_back_piece(p, lo as int) =~= s@.take(next as int));
        cur = next;
    }
    cur
}

/// The file name of a path, computed.
pub fn file_name_chars(s: &[char]) -> (r: Option<Vec<char>>)
    ensures
        match r {
            Some(v) => path_file_name(s@) == Some(v@),
            None => path_file_name(s@) is None,
        },
{
    let lo: usize = if (s.len() > 0 && s[0] == '/') || (s.len() > 0 && s[0] == '.' && (s.len()
        == 1 || s[1] == '/')) {
        1
    } else {
        0
    };
    assert(s@.take(s@.len() as int) =~= s@);
    let len = strip_skipped_back_exec(s, s.len(), lo);
    if len > lo {
        let ghost p = s@.take(len as int);
        proof {
            lemma_rfind_sep(p, lo as int);
        }
        let found = rfind_sep_exec(s, len, lo);
        let start: usize = match found {
            Some(k) => k + 1,
            None => lo,
        };
        let piece = sub_chars(s, start, len);
        assert(piece@ =~= back_piece(p, lo as int));
        if piece.len() == 2 && piece[0] == '.' && piece[1] == '.' {
            assert(piece@ =~= dot_dot());
            None
        } else {
            Some(piece)
        }
    } else {
        None
    }
}

/// The parent of a path, computed.
pub fn parent_chars(s: &[char]) -> (r: Option<Vec<char>>)
    ensures
        match r {
            Some(v) => path_parent(s@) == Some(v@),
            None => path_parent(s@) is None,
        },
{
    let lo: usize = if (s.len() > 0 && s[0] == '/') || (s.len() > 0 && s[0] == '.' && (s.len()
        == 1 || s[1] == '/')) {
        1
    } else {
        0
    };
    assert(s@.take(s@.len() as int) =~= s@);
    let len = strip_skipped_back_exec(s, s.len(), lo);
    if len > lo {
        let ghost p = s@.take(len as int);
        proof {
            lemma_rfind_sep(p, lo as int);
        }
        let found = rfind_sep_exec(s, len, lo);
        let cut: usize = match found {
            Some(k) => k,
            None => lo,
        };
        assert(before_back_piece(p, lo as int) =~= s@.take(cut as int));
        let end = strip_skipped_back_exec(s, cut, lo);
        Some(sub_chars(s, 0, end))
    } else if s.len() > 0 && s[0] == '.' && (s.len() == 1 || s[1] == '/') {
        Some(Vec::new())
    } else {
        None
    }
}


/// The index of the first mount point called `name`.
pub open spec fn find_mount(ms: Seq<(Seq<char>, Seq<char>)>, name: Seq<char>) -> Option<int>
    decreases ms.len(),
{
    if ms.len() == 0 {
        None
    } else if ms[0].0 == name {
        Some(0)
    } else {
        match find_mount(ms.drop_first(), name) {
            Some(i) => Some(i + 1),
            None => None,
        }
    }
}

proof fn lemma_find_mount(ms: Seq<(Seq<char>, Seq<char>)>, name: Seq<char>, i: int)
    requires
        0 <= i <= ms.len(),
        forall|j: int| 0 <= j < i ==> #[trigger] ms[j].0 != name,
    ensures
        i < ms.len() && ms[i].0 == name ==> find_mount(ms, name) == Some(i),
        i == ms.len() ==> find_mount(ms, name) is None,
    decreases i,
{
    if i > 0 {
        let t = ms.drop_first();
        assert forall|j: int| 0 <= j < i - 1 implies #[trigger] t[j].0 != name by {
            assert(t[j] == ms[j + 1]);
        }
        lemma_find_mount(t, name, i - 1);
    }
}

/// The error for a mount point that is not configured.
pub open spec fn unknown_mount_message(name: Seq<char>) -> Seq<char> {
    "Unknown mount point: "@ + name
}

/// The error for a path that would leave its mount point.
pub open spec fn traversal_message() -> Seq<char> {
    "Path traversal not allowed"@
}

/// What `resolve_path` asks to canonicalize, or why it refuses: the mount's
/// path joined with the relative path (leading `/` removed), and the mount's
/// path itself.
pub open spec fn spec_resolve_request(
    ms: Seq<(Seq<char>, Seq<char>)>,
    name: Seq<char>,
    rel: Seq<char>,
) -> Result<(Seq<char>, Seq<char>), Seq<char>> {
    match find_mount(ms, name) {
        None => Err(unknown_mount_message(name)),
        Some(i) => if spec_has_path_traversal(rel) {
            Err(traversal_message())
        } else {
            Ok((path_join(ms[i].1, trim_leading_slashes(rel)), ms[i].1))
        },
    }
}

/// What `resolve_new_path` asks to canonicalize, or why it refuses: the
/// parent of the joined path, its file name, and the mount's path.
pub open spec fn spec_resolve_new_request(
    ms: Seq<(Seq<char>, Seq<char>)>,
    name: Seq<char>,
    rel: Seq<char>,
) -> Result<(Seq<char>, Option<Seq<char>>, Seq<char>), Seq<char>> {
    match spec_resolve_request(ms, name, rel) {
        Err(e) => Err(e),
        Ok((full, mount)) => match path_parent(full) {
            None => Err("Invalid path"@),
            Some(parent) => Ok((parent, path_file_name(full), mount)),
        },
    }
}

/// The view of a result that carries strings.
pub open spec fn text_result(r: Result<String, String>) -> Result<Seq<char>, Seq<char>> {
    match r {
        Ok(s) => Ok(s@),
        Err(e) => Err(e@),
    }
}

/// The outcome of `resolve_path` once the two paths are canonical: the
/// canonical path, if it lies within the canonical mount path.
pub open spec fn spec_finish_resolve(
    canonical: Result<Seq<char>, Seq<char>>,
    mount_canonical: Result<Seq<char>, Seq<char>>,
) -> Result<Seq<char>, Seq<char>> {
    match canonical {
        Err(e) => Err("Path resolution failed: "@ + e),
        Ok(c) => match mount_canonical {
            Err(e) => Err("Mount point resolution failed: "@ + e),
            Ok(m) => if spec_path_starts_with(c, m) {
                Ok(c)
            } else {
                Err(traversal_message())
            },
        },
    }
}

/// The outcome of `resolve_new_path` once the parent and the mount path are
/// canonical: the canonical parent joined with the file name, if the parent
/// lies within the mount and there is a file name.
pub open spec fn spec_finish_resolve_new(
    parent_canonical: Result<Seq<char>, Seq<char>>,
    mount_canonical: Result<Seq<char>, Seq<char>>,
    file_name: Option<Seq<char>>,
) -> Result<Seq<char>, Seq<char>> {
    match parent_canonical {
        Err(e) => Err("Parent path resolution failed: "@ + e),
        Ok(c) => match mount_canonical {
            Err(e) => Err("Mount point resolution failed: "@ + e),
            Ok(m) => if !spec_path_starts_with(c, m) {
                Err(traversal_message())
            } else {
                match file_name {
                    None => Err("Invalid filename"@),
                    Some(n) => Ok(path_join(c, n)),
                }
            },
        },
    }
}

/// The paths that must be made canonical to finish `resolve_path`.
pub struct PathRequest {
    /// The mount path joined with the relative path.
    pub full_path: String,
    /// The mount point's own path.
    pub mount_path: String,
}

/// The paths that must be made canonical to finish `resolve_new_path`.
pub struct NewPathRequest {
    /// The parent of the joined path.
    pub parent: String,
    /// The last component of the joined path, if it is a name.
    pub file_name: Option<String>,
    /// The mount point's own path.
    pub mount_path: String,
}

/// The index of the mount point called `name`.
fn mount_index(mount_points: &[MountPoint], name: &str) -> (r: Option<usize>)
    ensures
        match r {
            Some(i) => find_mount(mount_views(mount_points@), name@) == Some(i as int) && i
                < mount_points@.len(),
            None => find_mount(mount_views(mount_points@), name@) is None,
        },
{
    let wanted = String::from_str(name);
    let ghost ms = mount_views(mount_points@);
    let mut i: usize = 0;
    while i < mount_points.len()
        invariant
            ms == mount_views(mount_points@),
            wanted@ == name@,
            i <= mount_points@.len(),
            forall|j: int| 0 <= j < i ==> #[trigger] ms[j].0 != name@,
        decreases mount_points@.len() - i,
    {
        assert(ms[i as int].0 == mount_points@[i as int].name@);
        if mount_points[i].name == wanted {
            proof {
                lemma_find_mount(ms, name@, i as int);
            }
            return Some(i);
        }
        i = i + 1;
    }
    proof {
        lemma_find_mount(ms, name@, i as int);
    }
    None
}

/// Resolves a user-given path against the mount points: finds the mount,
/// refuses `..`, and joins the path (its leading `/` removed) to the mount's
/// path. The result names what must be made canonical; `PathRequest::finish`
/// completes the resolution.
pub fn resolve_path(mount_points: &[MountPoint], mount_name: &str, rel_path: &str) -> (r: Result<
    PathRequest,
    String,
>)
    ensures
        match r {
            Ok(req) => spec_resolve_request(mount_views(mount_points@), mount_name@, rel_path@)
                == Ok::<(Seq<char>, Seq<char>), Seq<char>>((req.full_path@, req.mount_path@)),
            Err(e) => spec_resolve_request(mount_views(mount_points@), mount_name@, rel_path@)
                == Err::<(Seq<char>, Seq<char>), Seq<char>>(e@),
        },
{
    let idx = mount_index(mount_points, mount_name);
    match idx {
        None => {
            let mut msg = String::from_str("Unknown mount point: ");
            msg.append(mount_name);
            Err(msg)
        },
        Some(i) => {
            if has_path_traversal(rel_path) {
                return Err(String::from_str("Path traversal not allowed"));
            }
            let mount = &mount_points[i];
            let rel = strip_leading_slashes(chars_of(rel_path).as_slice());
            let base = chars_of(mount.path.as_str());
            let full = join_chars(base.as_slice(), rel.as_slice());
            assert(mount_views(mount_points@)[i as int].1 == mount.path@);
            Ok(PathRequest { full_path: string_of(full.as_slice()), mount_path: mount.path.clone() })
        },
    }
}

/// Like `resolve_path`, for a target that need not exist yet: what must be
/// made canonical is the parent of the joined path.
pub fn resolve_new_path(mount_points: &[MountPoint], mount_name: &str, rel_path: &str) -> (r:
    Result<NewPathRequest, String>)
    ensures
        match r {
            Ok(req) => spec_resolve_new_request(mount_views(mount_points@), mount_name@, rel_path@)
                == Ok::<(Seq<char>, Option<Seq<char>>, Seq<char>), Seq<char>>(
                (
                    req.parent@,
                    match req.file_name {
                        Some(n) => Some(n@),
                        None => None,
                    },
                    req.mount_path@,
                ),
            ),
            Err(e) => spec_resolve_new_request(mount_views(mount_points@), mount_name@, rel_path@)
                == Err::<(Seq<char>, Option<Seq<char>>, Seq<char>), Seq<char>>(e@),
        },
{
    let req = resolve_path(mount_points, mount_name, rel_path)?;
    let full = chars_of(req.full_path.as_str());
    match parent_chars(full.as_slice()) {
        None => Err(String::from_str("Invalid path")),
        Some(parent) => {
            let name = match file_name_chars(full.as_slice()) {
                Some(n) => Some(string_of(n.as_slice())),
                None => None,
            };
            Ok(
                NewPathRequest {
                    parent: string_of(parent.as_slice()),
                    file_name: name,
                    mount_path: req.mount_path,
                },
            )
        },
    }
}

impl PathRequest {
    /// Completes `resolve_path` with the canonical forms of `full_path` and of
    /// `mount_path` (or the errors that making them canonical gave).
    pub fn finish(&self, canonical: Result<String, String>, mount_canonical: Result<String, String>) -> (r:
        Result<String, String>)
        ensures
            text_result(r) == spec_finish_resolve(text_result(canonical), text_result(mount_canonical)),
            r matches Ok(p) ==> mount_canonical matches Ok(m) && spec_path_starts_with(p@, m@),
    {
        match canonical {
            Err(e) => {
                let mut msg = String::from_str("Path resolution failed: ");
                msg.append(e.as_str());
                Err(msg)
            },
            Ok(c) => match mount_canonical {
                Err(e) => {
                    let mut msg = String::from_str("Mount point resolution failed: ");
                    msg.append(e.as_str());
                    Err(msg)
                },
                Ok(m) => {
                    if path_starts_with(c.as_str(), m.as_str()) {
                        Ok(c)
                    } else {
                        Err(String::from_str("Path traversal not allowed"))
                    }
                },
            },
        }
    }
}


/// A single name: a component that is neither empty, nor `.`, nor `..`, and
/// holds no `/`.
pub open spec fn is_plain_name(n: Seq<char>) -> bool {
    &&& n.len() > 0
    &&& n != dot()
    &&& n != dot_dot()
    &&& forall|j: int| 0 <= j < n.len() ==> #[trigger] n[j] != '/'
}

proof fn lemma_split_append_name(a: Seq<char>, n: Seq<char>)
    requires
        forall|j: int| 0 <= j < n.len() ==> #[trigger] n[j] != '/',
    ensures
        split_on(a + n, '/') == split_on(a, '/').update(
            split_on(a, '/').len() - 1,
            split_on(a, '/').last() + n,
        ),
        split_on(a + n, '/').len() == split_on(a, '/').len(),
    decreases n.len(),
{
    crate::text::lemma_split_nonempty(a, '/');
    if n.len() == 0 {
        assert(a + n =~= a);
        let sa = split_on(a, '/');
        assert(sa.last() + n =~= sa.last());
        assert(sa.update(sa.len() - 1, sa.last()) =~= sa);
    } else {
        let m = n.drop_last();
        assert forall|j: int| 0 <= j < m.len() implies #[trigger] m[j] != '/' by {
            assert(m[j] == n[j]);
        }
        lemma_split_append_name(a, m);
        assert((a + n).drop_last() =~= a + m);
        assert((a + n).last() == n.last());
        let sa = split_on(a, '/');
        let sm = split_on(a + m, '/');
        assert(sm.last() == sa.last() + m);
        assert(sa.last() + m.push(n.last()) =~= sa.last() + n);
        assert(m.push(n.last()) =~= n);
        assert(split_on(a + n, '/') =~= sa.update(sa.len() - 1, sa.last() + n));
    }
}

proof fn lemma_kept_replace_last(segs: Seq<Seq<char>>, x: Seq<char>)
    requires
        segs.len() > 0,
        is_skipped_piece(segs.last()),
        !is_skipped_piece(x),
    ensures
        kept_pieces(segs.update(segs.len() - 1, x)) == kept_pieces(segs).push(x),
{
    let u = segs.update(segs.len() - 1, x);
    assert(u.drop_last() =~= segs.drop_last());
}

/// Joining a plain name to a path adds exactly that name to its components.
pub proof fn lemma_join_name_components(c: Seq<char>, n: Seq<char>)
    requires
        is_plain_name(n),
    ensures
        path_components(path_join(c, n)) == path_components(c).push(n),
{
    crate::text::lemma_split_nonempty(c, '/');
    assert(!has_root(n));
    let j = path_join(c, n);
    let sc = split_on(c, '/');
    if c.len() > 0 && c.last() != '/' {
        let cs = c.push('/');
        assert(j =~= cs + n);
        assert(cs.drop_last() =~= c);
        let scs = split_on(cs, '/');
        assert(scs == sc.push(Seq::empty()));
        lemma_split_append_name(cs, n);
        assert(Seq::<char>::empty() + n =~= n);
        lemma_kept_replace_last(scs, n);
        assert(scs.update(scs.len() - 1, scs.last() + n) =~= scs.update(scs.len() - 1, n));
        assert(scs.drop_last() =~= sc);
        assert(kept_pieces(scs) == kept_pieces(sc));
        assert(j[0] == c[0]);
        if c.len() >= 2 {
            assert(j[1] == c[1]);
        } else {
            assert(j[1] == '/');
        }
    } else {
        assert(j =~= c + n);
        lemma_split_append_name(c, n);
        if c.len() == 0 {
            assert(sc =~= seq![Seq::<char>::empty()]);
            assert(j =~= n);
            assert(!has_cur_dir_start(n)) by {
                if n.len() == 1 && n[0] == '.' {
                    assert(n =~= dot());
                }
            }
        } else {
            assert(c.drop_last().push('/') =~= c);
            assert(sc == split_on(c.drop_last(), '/').push(Seq::empty()));
            assert(j[0] == c[0]);
            if c.len() >= 2 {
                assert(j[1] == c[1]);
            }
        }
        assert(Seq::<char>::empty() + n =~= n);
        assert(sc.last() + n =~= n);
        lemma_kept_replace_last(sc, n);
    }
}

/// A file name taken from a path is a plain name.
pub proof fn lemma_file_name_is_plain(s: Seq<char>)
    ensures
        path_file_name(s) matches Some(n) ==> is_plain_name(n),
{
    let lo = body_start(s);
    lemma_strip_bounds(s, lo);
    let p = strip_skipped_back(s, lo);
    if p.len() > lo {
        lemma_rfind_sep(p, lo);
        let n = back_piece(p, lo);
        assert forall|j: int| 0 <= j < n.len() implies #[trigger] n[j] != '/' by {
            assert(n[j] == p[back_piece_start(p, lo) + j]);
        }
    }
}

/// A path inside a directory stays inside it when a plain name is joined.
pub proof fn lemma_join_name_stays_within(c: Seq<char>, m: Seq<char>, n: Seq<char>)
    requires
        spec_path_starts_with(c, m),
        is_plain_name(n),
    ensures
        spec_path_starts_with(path_join(c, n), m),
{
    lemma_join_name_components(c, n);
    let pc = path_components(c);
    let pm = path_components(m);
    assert(pm =~= pc.push(n).subrange(0, pm.len() as int));
}

proof fn lemma_rfind_append(a: Seq<char>, n: Seq<char>, lo: int)
    requires
        0 <= lo <= a.len(),
        forall|j: int| 0 <= j < n.len() ==> #[trigger] n[j] != '/',
    ensures
        rfind_sep(a + n, lo) == rfind_sep(a, lo),
    decreases n.len(),
{
    if n.len() == 0 {
        assert(a + n =~= a);
    } else {
        let m = n.drop_last();
        assert forall|j: int| 0 <= j < m.len() implies #[trigger] m[j] != '/' by {
            assert(m[j] == n[j]);
        }
        lemma_rfind_append(a, m, lo);
        assert((a + n).drop_last() =~= a + m);
        assert((a + n).last() == n[n.len() - 1]);
    }
}

/// The last component of a path with a plain name joined is that name; its
/// parent is the path joined to, where that path ends in no empty or `.`
/// piece (as a canonical path does not).
pub proof fn law_join_name_parts(c: Seq<char>, n: Seq<char>)
    requires
        is_plain_name(n),
    ensures
        path_file_name(path_join(c, n)) == Some(n),
        strip_skipped_back(c, body_start(c)) == c ==> path_parent(path_join(c, n)) == Some(c),
{
    let s = path_join(c, n);
    assert(!has_root(n));
    if c.len() > 0 && c.last() != '/' {
        let cs = c.push('/');
        assert(s =~= cs + n);
        assert(s[0] == c[0]);
        if c.len() >= 2 {
            assert(s[1] == c[1]);
        } else {
            assert(s[1] == '/');
        }
        let lo = body_start(s);
        assert(lo == body_start(c));
        lemma_rfind_append(cs, n, lo);
        assert(cs.last() == '/');
        assert(rfind_sep(cs, lo) == Some(c.len() as int));
        assert(back_piece(s, lo) =~= n);
        assert(strip_skipped_back(s, lo) == s);
        assert(before_back_piece(s, lo) =~= c);
    } else if c.len() == 0 {
        assert(s =~= n);
        assert(!has_cur_dir_start(n)) by {
            if n.len() == 1 && n[0] == '.' {
                assert(n =~= dot());
            }
        }
        let e = Seq::<char>::empty();
        lemma_rfind_append(e, n, 0);
        assert(e + n =~= n);
        assert(back_piece(s, 0) =~= n);
        assert(strip_skipped_back(s, 0) == s);
        assert(before_back_piece(s, 0) =~= e);
        assert(strip_skipped_back(e, 0) == e);
        assert(c =~= e);
    } else {
        assert(s =~= c + n);
        assert(s[0] == c[0]);
        if c.len() >= 2 {
            assert(s[1] == c[1]);
        }
        let lo = body_start(s);
        assert(lo == body_start(c));
        lemma_rfind_append(c, n, lo);
        lemma_rfind_sep(c, lo);
        assert(back_piece(s, lo) =~= n) by {
            match rfind_sep(c, lo) {
                Some(k) => {
                    assert(k == c.len() - 1);
                },
                None => {
                    assert(c.len() <= lo);
                },
            }
        }
        assert(strip_skipped_back(s, lo) == s);
        if strip_skipped_back(c, lo) == c {
            if c.len() > lo {
                assert(rfind_sep(c, lo) == Some(c.len() - 1));
                assert(back_piece(c, lo) =~= Seq::<char>::empty());
                lemma_strip_bounds(before_back_piece(c, lo), lo);
                assert(false);
            }
            assert(c.len() == 1);
            assert(before_back_piece(s, lo) =~= c);
        }
    }
}

/// A plain name is its own file name.
pub proof fn lemma_plain_name_is_file_name(n: Seq<char>)
    requires
        is_plain_name(n),
    ensures
        path_file_name(n) == Some(n),
{
    law_join_name_parts(Seq::empty(), n);
    assert(path_join(Seq::empty(), n) =~= n);
}

impl NewPathRequest {
    /// Completes `resolve_new_path` with the canonical forms of `parent` and
    /// of `mount_path` (or the errors that making them canonical gave).
    pub fn finish(
        &self,
        parent_canonical: Result<String, String>,
        mount_canonical: Result<String, String>,
    ) -> (r: Result<String, String>)
        ensures
            text_result(r) == spec_finish_resolve_new(
                text_result(parent_canonical),
                text_result(mount_canonical),
                match self.file_name {
                    Some(n) => Some(n@),
                    None => None,
                },
            ),
    {
        match parent_canonical {
            Err(e) => {
                let mut msg = String::from_str("Parent path resolution failed: ");
                msg.append(e.as_str());
                Err(msg)
            },
            Ok(c) => match mount_canonical {
                Err(e) => {
                    let mut msg = String::from_str("Mount point resolution failed: ");
                    msg.append(e.as_str());
                    Err(msg)
                },
                Ok(m) => {
                    if !path_starts_with(c.as_str(), m.as_str()) {
                        return Err(String::from_str("Path traversal not allowed"));
                    }
                    match &self.file_name {
                        None => Err(String::from_str("Invalid filename")),
                        Some(n) => {
                            let joined = join_chars(
                                chars_of(c.as_str()).as_slice(),
                                chars_of(n.as_str()).as_slice(),
                            );
                            Ok(string_of(joined.as_slice()))
                        },
                    }
                },
            },
        }
    }
}

/// A path that `resolve_path` resolves lies within the canonical path of its
/// mount point, whatever making the paths canonical gave.
pub proof fn law_resolved_path_within_mount(
    ms: Seq<(Seq<char>, Seq<char>)>,
    name: Seq<char>,
    rel: Seq<char>,
    canonical: Result<Seq<char>, Seq<char>>,
    mount_canonical: Result<Seq<char>, Seq<char>>,
)
    requires
        spec_resolve_request(ms, name, rel) is Ok,
        spec_finish_resolve(canonical, mount_canonical) is Ok,
    ensures
        mount_canonical is Ok,
        spec_path_starts_with(
            spec_finish_resolve(canonical, mount_canonical)->Ok_0,
            mount_canonical->Ok_0,
        ),
{
}

/// A path that `resolve_new_path` resolves lies within the canonical path of
/// its mount point, whatever making the paths canonical gave; its file name
/// is that of the joined path, and its parent is the canonical parent.
pub proof fn law_resolved_new_path_within_mount(
    ms: Seq<(Seq<char>, Seq<char>)>,
    name: Seq<char>,
    rel: Seq<char>,
    parent_canonical: Result<Seq<char>, Seq<char>>,
    mount_canonical: Result<Seq<char>, Seq<char>>,
)
    requires
        spec_resolve_new_request(ms, name, rel) is Ok,
        spec_finish_resolve_new(
            parent_canonical,
            mount_canonical,
            spec_resolve_new_request(ms, name, rel)->Ok_0.1,
        ) is Ok,
    ensures
        mount_canonical is Ok,
        spec_path_starts_with(
            spec_finish_resolve_new(
                parent_canonical,
                mount_canonical,
                spec_resolve_new_request(ms, name, rel)->Ok_0.1,
            )->Ok_0,
            mount_canonical->Ok_0,
        ),
        path_file_name(
            spec_finish_resolve_new(
                parent_canonical,
                mount_canonical,
                spec_resolve_new_request(ms, name, rel)->Ok_0.1,
            )->Ok_0,
        ) == path_file_name(spec_resolve_request(ms, name, rel)->Ok_0.0),
        strip_skipped_back(parent_canonical->Ok_0, body_start(parent_canonical->Ok_0))
            == parent_canonical->Ok_0 ==> path_parent(
            spec_finish_resolve_new(
                parent_canonical,
                mount_canonical,
                spec_resolve_new_request(ms, name, rel)->Ok_0.1,
            )->Ok_0,
        ) == Some(parent_canonical->Ok_0),
{
    let full = spec_resolve_request(ms, name, rel)->Ok_0.0;
    lemma_file_name_is_plain(full);
    let n = path_file_name(full)->Some_0;
    lemma_join_name_stays_within(parent_canonical->Ok_0, mount_canonical->Ok_0, n);
    law_join_name_parts(parent_canonical->Ok_0, n);
}

/// A relative path without `..` is joined to the first mount point of the
/// name asked for: the full path is that mount's path joined with the
/// relative path (its leading `/` removed), and the mount path is that
/// mount's own path. A name that no mount point has is refused.
pub proof fn law_resolve_uses_named_mount(
    ms: Seq<(Seq<char>, Seq<char>)>,
    name: Seq<char>,
    rel: Seq<char>,
    i: int,
)
    requires
        0 <= i < ms.len(),
        ms[i].0 == name,
        forall|j: int| 0 <= j < i ==> #[trigger] ms[j].0 != name,
        !spec_has_path_traversal(rel),
    ensures
        spec_resolve_request(ms, name, rel) == Ok::<(Seq<char>, Seq<char>), Seq<char>>(
            (path_join(ms[i].1, trim_leading_slashes(rel)), ms[i].1),
        ),
{
    lemma_find_mount(ms, name, i);
}

/// The relative path without its leading `/` characters: what follows the
/// run of `/` at its start.
proof fn lemma_trim_leading_slashes(s: Seq<char>) -> (k: int)
    ensures
        0 <= k <= s.len(),
        forall|j: int| 0 <= j < k ==> #[trigger] s[j] == '/',
        k < s.len() ==> s[k] != '/',
        trim_leading_slashes(s) == s.skip(k),
    decreases s.len(),
{
    if s.len() > 0 && s[0] == '/' {
        let t = s.drop_first();
        let k1 = lemma_trim_leading_slashes(t);
        assert forall|j: int| 0 <= j < k1 + 1 implies #[trigger] s[j] == '/' by {
            if j > 0 {
                assert(s[j] == t[j - 1]);
            }
        }
        assert(t.skip(k1) =~= s.skip(k1 + 1));
        k1 + 1
    } else {
        assert(s.skip(0) =~= s);
        0
    }
}

/// Under a mount path that does not end with `/`, the full path of a
/// resolved relative path is the mount path, one `/`, and the relative path
/// after the run of `/` at its start.
pub proof fn law_resolved_full_path(
    ms: Seq<(Seq<char>, Seq<char>)>,
    name: Seq<char>,
    rel: Seq<char>,
    i: int,
)
    requires
        0 <= i < ms.len(),
        ms[i].0 == name,
        forall|j: int| 0 <= j < i ==> #[trigger] ms[j].0 != name,
        !spec_has_path_traversal(rel),
        ms[i].1.len() > 0,
        ms[i].1.last() != '/',
    ensures
        exists|k: int|
            0 <= k <= rel.len() && (forall|j: int| 0 <= j < k ==> #[trigger] rel[j] == '/') && (k
                < rel.len() ==> rel[k] != '/') && spec_resolve_request(ms, name, rel) == Ok::<
                (Seq<char>, Seq<char>),
                Seq<char>,
            >((ms[i].1 + seq!['/'] + #[trigger] rel.skip(k), ms[i].1)),
{
    lemma_find_mount(ms, name, i);
    let k = lemma_trim_leading_slashes(rel);
    assert(!has_root(rel.skip(k)));
}

/// A mount point name that is not configured is refused, whatever the path.
pub proof fn law_unknown_mount_refused(
    ms: Seq<(Seq<char>, Seq<char>)>,
    name: Seq<char>,
    rel: Seq<char>,
)
    requires
        forall|j: int| 0 <= j < ms.len() ==> #[trigger] ms[j].0 != name,
    ensures
        spec_resolve_request(ms, name, rel) == Err::<(Seq<char>, Seq<char>), Seq<char>>(
            unknown_mount_message(name),
        ),
{
    lemma_find_mount(ms, name, ms.len() as int);
}

/// A relative path with a `..` component is refused before anything is
/// made canonical.
pub proof fn law_traversal_refused(
    ms: Seq<(Seq<char>, Seq<char>)>,
    name: Seq<char>,
    rel: Seq<char>,
)
    requires
        find_mount(ms, name) is Some,
        spec_has_path_traversal(rel),
    ensures
        spec_resolve_request(ms, name, rel) == Err::<(Seq<char>, Seq<char>), Seq<char>>(
            traversal_message(),
        ),
        spec_resolve_new_request(ms, name, rel) == Err::<
            (Seq<char>, Option<Seq<char>>, Seq<char>),
            Seq<char>,
        >(traversal_message()),
{
}

} // verus!
