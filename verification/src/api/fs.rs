//! The decisions of the file endpoints: byte ranges, upload file names,
//! pagination of listings and the optimistic concurrency check.
use vstd::prelude::*;

use crate::error::{AppError, ErrorView};
use crate::fs::path::{
    file_name_chars, is_plain_name, lemma_file_name_is_plain, lemma_plain_name_is_file_name,
    path_file_name,
};
use crate::text::{
    chars_of, decimal, decimal_string, find_char, find_char_index, lemma_find_char_found,
    parse_unsigned_chars, spec_parse_unsigned, string_of, all_digits, digits_value, is_digit, lemma_find_char, sub_chars, utf8_len, utf8_len_exceeds, parse_i64, parse_u64, spec_parse_i64,
};

verus! {

/// The longest file name accepted on upload, in bytes.
pub const MAX_FILENAME_LEN: usize = 255;

/// The largest page of a listing.
pub const MAX_PAGE_LIMIT: usize = 1000;

/// The page of a listing when none is asked for.
pub const DEFAULT_PAGE: usize = 1;

/// The size of a page of a listing when none is asked for.
pub const DEFAULT_PAGE_LIMIT: usize = 100;

/// The query of the file endpoints.
pub struct FsQuery {
    pub mount: String,
    pub path: Option<String>,
    pub page: Option<usize>,
    pub limit: Option<usize>,
}

/// The body of a rename request.
pub struct RenameBody {
    pub mount: String,
    pub from: String,
    pub to: String,
}

/// The text after `bytes=` split at its first `-`.
pub open spec fn spec_range_parts(range: Seq<char>) -> Option<(Seq<char>, Seq<char>)> {
    if range.len() >= 6 && range.take(6) == seq!['b', 'y', 't', 'e', 's', '='] {
        let rest = range.skip(6);
        match find_char(rest, '-') {
            None => None,
            Some(i) => Some((rest.take(i), rest.skip(i + 1))),
        }
    } else {
        None
    }
}

/// The single byte range of a `Range` header, inclusive at both ends: the
/// start must lie within the file and not after the end; an end past the
/// file is cut to its last byte. `None` means the range is not satisfiable.
pub open spec fn spec_parse_range(range: Seq<char>, size: nat) -> Option<(nat, nat)> {
    match spec_range_parts(range) {
        None => None,
        Some((a, b)) => match spec_parse_unsigned(a, u64::MAX as nat) {
            None => None,
            Some(start) => {
                let end_opt: Option<int> = if b.len() == 0 {
                    Some(size - 1)
                } else {
                    match spec_parse_unsigned(b, u64::MAX as nat) {
                        Some(e) => Some(e as int),
                        None => None,
                    }
                };
                match end_opt {
                    None => None,
                    Some(end) => if start > end || start >= size {
                        None
                    } else {
                        Some((start, if end < size - 1 { end as nat } else { (size - 1) as nat }))
                    },
                }
            },
        },
    }
}

/// Parses a single byte range from a `Range` header; the end is inclusive.
/// An empty file has no satisfiable range.
pub fn parse_range_header(range: &str, file_size: u64) -> (r: Option<(u64, u64)>)
    ensures
        match r {
            Some((s, e)) => spec_parse_range(range@, file_size as nat) == Some((s as nat, e as nat)),
            None => spec_parse_range(range@, file_size as nat) is None,
        },
{
    let chars = chars_of(range);
    if !(chars.len() >= 6 && chars[0] == 'b' && chars[1] == 'y' && chars[2] == 't' && chars[3]
        == 'e' && chars[4] == 's' && chars[5] == '=') {
        assert(spec_range_parts(range@) is None) by {
            if range@.len() >= 6 && range@.take(6) == seq!['b', 'y', 't', 'e', 's', '='] {
                assert(range@.take(6)[0] == range@[0]);
                assert(range@.take(6)[1] == range@[1]);
                assert(range@.take(6)[2] == range@[2]);
                assert(range@.take(6)[3] == range@[3]);
                assert(range@.take(6)[4] == range@[4]);
                assert(range@.take(6)[5] == range@[5]);
            }
        }
        return None;
    }
    assert(range@.take(6) =~= seq!['b', 'y', 't', 'e', 's', '=']);
    let rest = sub_chars(chars.as_slice(), 6, chars.len());
    assert(rest@ =~= range@.skip(6));
    proof {
        lemma_find_char_found(rest@, '-');
    }
    let dash = match find_char_index(rest.as_slice(), '-') {
        None => {
            return None;
        },
        Some(i) => i,
    };
    let a = sub_chars(rest.as_slice(), 0, dash);
    let b = sub_chars(rest.as_slice(), dash + 1, rest.len());
    assert(a@ =~= rest@.take(dash as int));
    assert(b@ =~= rest@.skip(dash + 1));
    let start = match parse_unsigned_chars(a.as_slice(), u64::MAX) {
        None => {
            return None;
        },
        Some(s) => s,
    };
    if file_size == 0 {
        return None;
    }
    let end = if b.len() == 0 {
        file_size - 1
    } else {
        match parse_unsigned_chars(b.as_slice(), u64::MAX) {
            None => {
                return None;
            },
            Some(e) => e,
        }
    };
    if start > end || start >= file_size {
        return None;
    }
    let last = file_size - 1;
    Some((start, if end < last { end } else { last }))
}

/// The name under which an upload is stored, or why it is refused.
pub open spec fn spec_sanitize_filename(filename: Seq<char>) -> Result<Seq<char>, Seq<char>> {
    match path_file_name(filename) {
        None => Err("Invalid filename"@),
        Some(base) => if base.len() == 0 {
            Err("Empty filename"@)
        } else if utf8_len(base) > MAX_FILENAME_LEN {
            Err("Filename too long (max 255 bytes)"@)
        } else {
            Ok(base)
        },
    }
}

/// The name under which an uploaded file is stored: the last component of
/// the name the client gave, at most `MAX_FILENAME_LEN` bytes long.
pub fn sanitize_filename(filename: &str) -> (r: Result<String, String>)
    ensures
        match r {
            Ok(s) => spec_sanitize_filename(filename@) == Ok::<Seq<char>, Seq<char>>(s@),
            Err(e) => spec_sanitize_filename(filename@) == Err::<Seq<char>, Seq<char>>(e@),
        },
{
    let chars = chars_of(filename);
    let base = match file_name_chars(chars.as_slice()) {
        None => {
            return Err(String::from_str("Invalid filename"));
        },
        Some(b) => b,
    };
    if base.len() == 0 {
        return Err(String::from_str("Empty filename"));
    }
    if utf8_len_exceeds(base.as_slice(), MAX_FILENAME_LEN as u64) {
        return Err(String::from_str("Filename too long (max 255 bytes)"));
    }
    Ok(string_of(base.as_slice()))
}


/// A satisfiable range starts with `bytes=`, its start is the number before
/// the first `-`, and it lies within the file, its start not after its end.
/// An empty file has no satisfiable range.
pub proof fn law_range_within_file(range: Seq<char>, size: nat)
    ensures
        spec_parse_range(range, size) is Some ==> {
            &&& range.len() >= 6 && range.take(6) == seq!['b', 'y', 't', 'e', 's', '=']
            &&& spec_parse_unsigned(spec_range_parts(range)->Some_0.0, u64::MAX as nat) == Some(
                spec_parse_range(range, size)->Some_0.0,
            )
            &&& spec_parse_range(range, size)->Some_0.0 <= spec_parse_range(range, size)->Some_0.1
            &&& spec_parse_range(range, size)->Some_0.1 < size
        },
        size == 0 ==> spec_parse_range(range, 0) is None,
{
}

/// For a header `bytes=a-b` with `a` and `b` written in decimal, the range
/// is satisfiable exactly when `a <= b` and `a` lies within the file, and
/// then runs from `a` to `b` or to the last byte, whichever comes first; a
/// single byte (`a == b`) inside the file is satisfiable. For `bytes=a-` it
/// runs from `a` to the last byte whenever `a` lies within the file.
pub proof fn law_range_of_decimal_bounds(a: Seq<char>, b: Seq<char>, size: nat)
    requires
        a.len() > 0,
        all_digits(a),
        all_digits(b),
        digits_value(a) <= u64::MAX,
        digits_value(b) <= u64::MAX,
    ensures
        ({
            let range = seq!['b', 'y', 't', 'e', 's', '='] + a + seq!['-'] + b;
            let first = digits_value(a);
            let last = digits_value(b);
            &&& b.len() > 0 ==> spec_parse_range(range, size) == if first <= last && first < size {
                Some((first, if last < size { last } else { (size - 1) as nat }))
            } else {
                None
            }
            &&& b.len() == 0 ==> spec_parse_range(range, size) == if first < size {
                Some((first, (size - 1) as nat))
            } else {
                None
            }
        }),
{
    let range = seq!['b', 'y', 't', 'e', 's', '='] + a + seq!['-'] + b;
    assert(range.len() >= 6);
    assert(range.take(6) =~= seq!['b', 'y', 't', 'e', 's', '=']);
    let rest = range.skip(6);
    assert(rest =~= a + seq!['-'] + b);
    assert forall|j: int| 0 <= j < a.len() implies #[trigger] rest[j] != '-' by {
        assert(rest[j] == a[j]);
        assert(is_digit(a[j]));
    }
    assert(rest[a.len() as int] == '-');
    lemma_find_char(rest, '-', a.len() as int);
    assert(rest.take(a.len() as int) =~= a);
    assert(rest.skip(a.len() as int + 1) =~= b);
    assert(is_digit(a[0]));
    assert(spec_parse_unsigned(a, u64::MAX as nat) == Some(digits_value(a)));
    if b.len() > 0 {
        assert(is_digit(b[0]));
        assert(spec_parse_unsigned(b, u64::MAX as nat) == Some(digits_value(b)));
    }
}

/// The concurrency check passes exactly when the file does not exist, or
/// each of the time and the size that the client gave is the current one;
/// a differing time is reported as such, and a differing size is a conflict
/// whatever the time, reported as a size mismatch where the time matched.
pub proof fn law_occ_compares_time_and_size(
    expected_mtime: Option<i64>,
    expected_size: Option<u64>,
    current: Option<(u64, i64)>,
)
    ensures
        spec_check_occ(expected_mtime, expected_size, current) is Ok <==> (current is None || ((
        expected_mtime is None || expected_mtime->Some_0 == current->Some_0.1) && (expected_size is None
            || expected_size->Some_0 == current->Some_0.0))),
        current is Some && expected_mtime is Some && expected_mtime->Some_0 != current->Some_0.1
            ==> spec_check_occ(expected_mtime, expected_size, current) == Err::<(), Seq<char>>(
            mtime_mismatch_message(),
        ),
        current is Some && expected_size is Some && expected_size->Some_0 != current->Some_0.0
            ==> spec_check_occ(expected_mtime, expected_size, current) is Err,
        current is Some && expected_size is Some && expected_size->Some_0 != current->Some_0.0 && !(
        expected_mtime is Some && expected_mtime->Some_0 != current->Some_0.1) ==> spec_check_occ(
            expected_mtime,
            expected_size,
            current,
        ) == Err::<(), Seq<char>>(size_mismatch_message()),
{
}

/// A stored upload name is a single plain name (no directory part, not `.`
/// or `..`) of at most `MAX_FILENAME_LEN` bytes, the file name of what the
/// client gave; sanitizing it again keeps it.
pub proof fn law_sanitized_name_is_plain(filename: Seq<char>)
    requires
        spec_sanitize_filename(filename) is Ok,
    ensures
        is_plain_name(spec_sanitize_filename(filename)->Ok_0),
        utf8_len(spec_sanitize_filename(filename)->Ok_0) <= MAX_FILENAME_LEN,
        path_file_name(filename) == Some(spec_sanitize_filename(filename)->Ok_0),
        spec_sanitize_filename(spec_sanitize_filename(filename)->Ok_0) == spec_sanitize_filename(
            filename,
        ),
{
    lemma_file_name_is_plain(filename);
    lemma_plain_name_is_file_name(spec_sanitize_filename(filename)->Ok_0);
}

/// A plain name is stored under itself exactly when it is at most
/// `MAX_FILENAME_LEN` bytes long.
pub proof fn law_plain_name_kept(name: Seq<char>)
    requires
        is_plain_name(name),
    ensures
        spec_sanitize_filename(name) is Ok <==> utf8_len(name) <= MAX_FILENAME_LEN,
        spec_sanitize_filename(name) is Ok ==> spec_sanitize_filename(name) == Ok::<
            Seq<char>,
            Seq<char>,
        >(name),
{
    lemma_plain_name_is_file_name(name);
}

/// The page asked for, or the first; never below one.
pub open spec fn effective_page(page: Option<usize>) -> nat {
    let p = match page {
        Some(p) => p,
        None => DEFAULT_PAGE,
    };
    if p < 1 {
        1
    } else {
        p as nat
    }
}

/// The page size asked for, or the default; between one and
/// `MAX_PAGE_LIMIT`.
pub open spec fn effective_limit(limit: Option<usize>) -> nat {
    let l = match limit {
        Some(l) => l,
        None => DEFAULT_PAGE_LIMIT,
    };
    if l < 1 {
        1
    } else if l > MAX_PAGE_LIMIT {
        MAX_PAGE_LIMIT as nat
    } else {
        l as nat
    }
}

/// Where a page starts in the listing.
pub open spec fn page_start(page: Option<usize>, limit: Option<usize>) -> nat {
    ((effective_page(page) - 1) * effective_limit(limit)) as nat
}

/// Whether the offsets of a page fit in a `usize`, as `paginate` needs.
pub fn page_fits(page: Option<usize>, limit: Option<usize>) -> (b: bool)
    ensures
        b == (effective_page(page) * effective_limit(limit) <= usize::MAX),
{
    let p = match page {
        Some(p) => p,
        None => DEFAULT_PAGE,
    };
    let p = if p < 1 {
        1
    } else {
        p
    };
    let l = match limit {
        Some(l) => l,
        None => DEFAULT_PAGE_LIMIT,
    };
    let l = if l < 1 {
        1
    } else if l > MAX_PAGE_LIMIT {
        MAX_PAGE_LIMIT
    } else {
        l
    };
    p.checked_mul(l).is_some()
}

/// What a listing reports beside its entries.
pub struct PageInfo {
    pub total: usize,
    pub page: usize,
    pub limit: usize,
    pub has_more: bool,
}

/// One page of a listing: the entries from the page's start, at most a page
/// size of them, and whether entries follow. The product of page and page
/// size fits in a `usize` (the offsets are computed in `usize`).
pub fn paginate<T>(entries: Vec<T>, page: Option<usize>, limit: Option<usize>) -> (r: (
    Vec<T>,
    PageInfo,
))
    requires
        effective_page(page) * effective_limit(limit) <= usize::MAX,
    ensures
        r.1.total == entries@.len(),
        r.1.page == effective_page(page),
        r.1.limit == effective_limit(limit),
        r.1.has_more == (page_start(page, limit) + effective_limit(limit) < entries@.len()),
        r.0@ == entries@.subrange(
            if page_start(page, limit) < entries@.len() {
                page_start(page, limit) as int
            } else {
                entries@.len() as int
            },
            if page_start(page, limit) + effective_limit(limit) < entries@.len() {
                (page_start(page, limit) + effective_limit(limit)) as int
            } else {
                entries@.len() as int
            },
        ),
{
    let total = entries.len();
    let p = match page {
        Some(p) => p,
        None => DEFAULT_PAGE,
    };
    let p = if p < 1 {
        1
    } else {
        p
    };
    let l = match limit {
        Some(l) => l,
        None => DEFAULT_PAGE_LIMIT,
    };
    let l = if l < 1 {
        1
    } else if l > MAX_PAGE_LIMIT {
        MAX_PAGE_LIMIT
    } else {
        l
    };
    assert((p - 1) * l + l == p * l) by (nonlinear_arith)
        requires
            p >= 1,
    ;
    assert((p - 1) * l <= p * l) by (nonlinear_arith)
        requires
            p >= 1,
    ;
    let start = (p - 1) * l;
    let has_more = start + l < total;
    let from = if start < total {
        start
    } else {
        total
    };
    let mut rest = entries;
    let mut page_entries = rest.split_off(from);
    if page_entries.len() > l {
        page_entries.truncate(l);
    }
    (page_entries, PageInfo { total, page: p, limit: l, has_more })
}

/// Successive pages tile the listing: a page holds entries exactly when it
/// starts before the end, and `has_more` says that the next page does.
pub proof fn law_pages_tile(total: nat, page: usize, limit: Option<usize>)
    requires
        1 <= page < usize::MAX,
    ensures
        page_start(Some(page), limit) + effective_limit(limit) == page_start(
            Some((page + 1) as usize),
            limit,
        ),
{
    let l = effective_limit(limit);
    assert((page - 1) * l + l == page * l) by (nonlinear_arith);
}

/// The text of a conflict found by the concurrency check.
pub open spec fn mtime_mismatch_message() -> Seq<char> {
    "file has been modified since last read (mtime mismatch)"@
}

/// The text of a conflict found by the concurrency check.
pub open spec fn size_mismatch_message() -> Seq<char> {
    "file has been modified since last read (size mismatch)"@
}

/// Whether an upload asks for the concurrency check.
pub open spec fn spec_occ_requested(expected_mtime: Option<i64>, expected_size: Option<u64>) -> bool {
    expected_mtime is Some || expected_size is Some
}

/// The optimistic concurrency check of an upload: where the client gave the
/// modification time or size it last saw, and the file exists, they must be
/// the current ones (the time is checked first).
pub open spec fn spec_check_occ(
    expected_mtime: Option<i64>,
    expected_size: Option<u64>,
    current: Option<(u64, i64)>,
) -> Result<(), Seq<char>> {
    if !spec_occ_requested(expected_mtime, expected_size) {
        Ok(())
    } else {
        match current {
            None => Ok(()),
            Some((size, mtime)) => if expected_mtime is Some && expected_mtime->Some_0 != mtime {
                Err(mtime_mismatch_message())
            } else if expected_size is Some && expected_size->Some_0 != size {
                Err(size_mismatch_message())
            } else {
                Ok(())
            },
        }
    }
}

/// Whether an upload asks for the concurrency check (and the file must be
/// looked at).
pub fn occ_requested(expected_mtime: Option<i64>, expected_size: Option<u64>) -> (b: bool)
    ensures
        b == spec_occ_requested(expected_mtime, expected_size),
{
    expected_mtime.is_some() || expected_size.is_some()
}

/// The view of an outcome with nothing to return.
pub open spec fn unit_view(r: Result<(), AppError>) -> Result<(), ErrorView> {
    match r {
        Ok(()) => Ok(()),
        Err(e) => Err(e@),
    }
}

/// Runs the concurrency check given the file's current size and modification
/// time (`None` where the file does not exist); a mismatch is a conflict.
pub fn check_occ(expected_mtime: Option<i64>, expected_size: Option<u64>, current: Option<(u64, i64)>) -> (r:
    Result<(), AppError>)
    ensures
        unit_view(r) == match spec_check_occ(expected_mtime, expected_size, current) {
            Ok(()) => Ok::<(), ErrorView>(()),
            Err(m) => Err(ErrorView::Conflict(m)),
        },
{
    if !occ_requested(expected_mtime, expected_size) {
        return Ok(());
    }
    match current {
        None => Ok(()),
        Some((size, mtime)) => {
            match expected_mtime {
                Some(m) => {
                    if m != mtime {
                        return Err(
                            AppError::Conflict(
                                String::from_str(
                                    "file has been modified since last read (mtime mismatch)",
                                ),
                            ),
                        );
                    }
                },
                None => {},
            }
            match expected_size {
                Some(sz) => {
                    if sz != size {
                        return Err(
                            AppError::Conflict(
                                String::from_str(
                                    "file has been modified since last read (size mismatch)",
                                ),
                            ),
                        );
                    }
                },
                None => {},
            }
            Ok(())
        },
    }
}

/// The `X-Expected-MTime` header, read as an `i64`.
pub fn expected_mtime(header: Option<&str>) -> (r: Option<i64>)
    ensures
        r == match header {
            Some(h) => match spec_parse_i64(h@) {
                Some(v) => Some(v as i64),
                None => None,
            },
            None => None::<i64>,
        },
{
    match header {
        Some(h) => parse_i64(h),
        None => None,
    }
}

/// The `X-Expected-Size` header, read as a `u64`.
pub fn expected_size(header: Option<&str>) -> (r: Option<u64>)
    ensures
        r == match header {
            Some(h) => match spec_parse_unsigned(h@, u64::MAX as nat) {
                Some(v) => Some(v as u64),
                None => None,
            },
            None => None::<u64>,
        },
{
    match header {
        Some(h) => parse_u64(h),
        None => None,
    }
}

/// Where an uploaded part goes: its sanitized file name (the name
/// `unnamed` where the part has none), and the relative path
/// `{path}/{name}`, with an empty path where the query has none.
pub open spec fn spec_upload_target(query_path: Option<Seq<char>>, raw_filename: Option<Seq<char>>) -> Result<
    (Seq<char>, Seq<char>),
    ErrorView,
> {
    let raw = match raw_filename {
        Some(f) => f,
        None => "unnamed"@,
    };
    match spec_sanitize_filename(raw) {
        Err(e) => Err(ErrorView::BadRequest(e)),
        Ok(name) => Ok(
            (
                name,
                match query_path {
                    Some(p) => p,
                    None => Seq::empty(),
                } + seq!['/'] + name,
            ),
        ),
    }
}

/// The file name and relative path of an uploaded part.
pub fn upload_target(query_path: Option<&str>, raw_filename: Option<&str>) -> (r: Result<
    (String, String),
    AppError,
>)
    ensures
        match r {
            Ok((name, rel)) => spec_upload_target(
                match query_path {
                    Some(p) => Some(p@),
                    None => None,
                },
                match raw_filename {
                    Some(f) => Some(f@),
                    None => None,
                },
            ) == Ok::<(Seq<char>, Seq<char>), ErrorView>((name@, rel@)),
            Err(e) => spec_upload_target(
                match query_path {
                    Some(p) => Some(p@),
                    None => None,
                },
                match raw_filename {
                    Some(f) => Some(f@),
                    None => None,
                },
            ) == Err::<(Seq<char>, Seq<char>), ErrorView>(e@),
        },
{
    let sanitized = match raw_filename {
        Some(f) => sanitize_filename(f),
        None => sanitize_filename("unnamed"),
    };
    let name = match sanitized {
        Err(e) => {
            return Err(AppError::BadRequest(e));
        },
        Ok(n) => n,
    };
    let mut rel = match query_path {
        Some(p) => String::from_str(p),
        None => String::new(),
    };
    rel.append("/");
    rel.append(name.as_str());
    proof {
        reveal_strlit("/");
    }
    let ghost base = match query_path {
        Some(p) => p@,
        None => Seq::<char>::empty(),
    };
    assert(rel@ =~= base + seq!['/'] + name@);
    Ok((name, rel))
}

/// The path of a delete or mkdir request, which must be given.
pub fn require_path(path: Option<&str>) -> (r: Result<String, AppError>)
    ensures
        match path {
            Some(p) => r matches Ok(s) && s@ == p@,
            None => r matches Err(e) && e@ == ErrorView::BadRequest("path is required"@),
        },
{
    match path {
        Some(p) => Ok(String::from_str(p)),
        None => Err(AppError::BadRequest(String::from_str("path is required"))),
    }
}

/// The directory listed or watched: the path given, or the mount's root.
pub fn path_or_root(path: Option<&str>) -> (r: String)
    ensures
        r@ == match path {
            Some(p) => p@,
            None => "/"@,
        },
{
    match path {
        Some(p) => String::from_str(p),
        None => String::from_str("/"),
    }
}

/// A rename stays within one mount point: the body's and the query's must
/// be the same.
pub fn check_same_mount(body_mount: &str, query_mount: &str) -> (r: Result<(), AppError>)
    ensures
        body_mount@ == query_mount@ ==> r is Ok,
        body_mount@ != query_mount@ ==> (r matches Err(e) && e@ == ErrorView::BadRequest(
            "source and target mount must match"@,
        )),
{
    if String::from_str(body_mount) == String::from_str(query_mount) {
        Ok(())
    } else {
        Err(AppError::BadRequest(String::from_str("source and target mount must match")))
    }
}

/// How a download is answered.
pub enum DownloadReply {
    /// The whole file.
    Full { content_disposition: String },
    /// The bytes `start..=end`, with status 206.
    Partial {
        start: u64,
        end: u64,
        content_range: String,
        content_length: u64,
        content_disposition: String,
    },
    /// Status 416: the range cannot be served.
    NotSatisfiable { content_range: String },
}

/// The name offered for a downloaded file: the resolved path's file name, or
/// `download`.
pub open spec fn spec_download_name(resolved: Seq<char>) -> Seq<char> {
    match path_file_name(resolved) {
        Some(n) => n,
        None => "download"@,
    }
}

/// The `Content-Disposition` of a download.
pub open spec fn spec_content_disposition(resolved: Seq<char>) -> Seq<char> {
    "attachment; filename=\""@ + spec_download_name(resolved) + "\""@
}

/// The `Content-Range` of a partial download.
pub open spec fn spec_partial_range(start: nat, end: nat, size: nat) -> Seq<char> {
    "bytes "@ + decimal(start) + "-"@ + decimal(end) + "/"@ + decimal(size)
}

/// The `Content-Range` of a range that cannot be served.
pub open spec fn spec_unsatisfied_range(size: nat) -> Seq<char> {
    "bytes */"@ + decimal(size)
}

fn content_disposition(resolved: &str) -> (s: String)
    ensures
        s@ == spec_content_disposition(resolved@),
{
    let mut s = String::from_str("attachment; filename=\"");
    match file_name_chars(chars_of(resolved).as_slice()) {
        Some(n) => s.append(string_of(n.as_slice()).as_str()),
        None => s.append("download"),
    }
    s.append("\"");
    s
}

/// How to answer a download of the file at `resolved`, `file_size` bytes
/// long, given its `Range` header if any.
pub fn download_reply(resolved: &str, file_size: u64, range_header: Option<&str>) -> (r:
    DownloadReply)
    ensures
        match range_header {
            None => r matches DownloadReply::Full { content_disposition } && content_disposition@
                == spec_content_disposition(resolved@),
            Some(h) => match spec_parse_range(h@, file_size as nat) {
                Some((s, e)) => r matches DownloadReply::Partial {
                    start,
                    end,
                    content_range,
                    content_length,
                    content_disposition,
                } && start == s && end == e && content_length == e - s + 1 && content_range@
                    == spec_partial_range(s, e, file_size as nat) && content_disposition@
                    == spec_content_disposition(resolved@),
                None => r matches DownloadReply::NotSatisfiable { content_range } && content_range@
                    == spec_unsatisfied_range(file_size as nat),
            },
        },
{
    match range_header {
        None => DownloadReply::Full { content_disposition: content_disposition(resolved) },
        Some(h) => match parse_range_header(h, file_size) {
            Some((start, end)) => {
                let mut cr = String::from_str("bytes ");
                cr.append(decimal_string(start).as_str());
                cr.append("-");
                cr.append(decimal_string(end).as_str());
                cr.append("/");
                cr.append(decimal_string(file_size).as_str());
                DownloadReply::Partial {
                    start,
                    end,
                    content_range: cr,
                    content_length: end - start + 1,
                    content_disposition: content_disposition(resolved),
                }
            },
            None => {
                let mut cr = String::from_str("bytes */");
                cr.append(decimal_string(file_size).as_str());
                DownloadReply::NotSatisfiable { content_range: cr }
            },
        },
    }
}

/// The bytes `start..=end` of a file.
pub fn byte_range(data: &[u8], start: u64, end: u64) -> (r: Vec<u8>)
    requires
        start <= end < data@.len(),
    ensures
        r@ == data@.subrange(start as int, end + 1),
{
    let mut r: Vec<u8> = Vec::new();
    let n = data.len();
    assert(end < n);
    let mut i: usize = start as usize;
    let stop: usize = end as usize;
    while i <= stop
        invariant
            start <= i <= stop + 1,
            stop == end,
            stop < data@.len(),
            r@ == data@.subrange(start as int, i as int),
        decreases stop + 1 - i,
    {
        r.push(data[i]);
        i = i + 1;
        assert(r@ =~= data@.subrange(start as int, i as int));
    }
    r
}

} // verus!
