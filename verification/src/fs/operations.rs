//! What the file operations compute beside the filesystem calls: the order
//! of a directory listing.
use vstd::prelude::*;

use crate::text::chars_of;

verus! {

broadcast use vstd::seq_lib::group_to_multiset_ensures;

/// One entry of a directory listing. `modified` is in milliseconds since the
/// Unix epoch.
#[derive(Debug)]
pub struct DirEntry {
    pub name: String,
    pub is_dir: bool,
    pub size: u64,
    pub modified: i64,
}

/// Whether `a` comes before or equals `b` in the order of `String`'s `Ord`
/// (byte order, which in UTF-8 is the order of the characters).
pub open spec fn name_le(a: Seq<char>, b: Seq<char>) -> bool
    decreases a.len(),
{
    if a.len() == 0 {
        true
    } else if b.len() == 0 {
        false
    } else if a[0] != b[0] {
        a[0] < b[0]
    } else {
        name_le(a.drop_first(), b.drop_first())
    }
}

/// Whether the entries are in the order of their names.
pub open spec fn sorted_by_name(s: Seq<DirEntry>) -> bool {
    forall|i: int, j: int| 0 <= i < j < s.len() ==> name_le(#[trigger] s[i].name@, #[trigger] s[j].name@)
}

pub proof fn lemma_name_le_total(a: Seq<char>, b: Seq<char>)
    ensures
        name_le(a, b) || name_le(b, a),
    decreases a.len(),
{
    if a.len() > 0 && b.len() > 0 && a[0] == b[0] {
        lemma_name_le_total(a.drop_first(), b.drop_first());
    }
}

pub proof fn lemma_name_le_trans(a: Seq<char>, b: Seq<char>, c: Seq<char>)
    requires
        name_le(a, b),
        name_le(b, c),
    ensures
        name_le(a, c),
    decreases a.len(),
{
    if a.len() > 0 && b.len() > 0 && c.len() > 0 && a[0] == b[0] && b[0] == c[0] {
        lemma_name_le_trans(a.drop_first(), b.drop_first(), c.drop_first());
    }
}

fn name_le_exec(a: &[char], b: &[char]) -> (r: bool)
    ensures
        r == name_le(a@, b@),
{
    let mut i: usize = 0;
    assert(a@.skip(0) =~= a@);
    assert(b@.skip(0) =~= b@);
    while i < a.len() && i < b.len() && a[i] == b[i]
        invariant
            i <= a@.len(),
            i <= b@.len(),
            forall|j: int| 0 <= j < i ==> a@[j] == b@[j],
            name_le(a@, b@) == name_le(a@.skip(i as int), b@.skip(i as int)),
        decreases a@.len() - i,
    {
        assert(a@.skip(i as int).drop_first() =~= a@.skip(i + 1));
        assert(b@.skip(i as int).drop_first() =~= b@.skip(i + 1));
        i = i + 1;
    }
    if i == a.len() {
        assert(a@.skip(i as int).len() == 0);
        true
    } else if i == b.len() {
        false
    } else {
        a[i] < b[i]
    }
}

/// The entries named `n`, in their order.
pub open spec fn with_name(s: Seq<DirEntry>, n: Seq<char>) -> Seq<DirEntry>
    decreases s.len(),
{
    if s.len() == 0 {
        s
    } else if s.last().name@ == n {
        with_name(s.drop_last(), n).push(s.last())
    } else {
        with_name(s.drop_last(), n)
    }
}

pub proof fn lemma_name_le_refl(a: Seq<char>)
    ensures
        name_le(a, a),
    decreases a.len(),
{
    if a.len() > 0 {
        lemma_name_le_refl(a.drop_first());
    }
}

proof fn lemma_with_name_concat(a: Seq<DirEntry>, b: Seq<DirEntry>, n: Seq<char>)
    ensures
        with_name(a + b, n) == with_name(a, n) + with_name(b, n),
    decreases b.len(),
{
    if b.len() == 0 {
        assert(a + b =~= a);
        assert(with_name(a, n) + with_name(b, n) =~= with_name(a, n));
    } else {
        lemma_with_name_concat(a, b.drop_last(), n);
        assert((a + b).drop_last() =~= a + b.drop_last());
        assert((a + b).last() == b.last());
        if b.last().name@ == n {
            assert(with_name(a, n) + with_name(b.drop_last(), n).push(b.last()) =~= (with_name(
                a,
                n,
            ) + with_name(b.drop_last(), n)).push(b.last()));
        }
    }
}

proof fn lemma_with_name_none(s: Seq<DirEntry>, n: Seq<char>)
    requires
        forall|k: int| 0 <= k < s.len() ==> (#[trigger] s[k]).name@ != n,
    ensures
        with_name(s, n) == Seq::<DirEntry>::empty(),
    decreases s.len(),
{
    if s.len() > 0 {
        let t = s.drop_last();
        assert forall|k: int| 0 <= k < t.len() implies (#[trigger] t[k]).name@ != n by {
            assert(t[k] == s[k]);
        }
        lemma_with_name_none(t, n);
    }
}

proof fn lemma_with_name_single(e: DirEntry, n: Seq<char>)
    ensures
        with_name(seq![e], n) == (if e.name@ == n {
            seq![e]
        } else {
            Seq::<DirEntry>::empty()
        }),
{
    let one = seq![e];
    assert(one.len() == 1);
    assert(one.drop_last() =~= Seq::<DirEntry>::empty());
    assert(one.last() == e);
    assert(with_name(Seq::<DirEntry>::empty(), n) == Seq::<DirEntry>::empty());
    assert(with_name(one, n) == if e.name@ == n {
        with_name(one.drop_last(), n).push(e)
    } else {
        with_name(one.drop_last(), n)
    });
    assert(Seq::<DirEntry>::empty().push(e) =~= seq![e]);
}

proof fn lemma_with_name_count(s: Seq<DirEntry>, n: Seq<char>, i: int, j: int)
    requires
        0 <= i < s.len(),
        s[i].name@ == n,
        j == -1 || (i < j < s.len() && s[j].name@ == n),
    ensures
        with_name(s, n).len() >= if j == -1 {
            1int
        } else {
            2int
        },
    decreases s.len(),
{
    let t = s.drop_last();
    if j == s.len() - 1 {
        assert(t[i] == s[i]);
        lemma_with_name_count(t, n, i, -1);
    } else if j == -1 && i == s.len() - 1 {
    } else {
        assert(t[i] == s[i]);
        if j != -1 {
            assert(t[j] == s[j]);
        }
        lemma_with_name_count(t, n, i, j);
    }
}

/// A listing whose names are distinct comes out strictly ascending by name.
pub proof fn law_sorted_strictly(entries: Seq<DirEntry>, r: Seq<DirEntry>)
    requires
        sorted_by_name(r),
        forall|n: Seq<char>| #[trigger] with_name(r, n) == with_name(entries, n),
        forall|n: Seq<char>| (#[trigger] with_name(entries, n)).len() <= 1,
    ensures
        forall|i: int, j: int|
            0 <= i < j < r.len() ==> name_le(#[trigger] r[i].name@, #[trigger] r[j].name@)
                && r[i].name@ != r[j].name@,
{
    assert forall|i: int, j: int| 0 <= i < j < r.len() implies name_le(
        #[trigger] r[i].name@,
        #[trigger] r[j].name@,
    ) && r[i].name@ != r[j].name@ by {
        if r[i].name@ == r[j].name@ {
            lemma_with_name_count(r, r[i].name@, i, j);
            assert(with_name(r, r[i].name@) == with_name(entries, r[i].name@));
        }
    }
}

/// Sorts a listing by name; entries of equal name keep their order.
pub fn sort_by_name(entries: Vec<DirEntry>) -> (r: Vec<DirEntry>)
    ensures
        sorted_by_name(r@),
        r@.to_multiset() == entries@.to_multiset(),
        forall|n: Seq<char>| #[trigger] with_name(r@, n) == with_name(entries@, n),
{
    let mut rest = entries;
    let mut out: Vec<DirEntry> = Vec::new();
    assert(rest@.to_multiset() =~= out@.to_multiset().add(rest@.to_multiset()));
    assert forall|n: Seq<char>| #[trigger]
        with_name(entries@, n) == with_name(out@, n) + with_name(rest@, n) by {
        assert(with_name(out@, n) =~= Seq::<DirEntry>::empty());
        assert(with_name(out@, n) + with_name(rest@, n) =~= with_name(rest@, n));
    }
    while rest.len() > 0
        invariant
            sorted_by_name(out@),
            entries@.to_multiset() == out@.to_multiset().add(rest@.to_multiset()),
            forall|n: Seq<char>|
                #[trigger] with_name(entries@, n) == with_name(out@, n) + with_name(rest@, n),
        decreases rest@.len(),
    {
        let ghost before_rest = rest@;
        let e = rest.remove(0);
        let en = chars_of(e.name.as_str());
        let mut pos: usize = 0;
        while pos < out.len() && name_le_exec(chars_of(out[pos].name.as_str()).as_slice(), en.as_slice())
            invariant
                pos <= out@.len(),
                en@ == e.name@,
                forall|k: int| 0 <= k < pos ==> name_le(#[trigger] out@[k].name@, e.name@),
            decreases out@.len() - pos,
        {
            pos = pos + 1;
        }
        let ghost before = out@;
        proof {
            if pos < out@.len() {
                lemma_name_le_total(out@[pos as int].name@, e.name@);
            }
        }
        out.insert(pos, e);
        assert(sorted_by_name(out@)) by {
            assert forall|i: int, j: int| 0 <= i < j < out@.len() implies name_le(
                #[trigger] out@[i].name@,
                #[trigger] out@[j].name@,
            ) by {
                if j < pos {
                    assert(out@[i] == before[i] && out@[j] == before[j]);
                } else if j == pos {
                    assert(out@[i] == before[i]);
                } else if i == pos {
                    assert(out@[j] == before[j - 1]);
                    if pos < j - 1 {
                        lemma_name_le_trans(e.name@, before[pos as int].name@, before[j - 1].name@);
                    }
                } else if i < pos {
                    assert(out@[i] == before[i] && out@[j] == before[j - 1]);
                } else {
                    assert(out@[i] == before[i - 1] && out@[j] == before[j - 1]);
                }
            }
        }
        proof {
            assert(before_rest.remove(0) == rest@);
            assert(before_rest.to_multiset().remove(before_rest[0]) == rest@.to_multiset());
            assert(out@.to_multiset() == before.to_multiset().insert(e));
            assert(entries@.to_multiset() =~= out@.to_multiset().add(rest@.to_multiset()));
        }
        proof {
            assert(forall|k: int| pos <= k < before.len() ==> (#[trigger] before[k]).name@ != e.name@)
                by {
                assert forall|k: int| pos <= k < before.len() implies (#[trigger] before[k]).name@
                    != e.name@ by {
                    if before[k].name@ == e.name@ {
                        if k > pos {
                            assert(name_le(before[pos as int].name@, before[k].name@));
                        }
                        lemma_name_le_refl(e.name@);
                    }
                }
            }
            let head = before.take(pos as int);
            let tail = before.skip(pos as int);
            assert(before =~= head + tail);
            assert(out@ =~= head + seq![e] + tail);
            assert(before_rest =~= seq![e] + rest@);
            assert forall|n: Seq<char>| #[trigger]
                with_name(entries@, n) == with_name(out@, n) + with_name(rest@, n) by {
                lemma_with_name_concat(head, tail, n);
                lemma_with_name_concat(head + seq![e], tail, n);
                lemma_with_name_concat(head, seq![e], n);
                lemma_with_name_concat(seq![e], rest@, n);
                lemma_with_name_single(e, n);
                assert(with_name(entries@, n) == with_name(before, n) + with_name(before_rest, n));
                if n == e.name@ {
                    assert forall|k: int| 0 <= k < tail.len() implies (#[trigger] tail[k]).name@
                        != n by {
                        assert(tail[k] == before[pos + k]);
                    }
                    lemma_with_name_none(tail, n);
                    assert(with_name(out@, n) =~= with_name(head, n) + seq![e]);
                    assert(with_name(before, n) =~= with_name(head, n));
                    assert(with_name(before_rest, n) =~= seq![e] + with_name(rest@, n));
                } else {
                    assert(with_name(out@, n) =~= with_name(head, n) + with_name(tail, n));
                    assert(with_name(before_rest, n) =~= with_name(rest@, n));
                }
            }
        }
    }
    assert(rest@.to_multiset() =~= vstd::multiset::Multiset::empty());
    assert(entries@.to_multiset() =~= out@.to_multiset());
    assert forall|n: Seq<char>| #[trigger] with_name(out@, n) == with_name(entries@, n) by {
        assert(with_name(rest@, n) =~= Seq::<DirEntry>::empty());
        assert(with_name(out@, n) + with_name(rest@, n) =~= with_name(out@, n));
    }
    out
}


/// What deleting a path does, given what is there.
#[derive(Debug, Clone, Copy, PartialEq, Eq, Structural)]
pub enum DeleteStep {
    /// Remove a directory with everything in it.
    RemoveDirAll,
    /// Remove a file.
    RemoveFile,
    /// Nothing is there: the delete has succeeded already.
    AlreadyAbsent,
}

/// The step of a delete: a directory is removed with its contents, anything
/// else as a file, and a path that does not exist counts as deleted.
/// `target_is_dir` is `None` where the path does not exist.
pub fn delete_step(target_is_dir: Option<bool>) -> (s: DeleteStep)
    ensures
        s == match target_is_dir {
            Some(true) => DeleteStep::RemoveDirAll,
            Some(false) => DeleteStep::RemoveFile,
            None => DeleteStep::AlreadyAbsent,
        },
{
    match target_is_dir {
        Some(true) => DeleteStep::RemoveDirAll,
        Some(false) => DeleteStep::RemoveFile,
        None => DeleteStep::AlreadyAbsent,
    }
}

} // verus!
