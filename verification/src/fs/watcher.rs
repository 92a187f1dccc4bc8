//! Change detection for watched directories: the events between two
//! snapshots of a directory, and the count of subscribers per directory.
use vstd::prelude::*;

use dashmap::DashMap;

verus! {

/// What a snapshot records of one directory entry.
#[derive(Debug, Clone, Copy, PartialEq, Eq, Structural)]
pub struct FileSnapshot {
    pub is_dir: bool,
    pub size: u64,
    pub modified: i64,
}

/// One entry of a directory snapshot.
#[derive(Debug, Clone)]
pub struct SnapshotEntry {
    pub name: String,
    pub snapshot: FileSnapshot,
}

impl View for SnapshotEntry {
    type V = (Seq<char>, FileSnapshot);

    open spec fn view(&self) -> (Seq<char>, FileSnapshot) {
        (self.name@, self.snapshot)
    }
}

/// A change in a watched directory: `created`, `modified` or `deleted`.
#[derive(Debug, Clone)]
pub struct FsEvent {
    pub event_type: String,
    pub name: String,
    pub is_dir: bool,
    pub size: u64,
    pub modified: i64,
}

impl View for FsEvent {
    type V = (Seq<char>, Seq<char>, bool, u64, i64);

    open spec fn view(&self) -> (Seq<char>, Seq<char>, bool, u64, i64) {
        (self.event_type@, self.name@, self.is_dir, self.size, self.modified)
    }
}

/// The views of a snapshot's entries.
pub open spec fn snapshot_view(s: Seq<SnapshotEntry>) -> Seq<(Seq<char>, FileSnapshot)> {
    s.map_values(|e: SnapshotEntry| e@)
}

/// The views of a list of events.
pub open spec fn events_view(s: Seq<FsEvent>) -> Seq<(Seq<char>, Seq<char>, bool, u64, i64)> {
    s.map_values(|e: FsEvent| e@)
}

/// What a snapshot records under `name` (its first entry of that name).
pub open spec fn snapshot_lookup(s: Seq<(Seq<char>, FileSnapshot)>, name: Seq<char>) -> Option<
    FileSnapshot,
>
    decreases s.len(),
{
    if s.len() == 0 {
        None
    } else if s[0].0 == name {
        Some(s[0].1)
    } else {
        snapshot_lookup(s.drop_first(), name)
    }
}

/// An entry that the old snapshot does not have was created.
pub open spec fn created_event(
    old: Seq<(Seq<char>, FileSnapshot)>,
    e: (Seq<char>, FileSnapshot),
) -> Option<(Seq<char>, Seq<char>, bool, u64, i64)> {
    if snapshot_lookup(old, e.0) is None {
        Some(("created"@, e.0, e.1.is_dir, e.1.size, e.1.modified))
    } else {
        None
    }
}

/// An entry whose size or modification time changed was modified.
pub open spec fn modified_event(
    old: Seq<(Seq<char>, FileSnapshot)>,
    e: (Seq<char>, FileSnapshot),
) -> Option<(Seq<char>, Seq<char>, bool, u64, i64)> {
    match snapshot_lookup(old, e.0) {
        Some(o) => if o.size != e.1.size || o.modified != e.1.modified {
            Some(("modified"@, e.0, e.1.is_dir, e.1.size, e.1.modified))
        } else {
            None
        },
        None => None,
    }
}

/// An entry that the new snapshot does not have was deleted; its size and
/// time are reported as zero.
pub open spec fn deleted_event(
    new: Seq<(Seq<char>, FileSnapshot)>,
    e: (Seq<char>, FileSnapshot),
) -> Option<(Seq<char>, Seq<char>, bool, u64, i64)> {
    if snapshot_lookup(new, e.0) is None {
        Some(("deleted"@, e.0, e.1.is_dir, 0u64, 0i64))
    } else {
        None
    }
}

/// The changes from one snapshot to the next: the creations and then the
/// modifications in the order of the new snapshot, then the deletions in the
/// order of the old one.
pub open spec fn spec_diff(
    old: Seq<(Seq<char>, FileSnapshot)>,
    new: Seq<(Seq<char>, FileSnapshot)>,
) -> Seq<(Seq<char>, Seq<char>, bool, u64, i64)> {
    new.filter_map(|e: (Seq<char>, FileSnapshot)| created_event(old, e)) + new.filter_map(
        |e: (Seq<char>, FileSnapshot)| modified_event(old, e),
    ) + old.filter_map(|e: (Seq<char>, FileSnapshot)| deleted_event(new, e))
}

proof fn lemma_lookup(s: Seq<(Seq<char>, FileSnapshot)>, name: Seq<char>, i: int)
    requires
        0 <= i <= s.len(),
        forall|j: int| 0 <= j < i ==> #[trigger] s[j].0 != name,
    ensures
        i < s.len() && s[i].0 == name ==> snapshot_lookup(s, name) == Some(s[i].1),
        i == s.len() ==> snapshot_lookup(s, name) is None,
    decreases i,
{
    if i > 0 {
        let t = s.drop_first();
        assert forall|j: int| 0 <= j < i - 1 implies #[trigger] t[j].0 != name by {
            assert(t[j] == s[j + 1]);
        }
        lemma_lookup(t, name, i - 1);
    }
}

fn lookup_exec(s: &Vec<SnapshotEntry>, name: &String) -> (r: Option<FileSnapshot>)
    ensures
        r == snapshot_lookup(snapshot_view(s@), name@),
{
    let ghost v = snapshot_view(s@);
    let mut i: usize = 0;
    while i < s.len()
        invariant
            v == snapshot_view(s@),
            i <= s@.len(),
            forall|j: int| 0 <= j < i ==> #[trigger] v[j].0 != name@,
        decreases s@.len() - i,
    {
        assert(v[i as int] == s@[i as int]@);
        if s[i].name == *name {
            proof {
                lemma_lookup(v, name@, i as int);
            }
            return Some(s[i].snapshot);
        }
        i = i + 1;
    }
    proof {
        lemma_lookup(v, name@, i as int);
    }
    None
}

fn make_event(kind: &str, name: &String, is_dir: bool, size: u64, modified: i64) -> (e: FsEvent)
    ensures
        e@ == (kind@, name@, is_dir, size, modified),
{
    FsEvent { event_type: String::from_str(kind), name: name.clone(), is_dir, size, modified }
}

/// A snapshot names each entry once (it stands for a map from names).
pub open spec fn names_distinct(s: Seq<(Seq<char>, FileSnapshot)>) -> bool {
    forall|i: int, j: int| 0 <= i < s.len() && 0 <= j < s.len() && i != j ==> #[trigger] s[i].0 != #[trigger] s[j].0
}

/// The index of the entry named `name`, the first where there are several.
pub open spec fn snapshot_index(s: Seq<(Seq<char>, FileSnapshot)>, name: Seq<char>) -> Option<int>
    decreases s.len(),
{
    if s.len() == 0 {
        None
    } else if s[0].0 == name {
        Some(0)
    } else {
        match snapshot_index(s.drop_first(), name) {
            Some(i) => Some(i + 1),
            None => None,
        }
    }
}

/// A snapshot with one more entry recorded, as a map records it: an entry of
/// a name already there replaces that entry's record, else it is added.
pub open spec fn snapshot_insert(
    s: Seq<(Seq<char>, FileSnapshot)>,
    e: (Seq<char>, FileSnapshot),
) -> Seq<(Seq<char>, FileSnapshot)> {
    match snapshot_index(s, e.0) {
        Some(i) => s.update(i, (s[i].0, e.1)),
        None => s.push(e),
    }
}

/// The snapshot that records the entries in turn: each name once, where it
/// first came, with what was last recorded of it.
pub open spec fn spec_snapshot(entries: Seq<(Seq<char>, FileSnapshot)>) -> Seq<
    (Seq<char>, FileSnapshot),
>
    decreases entries.len(),
{
    if entries.len() == 0 {
        entries
    } else {
        snapshot_insert(spec_snapshot(entries.drop_last()), entries.last())
    }
}

proof fn lemma_snapshot_index(s: Seq<(Seq<char>, FileSnapshot)>, name: Seq<char>)
    ensures
        snapshot_index(s, name) matches Some(i) ==> 0 <= i < s.len() && s[i].0 == name,
        snapshot_index(s, name) is None ==> forall|j: int| 0 <= j < s.len() ==> #[trigger] s[j].0 != name,
        snapshot_index(s, name) matches Some(i) ==> snapshot_lookup(s, name) == Some(s[i].1),
        snapshot_index(s, name) is None ==> snapshot_lookup(s, name) is None,
    decreases s.len(),
{
    if s.len() > 0 {
        let t = s.drop_first();
        lemma_snapshot_index(t, name);
        assert forall|j: int| 0 < j < s.len() implies #[trigger] s[j] == t[j - 1] by {}
    }
}

proof fn lemma_snapshot_index_at(s: Seq<(Seq<char>, FileSnapshot)>, name: Seq<char>, i: int)
    requires
        0 <= i <= s.len(),
        forall|j: int| 0 <= j < i ==> #[trigger] s[j].0 != name,
    ensures
        i < s.len() && s[i].0 == name ==> snapshot_index(s, name) == Some(i),
        i == s.len() ==> snapshot_index(s, name) is None,
    decreases i,
{
    if i > 0 {
        let t = s.drop_first();
        assert forall|j: int| 0 <= j < i - 1 implies #[trigger] t[j].0 != name by {
            assert(t[j] == s[j + 1]);
        }
        lemma_snapshot_index_at(t, name, i - 1);
    }
}

/// The names of a recorded snapshot are distinct.
pub proof fn lemma_snapshot_distinct(entries: Seq<(Seq<char>, FileSnapshot)>)
    ensures
        names_distinct(spec_snapshot(entries)),
    decreases entries.len(),
{
    if entries.len() > 0 {
        let prev = spec_snapshot(entries.drop_last());
        lemma_snapshot_distinct(entries.drop_last());
        let e = entries.last();
        lemma_snapshot_index(prev, e.0);
        let next = spec_snapshot(entries);
        match snapshot_index(prev, e.0) {
            Some(i) => {
                assert forall|a: int, b: int|
                    0 <= a < next.len() && 0 <= b < next.len() && a != b implies #[trigger] next[a].0
                    != #[trigger] next[b].0 by {
                    assert(next[a].0 == prev[a].0);
                    assert(next[b].0 == prev[b].0);
                }
            },
            None => {
                assert forall|a: int, b: int|
                    0 <= a < next.len() && 0 <= b < next.len() && a != b implies #[trigger] next[a].0
                    != #[trigger] next[b].0 by {
                    if a < prev.len() && b < prev.len() {
                        assert(next[a] == prev[a] && next[b] == prev[b]);
                    } else if a < prev.len() {
                        assert(next[a] == prev[a]);
                    } else {
                        assert(next[b] == prev[b]);
                    }
                }
            },
        }
    }
}

fn snapshot_index_exec(s: &Vec<SnapshotEntry>, name: &String) -> (r: Option<usize>)
    ensures
        match r {
            Some(i) => snapshot_index(snapshot_view(s@), name@) == Some(i as int),
            None => snapshot_index(snapshot_view(s@), name@) is None,
        },
{
    let ghost v = snapshot_view(s@);
    let mut i: usize = 0;
    while i < s.len()
        invariant
            v == snapshot_view(s@),
            i <= s@.len(),
            forall|j: int| 0 <= j < i ==> #[trigger] v[j].0 != name@,
        decreases s@.len() - i,
    {
        assert(v[i as int] == s@[i as int]@);
        if s[i].name == *name {
            proof {
                lemma_snapshot_index_at(v, name@, i as int);
            }
            return Some(i);
        }
        i = i + 1;
    }
    proof {
        lemma_snapshot_index_at(v, name@, i as int);
    }
    None
}

/// The snapshot of a directory listing, recorded entry by entry as a map
/// from names records them: each name once, with its last record.
pub fn snapshot_from(entries: Vec<SnapshotEntry>) -> (r: Vec<SnapshotEntry>)
    ensures
        snapshot_view(r@) == spec_snapshot(snapshot_view(entries@)),
        names_distinct(snapshot_view(r@)),
{
    let ghost ev = snapshot_view(entries@);
    let mut out: Vec<SnapshotEntry> = Vec::new();
    let mut i: usize = 0;
    assert(ev.take(0) =~= Seq::<(Seq<char>, FileSnapshot)>::empty());
    while i < entries.len()
        invariant
            ev == snapshot_view(entries@),
            i <= entries@.len(),
            snapshot_view(out@) == spec_snapshot(ev.take(i as int)),
        decreases entries@.len() - i,
    {
        let e = &entries[i];
        assert(ev[i as int] == e@);
        assert(ev.take(i + 1).drop_last() =~= ev.take(i as int));
        assert(ev.take(i + 1).last() == e@);
        let ghost before = snapshot_view(out@);
        proof {
            lemma_snapshot_index(before, e.name@);
        }
        match snapshot_index_exec(&out, &e.name) {
            Some(k) => {
                let name = out[k].name.clone();
                out.set(k, SnapshotEntry { name, snapshot: e.snapshot });
                assert(snapshot_view(out@) =~= before.update(k as int, (before[k as int].0, e.snapshot)));
            },
            None => {
                out.push(SnapshotEntry { name: e.name.clone(), snapshot: e.snapshot });
                assert(snapshot_view(out@) =~= before.push(e@));
            },
        }
        i = i + 1;
    }
    assert(ev.take(entries@.len() as int) =~= ev);
    proof {
        lemma_snapshot_distinct(ev);
    }
    out
}

/// In snapshots that name each entry once, a name present in both with the
/// same size and modification time gives no event.
pub proof fn law_diff_unchanged_silent(
    old: Seq<(Seq<char>, FileSnapshot)>,
    new: Seq<(Seq<char>, FileSnapshot)>,
    name: Seq<char>,
    i: int,
)
    requires
        names_distinct(old),
        names_distinct(new),
        snapshot_lookup(old, name) is Some,
        snapshot_lookup(new, name) is Some,
        snapshot_lookup(old, name)->Some_0.size == snapshot_lookup(new, name)->Some_0.size,
        snapshot_lookup(old, name)->Some_0.modified == snapshot_lookup(new, name)->Some_0.modified,
        0 <= i < spec_diff(old, new).len(),
    ensures
        spec_diff(old, new)[i].1 != name,
{
    let fc = |e: (Seq<char>, FileSnapshot)| created_event(old, e);
    let fm = |e: (Seq<char>, FileSnapshot)| modified_event(old, e);
    let fd = |e: (Seq<char>, FileSnapshot)| deleted_event(new, e);
    let c = new.filter_map(fc);
    let m = new.filter_map(fm);
    let d = old.filter_map(fd);
    let ev = spec_diff(old, new)[i];
    if ev.1 == name {
        if i < c.len() {
            assert(c.contains(c[i]));
            new.lemma_filter_map_contains(fc, c[i]);
        } else if i < c.len() + m.len() {
            let x = m[i - c.len()];
            assert(m.contains(x));
            new.lemma_filter_map_contains(fm, x);
            let t = choose|t: (Seq<char>, FileSnapshot)| #[trigger] new.contains(t) && fm(t) == Some(x);
            let k = choose|k: int| 0 <= k < new.len() && new[k] == t;
            lemma_snapshot_index(new, name);
            let j = snapshot_index(new, name)->Some_0;
            assert(k == j);
        } else {
            let x = d[i - c.len() - m.len()];
            assert(d.contains(x));
            old.lemma_filter_map_contains(fd, x);
        }
    }
}

/// An element that `f` maps is in the mapped sequence.
proof fn lemma_filter_map_has(
    s: Seq<(Seq<char>, FileSnapshot)>,
    f: spec_fn((Seq<char>, FileSnapshot)) -> Option<(Seq<char>, Seq<char>, bool, u64, i64)>,
    k: int,
)
    requires
        0 <= k < s.len(),
        f(s[k]) is Some,
    ensures
        s.filter_map(f).contains(f(s[k])->Some_0),
    decreases s.len(),
{
    let rest = s.drop_last();
    let out = s.filter_map(f);
    let r = rest.filter_map(f);
    if k == s.len() - 1 {
        assert(out == r + seq![f(s.last())->Some_0]);
        assert(out[r.len() as int] == f(s[k])->Some_0);
    } else {
        assert(rest[k] == s[k]);
        lemma_filter_map_has(rest, f, k);
        let idx = choose|idx: int| 0 <= idx < r.len() && r[idx] == f(s[k])->Some_0;
        assert(out[idx] == r[idx]);
    }
}

/// Where `f` keeps an entry's name as the event's name, a snapshot that
/// names each entry once gives at most one event of each name.
proof fn lemma_filter_map_name_once(
    s: Seq<(Seq<char>, FileSnapshot)>,
    f: spec_fn((Seq<char>, FileSnapshot)) -> Option<(Seq<char>, Seq<char>, bool, u64, i64)>,
    name: Seq<char>,
)
    requires
        names_distinct(s),
        forall|t: (Seq<char>, FileSnapshot)| #[trigger] f(t) is Some ==> f(t)->Some_0.1 == t.0,
    ensures
        forall|k1: int, k2: int|
            0 <= k1 < k2 < s.filter_map(f).len() ==> !(#[trigger] s.filter_map(f)[k1].1 == name
                && #[trigger] s.filter_map(f)[k2].1 == name),
    decreases s.len(),
{
    if s.len() > 0 {
        let rest = s.drop_last();
        let out = s.filter_map(f);
        let r = rest.filter_map(f);
        assert(names_distinct(rest)) by {
            assert forall|i: int, j: int|
                0 <= i < rest.len() && 0 <= j < rest.len() && i != j implies #[trigger] rest[i].0
                != #[trigger] rest[j].0 by {
                assert(rest[i] == s[i] && rest[j] == s[j]);
            }
        }
        lemma_filter_map_name_once(rest, f, name);
        assert forall|k1: int, k2: int|
            0 <= k1 < k2 < out.len() implies !(#[trigger] out[k1].1 == name && #[trigger] out[k2].1
            == name) by {
            if k2 < r.len() {
                assert(out[k1] == r[k1] && out[k2] == r[k2]);
            } else if out[k1].1 == name && out[k2].1 == name {
                assert(f(s.last()) is Some);
                assert(out[k2] == f(s.last())->Some_0);
                assert(out[k1] == r[k1]);
                assert(r.contains(r[k1]));
                rest.lemma_filter_map_contains(f, r[k1]);
                let t = choose|t: (Seq<char>, FileSnapshot)| #[trigger] rest.contains(t) && f(t) == Some(r[k1]);
                let m = choose|m: int| 0 <= m < rest.len() && rest[m] == t;
                assert(s[m] == t);
                assert(s[s.len() - 1] == s.last());
                assert(s[m].0 == s[s.len() - 1].0);
            }
        }
    }
}

/// In snapshots that name each entry once, an entry present in both whose
/// size or modification time changed gives exactly one event of its name:
/// a `modified` event with the new kind, size and time.
pub proof fn law_diff_reports_modification(
    old: Seq<(Seq<char>, FileSnapshot)>,
    new: Seq<(Seq<char>, FileSnapshot)>,
    io: int,
    jn: int,
)
    requires
        names_distinct(old),
        names_distinct(new),
        0 <= io < old.len(),
        0 <= jn < new.len(),
        old[io].0 == new[jn].0,
        old[io].1.size != new[jn].1.size || old[io].1.modified != new[jn].1.modified,
    ensures
        exists|k: int|
            0 <= k < spec_diff(old, new).len() && #[trigger] spec_diff(old, new)[k] == (
                "modified"@,
                new[jn].0,
                new[jn].1.is_dir,
                new[jn].1.size,
                new[jn].1.modified,
            ),
        forall|k: int|
            0 <= k < spec_diff(old, new).len() && (#[trigger] spec_diff(old, new)[k]).1 == new[jn].0
                ==> spec_diff(old, new)[k] == (
                "modified"@,
                new[jn].0,
                new[jn].1.is_dir,
                new[jn].1.size,
                new[jn].1.modified,
            ),
        forall|k1: int, k2: int|
            0 <= k1 < k2 < spec_diff(old, new).len() ==> !(#[trigger] spec_diff(old, new)[k1].1
                == new[jn].0 && #[trigger] spec_diff(old, new)[k2].1 == new[jn].0),
{
    let name = new[jn].0;
    let ev = ("modified"@, name, new[jn].1.is_dir, new[jn].1.size, new[jn].1.modified);
    let fc = |e: (Seq<char>, FileSnapshot)| created_event(old, e);
    let fm = |e: (Seq<char>, FileSnapshot)| modified_event(old, e);
    let fd = |e: (Seq<char>, FileSnapshot)| deleted_event(new, e);
    let c = new.filter_map(fc);
    let m = new.filter_map(fm);
    let d = old.filter_map(fd);
    let all = spec_diff(old, new);
    assert(all == c + m + d);
    assert forall|j: int| 0 <= j < io implies #[trigger] old[j].0 != name by {
        assert(old[j].0 != old[io].0);
    }
    lemma_lookup(old, name, io);
    assert forall|j: int| 0 <= j < jn implies #[trigger] new[j].0 != name by {
        assert(new[j].0 != new[jn].0);
    }
    lemma_lookup(new, name, jn);
    // The event is there.
    assert(fm(new[jn]) == Some(ev));
    lemma_filter_map_has(new, fm, jn);
    let idx = choose|idx: int| 0 <= idx < m.len() && m[idx] == ev;
    assert(all[c.len() + idx] == ev);
    // No creation or deletion names it, and the only modification of that
    // name is the event.
    assert forall|k: int| 0 <= k < all.len() && (#[trigger] all[k]).1 == name implies c.len() <= k
        < c.len() + m.len() && all[k] == ev by {
        if k < c.len() {
            assert(all[k] == c[k]);
            assert(c.contains(c[k]));
            new.lemma_filter_map_contains(fc, c[k]);
        } else if k < c.len() + m.len() {
            let x = m[k - c.len()];
            assert(all[k] == x);
            assert(m.contains(x));
            new.lemma_filter_map_contains(fm, x);
            let t = choose|t: (Seq<char>, FileSnapshot)| #[trigger] new.contains(t) && fm(t) == Some(x);
            let p = choose|p: int| 0 <= p < new.len() && new[p] == t;
            if p != jn {
                assert(new[p].0 != new[jn].0);
            }
        } else {
            let x = d[k - c.len() - m.len()];
            assert(all[k] == x);
            assert(d.contains(x));
            old.lemma_filter_map_contains(fd, x);
        }
    }
    assert forall|t: (Seq<char>, FileSnapshot)| #[trigger] fm(t) is Some implies fm(t)->Some_0.1 == t.0 by {}
    lemma_filter_map_name_once(new, fm, name);
    assert forall|k1: int, k2: int| 0 <= k1 < k2 < all.len() implies !(#[trigger] all[k1].1 == name
        && #[trigger] all[k2].1 == name) by {
        if all[k1].1 == name && all[k2].1 == name {
            assert(m[k1 - c.len()] == all[k1]);
            assert(m[k2 - c.len()] == all[k2]);
        }
    }
}

/// In snapshots that name each entry once, an entry only the new snapshot
/// has gives exactly one event of its name: a `created` event with its kind,
/// size and time.
pub proof fn law_diff_reports_creation(
    old: Seq<(Seq<char>, FileSnapshot)>,
    new: Seq<(Seq<char>, FileSnapshot)>,
    jn: int,
)
    requires
        names_distinct(old),
        names_distinct(new),
        0 <= jn < new.len(),
        forall|j: int| 0 <= j < old.len() ==> #[trigger] old[j].0 != new[jn].0,
    ensures
        exists|k: int|
            0 <= k < spec_diff(old, new).len() && #[trigger] spec_diff(old, new)[k] == (
                "created"@,
                new[jn].0,
                new[jn].1.is_dir,
                new[jn].1.size,
                new[jn].1.modified,
            ),
        forall|k: int|
            0 <= k < spec_diff(old, new).len() && (#[trigger] spec_diff(old, new)[k]).1 == new[jn].0
                ==> spec_diff(old, new)[k] == (
                "created"@,
                new[jn].0,
                new[jn].1.is_dir,
                new[jn].1.size,
                new[jn].1.modified,
            ),
        forall|k1: int, k2: int|
            0 <= k1 < k2 < spec_diff(old, new).len() ==> !(#[trigger] spec_diff(old, new)[k1].1
                == new[jn].0 && #[trigger] spec_diff(old, new)[k2].1 == new[jn].0),
{
    let name = new[jn].0;
    let ev = ("created"@, name, new[jn].1.is_dir, new[jn].1.size, new[jn].1.modified);
    let fc = |e: (Seq<char>, FileSnapshot)| created_event(old, e);
    let fm = |e: (Seq<char>, FileSnapshot)| modified_event(old, e);
    let fd = |e: (Seq<char>, FileSnapshot)| deleted_event(new, e);
    let c = new.filter_map(fc);
    let m = new.filter_map(fm);
    let d = old.filter_map(fd);
    let all = spec_diff(old, new);
    assert(all == c + m + d);
    lemma_lookup(old, name, old.len() as int);
    assert forall|j: int| 0 <= j < jn implies #[trigger] new[j].0 != name by {
        assert(new[j].0 != new[jn].0);
    }
    lemma_lookup(new, name, jn);
    assert(fc(new[jn]) == Some(ev));
    lemma_filter_map_has(new, fc, jn);
    let idx = choose|idx: int| 0 <= idx < c.len() && c[idx] == ev;
    assert(all[idx] == ev);
    assert forall|k: int| 0 <= k < all.len() && (#[trigger] all[k]).1 == name implies k < c.len()
        && all[k] == ev by {
        if k < c.len() {
            let x = c[k];
            assert(all[k] == x);
            assert(c.contains(x));
            new.lemma_filter_map_contains(fc, x);
            let t = choose|t: (Seq<char>, FileSnapshot)| #[trigger] new.contains(t) && fc(t) == Some(x);
            let p = choose|p: int| 0 <= p < new.len() && new[p] == t;
            if p != jn {
                assert(new[p].0 != new[jn].0);
            }
        } else if k < c.len() + m.len() {
            let x = m[k - c.len()];
            assert(all[k] == x);
            assert(m.contains(x));
            new.lemma_filter_map_contains(fm, x);
        } else {
            let x = d[k - c.len() - m.len()];
            assert(all[k] == x);
            assert(d.contains(x));
            old.lemma_filter_map_contains(fd, x);
            let t = choose|t: (Seq<char>, FileSnapshot)| #[trigger] old.contains(t) && fd(t) == Some(x);
            let p = choose|p: int| 0 <= p < old.len() && old[p] == t;
            assert(old[p].0 != name);
        }
    }
    assert forall|t: (Seq<char>, FileSnapshot)| #[trigger] fc(t) is Some implies fc(t)->Some_0.1 == t.0 by {}
    lemma_filter_map_name_once(new, fc, name);
    assert forall|k1: int, k2: int| 0 <= k1 < k2 < all.len() implies !(#[trigger] all[k1].1 == name
        && #[trigger] all[k2].1 == name) by {
        if all[k1].1 == name && all[k2].1 == name {
            assert(c[k1] == all[k1]);
            assert(c[k2] == all[k2]);
        }
    }
}

/// In snapshots that name each entry once, an entry only the old snapshot
/// has gives exactly one event of its name: a `deleted` event with its kind,
/// and size and time zero.
pub proof fn law_diff_reports_deletion(
    old: Seq<(Seq<char>, FileSnapshot)>,
    new: Seq<(Seq<char>, FileSnapshot)>,
    io: int,
)
    requires
        names_distinct(old),
        names_distinct(new),
        0 <= io < old.len(),
        forall|j: int| 0 <= j < new.len() ==> #[trigger] new[j].0 != old[io].0,
    ensures
        exists|k: int|
            0 <= k < spec_diff(old, new).len() && #[trigger] spec_diff(old, new)[k] == (
                "deleted"@,
                old[io].0,
                old[io].1.is_dir,
                0u64,
                0i64,
            ),
        forall|k: int|
            0 <= k < spec_diff(old, new).len() && (#[trigger] spec_diff(old, new)[k]).1 == old[io].0
                ==> spec_diff(old, new)[k] == ("deleted"@, old[io].0, old[io].1.is_dir, 0u64, 0i64),
        forall|k1: int, k2: int|
            0 <= k1 < k2 < spec_diff(old, new).len() ==> !(#[trigger] spec_diff(old, new)[k1].1
                == old[io].0 && #[trigger] spec_diff(old, new)[k2].1 == old[io].0),
{
    let name = old[io].0;
    let ev = ("deleted"@, name, old[io].1.is_dir, 0u64, 0i64);
    let fc = |e: (Seq<char>, FileSnapshot)| created_event(old, e);
    let fm = |e: (Seq<char>, FileSnapshot)| modified_event(old, e);
    let fd = |e: (Seq<char>, FileSnapshot)| deleted_event(new, e);
    let c = new.filter_map(fc);
    let m = new.filter_map(fm);
    let d = old.filter_map(fd);
    let all = spec_diff(old, new);
    assert(all == c + m + d);
    lemma_lookup(new, name, new.len() as int);
    assert forall|j: int| 0 <= j < io implies #[trigger] old[j].0 != name by {
        assert(old[j].0 != old[io].0);
    }
    lemma_lookup(old, name, io);
    assert(fd(old[io]) == Some(ev));
    lemma_filter_map_has(old, fd, io);
    let idx = choose|idx: int| 0 <= idx < d.len() && d[idx] == ev;
    assert(all[c.len() + m.len() + idx] == ev);
    assert forall|k: int| 0 <= k < all.len() && (#[trigger] all[k]).1 == name implies c.len()
        + m.len() <= k && all[k] == ev by {
        if k < c.len() {
            let x = c[k];
            assert(all[k] == x);
            assert(c.contains(x));
            new.lemma_filter_map_contains(fc, x);
            let t = choose|t: (Seq<char>, FileSnapshot)| #[trigger] new.contains(t) && fc(t) == Some(x);
            let p = choose|p: int| 0 <= p < new.len() && new[p] == t;
            assert(new[p].0 != name);
        } else if k < c.len() + m.len() {
            let x = m[k - c.len()];
            assert(all[k] == x);
            assert(m.contains(x));
            new.lemma_filter_map_contains(fm, x);
            let t = choose|t: (Seq<char>, FileSnapshot)| #[trigger] new.contains(t) && fm(t) == Some(x);
            let p = choose|p: int| 0 <= p < new.len() && new[p] == t;
            assert(new[p].0 != name);
        } else {
            let x = d[k - c.len() - m.len()];
            assert(all[k] == x);
            assert(d.contains(x));
            old.lemma_filter_map_contains(fd, x);
            let t = choose|t: (Seq<char>, FileSnapshot)| #[trigger] old.contains(t) && fd(t) == Some(x);
            let p = choose|p: int| 0 <= p < old.len() && old[p] == t;
            if p != io {
                assert(old[p].0 != old[io].0);
            }
        }
    }
    assert forall|t: (Seq<char>, FileSnapshot)| #[trigger] fd(t) is Some implies fd(t)->Some_0.1 == t.0 by {}
    lemma_filter_map_name_once(old, fd, name);
    assert forall|k1: int, k2: int| 0 <= k1 < k2 < all.len() implies !(#[trigger] all[k1].1 == name
        && #[trigger] all[k2].1 == name) by {
        if all[k1].1 == name && all[k2].1 == name {
            assert(d[k1 - c.len() - m.len()] == all[k1]);
            assert(d[k2 - c.len() - m.len()] == all[k2]);
        }
    }
}

/// The changes from snapshot `old` to snapshot `new`.
pub fn diff_snapshots(old: &Vec<SnapshotEntry>, new: &Vec<SnapshotEntry>) -> (r: Vec<FsEvent>)
    requires
        names_distinct(snapshot_view(old@)),
        names_distinct(snapshot_view(new@)),
    ensures
        events_view(r@) == spec_diff(snapshot_view(old@), snapshot_view(new@)),
{
    let ghost ov = snapshot_view(old@);
    let ghost nv = snapshot_view(new@);
    let ghost fc = |e: (Seq<char>, FileSnapshot)| created_event(ov, e);
    let ghost fm = |e: (Seq<char>, FileSnapshot)| modified_event(ov, e);
    let ghost fd = |e: (Seq<char>, FileSnapshot)| deleted_event(nv, e);
    let mut out: Vec<FsEvent> = Vec::new();
    let mut i: usize = 0;
    assert(nv.take(0) =~= Seq::<(Seq<char>, FileSnapshot)>::empty());
    while i < new.len()
        invariant
            ov == snapshot_view(old@),
            nv == snapshot_view(new@),
            fc == (|e: (Seq<char>, FileSnapshot)| created_event(ov, e)),
            i <= new@.len(),
            events_view(out@) == nv.take(i as int).filter_map(fc),
        decreases new@.len() - i,
    {
        assert(nv.take(i + 1).drop_last() =~= nv.take(i as int));
        assert(nv[i as int] == new@[i as int]@);
        let entry = &new[i];
        if lookup_exec(old, &entry.name).is_none() {
            let ev = make_event(
                "created",
                &entry.name,
                entry.snapshot.is_dir,
                entry.snapshot.size,
                entry.snapshot.modified,
            );
            let ghost before = out@;
            out.push(ev);
            assert(events_view(out@) =~= events_view(before).push(ev@));
        }
        assert(events_view(out@) =~= nv.take(i + 1).filter_map(fc));
        i = i + 1;
    }
    assert(nv.take(new@.len() as int) =~= nv);
    let ghost created = events_view(out@);
    let mut i: usize = 0;
    assert(nv.take(0) =~= Seq::<(Seq<char>, FileSnapshot)>::empty());
    assert(created + nv.take(0).filter_map(fm) =~= created);
    while i < new.len()
        invariant
            ov == snapshot_view(old@),
            nv == snapshot_view(new@),
            fm == (|e: (Seq<char>, FileSnapshot)| modified_event(ov, e)),
            i <= new@.len(),
            events_view(out@) == created + nv.take(i as int).filter_map(fm),
        decreases new@.len() - i,
    {
        assert(nv.take(i + 1).drop_last() =~= nv.take(i as int));
        assert(nv[i as int] == new@[i as int]@);
        let entry = &new[i];
        match lookup_exec(old, &entry.name) {
            Some(o) => {
                if o.size != entry.snapshot.size || o.modified != entry.snapshot.modified {
                    let ev = make_event(
                        "modified",
                        &entry.name,
                        entry.snapshot.is_dir,
                        entry.snapshot.size,
                        entry.snapshot.modified,
                    );
                    let ghost before = out@;
                    out.push(ev);
                    assert(events_view(out@) =~= events_view(before).push(ev@));
                }
            },
            None => {},
        }
        assert(events_view(out@) =~= created + nv.take(i + 1).filter_map(fm));
        i = i + 1;
    }
    assert(nv.take(new@.len() as int) =~= nv);
    let ghost both = events_view(out@);
    let mut i: usize = 0;
    assert(ov.take(0) =~= Seq::<(Seq<char>, FileSnapshot)>::empty());
    assert(both + ov.take(0).filter_map(fd) =~= both);
    while i < old.len()
        invariant
            ov == snapshot_view(old@),
            nv == snapshot_view(new@),
            fd == (|e: (Seq<char>, FileSnapshot)| deleted_event(nv, e)),
            i <= old@.len(),
            events_view(out@) == both + ov.take(i as int).filter_map(fd),
        decreases old@.len() - i,
    {
        assert(ov.take(i + 1).drop_last() =~= ov.take(i as int));
        assert(ov[i as int] == old@[i as int]@);
        let entry = &old[i];
        if lookup_exec(new, &entry.name).is_none() {
            let ev = make_event("deleted", &entry.name, entry.snapshot.is_dir, 0, 0);
            let ghost before = out@;
            out.push(ev);
            assert(events_view(out@) =~= events_view(before).push(ev@));
        }
        assert(events_view(out@) =~= both + ov.take(i + 1).filter_map(fd));
        i = i + 1;
    }
    assert(ov.take(old@.len() as int) =~= ov);
    out
}


/// The table of subscriber counts, by directory.
pub type WatchTable = DashMap<String, usize>;

/// The subscriber counts that a watch table holds, by directory.
pub uninterp spec fn watch_counts(m: WatchTable) -> Map<Seq<char>, usize>;

/// No directory watched.
pub open spec fn no_watches() -> Map<Seq<char>, usize> {
    Map::empty()
}

/// `DashMap::new`: an empty table.
#[verifier::external_body]
fn watch_table_new() -> (m: WatchTable)
    ensures
        watch_counts(m) == no_watches(),
{
    DashMap::new()
}

/// `DashMap::get`: the count of `key` (copied out), if the table has it.
#[verifier::external_body]
fn watch_table_get(m: &WatchTable, key: &String) -> (r: Option<usize>)
    ensures
        match r {
            Some(v) => watch_counts(*m).contains_key(key@) && v == watch_counts(*m)[key@],
            None => !watch_counts(*m).contains_key(key@),
        },
{
    match m.get(key) {
        Some(entry) => Some(*entry.value()),
        None => None,
    }
}

/// `DashMap::insert`: `key` now maps to `value`, the other keys unchanged.
#[verifier::external_body]
fn watch_table_insert(m: &mut WatchTable, key: String, value: usize)
    ensures
        watch_counts(*final(m)) == watch_counts(*old(m)).insert(key@, value),
{
    m.insert(key, value);
}

/// `DashMap::remove`: `key` no longer in the table, the other keys unchanged.
#[verifier::external_body]
fn watch_table_remove(m: &mut WatchTable, key: &String)
    ensures
        watch_counts(*final(m)) == watch_counts(*old(m)).remove(key@),
{
    m.remove(key);
}

/// What subscribing does: the directory's count goes up by one (a new
/// directory starts at one); its first subscriber starts the polling.
pub open spec fn spec_subscribe(t: Map<Seq<char>, usize>, dir: Seq<char>) -> (
    Map<Seq<char>, usize>,
    bool,
) {
    if t.contains_key(dir) {
        (t.insert(dir, (if t[dir] == usize::MAX { 0 } else { t[dir] + 1 }) as usize), false)
    } else {
        (t.insert(dir, 1), true)
    }
}

/// What unsubscribing does: the directory's count goes down by one, and the
/// directory goes once its last subscriber left.
pub open spec fn spec_unsubscribe(t: Map<Seq<char>, usize>, dir: Seq<char>) -> (
    Map<Seq<char>, usize>,
    bool,
) {
    if !t.contains_key(dir) {
        (t, false)
    } else if t[dir] <= 1 {
        (t.remove(dir), true)
    } else {
        (t.insert(dir, (t[dir] - 1) as usize), false)
    }
}

/// Who watches which directory.
pub struct FileWatcher {
    watches: WatchTable,
}

impl View for FileWatcher {
    type V = Map<Seq<char>, usize>;

    closed spec fn view(&self) -> Map<Seq<char>, usize> {
        watch_counts(self.watches)
    }
}

impl FileWatcher {
    /// No directory watched.
    pub fn new() -> (w: FileWatcher)
        ensures
            w@ == no_watches(),
    {
        FileWatcher { watches: watch_table_new() }
    }

    /// Counts one more subscriber of `dir`; true where it is the first, and
    /// polling of the directory must start.
    pub fn subscribe(&mut self, dir: &str) -> (start: bool)
        ensures
            (final(self)@, start) == spec_subscribe(old(self)@, dir@),
    {
        let key = String::from_str(dir);
        match watch_table_get(&self.watches, &key) {
            Some(n) => {
                watch_table_insert(&mut self.watches, key, n.wrapping_add(1));
                false
            },
            None => {
                watch_table_insert(&mut self.watches, key, 1);
                true
            },
        }
    }

    /// Counts one subscriber of `dir` less; true where it was the last, and
    /// the directory is no longer watched.
    pub fn unsubscribe(&mut self, dir: &str) -> (removed: bool)
        ensures
            (final(self)@, removed) == spec_unsubscribe(old(self)@, dir@),
    {
        let key = String::from_str(dir);
        match watch_table_get(&self.watches, &key) {
            None => false,
            Some(n) => {
                if n <= 1 {
                    watch_table_remove(&mut self.watches, &key);
                    true
                } else {
                    watch_table_insert(&mut self.watches, key, n - 1);
                    false
                }
            },
        }
    }

    /// The number of subscribers of `dir`; its polling stops at zero.
    pub fn subscriber_count(&self, dir: &str) -> (n: usize)
        ensures
            n == if self@.contains_key(dir@) {
                self@[dir@]
            } else {
                0
            },
    {
        match watch_table_get(&self.watches, &String::from_str(dir)) {
            Some(n) => n,
            None => 0,
        }
    }
}

impl Default for FileWatcher {
    fn default() -> (w: FileWatcher)
        ensures
            w@ == no_watches(),
    {
        FileWatcher::new()
    }
}

/// A subscriber that leaves undoes its subscription: the counts are as they
/// were (while fewer than `usize::MAX` subscribe to one directory).
pub proof fn law_unsubscribe_undoes_subscribe(t: Map<Seq<char>, usize>, dir: Seq<char>)
    requires
        t.contains_key(dir) ==> 1 <= t[dir] < usize::MAX,
    ensures
        spec_unsubscribe(spec_subscribe(t, dir).0, dir).0 == t,
{
    let s = spec_subscribe(t, dir).0;
    if t.contains_key(dir) {
        assert(s.insert(dir, t[dir]) =~= t);
    } else {
        assert(s.remove(dir) =~= t);
    }
}

/// A directory's polling starts with its first subscriber and stops with its
/// last.
pub proof fn law_polling_follows_subscribers(t: Map<Seq<char>, usize>, dir: Seq<char>)
    ensures
        spec_subscribe(t, dir).1 == !t.contains_key(dir),
        spec_subscribe(t, dir).0.contains_key(dir),
        t.contains_key(dir) ==> (spec_unsubscribe(t, dir).1 <==> t[dir] <= 1),
        spec_unsubscribe(t, dir).1 ==> !spec_unsubscribe(t, dir).0.contains_key(dir),
{
}

} // verus!
