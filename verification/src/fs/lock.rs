//! Advisory locks on paths: shared read locks, exclusive write locks, held
//! per user and expiring after a fixed time.
use vstd::prelude::*;

use dashmap::DashMap;
use std::time::{Duration, Instant};

use crate::text::{decimal, decimal_string};

verus! {

#[verifier::external_type_specification]
#[verifier::external_body]
#[verifier::reject_recursive_types(K)]
#[verifier::reject_recursive_types(V)]
#[verifier::reject_recursive_types(S)]
pub struct ExDashMap<K, V, S>(dashmap::DashMap<K, V, S>);

#[verifier::external_type_specification]
#[verifier::external_body]
pub struct ExInstant(std::time::Instant);

/// The kind of a lock.
#[derive(Debug, Clone, Copy, PartialEq, Eq, Structural)]
pub enum LockType {
    Read,
    Write,
}

/// One lock held on a path. Times are nanoseconds since the lock manager
/// was made.
#[derive(Debug, Clone, Copy, PartialEq, Eq, Structural)]
pub struct LockEntry {
    pub uid: u32,
    pub lock_type: LockType,
    pub acquired_at: u64,
    pub expires_at: u64,
}

/// How long a lock lasts, in nanoseconds (five minutes).
pub const DEFAULT_TTL_NS: u64 = 300_000_000_000;

/// The table of locks, by path.
pub type LockTable = DashMap<String, Vec<LockEntry>>;

/// The locks that a lock table holds, by path.
pub uninterp spec fn lock_table(m: LockTable) -> Map<Seq<char>, Seq<LockEntry>>;

/// No lock on any path.
pub open spec fn empty_table() -> Map<Seq<char>, Seq<LockEntry>> {
    Map::empty()
}

/// `DashMap::new`: an empty table.
#[verifier::external_body]
fn table_new() -> (m: LockTable)
    ensures
        lock_table(m) == empty_table(),
{
    DashMap::new()
}

/// `DashMap::get`: the locks held on `key` (copied out), if the table has
/// the key.
#[verifier::external_body]
fn table_get(m: &LockTable, key: &String) -> (r: Option<Vec<LockEntry>>)
    ensures
        match r {
            Some(v) => lock_table(*m).contains_key(key@) && v@ == lock_table(*m)[key@],
            None => !lock_table(*m).contains_key(key@),
        },
{
    match m.get(key) {
        Some(entry) => Some(entry.value().clone()),
        None => None,
    }
}

/// `DashMap::contains_key`.
#[verifier::external_body]
fn table_contains(m: &LockTable, key: &String) -> (b: bool)
    ensures
        b == lock_table(*m).contains_key(key@),
{
    m.contains_key(key)
}

/// `DashMap::insert`: `key` now maps to `value`, the other keys unchanged.
#[verifier::external_body]
fn table_insert(m: &mut LockTable, key: String, value: Vec<LockEntry>)
    ensures
        lock_table(*final(m)) == lock_table(*old(m)).insert(key@, value@),
{
    m.insert(key, value);
}

/// `DashMap::remove`: `key` no longer in the table, the other keys unchanged.
#[verifier::external_body]
fn table_remove(m: &mut LockTable, key: &String)
    ensures
        lock_table(*final(m)) == lock_table(*old(m)).remove(key@),
{
    m.remove(key);
}

/// `Instant::now`.
#[verifier::external_body]
fn clock_now() -> Instant {
    Instant::now()
}

/// `Instant::elapsed`: the time since `start`; nothing is claimed of it.
#[verifier::external_body]
fn clock_elapsed(start: &Instant) -> Duration {
    start.elapsed()
}

/// `Duration::as_nanos`; nothing is claimed of it.
#[verifier::external_body]
fn duration_nanos(d: &Duration) -> u128 {
    d.as_nanos()
}

/// The locks still in force at `now`: those that expire after it.
pub open spec fn live_entries(entries: Seq<LockEntry>, now: u64) -> Seq<LockEntry>
    decreases entries.len(),
{
    if entries.len() == 0 {
        entries
    } else if entries.last().expires_at > now {
        live_entries(entries.drop_last(), now).push(entries.last())
    } else {
        live_entries(entries.drop_last(), now)
    }
}

/// The locks of users other than `uid`.
pub open spec fn without_uid(entries: Seq<LockEntry>, uid: u32) -> Seq<LockEntry>
    decreases entries.len(),
{
    if entries.len() == 0 {
        entries
    } else if entries.last().uid != uid {
        without_uid(entries.drop_last(), uid).push(entries.last())
    } else {
        without_uid(entries.drop_last(), uid)
    }
}

/// Whether a held lock stands in the way of `uid` taking a `lock_type` lock:
/// reads share, and a user never conflicts with itself.
pub open spec fn conflicts_with(e: LockEntry, uid: u32, lock_type: LockType) -> bool {
    !(e.lock_type == LockType::Read && lock_type == LockType::Read) && e.uid != uid
}

/// The first held lock that stands in the way.
pub open spec fn first_conflict(entries: Seq<LockEntry>, uid: u32, lock_type: LockType) -> Option<
    LockEntry,
>
    decreases entries.len(),
{
    if entries.len() == 0 {
        None
    } else if conflicts_with(entries[0], uid, lock_type) {
        Some(entries[0])
    } else {
        first_conflict(entries.drop_first(), uid, lock_type)
    }
}

/// The refusal of a lock: who holds the one in the way, and its kind.
pub open spec fn conflict_message(e: LockEntry) -> Seq<char> {
    "file is locked by uid "@ + decimal(e.uid as nat) + " ("@ + (if e.lock_type == LockType::Write {
        "write"@
    } else {
        "read"@
    }) + ")"@
}

/// When a lock taken at `now` expires (the end of time where that overflows).
pub open spec fn expiry(now: u64) -> u64 {
    if now as int + DEFAULT_TTL_NS as int > u64::MAX as int {
        u64::MAX
    } else {
        (now + DEFAULT_TTL_NS) as u64
    }
}

/// The locks held on a path, none where the table does not have it.
pub open spec fn held(table: Map<Seq<char>, Seq<LockEntry>>, path: Seq<char>) -> Seq<LockEntry> {
    if table.contains_key(path) {
        table[path]
    } else {
        Seq::empty()
    }
}

/// What acquiring a lock at `now` does: the expired locks on the path are
/// dropped; if a remaining one stands in the way the path keeps the
/// remaining ones and the first in the way is reported; else the user's own
/// locks on the path are replaced by the new one.
pub open spec fn spec_acquire(
    table: Map<Seq<char>, Seq<LockEntry>>,
    path: Seq<char>,
    uid: u32,
    lock_type: LockType,
    now: u64,
) -> (Map<Seq<char>, Seq<LockEntry>>, Result<(), Seq<char>>) {
    let live = live_entries(held(table, path), now);
    match first_conflict(live, uid, lock_type) {
        Some(e) => (table.insert(path, live), Err(conflict_message(e))),
        None => (
            table.insert(
                path,
                without_uid(live, uid).push(
                    LockEntry { uid, lock_type, acquired_at: now, expires_at: expiry(now) },
                ),
            ),
            Ok(()),
        ),
    }
}

/// What releasing does: the user's locks on the path go, and the path goes
/// with its last lock.
pub open spec fn spec_release(table: Map<Seq<char>, Seq<LockEntry>>, path: Seq<char>, uid: u32) -> Map<
    Seq<char>,
    Seq<LockEntry>,
> {
    if !table.contains_key(path) {
        table
    } else if without_uid(table[path], uid).len() == 0 {
        table.remove(path)
    } else {
        table.insert(path, without_uid(table[path], uid))
    }
}

/// The locks of one path are consistent: there is at least one, no user
/// holds two, and a write lock is held alone.
pub open spec fn entries_wf(entries: Seq<LockEntry>) -> bool {
    &&& entries.len() > 0
    &&& uids_distinct(entries)
    &&& forall|i: int|
        0 <= i < entries.len() && #[trigger] entries[i].lock_type == LockType::Write
            ==> entries.len() == 1
}

/// No user holds two of these locks.
pub open spec fn uids_distinct(entries: Seq<LockEntry>) -> bool {
    forall|i: int, j: int|
        0 <= i < entries.len() && 0 <= j < entries.len() && i != j ==> #[trigger] entries[i].uid
            != #[trigger] entries[j].uid
}

/// Every path of the table holds consistent locks.
pub open spec fn table_wf(table: Map<Seq<char>, Seq<LockEntry>>) -> bool {
    forall|p: Seq<char>| #[trigger] table.contains_key(p) ==> entries_wf(table[p])
}

/// A lock held by a user; releasing it gives the lock up.
pub struct LockGuard {
    path: String,
    uid: u32,
    released: bool,
}

impl View for LockGuard {
    type V = (Seq<char>, u32, bool);

    closed spec fn view(&self) -> (Seq<char>, u32, bool) {
        (self.path@, self.uid, self.released)
    }
}

/// The locks held on paths.
pub struct LockManager {
    locks: LockTable,
    epoch: Instant,
}

impl View for LockManager {
    type V = Map<Seq<char>, Seq<LockEntry>>;

    closed spec fn view(&self) -> Map<Seq<char>, Seq<LockEntry>> {
        lock_table(self.locks)
    }
}

proof fn lemma_live_sub(s: Seq<LockEntry>, now: u64)
    ensures
        live_entries(s, now).len() <= s.len(),
        forall|i: int|
            0 <= i < live_entries(s, now).len() ==> s.contains(#[trigger] live_entries(s, now)[i]),
        uids_distinct(s) ==> uids_distinct(live_entries(s, now)),
    decreases s.len(),
{
    if s.len() > 0 {
        let t = s.drop_last();
        lemma_live_sub(t, now);
        let r = live_entries(t, now);
        assert forall|i: int| 0 <= i < r.len() implies s.contains(#[trigger] r[i]) by {
            let k = choose|k: int| 0 <= k < t.len() && t[k] == r[i];
            assert(s[k] == r[i]);
        }
        if s.last().expires_at > now {
            let rp = r.push(s.last());
            assert forall|i: int| 0 <= i < rp.len() implies s.contains(#[trigger] rp[i]) by {
                if i < r.len() {
                    assert(rp[i] == r[i]);
                } else {
                    assert(s[s.len() - 1] == rp[i]);
                }
            }
            if uids_distinct(s) {
                assert(uids_distinct(t)) by {
                    assert forall|i: int, j: int|
                        0 <= i < t.len() && 0 <= j < t.len() && i != j implies #[trigger] t[i].uid
                        != #[trigger] t[j].uid by {
                        assert(t[i] == s[i] && t[j] == s[j]);
                    }
                }
                assert forall|i: int, j: int|
                    0 <= i < rp.len() && 0 <= j < rp.len() && i != j implies #[trigger] rp[i].uid
                    != #[trigger] rp[j].uid by {
                    if i < r.len() && j < r.len() {
                        assert(rp[i] == r[i] && rp[j] == r[j]);
                    } else if i < r.len() {
                        let k = choose|k: int| 0 <= k < t.len() && t[k] == r[i];
                        assert(s[k] == rp[i]);
                        assert(rp[j] == s[s.len() - 1]);
                    } else {
                        let k = choose|k: int| 0 <= k < t.len() && t[k] == r[j];
                        assert(s[k] == rp[j]);
                        assert(rp[i] == s[s.len() - 1]);
                    }
                }
            }
        } else {
            if uids_distinct(s) {
                assert forall|i: int, j: int|
                    0 <= i < t.len() && 0 <= j < t.len() && i != j implies #[trigger] t[i].uid
                    != #[trigger] t[j].uid by {
                    assert(t[i] == s[i] && t[j] == s[j]);
                }
            }
        }
    }
}

proof fn lemma_without_uid_sub(s: Seq<LockEntry>, uid: u32)
    ensures
        without_uid(s, uid).len() <= s.len(),
        forall|i: int|
            0 <= i < without_uid(s, uid).len() ==> s.contains(#[trigger] without_uid(s, uid)[i]),
        forall|i: int|
            0 <= i < without_uid(s, uid).len() ==> (#[trigger] without_uid(s, uid)[i]).uid != uid,
        uids_distinct(s) ==> uids_distinct(without_uid(s, uid)),
    decreases s.len(),
{
    if s.len() > 0 {
        let t = s.drop_last();
        lemma_without_uid_sub(t, uid);
        let r = without_uid(t, uid);
        assert forall|i: int| 0 <= i < r.len() implies s.contains(#[trigger] r[i]) by {
            let k = choose|k: int| 0 <= k < t.len() && t[k] == r[i];
            assert(s[k] == r[i]);
        }
        if uids_distinct(s) {
            assert forall|i: int, j: int|
                0 <= i < t.len() && 0 <= j < t.len() && i != j implies #[trigger] t[i].uid
                != #[trigger] t[j].uid by {
                assert(t[i] == s[i] && t[j] == s[j]);
            }
        }
        if s.last().uid != uid {
            let rp = r.push(s.last());
            assert forall|i: int| 0 <= i < rp.len() implies s.contains(#[trigger] rp[i]) by {
                if i < r.len() {
                    assert(rp[i] == r[i]);
                } else {
                    assert(s[s.len() - 1] == rp[i]);
                }
            }
            assert forall|i: int| 0 <= i < rp.len() implies (#[trigger] rp[i]).uid != uid by {
                if i < r.len() {
                    assert(rp[i] == r[i]);
                }
            }
            if uids_distinct(s) {
                assert forall|i: int, j: int|
                    0 <= i < rp.len() && 0 <= j < rp.len() && i != j implies #[trigger] rp[i].uid
                    != #[trigger] rp[j].uid by {
                    if i < r.len() && j < r.len() {
                        assert(rp[i] == r[i] && rp[j] == r[j]);
                    } else if i < r.len() {
                        let k = choose|k: int| 0 <= k < t.len() && t[k] == r[i];
                        assert(s[k] == rp[i]);
                        assert(rp[j] == s[s.len() - 1]);
                    } else {
                        let k = choose|k: int| 0 <= k < t.len() && t[k] == r[j];
                        assert(s[k] == rp[j]);
                        assert(rp[i] == s[s.len() - 1]);
                    }
                }
            }
        }
    }
}

/// A non-empty selection of consistent locks, no user twice, is consistent.
proof fn lemma_sub_wf(a: Seq<LockEntry>, b: Seq<LockEntry>)
    requires
        entries_wf(a),
        b.len() > 0,
        b.len() <= a.len(),
        forall|i: int| 0 <= i < b.len() ==> a.contains(#[trigger] b[i]),
        uids_distinct(b),
    ensures
        entries_wf(b),
{
    assert forall|i: int|
        0 <= i < b.len() && #[trigger] b[i].lock_type == LockType::Write implies b.len() == 1 by {
        assert(a.contains(b[i]));
        let k = choose|k: int| 0 <= k < a.len() && a[k] == b[i];
        assert(a[k].lock_type == LockType::Write);
    }
}

proof fn lemma_first_conflict_found(entries: Seq<LockEntry>, uid: u32, lock_type: LockType)
    ensures
        first_conflict(entries, uid, lock_type) is Some ==> entries.len() > 0,
    decreases entries.len(),
{
    if entries.len() > 0 {
        lemma_first_conflict_found(entries.drop_first(), uid, lock_type);
    }
}

proof fn lemma_no_conflict(entries: Seq<LockEntry>, uid: u32, lock_type: LockType)
    ensures
        first_conflict(entries, uid, lock_type) is None ==> forall|i: int|
            0 <= i < entries.len() ==> !conflicts_with(#[trigger] entries[i], uid, lock_type),
    decreases entries.len(),
{
    if entries.len() > 0 {
        let t = entries.drop_first();
        lemma_no_conflict(t, uid, lock_type);
        if first_conflict(entries, uid, lock_type) is None {
            assert forall|i: int| 0 <= i < entries.len() implies !conflicts_with(
                #[trigger] entries[i],
                uid,
                lock_type,
            ) by {
                if i > 0 {
                    assert(entries[i] == t[i - 1]);
                }
            }
        }
    }
}

/// A granted lock leaves the path consistent.
proof fn lemma_granted_wf(live: Seq<LockEntry>, uid: u32, entry: LockEntry)
    requires
        uids_distinct(live),
        entry.uid == uid,
        forall|i: int| 0 <= i < live.len() ==> !conflicts_with(#[trigger] live[i], uid, entry.lock_type),
    ensures
        entries_wf(without_uid(live, uid).push(entry)),
{
    lemma_without_uid_sub(live, uid);
    let k = without_uid(live, uid);
    let r = k.push(entry);
    assert forall|i: int, j: int|
        0 <= i < r.len() && 0 <= j < r.len() && i != j implies #[trigger] r[i].uid
        != #[trigger] r[j].uid by {
        if i < k.len() && j < k.len() {
            assert(r[i] == k[i] && r[j] == k[j]);
        } else if i < k.len() {
            assert(r[i] == k[i]);
        } else {
            assert(r[j] == k[j]);
        }
    }
    assert forall|i: int| 0 <= i < r.len() && #[trigger] r[i].lock_type == LockType::Write implies r.len()
        == 1 by {
        if i < k.len() {
            assert(r[i] == k[i]);
            assert(live.contains(k[i]));
            let m = choose|m: int| 0 <= m < live.len() && live[m] == k[i];
            assert(!conflicts_with(live[m], uid, entry.lock_type));
        } else {
            if k.len() > 0 {
                assert(live.contains(k[0]));
                let m = choose|m: int| 0 <= m < live.len() && live[m] == k[0];
                assert(!conflicts_with(live[m], uid, entry.lock_type));
            }
        }
    }
}

proof fn lemma_table_wf_insert(table: Map<Seq<char>, Seq<LockEntry>>, path: Seq<char>, l: Seq<LockEntry>)
    requires
        table_wf(table),
        entries_wf(l),
    ensures
        table_wf(table.insert(path, l)),
{
    assert forall|p: Seq<char>| #[trigger] table.insert(path, l).contains_key(p) implies entries_wf(
        table.insert(path, l)[p],
    ) by {
        if p != path {
            assert(table.contains_key(p));
        }
    }
}

fn live_entries_exec(entries: &Vec<LockEntry>, now: u64) -> (r: Vec<LockEntry>)
    ensures
        r@ == live_entries(entries@, now),
{
    let mut r: Vec<LockEntry> = Vec::new();
    let mut i: usize = 0;
    assert(entries@.take(0) =~= Seq::<LockEntry>::empty());
    while i < entries.len()
        invariant
            i <= entries@.len(),
            r@ == live_entries(entries@.take(i as int), now),
        decreases entries@.len() - i,
    {
        assert(entries@.take(i + 1).drop_last() =~= entries@.take(i as int));
        let e = entries[i];
        if e.expires_at > now {
            r.push(e);
        }
        i = i + 1;
    }
    assert(entries@.take(i as int) =~= entries@);
    r
}

fn without_uid_exec(entries: &Vec<LockEntry>, uid: u32) -> (r: Vec<LockEntry>)
    ensures
        r@ == without_uid(entries@, uid),
{
    let mut r: Vec<LockEntry> = Vec::new();
    let mut i: usize = 0;
    assert(entries@.take(0) =~= Seq::<LockEntry>::empty());
    while i < entries.len()
        invariant
            i <= entries@.len(),
            r@ == without_uid(entries@.take(i as int), uid),
        decreases entries@.len() - i,
    {
        assert(entries@.take(i + 1).drop_last() =~= entries@.take(i as int));
        let e = entries[i];
        if e.uid != uid {
            r.push(e);
        }
        i = i + 1;
    }
    assert(entries@.take(i as int) =~= entries@);
    r
}

proof fn lemma_first_conflict(entries: Seq<LockEntry>, uid: u32, lock_type: LockType, i: int)
    requires
        0 <= i <= entries.len(),
        forall|j: int| 0 <= j < i ==> !conflicts_with(#[trigger] entries[j], uid, lock_type),
    ensures
        i < entries.len() && conflicts_with(entries[i], uid, lock_type) ==> first_conflict(
            entries,
            uid,
            lock_type,
        ) == Some(entries[i]),
        i == entries.len() ==> first_conflict(entries, uid, lock_type) is None,
    decreases i,
{
    if i > 0 {
        let t = entries.drop_first();
        assert forall|j: int| 0 <= j < i - 1 implies !conflicts_with(
            #[trigger] t[j],
            uid,
            lock_type,
        ) by {
            assert(t[j] == entries[j + 1]);
        }
        lemma_first_conflict(t, uid, lock_type, i - 1);
    }
}

fn first_conflict_exec(entries: &Vec<LockEntry>, uid: u32, lock_type: LockType) -> (r: Option<
    LockEntry,
>)
    ensures
        r == first_conflict(entries@, uid, lock_type),
{
    let mut i: usize = 0;
    while i < entries.len()
        invariant
            i <= entries@.len(),
            forall|j: int| 0 <= j < i ==> !conflicts_with(#[trigger] entries@[j], uid, lock_type),
        decreases entries@.len() - i,
    {
        let e = entries[i];
        if !(e.lock_type == LockType::Read && lock_type == LockType::Read) && e.uid != uid {
            proof {
                lemma_first_conflict(entries@, uid, lock_type, i as int);
            }
            return Some(e);
        }
        i = i + 1;
    }
    proof {
        lemma_first_conflict(entries@, uid, lock_type, i as int);
    }
    None
}

fn conflict_message_exec(e: LockEntry) -> (s: String)
    ensures
        s@ == conflict_message(e),
{
    let mut s = String::from_str("file is locked by uid ");
    s.append(decimal_string(e.uid as u64).as_str());
    s.append(" (");
    if e.lock_type == LockType::Write {
        s.append("write");
    } else {
        s.append("read");
    }
    s.append(")");
    s
}

impl LockGuard {
    /// The path the lock is held on.
    pub fn path(&self) -> (p: &str)
        ensures
            p@ == self@.0,
    {
        self.path.as_str()
    }

    /// The user holding the lock.
    pub fn uid(&self) -> (u: u32)
        ensures
            u == self@.1,
    {
        self.uid
    }

    /// Whether the lock was released already.
    pub fn is_released(&self) -> (b: bool)
        ensures
            b == self@.2,
    {
        self.released
    }

    /// Gives the lock up, once: a second call changes nothing.
    pub fn release(&mut self, manager: &mut LockManager)
        ensures
            final(self)@.0 == old(self)@.0,
            final(self)@.1 == old(self)@.1,
            final(self)@.2,
            !old(self)@.2 ==> final(manager)@ == spec_release(
                old(manager)@,
                old(self)@.0,
                old(self)@.1,
            ),
            old(self)@.2 ==> final(manager)@ == old(manager)@,
            table_wf(old(manager)@) ==> table_wf(final(manager)@),
    {
        if !self.released {
            manager.release(self.path.as_str(), self.uid);
            self.released = true;
        }
    }
}

impl LockManager {
    /// A lock manager holding no lock.
    pub fn new() -> (m: LockManager)
        ensures
            m@ == Map::<Seq<char>, Seq<LockEntry>>::empty(),
            table_wf(m@),
    {
        LockManager { locks: table_new(), epoch: clock_now() }
    }

    /// The nanoseconds since the manager was made, as the clock reads them
    /// (the largest `u64` after some 584 years).
    fn now_nanos(&self) -> u64 {
        let d = clock_elapsed(&self.epoch);
        let ns = duration_nanos(&d);
        if ns > u64::MAX as u128 {
            u64::MAX
        } else {
            ns as u64
        }
    }

    /// Acquires a lock at time `now` (nanoseconds since the manager was
    /// made); the guard gives it up on `release`.
    pub fn acquire_at(&mut self, path: &str, uid: u32, lock_type: LockType, now: u64) -> (r: Result<
        LockGuard,
        String,
    >)
        ensures
            final(self)@ == spec_acquire(old(self)@, path@, uid, lock_type, now).0,
            match r {
                Ok(g) => spec_acquire(old(self)@, path@, uid, lock_type, now).1 is Ok && g@ == (
                    path@,
                    uid,
                    false,
                ),
                Err(e) => spec_acquire(old(self)@, path@, uid, lock_type, now).1 == Err::<
                    (),
                    Seq<char>,
                >(e@),
            },
            table_wf(old(self)@) ==> table_wf(final(self)@),
    {
        let key = String::from_str(path);
        let current = match table_get(&self.locks, &key) {
            Some(v) => v,
            None => Vec::new(),
        };
        assert(current@ == held(old(self)@, path@));
        let live = live_entries_exec(&current, now);
        proof {
            lemma_live_sub(current@, now);
        }
        match first_conflict_exec(&live, uid, lock_type) {
            Some(e) => {
                proof {
                    lemma_first_conflict_found(live@, uid, lock_type);
                    if table_wf(old(self)@) {
                        lemma_sub_wf(held(old(self)@, path@), live@);
                        lemma_table_wf_insert(old(self)@, path@, live@);
                    }
                }
                let msg = conflict_message_exec(e);
                table_insert(&mut self.locks, key, live);
                Err(msg)
            },
            None => {
                let mut kept = without_uid_exec(&live, uid);
                let expires_at = if now > u64::MAX - DEFAULT_TTL_NS {
                    u64::MAX
                } else {
                    now + DEFAULT_TTL_NS
                };
                let entry = LockEntry { uid, lock_type, acquired_at: now, expires_at };
                proof {
                    lemma_no_conflict(live@, uid, lock_type);
                    if table_wf(old(self)@) {
                        lemma_granted_wf(live@, uid, entry);
                        lemma_table_wf_insert(
                            old(self)@,
                            path@,
                            without_uid(live@, uid).push(entry),
                        );
                    }
                }
                kept.push(entry);
                table_insert(&mut self.locks, key, kept);
                Ok(LockGuard { path: String::from_str(path), uid, released: false })
            },
        }
    }

    /// Acquires a lock now; the guard gives it up on `release`. What the
    /// clock reads is not stated: the outcome is that of `acquire_at` at
    /// some time.
    pub fn acquire(&mut self, path: &str, uid: u32, lock_type: LockType) -> (r: Result<
        LockGuard,
        String,
    >)
        ensures
            exists|now: u64|
                {
                    &&& #[trigger] spec_acquire(old(self)@, path@, uid, lock_type, now).0
                        == final(self)@
                    &&& match r {
                        Ok(g) => spec_acquire(old(self)@, path@, uid, lock_type, now).1 is Ok
                            && g@ == (path@, uid, false),
                        Err(e) => spec_acquire(old(self)@, path@, uid, lock_type, now).1 == Err::<
                            (),
                            Seq<char>,
                        >(e@),
                    }
                },
            table_wf(old(self)@) ==> table_wf(final(self)@),
    {
        let now = self.now_nanos();
        self.acquire_at(path, uid, lock_type, now)
    }

    /// Releases the locks that `uid` holds on `path`.
    pub fn release(&mut self, path: &str, uid: u32)
        ensures
            final(self)@ == spec_release(old(self)@, path@, uid),
            table_wf(old(self)@) ==> table_wf(final(self)@),
    {
        let key = String::from_str(path);
        match table_get(&self.locks, &key) {
            None => {},
            Some(entries) => {
                let kept = without_uid_exec(&entries, uid);
                proof {
                    lemma_without_uid_sub(entries@, uid);
                    if kept@.len() > 0 && table_wf(old(self)@) {
                        lemma_sub_wf(entries@, kept@);
                        lemma_table_wf_insert(old(self)@, path@, kept@);
                    }
                }
                if kept.len() == 0 {
                    table_remove(&mut self.locks, &key);
                } else {
                    table_insert(&mut self.locks, key, kept);
                }
            },
        }
    }

    /// Whether any lock is held on `path`.
    pub fn is_locked(&self, path: &str) -> (b: bool)
        ensures
            b == self@.contains_key(path@),
    {
        table_contains(&self.locks, &String::from_str(path))
    }

    /// The locks held on `path`, oldest first.
    pub fn entries(&self, path: &str) -> (r: Vec<LockEntry>)
        ensures
            r@ == held(self@, path@),
    {
        match table_get(&self.locks, &String::from_str(path)) {
            Some(v) => v,
            None => Vec::new(),
        }
    }
}

/// Locks that expired by `now` never stand in the way: with only such locks
/// on the path, any request is granted and the new lock is the only one.
pub proof fn law_expired_locks_ignored(
    table: Map<Seq<char>, Seq<LockEntry>>,
    path: Seq<char>,
    uid: u32,
    lock_type: LockType,
    now: u64,
)
    requires
        forall|i: int|
            0 <= i < held(table, path).len() ==> (#[trigger] held(table, path)[i]).expires_at <= now,
    ensures
        spec_acquire(table, path, uid, lock_type, now).1 is Ok,
        spec_acquire(table, path, uid, lock_type, now).0[path] == seq![
            LockEntry { uid, lock_type, acquired_at: now, expires_at: expiry(now) },
        ],
{
    lemma_none_live(held(table, path), now);
    let live = live_entries(held(table, path), now);
    assert(live.len() == 0);
    assert(without_uid(live, uid) =~= Seq::<LockEntry>::empty());
}

proof fn lemma_none_live(s: Seq<LockEntry>, now: u64)
    requires
        forall|i: int| 0 <= i < s.len() ==> (#[trigger] s[i]).expires_at <= now,
    ensures
        live_entries(s, now).len() == 0,
    decreases s.len(),
{
    if s.len() > 0 {
        let t = s.drop_last();
        assert forall|i: int| 0 <= i < t.len() implies (#[trigger] t[i]).expires_at <= now by {
            assert(t[i] == s[i]);
        }
        lemma_none_live(t, now);
    }
}

proof fn lemma_first_conflict_some(entries: Seq<LockEntry>, uid: u32, lock_type: LockType)
    ensures
        first_conflict(entries, uid, lock_type) matches Some(e) ==> exists|k: int|
            0 <= k < entries.len() && entries[k] == e && conflicts_with(#[trigger] entries[k], uid, lock_type),
    decreases entries.len(),
{
    if entries.len() > 0 {
        let t = entries.drop_first();
        lemma_first_conflict_some(t, uid, lock_type);
        if !conflicts_with(entries[0], uid, lock_type) {
            if let Some(e) = first_conflict(t, uid, lock_type) {
                let k = choose|k: int|
                    0 <= k < t.len() && t[k] == e && conflicts_with(#[trigger] t[k], uid, lock_type);
                assert(entries[k + 1] == t[k]);
            }
        }
    }
}

/// Acquiring at `now` is refused exactly when a lock in force on the path
/// stands in the way; a refusal keeps the locks in force and touches no
/// other path; a grant replaces the user's own locks on the path by the new
/// one, which expires five minutes on (while that fits in the clock).
pub proof fn law_acquire_outcome(
    table: Map<Seq<char>, Seq<LockEntry>>,
    path: Seq<char>,
    uid: u32,
    lock_type: LockType,
    now: u64,
)
    requires
        now + DEFAULT_TTL_NS <= u64::MAX,
    ensures
        spec_acquire(table, path, uid, lock_type, now).1 is Err <==> exists|k: int|
            0 <= k < live_entries(held(table, path), now).len() && conflicts_with(
                #[trigger] live_entries(held(table, path), now)[k],
                uid,
                lock_type,
            ),
        spec_acquire(table, path, uid, lock_type, now).1 is Err ==> spec_acquire(
            table,
            path,
            uid,
            lock_type,
            now,
        ).0 == table.insert(path, live_entries(held(table, path), now)),
        spec_acquire(table, path, uid, lock_type, now).1 is Ok ==> spec_acquire(
            table,
            path,
            uid,
            lock_type,
            now,
        ).0 == table.insert(
            path,
            without_uid(live_entries(held(table, path), now), uid).push(
                LockEntry {
                    uid,
                    lock_type,
                    acquired_at: now,
                    expires_at: (now + DEFAULT_TTL_NS) as u64,
                },
            ),
        ),
{
    let live = live_entries(held(table, path), now);
    lemma_no_conflict(live, uid, lock_type);
    lemma_first_conflict_some(live, uid, lock_type);
    assert(expiry(now) == now + DEFAULT_TTL_NS);
}

/// A write lock granted at `t0` keeps every other user out until exactly
/// five minutes later, and no longer (while `t0` plus five minutes fits in
/// the clock).
pub proof fn law_write_lock_expires_after_ttl(
    table: Map<Seq<char>, Seq<LockEntry>>,
    path: Seq<char>,
    holder: u32,
    other: u32,
    lock_type: LockType,
    t0: u64,
    now: u64,
)
    requires
        spec_acquire(table, path, holder, LockType::Write, t0).1 is Ok,
        holder != other,
        t0 + DEFAULT_TTL_NS <= u64::MAX,
    ensures
        spec_acquire(spec_acquire(table, path, holder, LockType::Write, t0).0, path, other, lock_type, now).1
            is Ok <==> now >= t0 + DEFAULT_TTL_NS,
{
    law_write_lock_exclusive(table, path, holder, t0);
    let t1 = spec_acquire(table, path, holder, LockType::Write, t0).0;
    let e = LockEntry {
        uid: holder,
        lock_type: LockType::Write,
        acquired_at: t0,
        expires_at: expiry(t0),
    };
    assert(held(t1, path) == seq![e]);
    assert(seq![e].drop_last() =~= Seq::<LockEntry>::empty());
    assert(seq![e].last() == e);
    assert(expiry(t0) == t0 + DEFAULT_TTL_NS);
    assert(live_entries(Seq::<LockEntry>::empty(), now) == Seq::<LockEntry>::empty());
    let live = live_entries(seq![e], now);
    if now >= t0 + DEFAULT_TTL_NS {
        assert(live =~= Seq::<LockEntry>::empty());
    } else {
        assert(live =~= seq![e]);
        assert(conflicts_with(e, other, lock_type));
        assert(first_conflict(live, other, lock_type) == Some(e));
    }
}

/// A write lock, once granted, is the only lock on its path.
pub proof fn law_write_lock_exclusive(
    table: Map<Seq<char>, Seq<LockEntry>>,
    path: Seq<char>,
    uid: u32,
    now: u64,
)
    requires
        spec_acquire(table, path, uid, LockType::Write, now).1 is Ok,
    ensures
        spec_acquire(table, path, uid, LockType::Write, now).0[path] == seq![
            LockEntry { uid, lock_type: LockType::Write, acquired_at: now, expires_at: expiry(now) },
        ],
{
    let live = live_entries(held(table, path), now);
    lemma_no_conflict(live, uid, LockType::Write);
    lemma_without_uid_sub(live, uid);
    let k = without_uid(live, uid);
    if k.len() > 0 {
        assert(live.contains(k[0]));
        let m = choose|m: int| 0 <= m < live.len() && live[m] == k[0];
        assert(!conflicts_with(live[m], uid, LockType::Write));
    }
    assert(k.len() == 0);
    assert(k =~= Seq::<LockEntry>::empty());
}

/// A read lock is granted wherever every lock in force on the path is a
/// read lock.
pub proof fn law_reads_share(
    table: Map<Seq<char>, Seq<LockEntry>>,
    path: Seq<char>,
    uid: u32,
    now: u64,
)
    requires
        forall|i: int|
            0 <= i < live_entries(held(table, path), now).len() ==> (#[trigger] live_entries(
                held(table, path),
                now,
            )[i]).lock_type == LockType::Read,
    ensures
        spec_acquire(table, path, uid, LockType::Read, now).1 is Ok,
{
    let live = live_entries(held(table, path), now);
    lemma_first_conflict(live, uid, LockType::Read, live.len() as int);
}

/// A lock in force held by another user, where one of the two locks is a
/// write lock, refuses the request and names that user.
pub proof fn law_conflict_refused(
    table: Map<Seq<char>, Seq<LockEntry>>,
    path: Seq<char>,
    uid: u32,
    lock_type: LockType,
    now: u64,
    i: int,
)
    requires
        0 <= i < live_entries(held(table, path), now).len(),
        conflicts_with(live_entries(held(table, path), now)[i], uid, lock_type),
    ensures
        spec_acquire(table, path, uid, lock_type, now).1 is Err,
        spec_acquire(table, path, uid, lock_type, now).0 == table.insert(
            path,
            live_entries(held(table, path), now),
        ),
{
    let live = live_entries(held(table, path), now);
    lemma_no_conflict(live, uid, lock_type);
}

/// Whether a request is refused depends only on the locks in force held by
/// other users: it is granted exactly when each of them is a read lock and
/// the request is for reading. The user's own locks, of either kind, never
/// stand in the way: the same user may take its lock again, or change it.
pub proof fn law_own_lock_never_refuses(
    table: Map<Seq<char>, Seq<LockEntry>>,
    path: Seq<char>,
    uid: u32,
    lock_type: LockType,
    now: u64,
)
    ensures
        spec_acquire(table, path, uid, lock_type, now).1 is Ok <==> forall|i: int|
            0 <= i < live_entries(held(table, path), now).len() && (#[trigger] live_entries(
                held(table, path),
                now,
            )[i]).uid != uid ==> live_entries(held(table, path), now)[i].lock_type == LockType::Read
                && lock_type == LockType::Read,
{
    let live = live_entries(held(table, path), now);
    lemma_no_conflict(live, uid, lock_type);
    lemma_first_conflict_some(live, uid, lock_type);
    if spec_acquire(table, path, uid, lock_type, now).1 is Ok {
        assert forall|i: int| 0 <= i < live.len() && (#[trigger] live[i]).uid != uid implies live[i].lock_type
            == LockType::Read && lock_type == LockType::Read by {
            assert(!conflicts_with(live[i], uid, lock_type));
        }
    } else {
        let e = first_conflict(live, uid, lock_type)->Some_0;
        let k = choose|k: int|
            0 <= k < live.len() && live[k] == e && conflicts_with(#[trigger] live[k], uid, lock_type);
        assert(live[k].uid != uid);
    }
}

/// Once granted, the user holds exactly one lock on the path: the new one.
pub proof fn law_one_lock_per_user(
    table: Map<Seq<char>, Seq<LockEntry>>,
    path: Seq<char>,
    uid: u32,
    lock_type: LockType,
    now: u64,
    i: int,
)
    requires
        spec_acquire(table, path, uid, lock_type, now).1 is Ok,
        0 <= i < spec_acquire(table, path, uid, lock_type, now).0[path].len(),
        (#[trigger] spec_acquire(table, path, uid, lock_type, now).0[path][i]).uid == uid,
    ensures
        spec_acquire(table, path, uid, lock_type, now).0[path][i] == (LockEntry {
            uid,
            lock_type,
            acquired_at: now,
            expires_at: expiry(now),
        }),
        i == spec_acquire(table, path, uid, lock_type, now).0[path].len() - 1,
{
    let live = live_entries(held(table, path), now);
    lemma_without_uid_sub(live, uid);
    let k = without_uid(live, uid);
    if i < k.len() {
        assert(spec_acquire(table, path, uid, lock_type, now).0[path][i] == k[i]);
    }
}

/// Releasing leaves the user no lock on the path, and touches no other
/// path or user.
pub proof fn law_release_frees(table: Map<Seq<char>, Seq<LockEntry>>, path: Seq<char>, uid: u32)
    ensures
        forall|i: int|
            0 <= i < held(spec_release(table, path, uid), path).len() ==> (#[trigger] held(
                spec_release(table, path, uid),
                path,
            )[i]).uid != uid,
        held(spec_release(table, path, uid), path) == without_uid(held(table, path), uid),
        forall|q: Seq<char>|
            q != path ==> #[trigger] held(spec_release(table, path, uid), q) == held(table, q),
{
    lemma_without_uid_sub(held(table, path), uid);
    if !table.contains_key(path) {
        assert(held(table, path) =~= Seq::<LockEntry>::empty());
    }
    if table.contains_key(path) && without_uid(table[path], uid).len() == 0 {
        assert(without_uid(table[path], uid) =~= Seq::<LockEntry>::empty());
    }
}

/// Acquiring touches no other path.
pub proof fn law_paths_independent(
    table: Map<Seq<char>, Seq<LockEntry>>,
    path: Seq<char>,
    other: Seq<char>,
    uid: u32,
    lock_type: LockType,
    now: u64,
)
    requires
        other != path,
    ensures
        held(spec_acquire(table, path, uid, lock_type, now).0, other) == held(table, other),
{
}

impl Default for LockManager {
    fn default() -> (m: LockManager)
        ensures
            m@ == Map::<Seq<char>, Seq<LockEntry>>::empty(),
    {
        LockManager::new()
    }
}

} // verus!
