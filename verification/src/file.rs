//! A transactional file: the MVCC version store for a single file.
//!
//! A [`File`] owns the state of its last-modified transactional scalar lock
//! (committed modification ids, committed transactions, the pending writer,
//! read reservations and outstanding guards) together with the modeled
//! on-disk state: the per-file version directory `.txfs/<name>/` (one
//! version file per transaction id) and the canonical copy in the parent
//! directory.
//!
//! Acquisitions that would have to wait in a concurrent setting fail with
//! [`Error::Conflict`] here: this model is the non-blocking face of the
//! protocol, and an embedding program may retry.

use vstd::prelude::*;

use crate::error::Error;
use crate::error::Result;
use crate::name::Name;

verus! {

/// True if `s` is strictly ascending.
pub open spec fn sorted_strict(s: Seq<u64>) -> bool {
    forall|i: int, j: int| 0 <= i < j < s.len() ==> s[i] < s[j]
}

/// The greatest element of `s` that is at most `t`, for a strictly ascending
/// `s` (scanning from the back).
pub open spec fn last_le(s: Seq<u64>, t: u64) -> Option<u64>
    decreases s.len(),
{
    if s.len() == 0 {
        None
    } else if s.last() <= t {
        Some(s.last())
    } else {
        last_le(s.drop_last(), t)
    }
}

/// What `last_le` returns on a strictly ascending sequence: the maximum
/// element `<= t` when one exists, and `None` exactly when every element
/// exceeds `t`.
pub proof fn lemma_last_le(s: Seq<u64>, t: u64)
    requires
        sorted_strict(s),
    ensures
        match last_le(s, t) {
            Some(m) => s.contains(m) && m <= t && forall|i: int|
                0 <= i < s.len() && s[i] <= t ==> s[i] <= m,
            None => forall|i: int| 0 <= i < s.len() ==> s[i] > t,
        },
    decreases s.len(),
{
    if s.len() > 0 {
        if s.last() <= t {
            assert(s.contains(s.last()));
        } else {
            assert(forall|i: int|
                0 <= i < s.drop_last().len() ==> s.drop_last()[i] == s[i]);
            lemma_last_le(s.drop_last(), t);
            match last_le(s.drop_last(), t) {
                Some(m) => {
                    let i = choose|i: int|
                        0 <= i < s.drop_last().len() && s.drop_last()[i] == m;
                    assert(s[i] == m);
                    assert(s.contains(m));
                    assert(forall|i: int| 0 <= i < s.len() && s[i] <= t ==> i < s.len() - 1);
                }
                None => {}
            }
        }
    }
}

/// True if the ids of `s` hold no duplicates.
pub open spec fn unique_version_ids(s: Seq<(u64, Vec<u8>)>) -> bool {
    forall|i: int, j: int| 0 <= i < j < s.len() ==> s[i].0 != s[j].0
}

/// The bytes of the version file named `id`, if one exists.
pub open spec fn lookup_version(s: Seq<(u64, Vec<u8>)>, id: u64) -> Option<Seq<u8>>
    decreases s.len(),
{
    if s.len() == 0 {
        None
    } else if s[0].0 == id {
        Some(s[0].1@)
    } else {
        lookup_version(s.drop_first(), id)
    }
}

/// `s` with every element `<= t` removed, order kept.
pub open spec fn filter_gt(s: Seq<u64>, t: u64) -> Seq<u64>
    decreases s.len(),
{
    if s.len() == 0 {
        Seq::empty()
    } else if s[0] > t {
        seq![s[0]] + filter_gt(s.drop_first(), t)
    } else {
        filter_gt(s.drop_first(), t)
    }
}

/// `s` with every occurrence of `t` removed, order kept.
pub open spec fn removed_all(s: Seq<u64>, t: u64) -> Seq<u64>
    decreases s.len(),
{
    if s.len() == 0 {
        Seq::empty()
    } else if s[0] == t {
        removed_all(s.drop_first(), t)
    } else {
        seq![s[0]] + removed_all(s.drop_first(), t)
    }
}

/// `s` with `t` appended unless already present.
pub open spec fn set_added(s: Seq<u64>, t: u64) -> Seq<u64> {
    if s.contains(t) {
        s
    } else {
        s.push(t)
    }
}

/// `s` with the first occurrence of `t` removed.
pub open spec fn remove_first(s: Seq<u64>, t: u64) -> Seq<u64>
    decreases s.len(),
{
    if s.len() == 0 {
        Seq::empty()
    } else if s[0] == t {
        s.drop_first()
    } else {
        seq![s[0]] + remove_first(s.drop_first(), t)
    }
}

/// The version files of `s` whose id exceeds `m`, order kept.
pub open spec fn versions_gt(s: Seq<(u64, Vec<u8>)>, m: u64) -> Seq<(u64, Vec<u8>)>
    decreases s.len(),
{
    if s.len() == 0 {
        Seq::empty()
    } else if s[0].0 > m {
        seq![s[0]] + versions_gt(s.drop_first(), m)
    } else {
        versions_gt(s.drop_first(), m)
    }
}

/// The version files of `s` other than the one named `id`, order kept.
pub open spec fn version_removed(s: Seq<(u64, Vec<u8>)>, id: u64) -> Seq<(u64, Vec<u8>)>
    decreases s.len(),
{
    if s.len() == 0 {
        Seq::empty()
    } else if s[0].0 == id {
        version_removed(s.drop_first(), id)
    } else {
        seq![s[0]] + version_removed(s.drop_first(), id)
    }
}

/// The committed modification ids after finalizing at `t`: ids above `t`
/// are kept, and all ids at or below `t` collapse into their maximum `m`.
pub open spec fn merge_modified(s: Seq<u64>, t: u64) -> Seq<u64> {
    match last_le(s, t) {
        Some(m) => seq![m] + filter_gt(s, t),
        None => s,
    }
}

/// A read guard on a version of a transactional [`File`].
///
/// The guard owns a copy of the version's bytes. Hand it back with
/// [`File::release_read`] to release the read lock it may hold.
#[derive(Debug)]
pub struct FileVersionRead {
    /// The transaction that acquired this guard.
    pub txn_id: u64,
    /// The id of the version file the bytes were read from.
    pub version_id: u64,
    /// The bytes of the effective version.
    pub bytes: Vec<u8>,
    /// Whether this guard holds a read lock (a read of an already-committed
    /// transaction does not).
    pub permitted: bool,
}

impl FileVersionRead {
    /// Borrow the bytes read.
    pub fn contents(&self) -> (r: &Vec<u8>)
        ensures
            r == &self.bytes,
    {
        &self.bytes
    }
}

/// A write guard on a version of a transactional [`File`].
///
/// Mutate the owned bytes, then hand the guard back with
/// [`File::release_write`] to store them into the version file and release
/// the write lock.
#[derive(Debug)]
pub struct FileVersionWrite {
    /// The transaction that acquired this guard.
    pub txn_id: u64,
    /// The working copy of the version's bytes.
    pub bytes: Vec<u8>,
}

impl FileVersionWrite {
    /// Borrow the working bytes.
    pub fn contents(&self) -> (r: &Vec<u8>)
        ensures
            r == &self.bytes,
    {
        &self.bytes
    }

    /// Replace the working bytes.
    pub fn set_contents(&mut self, bytes: Vec<u8>)
        ensures
            final(self).bytes == bytes,
            final(self).txn_id == old(self).txn_id,
    {
        self.bytes = bytes;
    }
}

/// A transactional file.
#[derive(Debug)]
pub struct File {
    /// The entry name under the parent directory.
    pub name: Name,
    /// Committed modification ids, strictly ascending; the first element is
    /// the id the file was created or loaded at.
    pub modified: Vec<u64>,
    /// Transactions that have committed on this file (including read-only
    /// commits).
    pub commits: Vec<u64>,
    /// The transaction holding an uncommitted version, if any.
    pub pending: Option<u64>,
    /// The most recent finalized transaction.
    pub finalized_at: Option<u64>,
    /// Transactions holding unresolved read reservations.
    pub read_marks: Vec<u64>,
    /// Transactions of outstanding read guards (one element per guard).
    pub readers: Vec<u64>,
    /// Whether a write guard is outstanding (it belongs to `pending`).
    pub writer: bool,
    /// The version files on disk under `.txfs/<name>/`, keyed by the string
    /// form of their transaction id.
    pub versions: Vec<(u64, Vec<u8>)>,
    /// Whether `.txfs/<name>/` itself exists on disk.
    pub version_dir: bool,
    /// The canonical copy under the parent directory, if one has been
    /// committed to disk.
    pub canon: Option<Vec<u8>>,
}

impl File {
    /// Well-formedness of the lock and disk state.
    pub open spec fn wf(self) -> bool {
        &&& self.name.wf()
        &&& self.modified@.len() > 0
        &&& sorted_strict(self.modified@)
        &&& unique_version_ids(self.versions@)
        &&& match self.pending {
            Some(p) => {
                &&& p >= self.modified@.last()
                &&& !self.commits@.contains(p)
                &&& lookup_version(self.versions@, p) is Some
            },
            None => true,
        }
        &&& self.writer ==> match self.pending {
            Some(p) => !self.readers@.contains(p),
            None => false,
        }
    }

    /// True if `t` precedes the most recent finalize: no operation at `t` is
    /// valid any more.
    pub open spec fn outdated(self, t: u64) -> bool {
        match self.finalized_at {
            Some(f) => f > t,
            None => false,
        }
    }

    /// True if transaction `t` has committed on this file.
    pub open spec fn lock_committed(self, t: u64) -> bool {
        self.commits@.contains(t)
    }

    /// The id of the modification visible at transaction `t`: the greatest
    /// committed modification id at most `t`, or the initial id if none is.
    pub open spec fn visible_to(self, t: u64) -> u64 {
        match last_le(self.modified@, t) {
            Some(m) => m,
            None => self.modified@[0],
        }
    }

    /// The id of the version a read at `t` observes: the caller's own
    /// pending version if it wrote here, else the visible committed one.
    pub open spec fn effective_version(self, t: u64) -> u64 {
        if self.pending == Some(t) {
            t
        } else {
            self.visible_to(t)
        }
    }

    /// The bytes stored for version `id`: the version file if present, else
    /// the canonical copy (which holds the last committed content once the
    /// version files have been reclaimed by a finalize).
    pub open spec fn resolve(self, id: u64) -> Option<Seq<u8>> {
        match lookup_version(self.versions@, id) {
            Some(b) => Some(b),
            None => match self.canon {
                Some(c) => Some(c@),
                None => None,
            },
        }
    }

    /// True if an acquisition at `t` would have to wait: a write guard is
    /// outstanding, or an earlier transaction holds an uncommitted version.
    pub open spec fn blocked(self, t: u64) -> bool {
        self.writer || match self.pending {
            Some(p) => p < t,
            None => false,
        }
    }

    /// True if a transaction later than `t` holds a read reservation, which
    /// forbids writing at `t`.
    pub open spec fn has_future_mark(self, t: u64) -> bool {
        exists|i: int| 0 <= i < self.read_marks@.len() && self.read_marks@[i] > t
    }

    /// The most recent committed modification id.
    pub open spec fn latest_modified(self) -> u64 {
        self.modified@.last()
    }
}

/// True if `a` and `b` agree on everything but the read reservations and
/// outstanding read guards.
pub open spec fn same_but_read_state(a: File, b: File) -> bool {
    &&& a.name@ == b.name@
    &&& a.modified@ == b.modified@
    &&& a.commits@ == b.commits@
    &&& a.pending == b.pending
    &&& a.finalized_at == b.finalized_at
    &&& a.writer == b.writer
    &&& a.versions@ == b.versions@
    &&& a.version_dir == b.version_dir
    &&& option_bytes(a.canon) == option_bytes(b.canon)
}

/// The abstract content of an optional byte vector.
pub open spec fn option_bytes(o: Option<Vec<u8>>) -> Option<Seq<u8>> {
    match o {
        Some(b) => Some(b@),
        None => None,
    }
}

/// True if `a` and `b` are the same file state, compared by abstract value.
pub open spec fn file_eq_view(a: File, b: File) -> bool {
    &&& a.name@ == b.name@
    &&& a.modified@ == b.modified@
    &&& a.commits@ == b.commits@
    &&& a.pending == b.pending
    &&& a.finalized_at == b.finalized_at
    &&& a.read_marks@ == b.read_marks@
    &&& a.readers@ == b.readers@
    &&& a.writer == b.writer
    &&& versions_view(a.versions@) == versions_view(b.versions@)
    &&& a.version_dir == b.version_dir
    &&& option_bytes(a.canon) == option_bytes(b.canon)
}

/// The abstract content of a version store.
pub open spec fn versions_view(s: Seq<(u64, Vec<u8>)>) -> Seq<(u64, Seq<u8>)> {
    s.map_values(|p: (u64, Vec<u8>)| (p.0, p.1@))
}

proof fn lemma_filter_gt_push(s: Seq<u64>, t: u64, x: u64)
    ensures
        filter_gt(s.push(x), t) == if x > t {
            filter_gt(s, t).push(x)
        } else {
            filter_gt(s, t)
        },
    decreases s.len(),
{
    if s.len() == 0 {
        assert(s.push(x).drop_first() =~= Seq::<u64>::empty());
        assert(s.push(x)[0] == x);
        assert(filter_gt(Seq::<u64>::empty(), t) =~= Seq::<u64>::empty());
        assert(filter_gt(s, t) =~= Seq::<u64>::empty());
        if x > t {
            assert(filter_gt(s.push(x), t) =~= seq![x] + filter_gt(Seq::<u64>::empty(), t));
            assert(filter_gt(s.push(x), t) =~= filter_gt(s, t).push(x));
        } else {
            assert(filter_gt(s.push(x), t) =~= filter_gt(s, t));
        }
    } else {
        assert(s.push(x).drop_first() =~= s.drop_first().push(x));
        assert(s.push(x)[0] == s[0]);
        lemma_filter_gt_push(s.drop_first(), t, x);
        if x > t {
            if s[0] > t {
                assert(seq![s[0]] + filter_gt(s.drop_first(), t).push(x) =~= (seq![s[0]]
                    + filter_gt(s.drop_first(), t)).push(x));
            }
            assert(filter_gt(s.push(x), t) =~= filter_gt(s, t).push(x));
        }
    }
}

proof fn lemma_removed_all_push(s: Seq<u64>, t: u64, x: u64)
    ensures
        removed_all(s.push(x), t) == if x != t {
            removed_all(s, t).push(x)
        } else {
            removed_all(s, t)
        },
    decreases s.len(),
{
    if s.len() == 0 {
        assert(s.push(x).drop_first() =~= Seq::<u64>::empty());
        assert(s.push(x)[0] == x);
        assert(removed_all(Seq::<u64>::empty(), t) =~= Seq::<u64>::empty());
        assert(removed_all(s, t) =~= Seq::<u64>::empty());
        if x != t {
            assert(removed_all(s.push(x), t) =~= seq![x] + removed_all(Seq::<u64>::empty(), t));
            assert(removed_all(s.push(x), t) =~= removed_all(s, t).push(x));
        } else {
            assert(removed_all(s.push(x), t) =~= removed_all(s, t));
        }
    } else {
        assert(s.push(x).drop_first() =~= s.drop_first().push(x));
        assert(s.push(x)[0] == s[0]);
        lemma_removed_all_push(s.drop_first(), t, x);
        if x != t {
            if s[0] != t {
                assert(seq![s[0]] + removed_all(s.drop_first(), t).push(x) =~= (seq![s[0]]
                    + removed_all(s.drop_first(), t)).push(x));
            }
            assert(removed_all(s.push(x), t) =~= removed_all(s, t).push(x));
        }
    }
}

proof fn lemma_versions_gt_push(s: Seq<(u64, Vec<u8>)>, m: u64, x: (u64, Vec<u8>))
    ensures
        versions_gt(s.push(x), m) == if x.0 > m {
            versions_gt(s, m).push(x)
        } else {
            versions_gt(s, m)
        },
    decreases s.len(),
{
    if s.len() == 0 {
        assert(s.push(x).drop_first() =~= Seq::<(u64, Vec<u8>)>::empty());
        assert(s.push(x)[0] == x);
        assert(versions_gt(Seq::<(u64, Vec<u8>)>::empty(), m) =~= Seq::<(u64, Vec<u8>)>::empty());
        assert(versions_gt(s, m) =~= Seq::<(u64, Vec<u8>)>::empty());
        if x.0 > m {
            assert(versions_gt(s.push(x), m) =~= seq![x] + versions_gt(
                Seq::<(u64, Vec<u8>)>::empty(),
                m,
            ));
            assert(versions_gt(s.push(x), m) =~= versions_gt(s, m).push(x));
        } else {
            assert(versions_gt(s.push(x), m) =~= versions_gt(s, m));
        }
    } else {
        assert(s.push(x).drop_first() =~= s.drop_first().push(x));
        assert(s.push(x)[0] == s[0]);
        lemma_versions_gt_push(s.drop_first(), m, x);
        if x.0 > m {
            if s[0].0 > m {
                assert(seq![s[0]] + versions_gt(s.drop_first(), m).push(x) =~= (seq![s[0]]
                    + versions_gt(s.drop_first(), m)).push(x));
            }
            assert(versions_gt(s.push(x), m) =~= versions_gt(s, m).push(x));
        }
    }
}

proof fn lemma_version_removed_push(s: Seq<(u64, Vec<u8>)>, id: u64, x: (u64, Vec<u8>))
    ensures
        version_removed(s.push(x), id) == if x.0 != id {
            version_removed(s, id).push(x)
        } else {
            version_removed(s, id)
        },
    decreases s.len(),
{
    if s.len() == 0 {
        assert(s.push(x).drop_first() =~= Seq::<(u64, Vec<u8>)>::empty());
        assert(s.push(x)[0] == x);
        assert(version_removed(Seq::<(u64, Vec<u8>)>::empty(), id) =~= Seq::<
            (u64, Vec<u8>),
        >::empty());
        assert(version_removed(s, id) =~= Seq::<(u64, Vec<u8>)>::empty());
        if x.0 != id {
            assert(version_removed(s.push(x), id) =~= seq![x] + version_removed(
                Seq::<(u64, Vec<u8>)>::empty(),
                id,
            ));
            assert(version_removed(s.push(x), id) =~= version_removed(s, id).push(x));
        } else {
            assert(version_removed(s.push(x), id) =~= version_removed(s, id));
        }
    } else {
        assert(s.push(x).drop_first() =~= s.drop_first().push(x));
        assert(s.push(x)[0] == s[0]);
        lemma_version_removed_push(s.drop_first(), id, x);
        if x.0 != id {
            if s[0].0 != id {
                assert(seq![s[0]] + version_removed(s.drop_first(), id).push(x) =~= (seq![s[0]]
                    + version_removed(s.drop_first(), id)).push(x));
            }
            assert(version_removed(s.push(x), id) =~= version_removed(s, id).push(x));
        }
    }
}

/// Membership in the result of `filter_gt`.
pub proof fn lemma_filter_gt_contains(s: Seq<u64>, t: u64, x: u64)
    ensures
        filter_gt(s, t).contains(x) <==> (s.contains(x) && x > t),
    decreases s.len(),
{
    if s.len() > 0 {
        lemma_filter_gt_contains(s.drop_first(), t, x);
        assert(s.contains(x) <==> (s[0] == x || s.drop_first().contains(x))) by {
            if s.contains(x) {
                let i = choose|i: int| 0 <= i < s.len() && s[i] == x;
                if i > 0 {
                    assert(s.drop_first()[i - 1] == x);
                }
            }
            if s.drop_first().contains(x) {
                let i = choose|i: int|
                    0 <= i < s.drop_first().len() && s.drop_first()[i] == x;
                assert(s[i + 1] == x);
            }
        }
        if s[0] > t {
            assert(filter_gt(s, t).contains(x) <==> (s[0] == x || filter_gt(
                s.drop_first(),
                t,
            ).contains(x))) by {
                let f = seq![s[0]] + filter_gt(s.drop_first(), t);
                if f.contains(x) {
                    let i = choose|i: int| 0 <= i < f.len() && f[i] == x;
                    if i > 0 {
                        assert(filter_gt(s.drop_first(), t)[i - 1] == x);
                    }
                }
                if filter_gt(s.drop_first(), t).contains(x) {
                    let i = choose|i: int|
                        0 <= i < filter_gt(s.drop_first(), t).len() && filter_gt(
                            s.drop_first(),
                            t,
                        )[i] == x;
                    assert(f[i + 1] == x);
                }
                assert(f[0] == s[0]);
            }
        }
    }
}

fn contains_u64(v: &Vec<u64>, x: u64) -> (r: bool)
    ensures
        r == v@.contains(x),
{
    let n = v.len();
    let mut i: usize = 0;
    while i < n
        invariant
            i <= n,
            n == v@.len(),
            forall|j: int| 0 <= j < i ==> v@[j] != x,
        decreases n - i,
    {
        if v[i] == x {
            return true;
        }
        i = i + 1;
    }
    false
}

fn exec_filter_gt(v: &Vec<u64>, t: u64) -> (r: Vec<u64>)
    ensures
        r@ == filter_gt(v@, t),
{
    let n = v.len();
    let mut r: Vec<u64> = Vec::new();
    let mut i: usize = 0;
    while i < n
        invariant
            i <= n,
            n == v@.len(),
            r@ == filter_gt(v@.subrange(0, i as int), t),
        decreases n - i,
    {
        proof {
            assert(v@.subrange(0, i as int).push(v@[i as int]) =~= v@.subrange(0, i + 1));
            lemma_filter_gt_push(v@.subrange(0, i as int), t, v@[i as int]);
        }
        if v[i] > t {
            r.push(v[i]);
        }
        i = i + 1;
    }
    proof {
        assert(v@.subrange(0, n as int) =~= v@);
    }
    r
}

fn exec_removed_all(v: &Vec<u64>, t: u64) -> (r: Vec<u64>)
    ensures
        r@ == removed_all(v@, t),
{
    let n = v.len();
    let mut r: Vec<u64> = Vec::new();
    let mut i: usize = 0;
    while i < n
        invariant
            i <= n,
            n == v@.len(),
            r@ == removed_all(v@.subrange(0, i as int), t),
        decreases n - i,
    {
        proof {
            assert(v@.subrange(0, i as int).push(v@[i as int]) =~= v@.subrange(0, i + 1));
            lemma_removed_all_push(v@.subrange(0, i as int), t, v@[i as int]);
        }
        if v[i] != t {
            r.push(v[i]);
        }
        i = i + 1;
    }
    proof {
        assert(v@.subrange(0, n as int) =~= v@);
    }
    r
}

fn find_version(v: &Vec<(u64, Vec<u8>)>, id: u64) -> (r: Option<usize>)
    ensures
        match r {
            Some(i) => i < v@.len() && v@[i as int].0 == id && lookup_version(v@, id) == Some(
                v@[i as int].1@,
            ),
            None => lookup_version(v@, id) is None,
        },
{
    let n = v.len();
    let mut i: usize = 0;
    proof {
        assert(v@.subrange(0, n as int) =~= v@);
    }
    while i < n
        invariant
            i <= n,
            n == v@.len(),
            lookup_version(v@, id) == lookup_version(v@.subrange(i as int, n as int), id),
        decreases n - i,
    {
        let ghost pre = v@.subrange(i as int, n as int);
        if v[i].0 == id {
            assert(pre[0] == v@[i as int]);
            return Some(i);
        }
        proof {
            assert(pre.drop_first() =~= v@.subrange(i + 1, n as int));
        }
        i = i + 1;
    }
    proof {
        assert(v@.subrange(n as int, n as int).len() == 0);
    }
    None
}

/// Read the bytes version `id` resolves to, if any: the version file if
/// present, else the canonical copy.
fn resolve_bytes(versions: &Vec<(u64, Vec<u8>)>, canon: &Option<Vec<u8>>, id: u64) -> (r: Option<
    Vec<u8>,
>)
    ensures
        match r {
            Some(b) => match lookup_version(versions@, id) {
                Some(vb) => b@ == vb,
                None => canon matches Some(c) && b@ == c@,
            },
            None => lookup_version(versions@, id) is None && canon is None,
        },
{
    match find_version(versions, id) {
        Some(i) => Some(versions[i].1.clone()),
        None => match canon {
            Some(c) => Some(c.clone()),
            None => None,
        },
    }
}

impl File {
    /// The outcome of `read(t)` (see [`File::read`]).
    pub open spec fn read_post(pre: File, post: File, t: u64, r: Result<FileVersionRead>) -> bool {
        if pre.outdated(t) {
            &&& post == pre
            &&& r matches Err(e) && e == Error::Outdated
        } else if pre.lock_committed(t) {
            match pre.resolve(pre.visible_to(t)) {
                Some(b) => {
                    &&& r matches Ok(g) && g.txn_id == t && g.version_id == pre.visible_to(t)
                        && g.bytes@ == b && !g.permitted
                    &&& post == pre
                },
                None => {
                    &&& r matches Err(e) && e == Error::NotFound
                    &&& post == pre
                },
            }
        } else if pre.blocked(t) {
            &&& r matches Err(e) && e == Error::Conflict
            &&& post == pre
        } else {
            &&& same_but_read_state(pre, post)
            &&& post.read_marks@ == set_added(pre.read_marks@, t)
            &&& match pre.resolve(pre.effective_version(t)) {
                Some(b) => {
                    &&& r matches Ok(g) && g.txn_id == t && g.version_id == pre.effective_version(
                        t,
                    ) && g.bytes@ == b && g.permitted
                    &&& post.readers@ == pre.readers@.push(t)
                },
                None => {
                    &&& r matches Err(e) && e == Error::NotFound
                    &&& post.readers@ == pre.readers@
                },
            }
        }
    }

    /// Lock this file for reading at `txn_id`.
    ///
    /// The guard observes the caller's own pending version if it wrote here,
    /// else the most recent committed version at or before `txn_id`. Fails
    /// with `Outdated` past a finalize, with `Conflict` while a write guard
    /// is outstanding or an earlier transaction holds an uncommitted
    /// version, and with `NotFound` if neither a version file nor a
    /// canonical copy holds the bytes.
    pub fn read(&mut self, txn_id: u64) -> (r: Result<FileVersionRead>)
        requires
            old(self).wf(),
        ensures
            final(self).wf(),
            File::read_post(*old(self), *final(self), txn_id, r),
    {
        match self.finalized_at {
            Some(f) => {
                if f > txn_id {
                    return Err(Error::Outdated);
                }
            },
            None => {},
        }
        if contains_u64(&self.commits, txn_id) {
            let m = self.find_visible(txn_id);
            match resolve_bytes(&self.versions, &self.canon, m) {
                Some(b) => {
                    return Ok(
                        FileVersionRead {
                            txn_id,
                            version_id: m,
                            bytes: b,
                            permitted: false,
                        },
                    );
                },
                None => {
                    return Err(Error::NotFound);
                },
            }
        }
        if self.writer {
            return Err(Error::Conflict);
        }
        let mut own_pending = false;
        match self.pending {
            Some(p) => {
                if p < txn_id {
                    return Err(Error::Conflict);
                }
                if p == txn_id {
                    own_pending = true;
                }
            },
            None => {},
        }
        let v = if own_pending {
            txn_id
        } else {
            self.find_visible(txn_id)
        };
        if !contains_u64(&self.read_marks, txn_id) {
            self.read_marks.push(txn_id);
        }
        match resolve_bytes(&self.versions, &self.canon, v) {
            Some(b) => {
                self.readers.push(txn_id);
                Ok(FileVersionRead { txn_id, version_id: v, bytes: b, permitted: true })
            },
            None => Err(Error::NotFound),
        }
    }

    /// Lock this file for reading at `txn_id`, by the same rules as
    /// [`File::read`].
    pub fn into_read(&mut self, txn_id: u64) -> (r: Result<FileVersionRead>)
        requires
            old(self).wf(),
        ensures
            final(self).wf(),
            File::read_post(*old(self), *final(self), txn_id, r),
    {
        self.read(txn_id)
    }

    /// Find the committed modification id visible at `t`.
    fn find_visible(&self, t: u64) -> (r: u64)
        requires
            self.modified@.len() > 0,
        ensures
            r == self.visible_to(t),
    {
        let n = self.modified.len();
        let mut i: usize = n;
        proof {
            assert(self.modified@.subrange(0, n as int) =~= self.modified@);
        }
        while i > 0
            invariant
                i <= n,
                n == self.modified@.len(),
                last_le(self.modified@, t) == last_le(self.modified@.subrange(0, i as int), t),
            decreases i,
        {
            let ghost pre = self.modified@.subrange(0, i as int);
            if self.modified[i - 1] <= t {
                assert(pre.last() == self.modified@[i - 1]);
                return self.modified[i - 1];
            }
            proof {
                assert(pre.drop_last() =~= self.modified@.subrange(0, i - 1));
            }
            i = i - 1;
        }
        proof {
            assert(self.modified@.subrange(0, 0).len() == 0);
        }
        self.modified[0]
    }

    /// The outcome of `release_read(g)` (see [`File::release_read`]).
    pub open spec fn release_read_post(pre: File, post: File, g: FileVersionRead) -> bool {
        &&& same_but_read_state(pre, post)
        &&& post.read_marks@ == pre.read_marks@
        &&& post.readers@ == if g.permitted {
            remove_first(pre.readers@, g.txn_id)
        } else {
            pre.readers@
        }
    }

    /// Hand back a read guard, releasing the read lock it holds.
    pub fn release_read(&mut self, guard: FileVersionRead)
        requires
            old(self).wf(),
        ensures
            final(self).wf(),
            File::release_read_post(*old(self), *final(self), guard),
    {
        if !guard.permitted {
            return ;
        }
        let ghost s0 = *old(self);
        let n = self.readers.len();
        let mut i: usize = 0;
        while i < n
            invariant
                i <= n,
                *self == s0,
                s0 == *old(self),
                old(self).wf(),
                guard.permitted,
                n == self.readers@.len(),
                forall|j: int| 0 <= j < i ==> self.readers@[j] != guard.txn_id,
            decreases n - i,
        {
            if self.readers[i] == guard.txn_id {
                self.readers.remove(i);
                proof {
                    lemma_remove_first_at(s0.readers@, guard.txn_id, i as int);
                }
                return ;
            }
            i = i + 1;
        }
        proof {
            assert(!self.readers@.contains(guard.txn_id));
            lemma_remove_first_absent(self.readers@, guard.txn_id);
        }
    }
}

/// A version store with unique ids maps the id at any index to that entry's
/// bytes.
pub proof fn lemma_lookup_at(s: Seq<(u64, Vec<u8>)>, i: int)
    requires
        unique_version_ids(s),
        0 <= i < s.len(),
    ensures
        lookup_version(s, s[i].0) == Some(s[i].1@),
    decreases i,
{
    if i > 0 {
        assert(s[0].0 != s[i].0);
        assert(s.drop_first()[i - 1] == s[i]);
        assert(forall|a: int, b: int|
            0 <= a < b < s.drop_first().len() ==> s.drop_first()[a] == s[a + 1]
                && s.drop_first()[b] == s[b + 1]);
        lemma_lookup_at(s.drop_first(), i - 1);
    }
}

/// An id held by no entry of the store looks up to nothing.
pub proof fn lemma_lookup_absent(s: Seq<(u64, Vec<u8>)>, id: u64)
    requires
        forall|i: int| 0 <= i < s.len() ==> s[i].0 != id,
    ensures
        lookup_version(s, id) is None,
    decreases s.len(),
{
    if s.len() > 0 {
        assert(forall|i: int|
            0 <= i < s.drop_first().len() ==> s.drop_first()[i] == s[i + 1]);
        lemma_lookup_absent(s.drop_first(), id);
    }
}

/// A successful lookup names some entry of the store.
pub proof fn lemma_lookup_witness(s: Seq<(u64, Vec<u8>)>, id: u64)
    requires
        lookup_version(s, id) is Some,
    ensures
        exists|i: int|
            0 <= i < s.len() && s[i].0 == id && s[i].1@ == lookup_version(s, id)->Some_0,
    decreases s.len(),
{
    if s.len() > 0 {
        if s[0].0 == id {
            assert(s[0].0 == id && s[0].1@ == lookup_version(s, id)->Some_0);
        } else {
            lemma_lookup_witness(s.drop_first(), id);
            let i = choose|i: int|
                0 <= i < s.drop_first().len() && s.drop_first()[i].0 == id
                    && s.drop_first()[i].1@ == lookup_version(s.drop_first(), id)->Some_0;
            assert(s[i + 1] == s.drop_first()[i]);
        }
    }
}

/// Filtering a version store by id keeps exactly the entries above the
/// bound, keeps ids unique, and preserves the lookup of every kept id.
pub proof fn lemma_versions_gt_lookup(s: Seq<(u64, Vec<u8>)>, m: u64, id: u64)
    requires
        unique_version_ids(s),
    ensures
        unique_version_ids(versions_gt(s, m)),
        lookup_version(versions_gt(s, m), id) == if id > m {
            lookup_version(s, id)
        } else {
            None::<Seq<u8>>
        },
        forall|i: int|
            0 <= i < versions_gt(s, m).len() ==> s.contains(#[trigger] versions_gt(s, m)[i])
                && versions_gt(s, m)[i].0 > m,
    decreases s.len(),
{
    if s.len() > 0 {
        assert(forall|i: int|
            0 <= i < s.drop_first().len() ==> s.drop_first()[i] == s[i + 1]);
        lemma_versions_gt_lookup(s.drop_first(), m, id);
        let rest = versions_gt(s.drop_first(), m);
        assert(forall|i: int|
            0 <= i < rest.len() ==> s.drop_first().contains(#[trigger] rest[i]));
        assert(forall|p: (u64, Vec<u8>)| s.drop_first().contains(p) ==> s.contains(p)) by {
            assert(forall|i: int|
                0 <= i < s.drop_first().len() ==> s.drop_first()[i] == s[i + 1]);
        }
        if s[0].0 > m {
            let f = seq![s[0]] + rest;
            assert(f[0] == s[0]);
            assert(forall|i: int| 1 <= i < f.len() ==> f[i] == rest[i - 1]);
            assert(unique_version_ids(f)) by {
                assert(forall|i: int|
                    0 <= i < rest.len() ==> s.drop_first().contains(#[trigger] rest[i]));
                assert(forall|i: int| 0 <= i < rest.len() ==> rest[i].0 != s[0].0) by {
                    assert(forall|j: int|
                        0 <= j < s.drop_first().len() ==> s.drop_first()[j].0 != s[0].0);
                    assert(forall|i: int|
                        0 <= i < rest.len() ==> s.drop_first().contains(#[trigger] rest[i]));
                }
            }
            assert(f.drop_first() =~= rest);
        }
    }
}

/// Replacing (or adding) the entry for one id leaves every other lookup
/// unchanged.
pub proof fn lemma_upsert_lookup(s: Seq<(u64, Vec<u8>)>, i: int, id: u64, b: Vec<u8>, q: u64)
    requires
        unique_version_ids(s),
        0 <= i < s.len(),
        s[i].0 == id,
    ensures
        unique_version_ids(s.update(i, (id, b))),
        lookup_version(s.update(i, (id, b)), id) == Some(b@),
        q != id ==> lookup_version(s.update(i, (id, b)), q) == lookup_version(s, q),
    decreases s.len(),
{
    let s2 = s.update(i, (id, b));
    assert(unique_version_ids(s2)) by {
        assert(forall|a: int| 0 <= a < s.len() ==> s2[a].0 == s[a].0);
    }
    lemma_lookup_at(s2, i);
    if q != id {
        if forall|j: int| 0 <= j < s.len() ==> s[j].0 != q {
            lemma_lookup_absent(s, q);
            assert(forall|j: int| 0 <= j < s2.len() ==> s2[j].0 != q);
            lemma_lookup_absent(s2, q);
        } else {
            let j = choose|j: int| 0 <= j < s.len() && s[j].0 == q;
            lemma_lookup_at(s, j);
            assert(s2[j] == s[j]);
            lemma_lookup_at(s2, j);
        }
    }
}

proof fn lemma_remove_first_at(s: Seq<u64>, t: u64, i: int)
    requires
        0 <= i < s.len(),
        s[i] == t,
        forall|j: int| 0 <= j < i ==> s[j] != t,
    ensures
        remove_first(s, t) == s.subrange(0, i) + s.subrange(i + 1, s.len() as int),
    decreases i,
{
    if i == 0 {
        assert(remove_first(s, t) == s.drop_first());
        assert(s.drop_first() =~= s.subrange(0, 0) + s.subrange(1, s.len() as int));
    } else {
        assert(s.drop_first()[i - 1] == t);
        assert(forall|j: int| 0 <= j < i - 1 ==> s.drop_first()[j] != t);
        lemma_remove_first_at(s.drop_first(), t, i - 1);
        assert(seq![s[0]] + (s.drop_first().subrange(0, i - 1) + s.drop_first().subrange(
            i,
            s.drop_first().len() as int,
        )) =~= s.subrange(0, i) + s.subrange(i + 1, s.len() as int));
    }
}

proof fn lemma_remove_first_absent(s: Seq<u64>, t: u64)
    requires
        !s.contains(t),
    ensures
        remove_first(s, t) == s,
    decreases s.len(),
{
    if s.len() > 0 {
        assert(s[0] != t);
        assert(!s.drop_first().contains(t)) by {
            if s.drop_first().contains(t) {
                let i = choose|i: int|
                    0 <= i < s.drop_first().len() && s.drop_first()[i] == t;
                assert(s[i + 1] == t);
            }
        }
        lemma_remove_first_absent(s.drop_first(), t);
        assert(seq![s[0]] + s.drop_first() =~= s);
    } else {
        assert(remove_first(s, t) =~= s);
    }
}

/// Store `bytes` as the version file named `id`, replacing any previous one.
fn upsert_version(v: &mut Vec<(u64, Vec<u8>)>, id: u64, bytes: Vec<u8>)
    requires
        unique_version_ids(old(v)@),
    ensures
        unique_version_ids(final(v)@),
        lookup_version(final(v)@, id) == Some(bytes@),
        forall|q: u64| q != id ==> lookup_version(final(v)@, q) == lookup_version(old(v)@, q),
{
    let ghost v0 = v@;
    match find_version(v, id) {
        Some(i) => {
            v[i] = (id, bytes);
            proof {
                assert forall|q: u64| q != id implies lookup_version(v@, q) == lookup_version(
                    v0,
                    q,
                ) by {
                    lemma_upsert_lookup(v0, i as int, id, v@[i as int].1, q);
                }
                lemma_upsert_lookup(v0, i as int, id, v@[i as int].1, id);
            }
        },
        None => {
            v.push((id, bytes));
            proof {
                assert(forall|j: int| 0 <= j < v0.len() ==> v0[j].0 != id) by {
                    if exists|j: int| 0 <= j < v0.len() && v0[j].0 == id {
                        let j = choose|j: int| 0 <= j < v0.len() && v0[j].0 == id;
                        lemma_lookup_at(v0, j);
                    }
                }
                assert(unique_version_ids(v@)) by {
                    assert(forall|j: int| 0 <= j < v0.len() ==> v@[j] == v0[j]);
                    assert(v@[v0.len() as int].0 == id);
                }
                lemma_lookup_at(v@, v0.len() as int);
                assert forall|q: u64| q != id implies lookup_version(v@, q) == lookup_version(
                    v0,
                    q,
                ) by {
                    if exists|j: int| 0 <= j < v0.len() && v0[j].0 == q {
                        let j = choose|j: int| 0 <= j < v0.len() && v0[j].0 == q;
                        lemma_lookup_at(v0, j);
                        lemma_lookup_at(v@, j);
                    } else {
                        lemma_lookup_absent(v0, q);
                        assert(forall|j: int| 0 <= j < v@.len() ==> v@[j].0 != q);
                        lemma_lookup_absent(v@, q);
                    }
                }
            }
        },
    }
}

proof fn lemma_version_removed_at(s: Seq<(u64, Vec<u8>)>, id: u64, i: int)
    requires
        0 <= i < s.len(),
        s[i].0 == id,
        forall|j: int| 0 <= j < s.len() && j != i ==> s[j].0 != id,
    ensures
        version_removed(s, id) == s.subrange(0, i) + s.subrange(i + 1, s.len() as int),
    decreases i,
{
    if i == 0 {
        assert(forall|j: int|
            0 <= j < s.drop_first().len() ==> s.drop_first()[j] == s[j + 1]);
        lemma_version_removed_absent(s.drop_first(), id);
        assert(version_removed(s, id) == s.drop_first());
        assert(s.drop_first() =~= s.subrange(0, 0) + s.subrange(1, s.len() as int));
    } else {
        assert(forall|j: int|
            0 <= j < s.drop_first().len() ==> s.drop_first()[j] == s[j + 1]);
        lemma_version_removed_at(s.drop_first(), id, i - 1);
        assert(seq![s[0]] + (s.drop_first().subrange(0, i - 1) + s.drop_first().subrange(
            i,
            s.drop_first().len() as int,
        )) =~= s.subrange(0, i) + s.subrange(i + 1, s.len() as int));
    }
}

proof fn lemma_version_removed_absent(s: Seq<(u64, Vec<u8>)>, id: u64)
    requires
        forall|j: int| 0 <= j < s.len() ==> s[j].0 != id,
    ensures
        version_removed(s, id) == s,
    decreases s.len(),
{
    if s.len() > 0 {
        assert(forall|j: int|
            0 <= j < s.drop_first().len() ==> s.drop_first()[j] == s[j + 1]);
        lemma_version_removed_absent(s.drop_first(), id);
        assert(seq![s[0]] + s.drop_first() =~= s);
    } else {
        assert(version_removed(s, id) =~= s);
    }
}

impl File {
    /// Create a new transactional file whose initial contents at `txn_id`
    /// are `contents`.
    ///
    /// The initial version is written to the version directory; no canonical
    /// copy exists until the first commit.
    pub fn create(txn_id: u64, name: Name, contents: Vec<u8>) -> (f: File)
        requires
            name.wf(),
        ensures
            f.wf(),
            f.name@ == name@,
            f.modified@ == seq![txn_id],
            f.commits@ == Seq::<u64>::empty(),
            f.pending is None,
            f.finalized_at is None,
            f.read_marks@ == Seq::<u64>::empty(),
            f.readers@ == Seq::<u64>::empty(),
            !f.writer,
            versions_view(f.versions@) == seq![(txn_id, contents@)],
            f.version_dir,
            f.canon is None,
    {
        let mut versions: Vec<(u64, Vec<u8>)> = Vec::new();
        versions.push((txn_id, contents));
        let f = File {
            name,
            modified: vec![txn_id],
            commits: Vec::new(),
            pending: None,
            finalized_at: None,
            read_marks: Vec::new(),
            readers: Vec::new(),
            writer: false,
            versions,
            version_dir: true,
            canon: None,
        };
        proof {
            assert(f.modified@ =~= seq![txn_id]);
            assert(versions_view(f.versions@) =~= seq![(txn_id, contents@)]);
        }
        f
    }

    /// Load a transactional file from its canonical bytes, discarding any
    /// leftover versions from a prior process.
    ///
    /// Fails with `NotFound` exactly when no canonical copy exists. On
    /// success, the canonical bytes are copied to the version file named
    /// `txn_id`.
    pub fn load(txn_id: u64, name: Name, canon: Option<Vec<u8>>) -> (r: Result<File>)
        requires
            name.wf(),
        ensures
            match r {
                Ok(f) => {
                    &&& canon matches Some(c)
                    &&& f.wf()
                    &&& f.name@ == name@
                    &&& f.modified@ == seq![txn_id]
                    &&& f.commits@ == Seq::<u64>::empty()
                    &&& f.pending is None
                    &&& f.finalized_at is None
                    &&& f.read_marks@ == Seq::<u64>::empty()
                    &&& f.readers@ == Seq::<u64>::empty()
                    &&& !f.writer
                    &&& versions_view(f.versions@) == seq![(txn_id, canon->Some_0@)]
                    &&& f.version_dir
                    &&& option_bytes(f.canon) == Some(canon->Some_0@)
                },
                Err(e) => e == Error::NotFound && canon is None,
            },
    {
        match canon {
            Some(c) => {
                let copy = c.clone();
                let mut versions: Vec<(u64, Vec<u8>)> = Vec::new();
                versions.push((txn_id, copy));
                let f = File {
                    name,
                    modified: vec![txn_id],
                    commits: Vec::new(),
                    pending: None,
                    finalized_at: None,
                    read_marks: Vec::new(),
                    readers: Vec::new(),
                    writer: false,
                    versions,
                    version_dir: true,
                    canon: Some(c),
                };
                proof {
                    assert(f.modified@ =~= seq![txn_id]);
                    assert(versions_view(f.versions@) =~= seq![(txn_id, f.versions@[0].1@)]);
                }
                Ok(f)
            },
            None => Err(Error::NotFound),
        }
    }

    /// The outcome of `write(t)` (see [`File::write`]).
    pub open spec fn write_post(pre: File, post: File, t: u64, r: Result<FileVersionWrite>) -> bool {
        if pre.outdated(t) {
            post == pre && (r matches Err(e) && e == Error::Outdated)
        } else if pre.lock_committed(t) {
            post == pre && (r matches Err(e) && e == Error::Conflict)
        } else if pre.writer {
            post == pre && (r matches Err(e) && e == Error::Conflict)
        } else if pre.readers@.contains(t) {
            post == pre && (r matches Err(e) && e == Error::Conflict)
        } else if pre.pending is Some {
            match pre.pending {
                Some(p) => if p == t {
                    &&& r matches Ok(g) && g.txn_id == t && Some(g.bytes@) == lookup_version(
                        pre.versions@,
                        t,
                    )
                    &&& post == File { writer: true, ..pre }
                } else {
                    post == pre && (r matches Err(e) && e == Error::Conflict)
                },
                None => false,
            }
        } else if pre.has_future_mark(t) {
            post == pre && (r matches Err(e) && e == Error::Conflict)
        } else if pre.latest_modified() > t {
            post == pre && (r matches Err(e) && e == Error::Outdated)
        } else {
            match pre.resolve(pre.visible_to(t)) {
                Some(b) => {
                    &&& r matches Ok(g) && g.txn_id == t && g.bytes@ == b
                    &&& post.pending == Some(t)
                    &&& post.writer
                    &&& lookup_version(post.versions@, t) == Some(b)
                    &&& forall|q: u64| q != t ==> lookup_version(post.versions@, q)
                        == lookup_version(pre.versions@, q)
                    &&& post.name@ == pre.name@
                    &&& post.modified@ == pre.modified@
                    &&& post.commits@ == pre.commits@
                    &&& post.finalized_at == pre.finalized_at
                    &&& post.read_marks@ == pre.read_marks@
                    &&& post.readers@ == pre.readers@
                    &&& post.version_dir == pre.version_dir
                    &&& option_bytes(post.canon) == option_bytes(pre.canon)
                },
                None => post == pre && (r matches Err(e) && e == Error::NotFound),
            }
        }
    }

    /// Lock this file for writing at `txn_id`.
    ///
    /// If this transaction already holds the pending version, the guard
    /// reuses it. Otherwise, when the most recent committed modification `m`
    /// is at most `txn_id`, the bytes of version `m` are copied into a new
    /// version file named `txn_id`; when `m` exceeds `txn_id`, a later
    /// transaction has already modified this file and the write fails with
    /// `Outdated`. Every acquisition that would have to wait (an outstanding
    /// guard, another transaction's uncommitted version, a read reservation
    /// by a later transaction) fails with `Conflict`.
    pub fn write(&mut self, txn_id: u64) -> (r: Result<FileVersionWrite>)
        requires
            old(self).wf(),
        ensures
            final(self).wf(),
            File::write_post(*old(self), *final(self), txn_id, r),
    {
        match self.finalized_at {
            Some(f) => {
                if f > txn_id {
                    return Err(Error::Outdated);
                }
            },
            None => {},
        }
        if contains_u64(&self.commits, txn_id) {
            return Err(Error::Conflict);
        }
        if self.writer {
            return Err(Error::Conflict);
        }
        if contains_u64(&self.readers, txn_id) {
            return Err(Error::Conflict);
        }
        match self.pending {
            Some(p) => {
                if p == txn_id {
                    match find_version(&self.versions, txn_id) {
                        Some(i) => {
                            let bytes = self.versions[i].1.clone();
                            self.writer = true;
                            return Ok(FileVersionWrite { txn_id, bytes });
                        },
                        None => {
                            proof {
                                assert(false);
                            }
                            return Err(Error::Conflict);
                        },
                    }
                } else {
                    return Err(Error::Conflict);
                }
            },
            None => {},
        }
        let mut has_future = false;
        let n = self.read_marks.len();
        let mut i: usize = 0;
        while i < n
            invariant
                i <= n,
                n == self.read_marks@.len(),
                has_future == exists|j: int| 0 <= j < i && self.read_marks@[j] > txn_id,
            decreases n - i,
        {
            if self.read_marks[i] > txn_id {
                has_future = true;
            }
            i = i + 1;
        }
        if has_future {
            return Err(Error::Conflict);
        }
        let last = self.modified[self.modified.len() - 1];
        if last > txn_id {
            return Err(Error::Outdated);
        }
        proof {
            assert(self.modified@.last() <= txn_id);
            assert(last_le(self.modified@, txn_id) == Some(self.modified@.last()));
            assert(self.visible_to(txn_id) == self.modified@.last());
        }
        match resolve_bytes(&self.versions, &self.canon, last) {
            Some(b) => {
                let bytes = b.clone();
                upsert_version(&mut self.versions, txn_id, b);
                self.pending = Some(txn_id);
                self.writer = true;
                Ok(FileVersionWrite { txn_id, bytes })
            },
            None => Err(Error::NotFound),
        }
    }

    /// Lock this file for writing at `txn_id`, by the same rules as
    /// [`File::write`].
    pub fn into_write(&mut self, txn_id: u64) -> (r: Result<FileVersionWrite>)
        requires
            old(self).wf(),
        ensures
            final(self).wf(),
            File::write_post(*old(self), *final(self), txn_id, r),
    {
        self.write(txn_id)
    }

    /// The outcome of `release_write(g)` (see [`File::release_write`]).
    pub open spec fn release_write_post(pre: File, post: File, g: FileVersionWrite) -> bool {
        if pre.writer && pre.pending == Some(g.txn_id) {
            &&& !post.writer
            &&& lookup_version(post.versions@, g.txn_id) == Some(g.bytes@)
            &&& forall|q: u64| q != g.txn_id ==> lookup_version(post.versions@, q)
                == lookup_version(pre.versions@, q)
            &&& post.name@ == pre.name@
            &&& post.modified@ == pre.modified@
            &&& post.commits@ == pre.commits@
            &&& post.pending == pre.pending
            &&& post.finalized_at == pre.finalized_at
            &&& post.read_marks@ == pre.read_marks@
            &&& post.readers@ == pre.readers@
            &&& post.version_dir == pre.version_dir
            &&& option_bytes(post.canon) == option_bytes(pre.canon)
        } else {
            post == pre
        }
    }

    /// Hand back a write guard: store its working bytes into the version
    /// file it was acquired on and release the write lock.
    pub fn release_write(&mut self, guard: FileVersionWrite)
        requires
            old(self).wf(),
        ensures
            final(self).wf(),
            File::release_write_post(*old(self), *final(self), guard),
    {
        if !self.writer {
            return ;
        }
        match self.pending {
            Some(p) => {
                if p != guard.txn_id {
                    return ;
                }
            },
            None => {
                return ;
            },
        }
        upsert_version(&mut self.versions, guard.txn_id, guard.bytes);
        self.writer = false;
    }

    /// The outcome of `commit(t)` (see [`File::commit`]).
    pub open spec fn commit_post(pre: File, post: File, t: u64, r: Result<()>) -> bool {
        if pre.outdated(t) {
            post == pre && (r matches Err(e) && e == Error::Outdated)
        } else if pre.blocked(t) {
            post == pre && (r matches Err(e) && e == Error::Conflict)
        } else {
            let m = if pre.pending == Some(t) {
                t
            } else {
                pre.visible_to(t)
            };
            &&& r is Ok
            &&& post.commits@ == set_added(pre.commits@, t)
            &&& post.modified@ == if pre.pending == Some(t) && pre.modified@.last() != t {
                pre.modified@.push(t)
            } else {
                pre.modified@
            }
            &&& post.pending == if pre.pending == Some(t) {
                None::<u64>
            } else {
                pre.pending
            }
            &&& post.read_marks@ == removed_all(pre.read_marks@, t)
            &&& post.readers@ == pre.readers@
            &&& post.writer == pre.writer
            &&& post.versions@ == pre.versions@
            &&& post.version_dir == pre.version_dir
            &&& post.name@ == pre.name@
            &&& post.finalized_at == pre.finalized_at
            &&& if m == t {
                match lookup_version(pre.versions@, t) {
                    Some(b) => option_bytes(post.canon) == Some(b),
                    None => option_bytes(post.canon) == option_bytes(pre.canon),
                }
            } else {
                option_bytes(post.canon) == option_bytes(pre.canon)
            }
        }
    }

    /// Commit the state of this file at `txn_id`.
    ///
    /// If this transaction modified the file, its version becomes the
    /// canonical copy. Committing is idempotent at a given `txn_id`. Fails
    /// with `Outdated` past a finalize and with `Conflict` while a write
    /// guard is outstanding or an earlier transaction holds an uncommitted
    /// version.
    pub fn commit(&mut self, txn_id: u64) -> (r: Result<()>)
        requires
            old(self).wf(),
        ensures
            final(self).wf(),
            File::commit_post(*old(self), *final(self), txn_id, r),
    {
        match self.finalized_at {
            Some(f) => {
                if f > txn_id {
                    return Err(Error::Outdated);
                }
            },
            None => {},
        }
        if self.writer {
            return Err(Error::Conflict);
        }
        let mut own_pending = false;
        match self.pending {
            Some(p) => {
                if p < txn_id {
                    return Err(Error::Conflict);
                }
                if p == txn_id {
                    own_pending = true;
                }
            },
            None => {},
        }
        if !contains_u64(&self.commits, txn_id) {
            self.commits.push(txn_id);
        }
        if own_pending {
            if self.modified[self.modified.len() - 1] != txn_id {
                proof {
                    assert(sorted_strict(self.modified@.push(txn_id))) by {
                        assert(forall|a: int|
                            0 <= a < self.modified@.len() ==> self.modified@[a]
                                <= self.modified@.last());
                    }
                }
                self.modified.push(txn_id);
            }
            self.pending = None;
        }
        self.read_marks = exec_removed_all(&self.read_marks, txn_id);
        let m = self.find_visible(txn_id);
        let promote = if own_pending {
            proof {
                assert(self.modified@.last() == txn_id);
                assert(last_le(self.modified@, txn_id) == Some(txn_id));
            }
            true
        } else {
            m == txn_id
        };
        if promote {
            match find_version(&self.versions, txn_id) {
                Some(i) => {
                    self.canon = Some(self.versions[i].1.clone());
                },
                None => {},
            }
        }
        Ok(())
    }

    /// The outcome of `rollback(t)` (see [`File::rollback`]).
    pub open spec fn rollback_post(pre: File, post: File, t: u64, r: Result<()>) -> bool {
        if pre.lock_committed(t) {
            post == pre && (r matches Err(e) && e == Error::Conflict)
        } else if pre.outdated(t) {
            post == pre && (r matches Err(e) && e == Error::Outdated)
        } else if pre.blocked(t) {
            post == pre && (r matches Err(e) && e == Error::Conflict)
        } else {
            &&& r is Ok
            &&& post.versions@ == if pre.pending == Some(t) {
                version_removed(pre.versions@, t)
            } else {
                pre.versions@
            }
            &&& post.pending == if pre.pending == Some(t) {
                None::<u64>
            } else {
                pre.pending
            }
            &&& post.read_marks@ == removed_all(pre.read_marks@, t)
            &&& post.readers@ == pre.readers@
            &&& post.writer == pre.writer
            &&& post.commits@ == pre.commits@
            &&& post.modified@ == pre.modified@
            &&& post.name@ == pre.name@
            &&& post.finalized_at == pre.finalized_at
            &&& post.version_dir == pre.version_dir
            &&& option_bytes(post.canon) == option_bytes(pre.canon)
        }
    }

    /// Roll back the state of this file at `txn_id`.
    ///
    /// If this transaction held the pending version, its version file is
    /// deleted. A committed transaction cannot be rolled back (`Conflict`).
    pub fn rollback(&mut self, txn_id: u64) -> (r: Result<()>)
        requires
            old(self).wf(),
        ensures
            final(self).wf(),
            File::rollback_post(*old(self), *final(self), txn_id, r),
    {
        if contains_u64(&self.commits, txn_id) {
            return Err(Error::Conflict);
        }
        match self.finalized_at {
            Some(f) => {
                if f > txn_id {
                    return Err(Error::Outdated);
                }
            },
            None => {},
        }
        if self.writer {
            return Err(Error::Conflict);
        }
        let mut own_pending = false;
        match self.pending {
            Some(p) => {
                if p < txn_id {
                    return Err(Error::Conflict);
                }
                if p == txn_id {
                    own_pending = true;
                }
            },
            None => {},
        }
        if own_pending {
            remove_version(&mut self.versions, txn_id);
            self.pending = None;
        }
        self.read_marks = exec_removed_all(&self.read_marks, txn_id);
        Ok(())
    }

    /// The outcome of `finalize(t)` (see [`File::finalize`]).
    pub open spec fn finalize_post(pre: File, post: File, t: u64) -> bool {
        if pre.finalized_at matches Some(f) && f > t {
            post == pre
        } else {
            let d = match last_le(pre.modified@, t) {
                Some(m) => m,
                None => t,
            };
            &&& post.modified@ == merge_modified(pre.modified@, t)
            &&& post.commits@ == filter_gt(pre.commits@, t)
            &&& post.read_marks@ == filter_gt(pre.read_marks@, t)
            &&& post.readers@ == filter_gt(pre.readers@, t)
            &&& post.pending == match pre.pending {
                Some(p) => if p <= t {
                    None::<u64>
                } else {
                    Some(p)
                },
                None => None::<u64>,
            }
            &&& post.writer == (pre.writer && match pre.pending {
                Some(p) => p > t,
                None => false,
            })
            &&& post.finalized_at == Some(t)
            &&& post.versions@ == versions_gt(pre.versions@, d)
            &&& post.version_dir == pre.version_dir
            &&& option_bytes(post.canon) == option_bytes(pre.canon)
            &&& post.name@ == pre.name@
        }
    }

    /// Finalize the state of this file at `txn_id`.
    ///
    /// Merges all committed modifications at or before `txn_id` into the
    /// effective value `m` and deletes every version file whose id is at
    /// most `m` (at most `txn_id`, if no modification that early exists).
    /// After this, no operation at a transaction before `txn_id` is valid on
    /// this file; reads of later transactions fall back to the canonical
    /// copy.
    pub fn finalize(&mut self, txn_id: u64)
        requires
            old(self).wf(),
        ensures
            final(self).wf(),
            File::finalize_post(*old(self), *final(self), txn_id),
    {
        match self.finalized_at {
            Some(f) => {
                if f > txn_id {
                    return ;
                }
            },
            None => {},
        }
        let ghost pre = *self;
        let m = self.find_visible(txn_id);
        let k = self.first_index_gt(txn_id);
        let d = if k > 0 {
            m
        } else {
            txn_id
        };
        if k > 0 {
            proof {
                lemma_filter_gt_sorted_suffix(self.modified@, txn_id, k as int);
                assert(self.modified@[k - 1] <= txn_id);
                assert(last_le(self.modified@, txn_id) == Some(self.modified@[k - 1])) by {
                    lemma_last_le(self.modified@, txn_id);
                    lemma_last_le_index(self.modified@, txn_id, k as int);
                }
            }
            let mut nm: Vec<u64> = Vec::new();
            nm.push(m);
            let n = self.modified.len();
            let mut i: usize = k;
            while i < n
                invariant
                    k <= i <= n,
                    n == self.modified@.len(),
                    nm@ == seq![m] + self.modified@.subrange(k as int, i as int),
                decreases n - i,
            {
                nm.push(self.modified[i]);
                proof {
                    assert(seq![m] + self.modified@.subrange(k as int, i as int + 1) =~= (seq![m]
                        + self.modified@.subrange(k as int, i as int)).push(
                        self.modified@[i as int],
                    ));
                }
                i = i + 1;
            }
            self.modified = nm;
            proof {
                assert(pre.modified@.subrange(k as int, n as int) == filter_gt(
                    pre.modified@,
                    txn_id,
                ));
                assert(self.modified@ == merge_modified(pre.modified@, txn_id));
            }
        } else {
            proof {
                lemma_filter_gt_sorted_suffix(self.modified@, txn_id, 0);
                assert(self.modified@.subrange(0, self.modified@.len() as int) =~= self.modified@);
                lemma_last_le(self.modified@, txn_id);
                assert(last_le(self.modified@, txn_id) is None) by {
                    match last_le(self.modified@, txn_id) {
                        Some(x) => {
                            assert(self.modified@.contains(x));
                            let i = choose|i: int|
                                0 <= i < self.modified@.len() && self.modified@[i] == x;
                            assert(self.modified@[i] > txn_id);
                        },
                        None => {},
                    }
                }
                assert(self.modified@ == merge_modified(pre.modified@, txn_id));
            }
        }
        self.commits = exec_filter_gt(&self.commits, txn_id);
        self.read_marks = exec_filter_gt(&self.read_marks, txn_id);
        self.readers = exec_filter_gt(&self.readers, txn_id);
        match self.pending {
            Some(p) => {
                if p <= txn_id {
                    self.pending = None;
                    self.writer = false;
                }
            },
            None => {},
        }
        self.finalized_at = Some(txn_id);
        retain_versions_gt(&mut self.versions, d);
        proof {
            lemma_versions_gt_lookup(pre.versions@, d as u64, 0);
            assert(d <= txn_id) by {
                if k > 0 {
                    assert(pre.modified@[k - 1] <= txn_id);
                    lemma_last_le_index(pre.modified@, txn_id, k as int);
                }
            }
            match self.pending {
                Some(p) => {
                    assert(p > txn_id);
                    assert(!self.commits@.contains(p)) by {
                        lemma_filter_gt_contains(pre.commits@, txn_id, p);
                    }
                    assert(p >= pre.modified@.last());
                    assert(self.modified@.last() <= p) by {
                        lemma_last_le(pre.modified@, txn_id);
                    }
                    assert(lookup_version(self.versions@, p) == lookup_version(
                        pre.versions@,
                        p,
                    )) by {
                        lemma_versions_gt_lookup(pre.versions@, d as u64, p);
                        assert(p > d);
                    }
                    if self.writer {
                        assert(!self.readers@.contains(p)) by {
                            lemma_filter_gt_contains(pre.readers@, txn_id, p);
                        }
                    }
                },
                None => {},
            }
        }
    }

    /// The first index of the (ascending) modification list that exceeds
    /// `t`, or the length if none does.
    fn first_index_gt(&self, t: u64) -> (k: usize)
        requires
            sorted_strict(self.modified@),
        ensures
            k <= self.modified@.len(),
            forall|i: int| 0 <= i < k ==> self.modified@[i] <= t,
            forall|i: int| k <= i < self.modified@.len() ==> self.modified@[i] > t,
    {
        let n = self.modified.len();
        let mut k: usize = 0;
        while k < n
            invariant
                k <= n,
                n == self.modified@.len(),
                sorted_strict(self.modified@),
                forall|i: int| 0 <= i < k ==> self.modified@[i] <= t,
            decreases n - k,
        {
            if self.modified[k] > t {
                proof {
                    assert forall|i: int|
                        k < i < self.modified@.len() implies self.modified@[k as int]
                        < self.modified@[i] by {
                        assert(sorted_strict(self.modified@));
                    }
                }
                return k;
            }
            k = k + 1;
        }
        k
    }

}

/// Delete, in place, every version file whose id is at most `m`.
fn retain_versions_gt(v: &mut Vec<(u64, Vec<u8>)>, m: u64)
    ensures
        final(v)@ == versions_gt(old(v)@, m),
{
    let ghost v0 = v@;
    let mut i: usize = 0;
    proof {
        assert(v@.subrange(0, v@.len() as int) =~= v0);
        assert(v@.subrange(0, 0) + versions_gt(v@.subrange(0, v@.len() as int), m) =~= versions_gt(
            v0,
            m,
        ));
    }
    while i < v.len()
        invariant
            i <= v@.len(),
            versions_gt(v0, m) == v@.subrange(0, i as int) + versions_gt(
                v@.subrange(i as int, v@.len() as int),
                m,
            ),
            forall|j: int| 0 <= j < i ==> v@[j].0 > m,
        decreases v@.len() - i,
    {
        let ghost vc = v@;
        let ghost suffix = vc.subrange(i as int, vc.len() as int);
        if v[i].0 <= m {
            v.remove(i);
            proof {
                assert(suffix[0] == vc[i as int]);
                assert(versions_gt(suffix, m) == versions_gt(suffix.drop_first(), m));
                assert(v@.subrange(0, i as int) =~= vc.subrange(0, i as int));
                assert(v@.subrange(i as int, v@.len() as int) =~= suffix.drop_first());
            }
        } else {
            proof {
                assert(suffix[0] == vc[i as int]);
                assert(versions_gt(suffix, m) == seq![suffix[0]] + versions_gt(
                    suffix.drop_first(),
                    m,
                ));
                assert(vc.subrange(0, i as int) + (seq![suffix[0]] + versions_gt(
                    suffix.drop_first(),
                    m,
                )) =~= vc.subrange(0, i + 1) + versions_gt(suffix.drop_first(), m));
                assert(suffix.drop_first() =~= vc.subrange(i + 1, vc.len() as int));
            }
            i = i + 1;
        }
    }
    proof {
        assert(v@.subrange(v@.len() as int, v@.len() as int).len() == 0);
        assert(versions_gt(v@.subrange(v@.len() as int, v@.len() as int), m) =~= Seq::<
            (u64, Vec<u8>),
        >::empty());
        assert(v@.subrange(0, v@.len() as int) =~= v@);
    }
}

/// At-most-one writer: while a write guard is outstanding, it is the single
/// one (the lock records at most one), no read guard exists at the writing
/// transaction, and every further acquisition at any transaction is refused.
pub proof fn lemma_at_most_one_writer(s: File, t: u64)
    requires
        s.wf(),
        s.writer,
    ensures
        s.pending is Some,
        !s.readers@.contains(match s.pending {
            Some(p) => p,
            None => 0u64,
        }),
        s.blocked(t),
{
}

/// Isolation: an uncommitted modification by transaction `a` is invisible
/// to every read at a later transaction `b`: such a read is refused until
/// `a` commits or rolls back.
pub proof fn lemma_write_isolation(s: File, a: u64, b: u64, r: Result<FileVersionRead>, post: File)
    requires
        s.wf(),
        s.pending == Some(a),
        a < b,
        !s.lock_committed(b),
        File::read_post(s, post, b, r),
    ensures
        r is Err,
        post == s,
{
    assert(s.blocked(b));
}

/// Removing every occurrence of `t` leaves none.
pub proof fn lemma_removed_all_gone(s: Seq<u64>, t: u64)
    ensures
        !removed_all(s, t).contains(t),
    decreases s.len(),
{
    if s.len() > 0 {
        lemma_removed_all_gone(s.drop_first(), t);
        if s[0] != t {
            let rest = removed_all(s.drop_first(), t);
            let f = seq![s[0]] + rest;
            if f.contains(t) {
                let i = choose|i: int| 0 <= i < f.len() && f[i] == t;
                assert(i > 0);
                assert(rest[i - 1] == t);
                assert(rest.contains(t));
            }
        }
    } else {
        assert(removed_all(s, t) =~= Seq::<u64>::empty());
    }
}

/// `last_le` of a merged modification history: one id at most `t` followed
/// by ids above `t` resolves to that first id.
proof fn lemma_last_le_merged(m: u64, gts: Seq<u64>, t: u64)
    requires
        m <= t,
        forall|i: int| 0 <= i < gts.len() ==> gts[i] > t,
    ensures
        last_le(seq![m] + gts, t) == Some(m),
    decreases gts.len(),
{
    let s = seq![m] + gts;
    if gts.len() == 0 {
        assert(s =~= seq![m]);
        assert(s.last() == m);
    } else {
        assert(s.last() == gts.last());
        assert(gts[gts.len() - 1] == gts.last());
        assert(s.drop_last() =~= seq![m] + gts.drop_last());
        assert(forall|i: int| 0 <= i < gts.drop_last().len() ==> gts.drop_last()[i] == gts[i]);
        lemma_last_le_merged(m, gts.drop_last(), t);
    }
}

/// What a finalize leaves behind, read off the finalized state alone: once
/// a committed modification at or before `t` exists, every surviving
/// version file lies above the version effective at `t`, whose bytes are
/// therefore resolved from the canonical copy.
pub proof fn lemma_finalized_state(pre: File, post: File, t: u64)
    requires
        pre.wf(),
        !(pre.finalized_at matches Some(f) && f > t),
        File::finalize_post(pre, post, t),
    ensures
        post.finalized_at == Some(t),
        last_le(post.modified@, t) is Some ==> (forall|i: int|
            0 <= i < post.versions@.len() ==> (#[trigger] post.versions@[i]).0 > post.visible_to(
                t,
            )) && lookup_version(post.versions@, post.visible_to(t)) is None,
{
    let d = match last_le(pre.modified@, t) {
        Some(m) => m,
        None => t,
    };
    match last_le(pre.modified@, t) {
        Some(m) => {
            lemma_last_le(pre.modified@, t);
            assert(post.modified@ == seq![m] + filter_gt(pre.modified@, t));
            assert forall|i: int|
                0 <= i < filter_gt(pre.modified@, t).len() implies filter_gt(
                pre.modified@,
                t,
            )[i] > t by {
                lemma_filter_gt_contains(pre.modified@, t, filter_gt(pre.modified@, t)[i]);
                assert(filter_gt(pre.modified@, t).contains(filter_gt(pre.modified@, t)[i]));
            }
            lemma_last_le_merged(m, filter_gt(pre.modified@, t), t);
            assert(post.visible_to(t) == m);
            lemma_versions_gt_lookup(pre.versions@, d, m);
        },
        None => {
            assert(post.modified@ == pre.modified@);
            lemma_last_le(post.modified@, t);
        },
    }
}

/// What a read meets after a finalize at `t`: with the version files at or
/// below the effective version reclaimed (the facts [`lemma_finalized_state`]
/// yields), no committed modification between `t` and the reading
/// transaction, no block, and a canonical copy present, the read returns
/// exactly the canonical bytes.
pub proof fn lemma_finalized_read_canonical(
    f: File,
    post: File,
    t: u64,
    tp: u64,
    r: Result<FileVersionRead>,
)
    requires
        f.wf(),
        f.finalized_at == Some(t),
        last_le(f.modified@, t) is Some,
        forall|i: int| 0 <= i < f.versions@.len() ==> (#[trigger] f.versions@[i]).0 > f.visible_to(t),
        lookup_version(f.versions@, f.visible_to(t)) is None,
        t <= tp,
        forall|i: int| 0 <= i < f.modified@.len() ==> f.modified@[i] <= t || f.modified@[i] > tp,
        f.pending != Some(tp),
        !f.lock_committed(tp) ==> !f.blocked(tp),
        f.canon is Some,
        File::read_post(f, post, tp, r),
    ensures
        r matches Ok(g) && Some(g.bytes@) == option_bytes(f.canon) && g.version_id
            == f.visible_to(t),
{
    assert(!f.outdated(tp));
    assert(f.visible_to(tp) == f.visible_to(t)) by {
        lemma_last_le(f.modified@, t);
        lemma_last_le(f.modified@, tp);
        let m = last_le(f.modified@, t)->Some_0;
        assert(f.modified@.contains(m) && m <= t <= tp);
        match last_le(f.modified@, tp) {
            Some(m2) => {
                assert(f.modified@.contains(m2));
                let i = choose|i: int| 0 <= i < f.modified@.len() && f.modified@[i] == m2;
                assert(m2 <= t);
                assert(m2 <= m && m <= m2);
            },
            None => {
                let i = choose|i: int| 0 <= i < f.modified@.len() && f.modified@[i] == m;
            },
        }
    }
    assert(f.effective_version(tp) == f.visible_to(t));
    assert(f.resolve(f.visible_to(t)) == option_bytes(f.canon));
}
/// committed on this file re-reads the committed version without taking
/// the lock, and a modification id `a` that no commit has recorded — an
/// uncommitted writer — is never the version it observes.
pub proof fn lemma_pending_invisible_to_committed(
    s: File,
    post: File,
    a: u64,
    b: u64,
    r: Result<FileVersionRead>,
)
    requires
        s.wf(),
        !s.modified@.contains(a),
        !s.outdated(b),
        s.lock_committed(b),
        File::read_post(s, post, b, r),
    ensures
        post == s,
        r matches Ok(g) ==> g.version_id != a && g.version_id == s.visible_to(b),
{
    assert(s.modified@.contains(s.visible_to(b))) by {
        lemma_last_le(s.modified@, b);
        match last_le(s.modified@, b) {
            Some(m) => {},
            None => {
                assert(s.modified@[0] == s.visible_to(b));
                assert(s.modified@.contains(s.modified@[0]));
            },
        }
    }
}

/// Commit monotonicity through a read: after a modification committed at
/// `t`, a read at `t1 >= t` — with no committed modification in between,
/// no blocking writer, `t1` itself neither committed nor finalized away,
/// and the version file of `t` still present — yields exactly the bytes
/// committed at `t`.
pub proof fn lemma_committed_read(s: File, post: File, t: u64, t1: u64, r: Result<
    FileVersionRead,
>)
    requires
        s.wf(),
        s.modified@.contains(t),
        t <= t1,
        forall|i: int| 0 <= i < s.modified@.len() ==> s.modified@[i] <= t || s.modified@[i] > t1,
        s.pending != Some(t1),
        !s.outdated(t1),
        !s.lock_committed(t1),
        !s.blocked(t1),
        lookup_version(s.versions@, t) is Some,
        File::read_post(s, post, t1, r),
    ensures
        r matches Ok(g) && g.version_id == t && Some(g.bytes@) == lookup_version(s.versions@, t),
{
    lemma_commit_monotonic(s, t, t1);
    assert(s.effective_version(t1) == t);
    assert(s.resolve(t) == lookup_version(s.versions@, t));
}

/// Commit monotonicity: once transaction `t` has committed a modification,
/// every read at `t2 >= t` observes version `t` unless a later modification
/// intervened (and the reader did not write here itself).
pub proof fn lemma_commit_monotonic(s: File, t: u64, t2: u64)
    requires
        s.wf(),
        s.modified@.contains(t),
        t <= t2,
        forall|i: int| 0 <= i < s.modified@.len() ==> s.modified@[i] <= t || s.modified@[i] > t2,
        s.pending != Some(t2),
    ensures
        s.effective_version(t2) == t,
{
    lemma_last_le(s.modified@, t2);
    match last_le(s.modified@, t2) {
        Some(m) => {
            assert(s.modified@.contains(m));
            let i = choose|i: int| 0 <= i < s.modified@.len() && s.modified@[i] == m;
            let j = choose|j: int| 0 <= j < s.modified@.len() && s.modified@[j] == t;
            assert(m >= t);
            assert(m <= t);
        },
        None => {
            let j = choose|j: int| 0 <= j < s.modified@.len() && s.modified@[j] == t;
            assert(false);
        },
    }
}

/// Committing twice at the same transaction is a no-op the second time: the
/// state after the second commit equals the state after the first.
pub proof fn lemma_commit_idempotent(s: File, s1: File, s2: File, t: u64, r1: Result<()>, r2: Result<
    (),
>)
    requires
        s.wf(),
        s1.wf(),
        File::commit_post(s, s1, t, r1),
        File::commit_post(s1, s2, t, r2),
        r1 is Ok,
    ensures
        r2 is Ok,
        file_eq_view(s1, s2),
{
    assert(!s1.outdated(t));
    assert(!s1.blocked(t)) by {
        match s1.pending {
            Some(p) => {
                assert(s.pending == Some(p));
                assert(!(p < t));
            },
            None => {},
        }
    }
    assert(s1.commits@.contains(t)) by {
        if !s.commits@.contains(t) {
            assert(s1.commits@ == s.commits@.push(t));
            assert(s1.commits@[s.commits@.len() as int] == t);
        }
    }
    assert(s2.commits@ == s1.commits@);
    assert(s1.pending != Some(t)) by {
        if s1.pending == Some(t) {
            assert(s1.commits@.contains(t));
        }
    }
    assert(s2.modified@ == s1.modified@);
    assert(s2.read_marks@ == removed_all(s1.read_marks@, t));
    lemma_removed_all_idempotent(s.read_marks@, t);
    let m1 = if s.pending == Some(t) {
        t
    } else {
        s.visible_to(t)
    };
    let m2 = if s1.pending == Some(t) {
        t
    } else {
        s1.visible_to(t)
    };
    if m1 == t {
        assert(s1.modified@.contains(t)) by {
            if s.pending == Some(t) {
                if s.modified@.last() == t {
                    assert(s.modified@.contains(s.modified@.last()));
                } else {
                    assert(s1.modified@.last() == t);
                    assert(s1.modified@.contains(s1.modified@.last()));
                }
            } else {
                lemma_last_le(s.modified@, t);
            }
        }
        assert(m2 == t) by {
            lemma_last_le(s1.modified@, t);
            let i = choose|i: int| 0 <= i < s1.modified@.len() && s1.modified@[i] == t;
            match last_le(s1.modified@, t) {
                Some(v) => {
                    assert(v >= s1.modified@[i]);
                    assert(s1.modified@.contains(v));
                },
                None => {},
            }
        }
        assert(s1.versions@ == s.versions@);
        match lookup_version(s.versions@, t) {
            Some(b) => {
                assert(option_bytes(s1.canon) == Some(b));
                assert(option_bytes(s2.canon) == Some(b));
            },
            None => {},
        }
    } else {
        assert(s.pending != Some(t));
        assert(s1.modified@ == s.modified@);
        assert(m2 == m1);
        assert(m2 != t);
    }
}

proof fn lemma_removed_all_idempotent(s: Seq<u64>, t: u64)
    ensures
        removed_all(removed_all(s, t), t) == removed_all(s, t),
    decreases s.len(),
{
    if s.len() > 0 {
        lemma_removed_all_idempotent(s.drop_first(), t);
        if s[0] != t {
            let r = seq![s[0]] + removed_all(s.drop_first(), t);
            assert(r[0] == s[0]);
            assert(r.drop_first() =~= removed_all(s.drop_first(), t));
        }
    } else {
        assert(removed_all(s, t) =~= Seq::<u64>::empty());
    }
}

/// Rolling back twice at the same transaction is a no-op the second time.
pub proof fn lemma_rollback_idempotent(
    s: File,
    s1: File,
    s2: File,
    t: u64,
    r1: Result<()>,
    r2: Result<()>,
)
    requires
        s.wf(),
        s1.wf(),
        File::rollback_post(s, s1, t, r1),
        File::rollback_post(s1, s2, t, r2),
        r1 is Ok,
    ensures
        r2 is Ok,
        file_eq_view(s1, s2),
{
    assert(!s1.lock_committed(t));
    assert(!s1.outdated(t));
    assert(!s1.blocked(t)) by {
        match s1.pending {
            Some(p) => {
                assert(s.pending == Some(p));
                assert(!(p < t));
            },
            None => {},
        }
    }
    assert(s1.pending != Some(t)) by {
        if s.pending == Some(t) {
            assert(s1.pending is None);
        } else {
            match s.pending {
                Some(p) => {
                    assert(p != t);
                },
                None => {},
            }
        }
    }
    lemma_removed_all_idempotent(s.read_marks@, t);
}

/// Finalizing twice at the same transaction is a no-op the second time.
pub proof fn lemma_finalize_idempotent(s: File, s1: File, s2: File, t: u64)
    requires
        s.wf(),
        s1.wf(),
        !(s.finalized_at matches Some(f) && f > t),
        File::finalize_post(s, s1, t),
        File::finalize_post(s1, s2, t),
    ensures
        file_eq_view(s1, s2),
{
    assert(s1.finalized_at == Some(t));
    let d = match last_le(s.modified@, t) {
        Some(m) => m,
        None => t,
    };
    lemma_last_le(s.modified@, t);
    match last_le(s.modified@, t) {
        Some(m) => {
            assert(s1.modified@ == seq![m] + filter_gt(s.modified@, t));
            assert(s1.modified@[0] == m);
            assert(m <= t);
            assert(last_le(s1.modified@, t) == Some(m)) by {
                assert(forall|i: int|
                    1 <= i < s1.modified@.len() ==> s1.modified@[i] == filter_gt(
                        s.modified@,
                        t,
                    )[i - 1]);
                assert(forall|i: int|
                    0 <= i < filter_gt(s.modified@, t).len() ==> filter_gt(s.modified@, t)[i]
                        > t) by {
                    assert(forall|i: int|
                        0 <= i < filter_gt(s.modified@, t).len() ==> filter_gt(
                            s.modified@,
                            t,
                        ).contains(#[trigger] filter_gt(s.modified@, t)[i]));
                    assert forall|i: int|
                        0 <= i < filter_gt(s.modified@, t).len() implies filter_gt(
                        s.modified@,
                        t,
                    )[i] > t by {
                        lemma_filter_gt_contains(s.modified@, t, filter_gt(s.modified@, t)[i]);
                    }
                }
                lemma_last_le_index(s1.modified@, t, 1);
            }
            assert(merge_modified(s1.modified@, t) == seq![m] + filter_gt(s1.modified@, t));
            assert(filter_gt(s1.modified@, t) == filter_gt(s.modified@, t)) by {
                lemma_filter_gt_of_cons(m, filter_gt(s.modified@, t), t);
                assert(seq![m] + filter_gt(s.modified@, t) == s1.modified@);
                lemma_filter_gt_fixpoint(s.modified@, t);
            }
            assert(s2.modified@ == s1.modified@);
            assert(s2.versions@ == versions_gt(s1.versions@, m));
            lemma_versions_gt_fixpoint(s.versions@, m);
        },
        None => {
            assert(s1.modified@ == s.modified@);
            assert(last_le(s1.modified@, t) is None);
            assert(s2.modified@ == merge_modified(s1.modified@, t));
            assert(s2.modified@ == s1.modified@);
            assert(s2.versions@ == versions_gt(s1.versions@, t));
            lemma_versions_gt_fixpoint(s.versions@, t);
        },
    }
    lemma_filter_gt_fixpoint(s.commits@, t);
    lemma_filter_gt_fixpoint(s.read_marks@, t);
    lemma_filter_gt_fixpoint(s.readers@, t);
}

proof fn lemma_filter_gt_of_cons(x: u64, s: Seq<u64>, t: u64)
    requires
        x <= t,
    ensures
        filter_gt(seq![x] + s, t) == filter_gt(s, t),
{
    let c = seq![x] + s;
    assert(c[0] == x);
    assert(c.drop_first() =~= s);
}

proof fn lemma_filter_gt_fixpoint(s: Seq<u64>, t: u64)
    ensures
        filter_gt(filter_gt(s, t), t) == filter_gt(s, t),
    decreases s.len(),
{
    if s.len() > 0 {
        lemma_filter_gt_fixpoint(s.drop_first(), t);
        if s[0] > t {
            let r = seq![s[0]] + filter_gt(s.drop_first(), t);
            assert(r[0] == s[0]);
            assert(r.drop_first() =~= filter_gt(s.drop_first(), t));
        }
    } else {
        assert(filter_gt(s, t) =~= Seq::<u64>::empty());
    }
}

proof fn lemma_versions_gt_fixpoint(s: Seq<(u64, Vec<u8>)>, m: u64)
    ensures
        versions_gt(versions_gt(s, m), m) == versions_gt(s, m),
    decreases s.len(),
{
    if s.len() > 0 {
        lemma_versions_gt_fixpoint(s.drop_first(), m);
        if s[0].0 > m {
            let r = seq![s[0]] + versions_gt(s.drop_first(), m);
            assert(r[0] == s[0]);
            assert(r.drop_first() =~= versions_gt(s.drop_first(), m));
        }
    } else {
        assert(versions_gt(s, m) =~= Seq::<(u64, Vec<u8>)>::empty());
    }
}

/// Finalize completeness: after `finalize(t)`, every surviving version file
/// is named by a transaction later than the effective bound, and when every
/// version on disk corresponds to a committed modification at or before `t`,
/// none survives at all.
pub proof fn lemma_finalize_reclaims_versions(s: File, post: File, t: u64)
    requires
        s.wf(),
        !(s.finalized_at matches Some(f) && f > t),
        File::finalize_post(s, post, t),
    ensures
        forall|i: int|
            0 <= i < post.versions@.len() ==> #[trigger] post.versions@[i].0 > (
            match last_le(s.modified@, t) {
                Some(m) => m,
                None => t,
            }),
        (forall|i: int|
            0 <= i < s.versions@.len() ==> s.modified@.contains(#[trigger] s.versions@[i].0)
                && s.versions@[i].0 <= t && s.modified@.last() <= t) ==> post.versions@.len() == 0,
{
    let d = match last_le(s.modified@, t) {
        Some(m) => m,
        None => t,
    };
    lemma_versions_gt_lookup(s.versions@, d, 0);
    if forall|i: int|
        0 <= i < s.versions@.len() ==> s.modified@.contains(#[trigger] s.versions@[i].0)
            && s.versions@[i].0 <= t && s.modified@.last() <= t {
        lemma_last_le(s.modified@, t);
        if s.versions@.len() > 0 {
            assert(s.modified@.contains(s.versions@[0].0));
            assert(last_le(s.modified@, t) == Some(s.modified@.last())) by {
                assert(s.modified@.last() <= t);
            }
            assert(d == s.modified@.last());
            assert(forall|i: int|
                0 <= i < s.versions@.len() ==> #[trigger] s.versions@[i].0 <= d) by {
                assert forall|i: int|
                    0 <= i < s.versions@.len() implies #[trigger] s.versions@[i].0 <= d by {
                    let id = s.versions@[i].0;
                    let j = choose|j: int| 0 <= j < s.modified@.len() && s.modified@[j] == id;
                    assert(s.modified@[j] <= s.modified@.last());
                }
            }
            if post.versions@.len() > 0 {
                assert(post.versions@[0].0 > d);
                assert(s.versions@.contains(post.versions@[0]));
                let j = choose|j: int|
                    0 <= j < s.versions@.len() && s.versions@[j] == post.versions@[0];
            }
        }
    }
}

proof fn lemma_filter_gt_sorted_suffix(s: Seq<u64>, t: u64, k: int)
    requires
        0 <= k <= s.len(),
        forall|i: int| 0 <= i < k ==> s[i] <= t,
        forall|i: int| k <= i < s.len() ==> s[i] > t,
    ensures
        filter_gt(s, t) == s.subrange(k, s.len() as int),
    decreases s.len(),
{
    if s.len() == 0 {
        assert(filter_gt(s, t) =~= s.subrange(0, 0));
    } else if k == 0 {
        assert(s[0] > t);
        assert(forall|i: int|
            0 <= i < s.drop_first().len() ==> s.drop_first()[i] == s[i + 1]);
        lemma_filter_gt_sorted_suffix(s.drop_first(), t, 0);
        assert(seq![s[0]] + s.drop_first().subrange(0, s.drop_first().len() as int) =~= s.subrange(
            0,
            s.len() as int,
        ));
    } else {
        assert(s[0] <= t);
        assert(forall|i: int|
            0 <= i < s.drop_first().len() ==> s.drop_first()[i] == s[i + 1]);
        lemma_filter_gt_sorted_suffix(s.drop_first(), t, k - 1);
        assert(s.drop_first().subrange(k - 1, s.drop_first().len() as int) =~= s.subrange(
            k,
            s.len() as int,
        ));
    }
}

proof fn lemma_last_le_index(s: Seq<u64>, t: u64, k: int)
    requires
        sorted_strict(s),
        0 < k <= s.len(),
        s[k - 1] <= t,
        forall|i: int| k <= i < s.len() ==> s[i] > t,
    ensures
        last_le(s, t) == Some(s[k - 1]),
{
    lemma_last_le(s, t);
    match last_le(s, t) {
        Some(m) => {
            let i = choose|i: int| 0 <= i < s.len() && s[i] == m;
            assert(i < k);
            assert(m >= s[k - 1]);
            assert(m <= s[k - 1]) by {
                if i < k - 1 {
                    assert(s[i] < s[k - 1]);
                }
            }
        },
        None => {
            assert(s[k - 1] > t);
        },
    }
}

/// Delete the version file named `id`, if present.
fn remove_version(v: &mut Vec<(u64, Vec<u8>)>, id: u64)
    requires
        unique_version_ids(old(v)@),
    ensures
        unique_version_ids(final(v)@),
        final(v)@ == version_removed(old(v)@, id),
{
    let ghost v0 = v@;
    match find_version(v, id) {
        Some(i) => {
            proof {
                assert(forall|j: int| 0 <= j < v0.len() && j != i ==> v0[j].0 != id) by {
                    if exists|j: int| 0 <= j < v0.len() && j != i && v0[j].0 == id {
                        let j = choose|j: int| 0 <= j < v0.len() && j != i && v0[j].0 == id;
                        assert(v0[j].0 == v0[i as int].0);
                    }
                }
                lemma_version_removed_at(v0, id, i as int);
            }
            v.remove(i);
            proof {
                assert(unique_version_ids(v@)) by {
                    assert(forall|a: int|
                        0 <= a < v@.len() ==> v@[a] == (if a < i {
                            v0[a]
                        } else {
                            v0[a + 1]
                        }));
                }
            }
        },
        None => {
            proof {
                assert(forall|j: int| 0 <= j < v0.len() ==> v0[j].0 != id) by {
                    if exists|j: int| 0 <= j < v0.len() && v0[j].0 == id {
                        let j = choose|j: int| 0 <= j < v0.len() && v0[j].0 == id;
                        lemma_lookup_at(v0, j);
                    }
                }
                lemma_version_removed_absent(v0, id);
            }
        },
    }
}

} // verus!
