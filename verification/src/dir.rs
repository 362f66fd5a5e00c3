//! A transactional directory: an MVCC map from names to entries.
//!
//! A [`Dir`] owns the state of its transactional entry map (the merged
//! canonical entries, committed deltas, committed transactions,
//! per-transaction pending versions, reservations) together with the modeled
//! on-disk state of its canonical directory and the hidden `.txfs` version
//! subtree. The value visible at a transaction `t` under a name is the
//! pending value of `t` if `t` touched that name, else the value of the
//! latest committed delta at or before `t`, else the merged canonical value.

use vstd::prelude::*;

use crate::error::Error;
use crate::error::Result;
use crate::file::set_added;
use crate::file::File;
use crate::file::FileVersionRead;
use crate::file::FileVersionWrite;
use crate::name::hidden_name;
use crate::name::valid_name;
use crate::name::Name;

verus! {

/// A plain image of an on-disk directory tree, as an embedding program scans
/// it: child names (not yet validated) with their subtrees or file bytes.
#[derive(Debug)]
pub enum FsNode {
    /// A subdirectory and its children.
    Dir(Vec<(String, FsNode)>),
    /// A file and its canonical bytes.
    File(Vec<u8>),
}

/// An entry in a [`Dir`].
#[derive(Debug)]
pub enum DirEntry {
    /// A transactional subdirectory.
    Dir(Dir),
    /// A transactional file.
    File(File),
}

impl DirEntry {
    /// True if this entry is a subdirectory.
    pub fn is_dir(&self) -> (r: bool)
        ensures
            r == (self is Dir),
    {
        match self {
            DirEntry::Dir(_) => true,
            DirEntry::File(_) => false,
        }
    }

    /// True if this entry is a file.
    pub fn is_file(&self) -> (r: bool)
        ensures
            r == (self is File),
    {
        match self {
            DirEntry::Dir(_) => false,
            DirEntry::File(_) => true,
        }
    }
}

/// One version of the entry map: for each touched name, the entry it now
/// holds (`Some`) or its deletion (`None`).
pub type Delta = Vec<(Name, Option<DirEntry>)>;

/// A lock reservation: on one key, or on the whole map.
#[derive(Debug)]
pub enum MarkRange {
    /// The whole map (an iteration, a clear, a load).
    All,
    /// A single key.
    Key(Name),
}

/// True if a reservation over `r` overlaps the key `k`.
pub open spec fn mark_overlaps(r: MarkRange, k: Seq<char>) -> bool {
    match r {
        MarkRange::All => true,
        MarkRange::Key(n) => n@ == k,
    }
}

/// A transactional directory.
#[derive(Debug)]
pub struct Dir {
    /// The merged canonical entry map (everything at or before the last
    /// finalize).
    pub canon: Vec<(Name, DirEntry)>,
    /// Committed deltas, ascending by transaction id.
    pub deltas: Vec<(u64, Delta)>,
    /// Transactions that have committed on this map.
    pub commits: Vec<u64>,
    /// Pending (uncommitted) versions, one per transaction.
    pub pending: Vec<(u64, Delta)>,
    /// The most recent finalized transaction.
    pub finalized_at: Option<u64>,
    /// Unresolved read reservations.
    pub read_marks: Vec<(u64, MarkRange)>,
    /// Unresolved write reservations.
    pub write_marks: Vec<(u64, MarkRange)>,
    /// Names whose canonical entries a committed delete has removed from
    /// disk (and no later committed create has restored).
    pub disk_removed: Vec<Name>,
    /// Names of version subdirectories under `.txfs` that still hold
    /// version files of entry records this map no longer tracks (their
    /// record was dropped pending, rolled back, or finalized away while
    /// version files remained on disk).
    pub stray: Vec<Name>,
    /// Whether the hidden `.txfs` subtree exists on disk.
    pub txfs: bool,
    /// Whether this directory's canonical directory exists on disk.
    pub on_disk: bool,
}

/// True if a version record holds a file that still has version files on
/// disk: dropping the record would leave its version subdirectory behind,
/// untracked.
pub open spec fn lay_rec_dropped(rec: Option<DirEntry>) -> bool {
    match rec {
        Some(e) => match e {
            DirEntry::File(f) => f.versions@.len() > 0 && f.version_dir,
            DirEntry::Dir(_) => false,
        },
        None => false,
    }
}

/// True if the version of transaction `t` records, under key `k`, a file
/// that still holds version files on disk.
pub open spec fn pending_dropped_file(d: Dir, t: u64, k: Seq<char>) -> bool {
    match pending_layer(d.pending@, t) {
        Some(p) => match layer_get(p@, k) {
            Some(rec) => lay_rec_dropped(rec),
            None => false,
        },
        None => false,
    }
}

/// True if some version of a transaction at or before `t` records, under
/// key `x`, a file that still holds version files on disk.
pub open spec fn drained_stray(ps: Seq<(u64, Delta)>, t: u64, x: Seq<char>) -> bool {
    exists|i: int, j: int|
        #![trigger ps[i].1@[j]]
        0 <= i < ps.len() && ps[i].0 <= t && 0 <= j < ps[i].1@.len() && ps[i].1@[j].0@ == x
            && lay_rec_dropped(ps[i].1@[j].1)
}

/// True if, at a finalize at `t`, some version subdirectory under `.txfs`
/// survives the cleanup: a recorded stray, a file record anywhere in the
/// map that still holds version files, or a file visible to the committed
/// state at `t` (whose directory is kept even when empty).
pub open spec fn finalize_keeps_txfs(pre: Dir, t: u64) -> bool {
    ||| pre.stray@.len() > 0
    ||| exists|i: int|
        0 <= i < pre.canon@.len() && lay_rec_dropped(Some((#[trigger] pre.canon@[i]).1))
    ||| exists|i: int, j: int|
        #![trigger pre.deltas@[i].1@[j]]
        0 <= i < pre.deltas@.len() && 0 <= j < pre.deltas@[i].1@.len() && lay_rec_dropped(
            pre.deltas@[i].1@[j].1,
        )
    ||| exists|i: int, j: int|
        #![trigger pre.pending@[i].1@[j]]
        0 <= i < pre.pending@.len() && 0 <= j < pre.pending@[i].1@.len() && lay_rec_dropped(
            pre.pending@[i].1@[j].1,
        )
    ||| exists|k: Seq<char>|
        #[trigger] pre.vis_committed(t, k) matches Some(e) && e matches DirEntry::File(f)
            && f.version_dir
}

/// The first value recorded for key `k` in one version layer.
pub open spec fn layer_get(s: Seq<(Name, Option<DirEntry>)>, k: Seq<char>) -> Option<
    Option<DirEntry>,
>
    decreases s.len(),
{
    if s.len() == 0 {
        None
    } else if s[0].0@ == k {
        Some(s[0].1)
    } else {
        layer_get(s.drop_first(), k)
    }
}

/// The canonical entry for key `k`.
pub open spec fn canon_get(s: Seq<(Name, DirEntry)>, k: Seq<char>) -> Option<DirEntry>
    decreases s.len(),
{
    if s.len() == 0 {
        None
    } else if s[0].0@ == k {
        Some(s[0].1)
    } else {
        canon_get(s.drop_first(), k)
    }
}

/// The value the latest committed delta at or before `t` records for key
/// `k`, scanning from the newest delta backwards.
pub open spec fn deltas_get(ds: Seq<(u64, Delta)>, t: u64, k: Seq<char>) -> Option<
    Option<DirEntry>,
>
    decreases ds.len(),
{
    if ds.len() == 0 {
        None
    } else if ds.last().0 <= t {
        match layer_get(ds.last().1@, k) {
            Some(v) => Some(v),
            None => deltas_get(ds.drop_last(), t, k),
        }
    } else {
        deltas_get(ds.drop_last(), t, k)
    }
}

/// The pending version of transaction `t`, if it has one.
pub open spec fn pending_layer(ps: Seq<(u64, Delta)>, t: u64) -> Option<Delta>
    decreases ps.len(),
{
    if ps.len() == 0 {
        None
    } else if ps[0].0 == t {
        Some(ps[0].1)
    } else {
        pending_layer(ps.drop_first(), t)
    }
}

/// True if the names of one committed-map layer are distinct.
pub open spec fn unique_entry_names(s: Seq<(Name, DirEntry)>) -> bool {
    forall|i: int, j: int| 0 <= i < j < s.len() ==> s[i].0@ != s[j].0@
}

/// True if the names of one delta layer are distinct.
pub open spec fn unique_delta_names(s: Seq<(Name, Option<DirEntry>)>) -> bool {
    forall|i: int, j: int| 0 <= i < j < s.len() ==> s[i].0@ != s[j].0@
}

/// Well-formedness of one entry, recursively.
pub open spec fn entry_wf(e: DirEntry) -> bool
    decreases e,
{
    match e {
        DirEntry::Dir(d) => d.wf(),
        DirEntry::File(f) => f.wf(),
    }
}

/// Well-formedness of the entries of a committed map layer.
pub open spec fn entries_wf(s: Seq<(Name, DirEntry)>) -> bool
    decreases s,
{
    forall|i: int| 0 <= i < s.len() ==> (#[trigger] s[i]).0.wf() && entry_wf(s[i].1)
}

/// Well-formedness of the entries of a delta layer.
pub open spec fn delta_wf(s: Seq<(Name, Option<DirEntry>)>) -> bool
    decreases s,
{
    forall|i: int|
        0 <= i < s.len() ==> (#[trigger] s[i]).0.wf() && (match s[i].1 {
            Some(e) => entry_wf(e),
            None => true,
        })
}

/// Well-formedness of a stack of version layers.
pub open spec fn layers_wf(ds: Seq<(u64, Delta)>) -> bool
    decreases ds,
{
    forall|i: int|
        0 <= i < ds.len() ==> delta_wf((#[trigger] ds[i]).1@) && unique_delta_names(ds[i].1@)
}

impl Dir {
    /// Well-formedness of the lock layers, recursively down the tree.
    pub open spec fn wf(self) -> bool
        decreases self,
    {
        &&& unique_entry_names(self.canon@)
        &&& entries_wf(self.canon@)
        &&& layers_wf(self.deltas@)
        &&& layers_wf(self.pending@)
        &&& sorted_strict_deltas(self.deltas@)
        &&& unique_layer_txns(self.pending@)
        &&& forall|i: int|
            0 <= i < self.pending@.len() ==> !self.commits@.contains(
                #[trigger] self.pending@[i].0,
            )
        &&& forall|i: int|
            0 <= i < self.deltas@.len() ==> self.commits@.contains(
                #[trigger] self.deltas@[i].0,
            )
    }

    /// True if `t` precedes the most recent finalize of this map.
    pub open spec fn outdated(self, t: u64) -> bool {
        match self.finalized_at {
            Some(f) => f > t,
            None => false,
        }
    }

    /// True if transaction `t` has committed on this map.
    pub open spec fn lock_committed(self, t: u64) -> bool {
        self.commits@.contains(t)
    }

    /// The entry visible to the committed state at transaction `t`.
    pub open spec fn vis_committed(self, t: u64, k: Seq<char>) -> Option<DirEntry> {
        match deltas_get(self.deltas@, t, k) {
            Some(v) => v,
            None => canon_get(self.canon@, k),
        }
    }

    /// The entry visible to transaction `t` under key `k`, its own pending
    /// changes included.
    pub open spec fn vis(self, t: u64, k: Seq<char>) -> Option<DirEntry> {
        match pending_layer(self.pending@, t) {
            Some(p) => match layer_get(p@, k) {
                Some(v) => v,
                None => self.vis_committed(t, k),
            },
            None => self.vis_committed(t, k),
        }
    }

    /// True if an earlier transaction holds an unresolved write reservation
    /// overlapping key `k`, which blocks a read of `k` at `t`.
    pub open spec fn read_blocked(self, t: u64, k: Seq<char>) -> bool {
        exists|i: int|
            0 <= i < self.write_marks@.len() && self.write_marks@[i].0 < t && mark_overlaps(
                self.write_marks@[i].1,
                k,
            )
    }

    /// True if an earlier transaction holds any unresolved write
    /// reservation, which blocks a whole-map read at `t`.
    pub open spec fn read_all_blocked(self, t: u64) -> bool {
        exists|i: int| 0 <= i < self.write_marks@.len() && self.write_marks@[i].0 < t
    }

    /// True if a write of key `k` at `t` is refused: any reservation by a
    /// later transaction overlapping `k` (conflict), or an unresolved write
    /// reservation overlapping `k` by a different earlier transaction
    /// (would have to wait).
    pub open spec fn write_blocked(self, t: u64, k: Seq<char>) -> bool {
        ||| exists|i: int|
            0 <= i < self.write_marks@.len() && self.write_marks@[i].0 != t && mark_overlaps(
                self.write_marks@[i].1,
                k,
            )
        ||| exists|i: int|
            0 <= i < self.read_marks@.len() && self.read_marks@[i].0 > t && mark_overlaps(
                self.read_marks@[i].1,
                k,
            )
    }
}

/// True if the transaction ids of a delta stack are strictly ascending.
pub open spec fn sorted_strict_deltas(ds: Seq<(u64, Delta)>) -> bool {
    forall|i: int, j: int| 0 <= i < j < ds.len() ==> ds[i].0 < ds[j].0
}

/// True if the transaction ids of a layer stack are distinct.
pub open spec fn unique_layer_txns(ds: Seq<(u64, Delta)>) -> bool {
    forall|i: int, j: int| 0 <= i < j < ds.len() ==> ds[i].0 != ds[j].0
}

/// The names recorded by a committed map layer.
pub open spec fn names_of_canon(s: Seq<(Name, DirEntry)>) -> Seq<Seq<char>> {
    s.map_values(|p: (Name, DirEntry)| p.0@)
}

/// The names recorded by a delta layer.
pub open spec fn names_of_delta(s: Seq<(Name, Option<DirEntry>)>) -> Seq<Seq<char>> {
    s.map_values(|p: (Name, Option<DirEntry>)| p.0@)
}

/// The names recorded by all committed deltas at or before `t`, in layer
/// order.
pub open spec fn names_of_deltas_le(ds: Seq<(u64, Delta)>, t: u64) -> Seq<Seq<char>>
    decreases ds.len(),
{
    if ds.len() == 0 {
        Seq::empty()
    } else {
        (if ds[0].0 <= t {
            names_of_delta(ds[0].1@)
        } else {
            Seq::empty()
        }) + names_of_deltas_le(ds.drop_first(), t)
    }
}

/// `s` with every repetition of an earlier element removed.
pub open spec fn dedup_first(s: Seq<Seq<char>>) -> Seq<Seq<char>>
    decreases s.len(),
{
    if s.len() == 0 {
        s
    } else {
        let d = dedup_first(s.drop_last());
        if d.contains(s.last()) {
            d
        } else {
            d.push(s.last())
        }
    }
}

/// Deduplication keeps exactly the member set.
pub proof fn lemma_dedup_first(s: Seq<Seq<char>>)
    ensures
        forall|k: Seq<char>|
            #![trigger dedup_first(s).contains(k)]
            #![trigger s.contains(k)]
            dedup_first(s).contains(k) <==> s.contains(k),
        forall|i: int, j: int|
            0 <= i < j < dedup_first(s).len() ==> dedup_first(s)[i] != dedup_first(s)[j],
    decreases s.len(),
{
    if s.len() > 0 {
        lemma_dedup_first(s.drop_last());
        let d = dedup_first(s.drop_last());
        assert(forall|k: Seq<char>|
            s.contains(k) <==> (s.drop_last().contains(k) || k == s.last())) by {
            assert forall|k: Seq<char>|
                s.contains(k) implies (s.drop_last().contains(k) || k == s.last()) by {
                let i = choose|i: int| 0 <= i < s.len() && s[i] == k;
                if i < s.len() - 1 {
                    assert(s.drop_last()[i] == k);
                }
            }
            assert forall|k: Seq<char>|
                s.drop_last().contains(k) || k == s.last() implies s.contains(k) by {
                if s.drop_last().contains(k) {
                    let i = choose|i: int| 0 <= i < s.drop_last().len() && s.drop_last()[i] == k;
                    assert(s[i] == k);
                } else {
                    assert(s[s.len() - 1] == k);
                }
            }
        }
        if !d.contains(s.last()) {
            let d2 = d.push(s.last());
            assert(forall|k: Seq<char>|
                d2.contains(k) <==> (d.contains(k) || k == s.last())) by {
                assert forall|k: Seq<char>|
                    d2.contains(k) implies (d.contains(k) || k == s.last()) by {
                    let i = choose|i: int| 0 <= i < d2.len() && d2[i] == k;
                    if i < d.len() {
                        assert(d[i] == k);
                    }
                }
                assert forall|k: Seq<char>|
                    d.contains(k) || k == s.last() implies d2.contains(k) by {
                    if d.contains(k) {
                        let i = choose|i: int| 0 <= i < d.len() && d[i] == k;
                        assert(d2[i] == k);
                    } else {
                        assert(d2[d2.len() - 1] == k);
                    }
                }
            }
        }
    }
}

impl Dir {
    /// Every name that any version layer at or before `t` (or `t`'s own
    /// pending layer) may mention.
    pub open spec fn candidates(self, t: u64) -> Seq<Seq<char>> {
        names_of_canon(self.canon@) + names_of_deltas_le(self.deltas@, t) + (
        match pending_layer(self.pending@, t) {
            Some(p) => names_of_delta(p@),
            None => Seq::empty(),
        })
    }

    /// The distinct candidate names that hold an entry at `t`: what an
    /// iteration of this directory at `t` yields.
    pub open spec fn vis_names(self, t: u64) -> Seq<Seq<char>> {
        self.filter_vis(t, dedup_first(self.candidates(t)))
    }

    /// The sub-sequence of `names` under which an entry is visible at `t`.
    pub open spec fn filter_vis(self, t: u64, names: Seq<Seq<char>>) -> Seq<Seq<char>>
        decreases names.len(),
    {
        if names.len() == 0 {
            names
        } else {
            self.filter_vis(t, names.drop_last()) + (if self.vis(t, names.last()) is Some {
                seq![names.last()]
            } else {
                Seq::empty()
            })
        }
    }
}

/// The filtered names are exactly the visible members of `names`, and
/// distinctness carries over.
pub proof fn lemma_filter_vis(d: Dir, t: u64, names: Seq<Seq<char>>)
    ensures
        forall|k: Seq<char>|
            #![trigger d.filter_vis(t, names).contains(k)]
            #![trigger names.contains(k), d.vis(t, k)]
            d.filter_vis(t, names).contains(k) <==> (names.contains(k) && d.vis(t, k) is Some),
        (forall|i: int, j: int| 0 <= i < j < names.len() ==> names[i] != names[j]) ==> (forall|
            i: int,
            j: int,
        |
            0 <= i < j < d.filter_vis(t, names).len() ==> d.filter_vis(t, names)[i] != d.filter_vis(
                t,
                names,
            )[j]),
    decreases names.len(),
{
    if names.len() > 0 {
        lemma_filter_vis(d, t, names.drop_last());
        let f0 = d.filter_vis(t, names.drop_last());
        let f = d.filter_vis(t, names);
        assert(forall|k: Seq<char>|
            names.contains(k) <==> (names.drop_last().contains(k) || k == names.last())) by {
            assert forall|k: Seq<char>|
                names.contains(k) implies (names.drop_last().contains(k) || k
                == names.last()) by {
                let i = choose|i: int| 0 <= i < names.len() && names[i] == k;
                if i < names.len() - 1 {
                    assert(names.drop_last()[i] == k);
                }
            }
            assert forall|k: Seq<char>|
                names.drop_last().contains(k) || k == names.last() implies names.contains(
                k,
            ) by {
                if names.drop_last().contains(k) {
                    let i = choose|i: int|
                        0 <= i < names.drop_last().len() && names.drop_last()[i] == k;
                    assert(names[i] == k);
                } else {
                    assert(names[names.len() - 1] == k);
                }
            }
        }
        if d.vis(t, names.last()) is Some {
            assert(f == f0.push(names.last()));
            assert(forall|k: Seq<char>| f.contains(k) <==> (f0.contains(k) || k == names.last()))
                by {
                assert forall|k: Seq<char>|
                    f.contains(k) implies (f0.contains(k) || k == names.last()) by {
                    let i = choose|i: int| 0 <= i < f.len() && f[i] == k;
                    if i < f0.len() {
                        assert(f0[i] == k);
                    }
                }
                assert forall|k: Seq<char>|
                    f0.contains(k) || k == names.last() implies f.contains(k) by {
                    if f0.contains(k) {
                        let i = choose|i: int| 0 <= i < f0.len() && f0[i] == k;
                        assert(f[i] == k);
                    } else {
                        assert(f[f.len() - 1] == k);
                    }
                }
            }
            if (forall|i: int, j: int| 0 <= i < j < names.len() ==> names[i] != names[j]) {
                assert(forall|i: int, j: int|
                    0 <= i < j < names.drop_last().len() ==> names.drop_last()[i]
                        != names.drop_last()[j]);
                assert(!names.drop_last().contains(names.last())) by {
                    if names.drop_last().contains(names.last()) {
                        let i = choose|i: int|
                            0 <= i < names.drop_last().len() && names.drop_last()[i]
                                == names.last();
                        assert(names[i] == names[names.len() - 1]);
                    }
                }
                assert(!f0.contains(names.last()));
            }
        } else {
            assert(f =~= f0);
            if (forall|i: int, j: int| 0 <= i < j < names.len() ==> names[i] != names[j]) {
                assert(forall|i: int, j: int|
                    0 <= i < j < names.drop_last().len() ==> names.drop_last()[i]
                        != names.drop_last()[j]);
            }
        }
    }
}

/// The views of a list of names.
pub open spec fn name_views(s: Seq<Name>) -> Seq<Seq<char>> {
    s.map_values(|n: Name| n@)
}

/// True if `a` and `b` agree on everything but the read reservations.
pub open spec fn same_except_read_marks(a: Dir, b: Dir) -> bool {
    &&& a.canon == b.canon
    &&& a.deltas == b.deltas
    &&& a.commits == b.commits
    &&& a.pending == b.pending
    &&& a.finalized_at == b.finalized_at
    &&& a.write_marks == b.write_marks
    &&& a.disk_removed == b.disk_removed
    &&& a.stray == b.stray
    &&& a.txfs == b.txfs
    &&& a.on_disk == b.on_disk
}

/// True if `post` is `pre` with one key reservation by `t` on `k` appended.
pub open spec fn key_mark_pushed(
    pre: Seq<(u64, MarkRange)>,
    post: Seq<(u64, MarkRange)>,
    t: u64,
    k: Seq<char>,
) -> bool {
    &&& post.len() == pre.len() + 1
    &&& post.subrange(0, pre.len() as int) == pre
    &&& post.last().0 == t
    &&& post.last().1 matches MarkRange::Key(n) && n@ == k
}

/// True if `post` is `pre` with one whole-map reservation by `t` appended.
pub open spec fn all_mark_pushed(
    pre: Seq<(u64, MarkRange)>,
    post: Seq<(u64, MarkRange)>,
    t: u64,
) -> bool {
    &&& post.len() == pre.len() + 1
    &&& post.subrange(0, pre.len() as int) == pre
    &&& post.last().0 == t
    &&& post.last().1 is All
}

fn pending_index(ps: &Vec<(u64, Delta)>, t: u64) -> (r: Option<usize>)
    ensures
        match r {
            Some(i) => i < ps@.len() && ps@[i as int].0 == t && pending_layer(ps@, t) == Some(
                ps@[i as int].1,
            ),
            None => pending_layer(ps@, t) is None && forall|j: int|
                0 <= j < ps@.len() ==> ps@[j].0 != t,
        },
{
    let n = ps.len();
    let mut i: usize = 0;
    proof {
        assert(ps@.subrange(0, n as int) =~= ps@);
    }
    while i < n
        invariant
            i <= n,
            n == ps@.len(),
            pending_layer(ps@, t) == pending_layer(ps@.subrange(i as int, n as int), t),
            forall|j: int| 0 <= j < i ==> ps@[j].0 != t,
        decreases n - i,
    {
        let ghost pre = ps@.subrange(i as int, n as int);
        if ps[i].0 == t {
            proof {
                assert(pre[0] == ps@[i as int]);
            }
            return Some(i);
        }
        proof {
            assert(pre[0] == ps@[i as int]);
            assert(pre.drop_first() =~= ps@.subrange(i + 1, n as int));
        }
        i = i + 1;
    }
    proof {
        assert(ps@.subrange(n as int, n as int).len() == 0);
    }
    None
}

fn layer_find(v: &Delta, k: &Name) -> (r: Option<usize>)
    ensures
        match r {
            Some(i) => i < v@.len() && v@[i as int].0@ == k@ && layer_get(v@, k@) == Some(
                v@[i as int].1,
            ),
            None => layer_get(v@, k@) is None && forall|j: int|
                0 <= j < v@.len() ==> v@[j].0@ != k@,
        },
{
    let n = v.len();
    let mut i: usize = 0;
    proof {
        assert(v@.subrange(0, n as int) =~= v@);
    }
    while i < n
        invariant
            i <= n,
            n == v@.len(),
            layer_get(v@, k@) == layer_get(v@.subrange(i as int, n as int), k@),
            forall|j: int| 0 <= j < i ==> v@[j].0@ != k@,
        decreases n - i,
    {
        let ghost pre = v@.subrange(i as int, n as int);
        proof {
            assert(pre[0] == v@[i as int]);
            assert(pre.drop_first() =~= v@.subrange(i + 1, n as int));
        }
        if v[i].0.eq_name(k) {
            return Some(i);
        }
        i = i + 1;
    }
    proof {
        assert(v@.subrange(n as int, n as int).len() == 0);
    }
    None
}

fn canon_find(v: &Vec<(Name, DirEntry)>, k: &Name) -> (r: Option<usize>)
    ensures
        match r {
            Some(i) => i < v@.len() && v@[i as int].0@ == k@ && canon_get(v@, k@) == Some(
                v@[i as int].1,
            ),
            None => canon_get(v@, k@) is None && forall|j: int|
                0 <= j < v@.len() ==> v@[j].0@ != k@,
        },
{
    let n = v.len();
    let mut i: usize = 0;
    proof {
        assert(v@.subrange(0, n as int) =~= v@);
    }
    while i < n
        invariant
            i <= n,
            n == v@.len(),
            canon_get(v@, k@) == canon_get(v@.subrange(i as int, n as int), k@),
            forall|j: int| 0 <= j < i ==> v@[j].0@ != k@,
        decreases n - i,
    {
        let ghost pre = v@.subrange(i as int, n as int);
        proof {
            assert(pre[0] == v@[i as int]);
            assert(pre.drop_first() =~= v@.subrange(i + 1, n as int));
        }
        if v[i].0.eq_name(k) {
            return Some(i);
        }
        i = i + 1;
    }
    proof {
        assert(v@.subrange(n as int, n as int).len() == 0);
    }
    None
}

/// True if the pending version of `t` (if any) does not mention key `k`.
pub open spec fn pending_miss(ps: Seq<(u64, Delta)>, t: u64, k: Seq<char>) -> bool {
    match pending_layer(ps, t) {
        Some(p) => layer_get(p@, k) is None,
        None => true,
    }
}

/// True if no committed delta above layer `li` both applies at `t` and
/// mentions key `k`.
pub open spec fn no_delta_hit_above(ds: Seq<(u64, Delta)>, t: u64, k: Seq<char>, li: int) -> bool {
    forall|j: int|
        li < j < ds.len() ==> ((#[trigger] ds[j]).0 > t || layer_get(ds[j].1@, k) is None)
}

/// Where the entry visible at `(t, k)` lives.
#[derive(Clone, Copy)]
enum Loc {
    /// In the pending layer of `t`: (layer index, entry index).
    Pending(usize, usize),
    /// In a committed delta: (layer index, entry index).
    Delta(usize, usize),
    /// In the merged canonical map: entry index.
    Canon(usize),
    /// The visible record is a deletion, or no record exists.
    Absent,
}

impl Dir {
    /// Locate the entry visible at `(t, k)`, if one is.
    fn locate(&self, t: u64, k: &Name) -> (r: Loc)
        ensures
            match r {
                Loc::Pending(li, ei) => {
                    &&& li < self.pending@.len() && ei < self.pending@[li as int].1@.len()
                    &&& self.pending@[li as int].0 == t
                    &&& self.pending@[li as int].1@[ei as int].0@ == k@
                    &&& self.pending@[li as int].1@[ei as int].1 matches Some(e) && self.vis(t, k@)
                        == Some(e)
                },
                Loc::Delta(li, ei) => {
                    &&& li < self.deltas@.len() && ei < self.deltas@[li as int].1@.len()
                    &&& self.deltas@[li as int].0 <= t
                    &&& self.deltas@[li as int].1@[ei as int].0@ == k@
                    &&& self.deltas@[li as int].1@[ei as int].1 matches Some(e) && self.vis(t, k@)
                        == Some(e)
                    &&& pending_miss(self.pending@, t, k@)
                    &&& no_delta_hit_above(self.deltas@, t, k@, li as int)
                    &&& layer_get(self.deltas@[li as int].1@, k@) == Some(
                        self.deltas@[li as int].1@[ei as int].1,
                    )
                },
                Loc::Canon(i) => {
                    &&& i < self.canon@.len()
                    &&& self.canon@[i as int].0@ == k@
                    &&& self.vis(t, k@) == Some(self.canon@[i as int].1)
                    &&& pending_miss(self.pending@, t, k@)
                    &&& no_delta_hit_above(self.deltas@, t, k@, -1)
                    &&& canon_get(self.canon@, k@) == Some(self.canon@[i as int].1)
                },
                Loc::Absent => self.vis(t, k@) is None,
            },
    {
        match pending_index(&self.pending, t) {
            Some(li) => {
                match layer_find(&self.pending[li].1, k) {
                    Some(ei) => {
                        match &self.pending[li].1[ei].1 {
                            Some(_) => {
                                return Loc::Pending(li, ei);
                            },
                            None => {
                                return Loc::Absent;
                            },
                        }
                    },
                    None => {},
                }
            },
            None => {},
        }
        let n = self.deltas.len();
        let mut i: usize = n;
        proof {
            assert(self.deltas@.subrange(0, n as int) =~= self.deltas@);
        }
        while i > 0
            invariant
                i <= n,
                n == self.deltas@.len(),
                deltas_get(self.deltas@, t, k@) == deltas_get(
                    self.deltas@.subrange(0, i as int),
                    t,
                    k@,
                ),
                pending_miss(self.pending@, t, k@),
                no_delta_hit_above(self.deltas@, t, k@, i as int - 1),
            decreases i,
        {
            let ghost pre = self.deltas@.subrange(0, i as int);
            proof {
                assert(pre.last() == self.deltas@[i - 1]);
                assert(pre.drop_last() =~= self.deltas@.subrange(0, i - 1));
            }
            if self.deltas[i - 1].0 <= t {
                match layer_find(&self.deltas[i - 1].1, k) {
                    Some(ei) => {
                        match &self.deltas[i - 1].1[ei].1 {
                            Some(_) => {
                                return Loc::Delta(i - 1, ei);
                            },
                            None => {
                                return Loc::Absent;
                            },
                        }
                    },
                    None => {},
                }
            }
            i = i - 1;
        }
        proof {
            assert(self.deltas@.subrange(0, 0).len() == 0);
        }
        match canon_find(&self.canon, k) {
            Some(ci) => Loc::Canon(ci),
            None => Loc::Absent,
        }
    }
}

/// A committed transaction has no pending version left.
proof fn lemma_committed_no_pending(d: Dir, t: u64)
    requires
        d.wf(),
        d.lock_committed(t),
    ensures
        pending_layer(d.pending@, t) is None,
{
    lemma_pending_layer_member(d.pending@, t);
    if pending_layer(d.pending@, t) is Some {
        let i = choose|i: int| 0 <= i < d.pending@.len() && d.pending@[i].0 == t;
    }
}

proof fn lemma_pending_layer_member(ps: Seq<(u64, Delta)>, t: u64)
    ensures
        pending_layer(ps, t) is Some ==> exists|i: int| 0 <= i < ps.len() && ps[i].0 == t,
    decreases ps.len(),
{
    if ps.len() > 0 {
        if ps[0].0 == t {
            assert(ps[0].0 == t);
        } else {
            lemma_pending_layer_member(ps.drop_first(), t);
            if pending_layer(ps.drop_first(), t) is Some {
                let i = choose|i: int|
                    0 <= i < ps.drop_first().len() && ps.drop_first()[i].0 == t;
                assert(ps[i + 1].0 == t);
            }
        }
    }
}

impl Dir {
    /// Decide whether an earlier transaction holds a write reservation
    /// overlapping key `k`.
    fn read_blocked_exec(&self, t: u64, k: &Name) -> (r: bool)
        ensures
            r == self.read_blocked(t, k@),
    {
        let n = self.write_marks.len();
        let mut i: usize = 0;
        while i < n
            invariant
                i <= n,
                n == self.write_marks@.len(),
                forall|j: int|
                    0 <= j < i ==> !(self.write_marks@[j].0 < t && mark_overlaps(
                        self.write_marks@[j].1,
                        k@,
                    )),
            decreases n - i,
        {
            if self.write_marks[i].0 < t {
                let hit = match &self.write_marks[i].1 {
                    MarkRange::All => true,
                    MarkRange::Key(n2) => n2.eq_name(k),
                };
                if hit {
                    return true;
                }
            }
            i = i + 1;
        }
        false
    }

    /// Decide whether an earlier transaction holds any write reservation.
    fn read_all_blocked_exec(&self, t: u64) -> (r: bool)
        ensures
            r == self.read_all_blocked(t),
    {
        let n = self.write_marks.len();
        let mut i: usize = 0;
        while i < n
            invariant
                i <= n,
                n == self.write_marks@.len(),
                forall|j: int| 0 <= j < i ==> !(self.write_marks@[j].0 < t),
            decreases n - i,
        {
            if self.write_marks[i].0 < t {
                return true;
            }
            i = i + 1;
        }
        false
    }

    /// The outcome of `contains(t, k)` (see [`Dir::contains`]).
    pub open spec fn contains_post(pre: Dir, post: Dir, t: u64, k: Seq<char>, r: Result<
        bool,
    >) -> bool {
        if pre.outdated(t) {
            post == pre && (r matches Err(e) && e == Error::Outdated)
        } else if pre.lock_committed(t) {
            post == pre && (r matches Ok(b) && b == (pre.vis(t, k) is Some))
        } else if pre.read_blocked(t, k) {
            post == pre && (r matches Err(e) && e == Error::Conflict)
        } else {
            &&& same_except_read_marks(pre, post)
            &&& key_mark_pushed(pre.read_marks@, post.read_marks@, t, k)
            &&& r matches Ok(b) && b == (pre.vis(t, k) is Some)
        }
    }

    /// Return `true` if this directory has an entry at `name` at `txn_id`.
    pub fn contains(&mut self, txn_id: u64, name: &Name) -> (r: Result<bool>)
        requires
            old(self).wf(),
        ensures
            final(self).wf(),
            Dir::contains_post(*old(self), *final(self), txn_id, name@, r),
    {
        match self.finalized_at {
            Some(f) => {
                if f > txn_id {
                    return Err(Error::Outdated);
                }
            },
            None => {},
        }
        let committed = contains_txn(&self.commits, txn_id);
        if !committed {
            if self.read_blocked_exec(txn_id, name) {
                return Err(Error::Conflict);
            }
            self.read_marks.push((txn_id, MarkRange::Key(name.duplicate())));
            proof {
                assert(self.read_marks@.subrange(0, old(self).read_marks@.len() as int)
                    =~= old(self).read_marks@);
            }
        } else {
            proof {
                lemma_committed_no_pending(*self, txn_id);
            }
        }
        let present = match self.locate(txn_id, name) {
            Loc::Absent => false,
            _ => true,
        };
        Ok(present)
    }

    /// The outcome of a typed lookup (see [`Dir::get_dir`] and
    /// [`Dir::get_file`]): `want_dir` selects which entry type is expected.
    pub open spec fn get_typed_post(
        pre: Dir,
        post: Dir,
        t: u64,
        k: Seq<char>,
        want_dir: bool,
        r: Result<bool>,
    ) -> bool {
        if pre.outdated(t) {
            post == pre && (r matches Err(e) && e == Error::Outdated)
        } else if pre.lock_committed(t) {
            Dir::typed_result(pre, t, k, want_dir, r) && post == pre
        } else if pre.read_blocked(t, k) {
            post == pre && (r matches Err(e) && e == Error::Conflict)
        } else {
            &&& same_except_read_marks(pre, post)
            &&& key_mark_pushed(pre.read_marks@, post.read_marks@, t, k)
            &&& Dir::typed_result(pre, t, k, want_dir, r)
        }
    }

    /// What a typed lookup returns: `Ok(false)` when absent, `Conflict`
    /// when the entry is a file whose outstanding write guard belongs to
    /// another transaction (the guard excludes every other access until
    /// released; this non-blocking model refuses where a blocking one waits),
    /// `Ok(true)` when the entry has the expected type, and `InvalidData`
    /// otherwise.
    pub open spec fn typed_result(pre: Dir, t: u64, k: Seq<char>, want_dir: bool, r: Result<
        bool,
    >) -> bool {
        match pre.vis(t, k) {
            None => r matches Ok(b) && b == false,
            Some(e) => if (e matches DirEntry::File(f) && f.writer && f.pending != Some(t)) {
                r matches Err(err) && err == Error::Conflict
            } else if (e is Dir) == want_dir {
                r matches Ok(b) && b == true
            } else {
                r matches Err(err) && err == Error::InvalidData
            },
        }
    }

    fn get_typed(&mut self, txn_id: u64, name: &Name, want_dir: bool) -> (r: Result<bool>)
        requires
            old(self).wf(),
        ensures
            final(self).wf(),
            Dir::get_typed_post(*old(self), *final(self), txn_id, name@, want_dir, r),
    {
        match self.finalized_at {
            Some(f) => {
                if f > txn_id {
                    return Err(Error::Outdated);
                }
            },
            None => {},
        }
        let committed = contains_txn(&self.commits, txn_id);
        if !committed {
            if self.read_blocked_exec(txn_id, name) {
                return Err(Error::Conflict);
            }
            self.read_marks.push((txn_id, MarkRange::Key(name.duplicate())));
            proof {
                assert(self.read_marks@.subrange(0, old(self).read_marks@.len() as int)
                    =~= old(self).read_marks@);
            }
        } else {
            proof {
                lemma_committed_no_pending(*self, txn_id);
            }
        }
        let (is_dir, write_held) = match self.locate(txn_id, name) {
            Loc::Pending(li, ei) => {
                match &self.pending[li].1[ei].1 {
                    Some(e) => (e.is_dir(), entry_write_held(e, txn_id)),
                    None => {
                        proof {
                            assert(false);
                        }
                        (false, false)
                    },
                }
            },
            Loc::Delta(li, ei) => {
                match &self.deltas[li].1[ei].1 {
                    Some(e) => (e.is_dir(), entry_write_held(e, txn_id)),
                    None => {
                        proof {
                            assert(false);
                        }
                        (false, false)
                    },
                }
            },
            Loc::Canon(i) => (
                self.canon[i].1.is_dir(),
                entry_write_held(&self.canon[i].1, txn_id),
            ),
            Loc::Absent => {
                return Ok(false);
            },
        };
        if write_held {
            Err(Error::Conflict)
        } else if is_dir == want_dir {
            Ok(true)
        } else {
            Err(Error::InvalidData)
        }
    }

    /// Look up a sub-directory at `txn_id`: `Ok(true)` if present, `Ok(false)`
    /// if absent, `InvalidData` if the entry is a file.
    pub fn get_dir(&mut self, txn_id: u64, name: &Name) -> (r: Result<bool>)
        requires
            old(self).wf(),
        ensures
            final(self).wf(),
            Dir::get_typed_post(*old(self), *final(self), txn_id, name@, true, r),
    {
        self.get_typed(txn_id, name, true)
    }

    /// Look up a sub-directory without waiting, by the same rules as
    /// [`Dir::get_dir`] (this model never waits, so the rules coincide).
    pub fn try_get_dir(&mut self, txn_id: u64, name: &Name) -> (r: Result<bool>)
        requires
            old(self).wf(),
        ensures
            final(self).wf(),
            Dir::get_typed_post(*old(self), *final(self), txn_id, name@, true, r),
    {
        self.get_typed(txn_id, name, true)
    }

    /// Look up a file at `txn_id`: `Ok(true)` if present, `Ok(false)` if
    /// absent, `InvalidData` if the entry is a sub-directory.
    pub fn get_file(&mut self, txn_id: u64, name: &Name) -> (r: Result<bool>)
        requires
            old(self).wf(),
        ensures
            final(self).wf(),
            Dir::get_typed_post(*old(self), *final(self), txn_id, name@, false, r),
    {
        self.get_typed(txn_id, name, false)
    }

    /// Look up a file without waiting, by the same rules as
    /// [`Dir::get_file`].
    pub fn try_get_file(&mut self, txn_id: u64, name: &Name) -> (r: Result<bool>)
        requires
            old(self).wf(),
        ensures
            final(self).wf(),
            Dir::get_typed_post(*old(self), *final(self), txn_id, name@, false, r),
    {
        self.get_typed(txn_id, name, false)
    }
}

/// Decide whether `e` is a file whose outstanding write guard belongs to a
/// transaction other than `t`.
fn entry_write_held(e: &DirEntry, t: u64) -> (r: bool)
    ensures
        r == (e matches DirEntry::File(f) && f.writer && f.pending != Some(t)),
{
    match e {
        DirEntry::File(f) => f.writer && (match f.pending {
            Some(p) => p != t,
            None => true,
        }),
        DirEntry::Dir(_) => false,
    }
}

fn contains_txn(v: &Vec<u64>, x: u64) -> (r: bool)
    ensures
        r == v@.contains(x),
{
    let n = v.len();
    let mut i: usize = 0;
    while i < n
        invariant
            i <= n,
            n == v@.len(),
            forall|j: int| 0 <= j < i ==> v@[j] != x,
        decreases n - i,
    {
        if v[i] == x {
            return true;
        }
        i = i + 1;
    }
    false
}

/// The height of one entry, for termination of recursive walks.
pub open spec fn entry_height(e: DirEntry) -> nat
    decreases e,
{
    match e {
        DirEntry::Dir(d) => 1 + d.height(),
        DirEntry::File(_) => 1,
    }
}

/// The summed height of a committed map layer.
pub open spec fn centries_height(s: Seq<(Name, DirEntry)>) -> nat
    decreases s,
{
    if s.len() == 0 {
        0
    } else {
        entry_height(s[0].1) + centries_height(s.drop_first())
    }
}

/// The summed height of a delta layer.
pub open spec fn delta_height(s: Seq<(Name, Option<DirEntry>)>) -> nat
    decreases s,
{
    if s.len() == 0 {
        0
    } else {
        (match s[0].1 {
            Some(e) => entry_height(e),
            None => 0,
        }) + delta_height(s.drop_first())
    }
}

/// The summed height of a stack of version layers.
pub open spec fn layers_height(ds: Seq<(u64, Delta)>) -> nat
    decreases ds,
{
    if ds.len() == 0 {
        0
    } else {
        delta_height(ds[0].1@) + layers_height(ds.drop_first())
    }
}

impl Dir {
    /// The height of this directory tree, over all its version layers.
    pub open spec fn height(self) -> nat
        decreases self,
    {
        1 + centries_height(self.canon@) + layers_height(self.deltas@) + layers_height(
            self.pending@,
        )
    }
}

/// An entry of a committed map layer weighs no more than the layer.
pub proof fn lemma_centry_height(s: Seq<(Name, DirEntry)>, i: int)
    requires
        0 <= i < s.len(),
    ensures
        entry_height(s[i].1) <= centries_height(s),
    decreases s.len(),
{
    if i > 0 {
        assert(s.drop_first()[i - 1] == s[i]);
        lemma_centry_height(s.drop_first(), i - 1);
    }
}

/// A present entry of a delta layer weighs no more than the layer.
pub proof fn lemma_dentry_height(s: Seq<(Name, Option<DirEntry>)>, i: int)
    requires
        0 <= i < s.len(),
    ensures
        (match s[i].1 {
            Some(e) => entry_height(e),
            None => 0,
        }) <= delta_height(s),
    decreases s.len(),
{
    if i > 0 {
        assert(s.drop_first()[i - 1] == s[i]);
        lemma_dentry_height(s.drop_first(), i - 1);
    }
}

/// A layer of a stack weighs no more than the stack.
pub proof fn lemma_layer_height(ds: Seq<(u64, Delta)>, i: int)
    requires
        0 <= i < ds.len(),
    ensures
        delta_height(ds[i].1@) <= layers_height(ds),
    decreases ds.len(),
{
    if i > 0 {
        assert(ds.drop_first()[i - 1] == ds[i]);
        lemma_layer_height(ds.drop_first(), i - 1);
    }
}

/// Looking up a layer other than the one updated is unaffected; looking up
/// the updated one yields the new contents.
proof fn lemma_pending_update(ps: Seq<(u64, Delta)>, li: int, nv: Delta, t2: u64)
    requires
        0 <= li < ps.len(),
        unique_layer_txns(ps),
    ensures
        pending_layer(ps.update(li, (ps[li].0, nv)), ps[li].0) == Some(nv),
        t2 != ps[li].0 ==> pending_layer(ps.update(li, (ps[li].0, nv)), t2) == pending_layer(
            ps,
            t2,
        ),
    decreases ps.len(),
{
    let ps2 = ps.update(li, (ps[li].0, nv));
    if li == 0 {
        assert(ps2[0] == (ps[0].0, nv));
        if t2 != ps[0].0 {
            assert(ps2.drop_first() =~= ps.drop_first());
        }
    } else {
        assert(ps2[0] == ps[0]);
        assert(ps[0].0 != ps[li].0);
        assert(ps2.drop_first() =~= ps.drop_first().update(li - 1, (ps[li].0, nv)));
        assert(ps.drop_first()[li - 1] == ps[li]);
        assert(forall|a: int, b: int|
            0 <= a < b < ps.drop_first().len() ==> ps.drop_first()[a] == ps[a + 1]
                && ps.drop_first()[b] == ps[b + 1]);
        lemma_pending_update(ps.drop_first(), li - 1, nv, t2);
    }
}

/// Appending a layer for a fresh transaction adds exactly that lookup.
proof fn lemma_pending_push(ps: Seq<(u64, Delta)>, t: u64, v: Delta, t2: u64)
    requires
        forall|i: int| 0 <= i < ps.len() ==> ps[i].0 != t,
    ensures
        pending_layer(ps.push((t, v)), t) == Some(v),
        t2 != t ==> pending_layer(ps.push((t, v)), t2) == pending_layer(ps, t2),
    decreases ps.len(),
{
    let ps2 = ps.push((t, v));
    if ps.len() == 0 {
        assert(ps2[0] == (t, v));
        assert(ps2.drop_first() =~= Seq::<(u64, Delta)>::empty());
        assert(pending_layer(ps2.drop_first(), t2) is None);
        assert(pending_layer(ps, t2) is None);
    } else {
        assert(ps2[0] == ps[0]);
        assert(ps2.drop_first() =~= ps.drop_first().push((t, v)));
        assert(forall|i: int|
            0 <= i < ps.drop_first().len() ==> ps.drop_first()[i] == ps[i + 1]);
        lemma_pending_push(ps.drop_first(), t, v, t2);
        if t2 != t {
            if ps[0].0 == t2 {
                assert(pending_layer(ps2, t2) == Some(ps2[0].1));
                assert(pending_layer(ps, t2) == Some(ps[0].1));
            } else {
                assert(pending_layer(ps2, t2) == pending_layer(ps2.drop_first(), t2));
                assert(pending_layer(ps, t2) == pending_layer(ps.drop_first(), t2));
            }
        }
    }
}

/// Updating the record of key `k` in a layer changes only that lookup.
proof fn lemma_layer_update(s: Seq<(Name, Option<DirEntry>)>, ei: int, rec: (
    Name,
    Option<DirEntry>,
), k2: Seq<char>)
    requires
        0 <= ei < s.len(),
        unique_delta_names(s),
        rec.0@ == s[ei].0@,
    ensures
        layer_get(s.update(ei, rec), s[ei].0@) == Some(rec.1),
        k2 != s[ei].0@ ==> layer_get(s.update(ei, rec), k2) == layer_get(s, k2),
        unique_delta_names(s.update(ei, rec)),
    decreases s.len(),
{
    let s2 = s.update(ei, rec);
    assert(forall|a: int| 0 <= a < s.len() ==> s2[a].0@ == s[a].0@);
    if ei == 0 {
        assert(s2[0] == rec);
        if k2 != s[0].0@ {
            assert(s2.drop_first() =~= s.drop_first());
        }
    } else {
        assert(s2[0] == s[0]);
        assert(s[0].0@ != s[ei].0@);
        assert(s2.drop_first() =~= s.drop_first().update(ei - 1, rec));
        assert(s.drop_first()[ei - 1] == s[ei]);
        assert(forall|a: int, b: int|
            0 <= a < b < s.drop_first().len() ==> s.drop_first()[a] == s[a + 1]
                && s.drop_first()[b] == s[b + 1]);
        lemma_layer_update(s.drop_first(), ei - 1, rec, k2);
    }
}

/// Appending a record for a fresh key to a layer adds exactly that lookup.
proof fn lemma_layer_push(s: Seq<(Name, Option<DirEntry>)>, rec: (Name, Option<DirEntry>), k2: Seq<
    char,
>)
    requires
        forall|i: int| 0 <= i < s.len() ==> s[i].0@ != rec.0@,
    ensures
        layer_get(s.push(rec), rec.0@) == Some(rec.1),
        k2 != rec.0@ ==> layer_get(s.push(rec), k2) == layer_get(s, k2),
        unique_delta_names(s) ==> unique_delta_names(s.push(rec)),
    decreases s.len(),
{
    let s2 = s.push(rec);
    if s.len() == 0 {
        assert(s2[0] == rec);
        assert(s2.drop_first() =~= Seq::<(Name, Option<DirEntry>)>::empty());
        assert(layer_get(s2.drop_first(), k2) is None);
        assert(layer_get(s, k2) is None);
    } else {
        assert(s2[0] == s[0]);
        assert(s2.drop_first() =~= s.drop_first().push(rec));
        assert(forall|i: int|
            0 <= i < s.drop_first().len() ==> s.drop_first()[i] == s[i + 1]);
        lemma_layer_push(s.drop_first(), rec, k2);
        if k2 != rec.0@ {
            if s[0].0@ == k2 {
                assert(layer_get(s2, k2) == Some(s2[0].1));
                assert(layer_get(s, k2) == Some(s[0].1));
            } else {
                assert(layer_get(s2, k2) == layer_get(s2.drop_first(), k2));
                assert(layer_get(s, k2) == layer_get(s.drop_first(), k2));
            }
        }
        if unique_delta_names(s) {
            assert(forall|a: int, b: int|
                0 <= a < b < s.len() ==> s[a].0@ != s[b].0@);
            assert(forall|a: int| 0 <= a < s.len() ==> s2[a] == s[a]);
            assert(s2[s.len() as int] == rec);
        }
    }
}

impl Dir {
    /// Record `(k, rec)` in the pending version of transaction `t`,
    /// creating the version if `t` has none yet.
    ///
    /// Changes the entry visible at `(t, k)` and nothing else.
    fn record_pending(&mut self, t: u64, k: &Name, rec: Option<DirEntry>)
        requires
            old(self).wf(),
            k.wf(),
            match rec {
                Some(e) => entry_wf(e),
                None => true,
            },
            !old(self).lock_committed(t),
        ensures
            final(self).wf(),
            final(self).canon == old(self).canon,
            final(self).deltas == old(self).deltas,
            final(self).commits == old(self).commits,
            final(self).finalized_at == old(self).finalized_at,
            final(self).read_marks == old(self).read_marks,
            final(self).write_marks == old(self).write_marks,
            final(self).disk_removed == old(self).disk_removed,
            final(self).txfs == old(self).txfs,
            final(self).on_disk == old(self).on_disk,
            match pending_layer(final(self).pending@, t) {
                Some(p) => layer_get(p@, k@) == Some(rec),
                None => false,
            },
            forall|t2: u64, k2: Seq<char>|
                !(t2 == t && k2 == k@) ==> final(self).vis(t2, k2) == old(self).vis(t2, k2),
            final(self).vis(t, k@) == rec,
            final(self).height() <= old(self).height() + rec_height(rec),
            pending_dropped_file(*old(self), t, k@) ==> (forall|x: Seq<char>|
                name_views(final(self).stray@).contains(x) <==> (name_views(
                    old(self).stray@,
                ).contains(x) || x == k@)),
            !pending_dropped_file(*old(self), t, k@) ==> final(self).stray == old(self).stray,
            forall|k2: Seq<char>|
                k2 != k@ ==> pending_dropped_file(*final(self), t, k2) == pending_dropped_file(
                    *old(self),
                    t,
                    k2,
                ),
    {
        let ghost pre = *self;
        match pending_index(&self.pending, t) {
            Some(li) => {
                let (txn, mut inner) = self.pending.remove(li);
                let ghost inner0 = inner@;
                proof {
                    lemma_layers_height_remove(pre.pending@, li as int);
                }
                match layer_find(&inner, k) {
                    Some(ei) => {
                        proof {
                            lemma_layer_at(inner0, ei as int);
                            assert(lay_rec_dropped(inner0[ei as int].1) == pending_dropped_file(
                                pre,
                                t,
                                k@,
                            ));
                        }
                        let drop_file = match &inner[ei].1 {
                            Some(e) => match e {
                                DirEntry::File(f) => f.versions.len() > 0 && f.version_dir,
                                DirEntry::Dir(_) => false,
                            },
                            None => false,
                        };
                        if drop_file {
                            if !names_contain(&self.stray, k) {
                                let ghost s0 = self.stray@;
                                self.stray.push(k.duplicate());
                                proof {
                                    lemma_name_views_push_contains(s0, self.stray@);
                                }
                            }
                        }
                        inner[ei] = (k.duplicate(), rec);
                        proof {
                            lemma_delta_height_update(inner0, ei as int, inner@[ei as int]);
                            lemma_layer_update(
                                inner0,
                                ei as int,
                                inner@[ei as int],
                                k@,
                            );
                            assert forall|k2: Seq<char>| k2 != k@ implies layer_get(
                                inner@,
                                k2,
                            ) == layer_get(inner0, k2) by {
                                lemma_layer_update(inner0, ei as int, inner@[ei as int], k2);
                            }
                        }
                    },
                    None => {
                        inner.push((k.duplicate(), rec));
                        proof {
                            lemma_delta_height_push(inner0, inner@.last());
                            lemma_layer_push(inner0, inner@.last(), k@);
                            assert forall|k2: Seq<char>| k2 != k@ implies layer_get(
                                inner@,
                                k2,
                            ) == layer_get(inner0, k2) by {
                                lemma_layer_push(inner0, inner@.last(), k2);
                            }
                        }
                    },
                }
                proof {
                    lemma_delta_wf_update(inner0, inner@, k@, rec);
                }
                self.pending.insert(li, (txn, inner));
                proof {
                    lemma_layers_height_insert(
                        pre.pending@.remove(li as int),
                        li as int,
                        self.pending@[li as int],
                    );
                    assert(self.pending@ =~= pre.pending@.update(
                        li as int,
                        (txn, self.pending@[li as int].1),
                    ));
                    assert(self.pending@ =~= pre.pending@.remove(li as int).insert(
                        li as int,
                        self.pending@[li as int],
                    ));
                    lemma_pending_update(
                        pre.pending@,
                        li as int,
                        self.pending@[li as int].1,
                        t,
                    );
                    assert forall|t2: u64| t2 != t implies pending_layer(
                        self.pending@,
                        t2,
                    ) == pending_layer(pre.pending@, t2) by {
                        lemma_pending_update(
                            pre.pending@,
                            li as int,
                            self.pending@[li as int].1,
                            t2,
                        );
                    }
                    lemma_layers_wf_update(pre.pending@, self.pending@, li as int);
                }
            },
            None => {
                let mut inner: Delta = Vec::new();
                inner.push((k.duplicate(), rec));
                self.pending.push((t, inner));
                proof {
                    assert(self.pending@ =~= pre.pending@.push(
                        (t, self.pending@.last().1),
                    ));
                    assert(self.pending@ =~= pre.pending@.insert(
                        pre.pending@.len() as int,
                        self.pending@.last(),
                    ));
                    lemma_layers_height_insert(
                        pre.pending@,
                        pre.pending@.len() as int,
                        self.pending@.last(),
                    );
                    assert(delta_height(self.pending@.last().1@) == rec_height(rec)) by {
                        let inner2 = self.pending@.last().1@;
                        assert(inner2.len() == 1);
                        assert(inner2[0].1 == rec);
                        assert(inner2.drop_first().len() == 0);
                        assert(delta_height(inner2.drop_first()) == 0);
                    }
                    lemma_pending_push(pre.pending@, t, self.pending@.last().1, t);
                    assert forall|t2: u64| t2 != t implies pending_layer(
                        self.pending@,
                        t2,
                    ) == pending_layer(pre.pending@, t2) by {
                        lemma_pending_push(pre.pending@, t, self.pending@.last().1, t2);
                    }
                    let inner2 = self.pending@.last().1@;
                    assert(inner2.len() == 1);
                    assert(inner2[0].0@ == k@ && inner2[0].1 == rec);
                    assert(layer_get(inner2, k@) == Some(rec));
                    assert forall|k2: Seq<char>| k2 != k@ implies layer_get(
                        inner2,
                        k2,
                    ) is None by {
                        assert(inner2[0].0@ == k@);
                        assert(inner2.drop_first().len() == 0);
                        assert(layer_get(inner2.drop_first(), k2) is None);
                    }
                    assert(delta_wf(inner2) && unique_delta_names(inner2));
                    lemma_layers_wf_push(pre.pending@, self.pending@);
                    assert(forall|a: int|
                        0 <= a < pre.pending@.len() ==> self.pending@[a] == pre.pending@[a]);
                }
            },
        }
        proof {
            assert(final(self).vis(t, k@) == rec);
        }
    }
}

proof fn lemma_delta_wf_update(pre: Seq<(Name, Option<DirEntry>)>, post: Seq<(Name, Option<
    DirEntry,
>)>, k: Seq<char>, rec: Option<DirEntry>)
    requires
        delta_wf(pre),
        post.len() == pre.len() || post.len() == pre.len() + 1,
        forall|i: int|
            0 <= i < post.len() ==> (i < pre.len() && (post[i] == pre[i] || (post[i].0.wf() && (
            match post[i].1 {
                Some(e) => entry_wf(e),
                None => true,
            }))) || (i >= pre.len() && post[i].0.wf() && (match post[i].1 {
                Some(e) => entry_wf(e),
                None => true,
            }))),
    ensures
        delta_wf(post),
    decreases post.len(),
{
    lemma_delta_wf_pointwise(pre);
    lemma_delta_wf_from_pointwise(post);
}

/// `delta_wf` is equivalent to its pointwise reading.
proof fn lemma_delta_wf_pointwise(s: Seq<(Name, Option<DirEntry>)>)
    requires
        delta_wf(s),
    ensures
        forall|i: int|
            0 <= i < s.len() ==> (#[trigger] s[i].0).wf() && (match s[i].1 {
                Some(e) => entry_wf(e),
                None => true,
            }),
    decreases s.len(),
{
    if s.len() > 0 {
        lemma_delta_wf_pointwise(s.drop_first());
        assert(forall|i: int|
            0 <= i < s.drop_first().len() ==> s.drop_first()[i] == s[i + 1]);
    }
}

proof fn lemma_delta_wf_from_pointwise(s: Seq<(Name, Option<DirEntry>)>)
    requires
        forall|i: int|
            0 <= i < s.len() ==> (#[trigger] s[i].0).wf() && (match s[i].1 {
                Some(e) => entry_wf(e),
                None => true,
            }),
    ensures
        delta_wf(s),
    decreases s.len(),
{
    if s.len() > 0 {
        assert(forall|i: int|
            0 <= i < s.drop_first().len() ==> s.drop_first()[i] == s[i + 1]);
        lemma_delta_wf_from_pointwise(s.drop_first());
    }
}

/// `layers_wf` carries over when one layer is replaced by a well-formed one.
proof fn lemma_layers_wf_update(pre: Seq<(u64, Delta)>, post: Seq<(u64, Delta)>, li: int)
    requires
        layers_wf(pre),
        post.len() == pre.len(),
        0 <= li < pre.len(),
        forall|i: int| 0 <= i < pre.len() && i != li ==> post[i] == pre[i],
        delta_wf(post[li].1@),
        unique_delta_names(post[li].1@),
    ensures
        layers_wf(post),
    decreases pre.len(),
{
    if pre.len() > 0 {
        if li == 0 {
            assert(post.drop_first() =~= pre.drop_first());
        } else {
            assert(post[0] == pre[0]);
            assert(forall|i: int|
                0 <= i < pre.drop_first().len() && i != li - 1 ==> post.drop_first()[i]
                    == pre.drop_first()[i]);
            assert(post.drop_first()[li - 1] == post[li]);
            lemma_layers_wf_update(pre.drop_first(), post.drop_first(), li - 1);
        }
    }
}

/// `layers_wf` carries over when a well-formed layer is appended.
proof fn lemma_layers_wf_push(pre: Seq<(u64, Delta)>, post: Seq<(u64, Delta)>)
    requires
        layers_wf(pre),
        post.len() == pre.len() + 1,
        forall|i: int| 0 <= i < pre.len() ==> post[i] == pre[i],
        delta_wf(post.last().1@),
        unique_delta_names(post.last().1@),
    ensures
        layers_wf(post),
    decreases pre.len(),
{
    if pre.len() == 0 {
        assert(post[0] == post.last());
        assert(post.drop_first().len() == 0);
    } else {
        assert(post[0] == pre[0]);
        assert(post.drop_first().len() == pre.drop_first().len() + 1);
        assert(forall|i: int|
            0 <= i < pre.drop_first().len() ==> post.drop_first()[i] == pre.drop_first()[i]);
        assert(post.drop_first().last() == post.last());
        lemma_layers_wf_push(pre.drop_first(), post.drop_first());
    }
}

/// `s` with every name whose view is `k` removed, by view.
pub open spec fn keys_removed(s: Seq<Seq<char>>, k: Seq<char>) -> Seq<Seq<char>>
    decreases s.len(),
{
    if s.len() == 0 {
        Seq::empty()
    } else if s[0] == k {
        keys_removed(s.drop_first(), k)
    } else {
        seq![s[0]] + keys_removed(s.drop_first(), k)
    }
}

proof fn lemma_keys_removed_push(s: Seq<Seq<char>>, k: Seq<char>, x: Seq<char>)
    ensures
        keys_removed(s.push(x), k) == if x != k {
            keys_removed(s, k).push(x)
        } else {
            keys_removed(s, k)
        },
    decreases s.len(),
{
    if s.len() == 0 {
        assert(s.push(x).drop_first() =~= Seq::<Seq<char>>::empty());
        assert(s.push(x)[0] == x);
        assert(keys_removed(s, k) =~= Seq::<Seq<char>>::empty());
        assert(keys_removed(s.push(x).drop_first(), k) =~= Seq::<Seq<char>>::empty());
        if x != k {
            assert(keys_removed(s.push(x), k) =~= seq![x] + keys_removed(
                s.push(x).drop_first(),
                k,
            ));
            assert(keys_removed(s.push(x), k) =~= keys_removed(s, k).push(x));
        } else {
            assert(keys_removed(s.push(x), k) =~= keys_removed(s, k));
        }
    } else {
        assert(s.push(x).drop_first() =~= s.drop_first().push(x));
        assert(s.push(x)[0] == s[0]);
        lemma_keys_removed_push(s.drop_first(), k, x);
        if x != k {
            if s[0] != k {
                assert(seq![s[0]] + keys_removed(s.drop_first(), k).push(x) =~= (seq![s[0]]
                    + keys_removed(s.drop_first(), k)).push(x));
            }
            assert(keys_removed(s.push(x), k) =~= keys_removed(s, k).push(x));
        }
    }
}

/// Membership in the result of `keys_removed`.
pub proof fn lemma_keys_removed_contains(s: Seq<Seq<char>>, k: Seq<char>, x: Seq<char>)
    ensures
        keys_removed(s, k).contains(x) <==> (s.contains(x) && x != k),
    decreases s.len(),
{
    if s.len() > 0 {
        lemma_keys_removed_contains(s.drop_first(), k, x);
        assert(s.contains(x) <==> (s[0] == x || s.drop_first().contains(x))) by {
            if s.contains(x) {
                let i = choose|i: int| 0 <= i < s.len() && s[i] == x;
                if i > 0 {
                    assert(s.drop_first()[i - 1] == x);
                }
            }
            if s.drop_first().contains(x) {
                let i = choose|i: int|
                    0 <= i < s.drop_first().len() && s.drop_first()[i] == x;
                assert(s[i + 1] == x);
            }
        }
        if s[0] != k {
            let f = seq![s[0]] + keys_removed(s.drop_first(), k);
            assert(f.contains(x) <==> (s[0] == x || keys_removed(s.drop_first(), k).contains(
                x,
            ))) by {
                if f.contains(x) {
                    let i = choose|i: int| 0 <= i < f.len() && f[i] == x;
                    if i > 0 {
                        assert(keys_removed(s.drop_first(), k)[i - 1] == x);
                    }
                }
                if keys_removed(s.drop_first(), k).contains(x) {
                    let i = choose|i: int|
                        0 <= i < keys_removed(s.drop_first(), k).len() && keys_removed(
                            s.drop_first(),
                            k,
                        )[i] == x;
                    assert(f[i + 1] == x);
                }
                assert(f[0] == s[0]);
            }
        }
    }
}

fn remove_name(v: &mut Vec<Name>, k: &Name)
    ensures
        name_views(final(v)@) == keys_removed(name_views(old(v)@), k@),
{
    let ghost v0 = v@;
    let n = v.len();
    let mut r: Vec<Name> = Vec::new();
    let mut i: usize = 0;
    proof {
        assert(name_views(v0.subrange(0, 0)) =~= Seq::<Seq<char>>::empty());
        assert(keys_removed(name_views(v0).subrange(0, 0), k@) =~= Seq::<Seq<char>>::empty());
        assert(name_views(r@) =~= keys_removed(name_views(v0.subrange(0, 0)), k@));
    }
    while i < n
        invariant
            i <= n,
            n == v@.len(),
            v@ == v0,
            name_views(r@) == keys_removed(name_views(v0.subrange(0, i as int)), k@),
        decreases n - i,
    {
        proof {
            assert(name_views(v0.subrange(0, i + 1)) =~= name_views(
                v0.subrange(0, i as int),
            ).push(v0[i as int]@));
            lemma_keys_removed_push(name_views(v0.subrange(0, i as int)), k@, v0[i as int]@);
        }
        if !v[i].eq_name(k) {
            let d = v[i].duplicate();
            r.push(d);
            proof {
                assert(name_views(r@) =~= name_views(r@.drop_last()).push(r@.last()@));
            }
        }
        i = i + 1;
    }
    proof {
        assert(v0.subrange(0, n as int) =~= v0);
    }
    *v = r;
}

/// A freshly created (or freshly loaded empty) transactional directory, as
/// `create_dir` installs it at `t`: an empty map whose initial version is
/// pending at `t`, with the whole map reserved for writing by `t`, and with
/// its canonical directory and `.txfs` subtree created on disk.
pub open spec fn fresh_dir(d: Dir, t: u64) -> bool {
    &&& d.canon@.len() == 0
    &&& d.deltas@.len() == 0
    &&& d.commits@.len() == 0
    &&& d.pending@.len() == 1 && d.pending@[0].0 == t && d.pending@[0].1@.len() == 0
    &&& d.finalized_at is None
    &&& d.read_marks@.len() == 0
    &&& d.write_marks@.len() == 1 && d.write_marks@[0].0 == t && d.write_marks@[0].1 is All
    &&& d.disk_removed@.len() == 0
    &&& d.stray@.len() == 0
    &&& d.txfs
    &&& d.on_disk
}

impl Dir {
    /// Decide whether a write of key `k` at `t` is refused.
    fn write_blocked_exec(&self, t: u64, k: &Name) -> (r: bool)
        ensures
            r == self.write_blocked(t, k@),
    {
        let n = self.write_marks.len();
        let mut i: usize = 0;
        while i < n
            invariant
                i <= n,
                n == self.write_marks@.len(),
                forall|j: int|
                    0 <= j < i ==> !(self.write_marks@[j].0 != t && mark_overlaps(
                        self.write_marks@[j].1,
                        k@,
                    )),
            decreases n - i,
        {
            if self.write_marks[i].0 != t {
                let hit = match &self.write_marks[i].1 {
                    MarkRange::All => true,
                    MarkRange::Key(n2) => n2.eq_name(k),
                };
                if hit {
                    return true;
                }
            }
            i = i + 1;
        }
        let m = self.read_marks.len();
        let mut j: usize = 0;
        while j < m
            invariant
                j <= m,
                m == self.read_marks@.len(),
                !(exists|a: int|
                    0 <= a < self.write_marks@.len() && self.write_marks@[a].0 != t
                        && mark_overlaps(self.write_marks@[a].1, k@)),
                forall|a: int|
                    0 <= a < j ==> !(self.read_marks@[a].0 > t && mark_overlaps(
                        self.read_marks@[a].1,
                        k@,
                    )),
            decreases m - j,
        {
            if self.read_marks[j].0 > t {
                let hit = match &self.read_marks[j].1 {
                    MarkRange::All => true,
                    MarkRange::Key(n2) => n2.eq_name(k),
                };
                if hit {
                    return true;
                }
            }
            j = j + 1;
        }
        false
    }

    /// The outcome of `create_dir(t, k)` (see [`Dir::create_dir`]).
    pub open spec fn create_dir_post(pre: Dir, post: Dir, t: u64, k: Seq<char>, r: Result<
        (),
    >) -> bool {
        if pre.outdated(t) {
            post == pre && (r matches Err(e) && e == Error::Outdated)
        } else if pre.lock_committed(t) {
            post == pre && (r matches Err(e) && e == Error::Conflict)
        } else if pre.write_blocked(t, k) {
            post == pre && (r matches Err(e) && e == Error::Conflict)
        } else if pre.vis(t, k) is Some {
            post == pre && (r matches Err(e) && e == Error::AlreadyExists)
        } else {
            &&& r is Ok
            &&& post.vis(t, k) matches Some(e) && e matches DirEntry::Dir(child) && fresh_dir(
                child,
                t,
            )
            &&& forall|t2: u64, k2: Seq<char>|
                !(t2 == t && k2 == k) ==> post.vis(t2, k2) == pre.vis(t2, k2)
            &&& post.canon == pre.canon
            &&& post.deltas == pre.deltas
            &&& post.commits == pre.commits
            &&& post.finalized_at == pre.finalized_at
            &&& post.read_marks == pre.read_marks
            &&& key_mark_pushed(pre.write_marks@, post.write_marks@, t, k)
            &&& name_views(post.disk_removed@) == keys_removed(name_views(pre.disk_removed@), k)
            &&& post.txfs == pre.txfs
            &&& post.on_disk == pre.on_disk
        }
    }

    /// Create a new empty sub-directory named `name` at `txn_id`.
    ///
    /// The slot is reserved for writing by `txn_id`; the new directory's
    /// canonical directory is created on disk at once, while the map entry
    /// stays pending until commit. Fails with `AlreadyExists` when an entry
    /// is visible under that name, and with `Conflict` when the slot is
    /// reserved by another transaction or `txn_id` has already committed.
    pub fn create_dir(&mut self, txn_id: u64, name: &Name) -> (r: Result<()>)
        requires
            old(self).wf(),
            name.wf(),
        ensures
            final(self).wf(),
            Dir::create_dir_post(*old(self), *final(self), txn_id, name@, r),
    {
        match self.finalized_at {
            Some(f) => {
                if f > txn_id {
                    return Err(Error::Outdated);
                }
            },
            None => {},
        }
        if contains_txn(&self.commits, txn_id) {
            return Err(Error::Conflict);
        }
        if self.write_blocked_exec(txn_id, name) {
            return Err(Error::Conflict);
        }
        match self.locate(txn_id, name) {
            Loc::Absent => {},
            _ => {
                return Err(Error::AlreadyExists);
            },
        }
        let mut child_pending: Vec<(u64, Delta)> = Vec::new();
        child_pending.push((txn_id, Vec::new()));
        let mut child_marks: Vec<(u64, MarkRange)> = Vec::new();
        child_marks.push((txn_id, MarkRange::All));
        let child = Dir {
            canon: Vec::new(),
            deltas: Vec::new(),
            commits: Vec::new(),
            pending: child_pending,
            finalized_at: None,
            read_marks: Vec::new(),
            write_marks: child_marks,
            disk_removed: Vec::new(),
            stray: Vec::new(),
            txfs: true,
            on_disk: true,
        };
        self.write_marks.push((txn_id, MarkRange::Key(name.duplicate())));
        proof {
            assert(self.write_marks@.subrange(0, old(self).write_marks@.len() as int)
                =~= old(self).write_marks@);
        }
        remove_name(&mut self.disk_removed, name);
        proof {
            assert(child.wf());
            assert(entry_wf(DirEntry::Dir(child)));
        }
        self.record_pending(txn_id, name, Some(DirEntry::Dir(child)));
        Ok(())
    }

    /// The outcome of `create_file(t, k, c)` (see [`Dir::create_file`]).
    pub open spec fn create_file_post(
        pre: Dir,
        post: Dir,
        t: u64,
        k: Seq<char>,
        c: Seq<u8>,
        r: Result<()>,
    ) -> bool {
        if pre.outdated(t) {
            post == pre && (r matches Err(e) && e == Error::Outdated)
        } else if pre.lock_committed(t) {
            post == pre && (r matches Err(e) && e == Error::Conflict)
        } else if pre.write_blocked(t, k) {
            post == pre && (r matches Err(e) && e == Error::Conflict)
        } else if pre.vis(t, k) is Some {
            post == pre && (r matches Err(e) && e == Error::AlreadyExists)
        } else {
            &&& r is Ok
            &&& post.vis(t, k) matches Some(e) && e matches DirEntry::File(f) && fresh_file(
                f,
                t,
                k,
                c,
            )
            &&& forall|t2: u64, k2: Seq<char>|
                !(t2 == t && k2 == k) ==> post.vis(t2, k2) == pre.vis(t2, k2)
            &&& post.canon == pre.canon
            &&& post.deltas == pre.deltas
            &&& post.commits == pre.commits
            &&& post.finalized_at == pre.finalized_at
            &&& post.read_marks == pre.read_marks
            &&& key_mark_pushed(pre.write_marks@, post.write_marks@, t, k)
            &&& post.disk_removed == pre.disk_removed
            &&& post.txfs == pre.txfs
            &&& post.on_disk == pre.on_disk
        }
    }

    /// Create a new file named `name` with `contents` at `txn_id`.
    ///
    /// The initial contents are written to the version file named `txn_id`
    /// under `.txfs/<name>/`; no canonical copy is written until commit.
    /// Fails with `AlreadyExists` when an entry is visible under that name,
    /// and with `Conflict` when the slot is reserved by another transaction
    /// or `txn_id` has already committed.
    pub fn create_file(&mut self, txn_id: u64, name: &Name, contents: Vec<u8>) -> (r: Result<()>)
        requires
            old(self).wf(),
            name.wf(),
        ensures
            final(self).wf(),
            Dir::create_file_post(*old(self), *final(self), txn_id, name@, contents@, r),
    {
        match self.finalized_at {
            Some(f) => {
                if f > txn_id {
                    return Err(Error::Outdated);
                }
            },
            None => {},
        }
        if contains_txn(&self.commits, txn_id) {
            return Err(Error::Conflict);
        }
        if self.write_blocked_exec(txn_id, name) {
            return Err(Error::Conflict);
        }
        match self.locate(txn_id, name) {
            Loc::Absent => {},
            _ => {
                return Err(Error::AlreadyExists);
            },
        }
        let file = File::create(txn_id, name.duplicate(), contents);
        self.write_marks.push((txn_id, MarkRange::Key(name.duplicate())));
        proof {
            assert(self.write_marks@.subrange(0, old(self).write_marks@.len() as int)
                =~= old(self).write_marks@);
        }
        self.record_pending(txn_id, name, Some(DirEntry::File(file)));
        Ok(())
    }
}

/// A freshly created transactional file, as `create_file` installs it at
/// `t` under key `k` with contents `c`.
pub open spec fn fresh_file(f: File, t: u64, k: Seq<char>, c: Seq<u8>) -> bool {
    &&& f.name@ == k
    &&& f.modified@ == seq![t]
    &&& f.commits@.len() == 0
    &&& f.pending is None
    &&& f.finalized_at is None
    &&& f.read_marks@.len() == 0
    &&& f.readers@.len() == 0
    &&& !f.writer
    &&& crate::file::versions_view(f.versions@) == seq![(t, c)]
    &&& f.version_dir
    &&& f.canon is None
}

proof fn lemma_names_deltas_snoc(ds: Seq<(u64, Delta)>, x: (u64, Delta), t: u64)
    ensures
        names_of_deltas_le(ds.push(x), t) == names_of_deltas_le(ds, t) + (if x.0 <= t {
            names_of_delta(x.1@)
        } else {
            Seq::<Seq<char>>::empty()
        }),
    decreases ds.len(),
{
    if ds.len() == 0 {
        assert(ds.push(x).drop_first() =~= Seq::<(u64, Delta)>::empty());
        assert(ds.push(x)[0] == x);
        assert(names_of_deltas_le(ds.push(x).drop_first(), t) =~= Seq::<Seq<char>>::empty());
        assert(names_of_deltas_le(ds, t) =~= Seq::<Seq<char>>::empty());
        if x.0 <= t {
            assert(names_of_deltas_le(ds.push(x), t) =~= names_of_delta(x.1@) + Seq::<
                Seq<char>,
            >::empty());
            assert(names_of_deltas_le(ds.push(x), t) =~= names_of_deltas_le(ds, t)
                + names_of_delta(x.1@));
        } else {
            assert(names_of_deltas_le(ds.push(x), t) =~= names_of_deltas_le(ds, t) + Seq::<
                Seq<char>,
            >::empty());
        }
    } else {
        assert(ds.push(x).drop_first() =~= ds.drop_first().push(x));
        assert(ds.push(x)[0] == ds[0]);
        lemma_names_deltas_snoc(ds.drop_first(), x, t);
        if x.0 <= t {
            assert(names_of_deltas_le(ds.push(x), t) =~= names_of_deltas_le(ds, t)
                + names_of_delta(x.1@));
        } else {
            assert(names_of_deltas_le(ds.push(x), t) =~= names_of_deltas_le(ds, t) + Seq::<
                Seq<char>,
            >::empty());
        }
    }
}

proof fn lemma_layer_get_member(s: Seq<(Name, Option<DirEntry>)>, k: Seq<char>)
    requires
        layer_get(s, k) is Some,
    ensures
        names_of_delta(s).contains(k),
    decreases s.len(),
{
    if s.len() > 0 {
        if s[0].0@ == k {
            assert(names_of_delta(s)[0] == k);
        } else {
            lemma_layer_get_member(s.drop_first(), k);
            let i = choose|i: int|
                0 <= i < names_of_delta(s.drop_first()).len() && names_of_delta(
                    s.drop_first(),
                )[i] == k;
            assert(names_of_delta(s)[i + 1] == k);
        }
    }
}

proof fn lemma_canon_get_member(s: Seq<(Name, DirEntry)>, k: Seq<char>)
    requires
        canon_get(s, k) is Some,
    ensures
        names_of_canon(s).contains(k),
    decreases s.len(),
{
    if s.len() > 0 {
        if s[0].0@ == k {
            assert(names_of_canon(s)[0] == k);
        } else {
            lemma_canon_get_member(s.drop_first(), k);
            let i = choose|i: int|
                0 <= i < names_of_canon(s.drop_first()).len() && names_of_canon(
                    s.drop_first(),
                )[i] == k;
            assert(names_of_canon(s)[i + 1] == k);
        }
    }
}

proof fn lemma_deltas_get_member(ds: Seq<(u64, Delta)>, t: u64, k: Seq<char>)
    requires
        deltas_get(ds, t, k) is Some,
    ensures
        names_of_deltas_le(ds, t).contains(k),
    decreases ds.len(),
{
    if ds.len() > 0 {
        assert(ds.drop_last().push(ds.last()) =~= ds);
        lemma_names_deltas_snoc(ds.drop_last(), ds.last(), t);
        if ds.last().0 <= t && layer_get(ds.last().1@, k) is Some {
            lemma_layer_get_member(ds.last().1@, k);
            let i = choose|i: int|
                0 <= i < names_of_delta(ds.last().1@).len() && names_of_delta(ds.last().1@)[i]
                    == k;
            assert(names_of_deltas_le(ds, t)[names_of_deltas_le(ds.drop_last(), t).len() + i]
                == k);
        } else {
            lemma_deltas_get_member(ds.drop_last(), t, k);
            let i = choose|i: int|
                0 <= i < names_of_deltas_le(ds.drop_last(), t).len() && names_of_deltas_le(
                    ds.drop_last(),
                    t,
                )[i] == k;
            assert(names_of_deltas_le(ds, t)[i] == k);
        }
    }
}

impl Dir {
    /// Every visible entry's key is a candidate.
    pub proof fn lemma_vis_in_candidates(self, t: u64, k: Seq<char>)
        requires
            self.vis(t, k) is Some,
        ensures
            self.candidates(t).contains(k),
    {
        let cands = self.candidates(t);
        let a = names_of_canon(self.canon@);
        let b = names_of_deltas_le(self.deltas@, t);
        match pending_layer(self.pending@, t) {
            Some(p) => {
                match layer_get(p@, k) {
                    Some(v) => {
                        lemma_layer_get_member(p@, k);
                        let i = choose|i: int|
                            0 <= i < names_of_delta(p@).len() && names_of_delta(p@)[i] == k;
                        assert(cands[a.len() + b.len() + i] == k);
                    },
                    None => {
                        self.lemma_vis_committed_in_candidates(t, k);
                    },
                }
            },
            None => {
                self.lemma_vis_committed_in_candidates(t, k);
            },
        }
    }

    proof fn lemma_vis_committed_in_candidates(self, t: u64, k: Seq<char>)
        requires
            self.vis_committed(t, k) is Some,
        ensures
            self.candidates(t).contains(k),
    {
        let cands = self.candidates(t);
        let a = names_of_canon(self.canon@);
        let b = names_of_deltas_le(self.deltas@, t);
        match deltas_get(self.deltas@, t, k) {
            Some(v) => {
                lemma_deltas_get_member(self.deltas@, t, k);
                let i = choose|i: int| 0 <= i < b.len() && b[i] == k;
                assert(cands[a.len() + i] == k);
            },
            None => {
                lemma_canon_get_member(self.canon@, k);
                let i = choose|i: int| 0 <= i < a.len() && a[i] == k;
                assert(cands[i] == k);
            },
        }
    }

    /// What an iteration of this directory at `t` yields: the distinct
    /// visible names, each with its entry.
    pub proof fn lemma_vis_names(self, t: u64)
        ensures
            forall|k: Seq<char>|
                self.vis_names(t).contains(k) <==> self.vis(t, k) is Some,
            forall|i: int, j: int|
                0 <= i < j < self.vis_names(t).len() ==> self.vis_names(t)[i] != self.vis_names(
                    t,
                )[j],
    {
        lemma_dedup_first(self.candidates(t));
        lemma_filter_vis(self, t, dedup_first(self.candidates(t)));
        assert forall|k: Seq<char>|
            self.vis(t, k) is Some implies self.vis_names(t).contains(k) by {
            self.lemma_vis_in_candidates(t, k);
            assert(dedup_first(self.candidates(t)).contains(k));
            assert(self.filter_vis(t, dedup_first(self.candidates(t))).contains(k));
        }
        assert forall|k: Seq<char>|
            self.vis_names(t).contains(k) implies self.vis(t, k) is Some by {
            let dd = dedup_first(self.candidates(t));
            lemma_filter_vis(self, t, dd);
            assert(self.vis_names(t) == self.filter_vis(t, dd));
            assert(self.filter_vis(t, dd).contains(k));
            assert(dd.contains(k) && self.vis(t, k) is Some);
        }
    }
}

fn names_contain(v: &Vec<Name>, k: &Name) -> (r: bool)
    ensures
        r == name_views(v@).contains(k@),
{
    let n = v.len();
    let mut i: usize = 0;
    while i < n
        invariant
            i <= n,
            n == v@.len(),
            forall|j: int| 0 <= j < i ==> v@[j]@ != k@,
        decreases n - i,
    {
        if v[i].eq_name(k) {
            proof {
                assert(name_views(v@)[i as int] == k@);
            }
            return true;
        }
        i = i + 1;
    }
    proof {
        if name_views(v@).contains(k@) {
            let j = choose|j: int| 0 <= j < name_views(v@).len() && name_views(v@)[j] == k@;
            assert(v@[j]@ == k@);
        }
    }
    false
}

impl Dir {
    /// Collect the candidate names of an iteration at `t`, in layer order.
    fn collect_candidates(&self, t: u64) -> (r: Vec<Name>)
        requires
            self.wf(),
        ensures
            name_views(r@) == self.candidates(t),
            forall|i: int| 0 <= i < r@.len() ==> (#[trigger] r@[i]).wf(),
    {
        let mut out: Vec<Name> = Vec::new();
        let n = self.canon.len();
        let mut i: usize = 0;
        proof {
            assert(name_views(out@) =~= names_of_canon(self.canon@.subrange(0, 0)));
        }
        while i < n
            invariant
                i <= n,
                n == self.canon@.len(),
                self.wf(),
                name_views(out@) == names_of_canon(self.canon@.subrange(0, i as int)),
                forall|a: int| 0 <= a < out@.len() ==> (#[trigger] out@[a]).wf(),
            decreases n - i,
        {
            let ghost out0 = out@;
            out.push(self.canon[i].0.duplicate());
            proof {
                assert(out@ == out0.push(out@.last()));
                assert(forall|a: int| 0 <= a < out0.len() ==> out@[a] == out0[a]);
                assert(name_views(out@) =~= name_views(out0).push(out@.last()@));
                assert(name_views(out@) =~= names_of_canon(self.canon@.subrange(0, i + 1)));
            }
            i = i + 1;
        }
        proof {
            assert(self.canon@.subrange(0, n as int) =~= self.canon@);
        }
        let dn = self.deltas.len();
        let mut di: usize = 0;
        proof {
            assert(names_of_deltas_le(self.deltas@.subrange(0, 0), t) =~= Seq::<
                Seq<char>,
            >::empty());
            assert(name_views(out@) =~= names_of_canon(self.canon@) + names_of_deltas_le(
                self.deltas@.subrange(0, 0),
                t,
            ));
        }
        while di < dn
            invariant
                di <= dn,
                dn == self.deltas@.len(),
                self.wf(),
                name_views(out@) == names_of_canon(self.canon@) + names_of_deltas_le(
                    self.deltas@.subrange(0, di as int),
                    t,
                ),
                forall|a: int| 0 <= a < out@.len() ==> (#[trigger] out@[a]).wf(),
            decreases dn - di,
        {
            proof {
                assert(self.deltas@.subrange(0, di as int).push(self.deltas@[di as int])
                    =~= self.deltas@.subrange(0, di + 1));
                lemma_names_deltas_snoc(
                    self.deltas@.subrange(0, di as int),
                    self.deltas@[di as int],
                    t,
                );
            }
            if self.deltas[di].0 <= t {
                let (_, layer) = (self.deltas[di].0, ());
                let ln = self.deltas[di].1.len();
                let mut li: usize = 0;
                let ghost base = name_views(out@);
                while li < ln
                    invariant
                        li <= ln,
                        di < dn == self.deltas@.len(),
                        ln == self.deltas@[di as int].1@.len(),
                        self.wf(),
                        self.deltas@[di as int].0 <= t,
                        name_views(out@) == base + names_of_delta(
                            self.deltas@[di as int].1@.subrange(0, li as int),
                        ),
                        forall|a: int| 0 <= a < out@.len() ==> (#[trigger] out@[a]).wf(),
                    decreases ln - li,
                {
                    let ghost out0 = out@;
                    out.push(self.deltas[di].1[li].0.duplicate());
                    proof {
                        assert(out@ == out0.push(out@.last()));
                        assert(forall|a: int| 0 <= a < out0.len() ==> out@[a] == out0[a]);
                        assert(name_views(out@) =~= name_views(out0).push(out@.last()@));
                        assert(name_views(out@) =~= base + names_of_delta(
                            self.deltas@[di as int].1@.subrange(0, li + 1),
                        ));
                        lemma_delta_wf_pointwise_layer(self.deltas@, di as int);
                    }
                    li = li + 1;
                }
                proof {
                    assert(self.deltas@[di as int].1@.subrange(0, ln as int)
                        =~= self.deltas@[di as int].1@);
                    assert(name_views(out@) =~= names_of_canon(self.canon@) + names_of_deltas_le(
                        self.deltas@.subrange(0, di + 1),
                        t,
                    ));
                }
            } else {
                proof {
                    assert(name_views(out@) =~= names_of_canon(self.canon@) + names_of_deltas_le(
                        self.deltas@.subrange(0, di + 1),
                        t,
                    ));
                }
            }
            di = di + 1;
        }
        proof {
            assert(self.deltas@.subrange(0, dn as int) =~= self.deltas@);
        }
        match pending_index(&self.pending, t) {
            Some(pi) => {
                let ln = self.pending[pi].1.len();
                let mut li: usize = 0;
                let ghost base = name_views(out@);
                while li < ln
                    invariant
                        li <= ln,
                        pi < self.pending@.len(),
                        self.pending@[pi as int].0 == t,
                        ln == self.pending@[pi as int].1@.len(),
                        self.wf(),
                        name_views(out@) == base + names_of_delta(
                            self.pending@[pi as int].1@.subrange(0, li as int),
                        ),
                        forall|a: int| 0 <= a < out@.len() ==> (#[trigger] out@[a]).wf(),
                    decreases ln - li,
                {
                    let ghost out0 = out@;
                    out.push(self.pending[pi].1[li].0.duplicate());
                    proof {
                        assert(out@ == out0.push(out@.last()));
                        assert(forall|a: int| 0 <= a < out0.len() ==> out@[a] == out0[a]);
                        assert(name_views(out@) =~= name_views(out0).push(out@.last()@));
                        assert(name_views(out@) =~= base + names_of_delta(
                            self.pending@[pi as int].1@.subrange(0, li + 1),
                        ));
                        lemma_delta_wf_pointwise_layer(self.pending@, pi as int);
                    }
                    li = li + 1;
                }
                proof {
                    assert(self.pending@[pi as int].1@.subrange(0, ln as int)
                        =~= self.pending@[pi as int].1@);
                    assert(pending_layer(self.pending@, t) == Some(self.pending@[pi as int].1));
                    assert(name_views(out@) =~= self.candidates(t));
                }
            },
            None => {
                proof {
                    assert(name_views(out@) + Seq::<Seq<char>>::empty() =~= name_views(out@));
                    assert(name_views(out@) =~= self.candidates(t));
                }
            },
        }
        out
    }

    /// Collect the distinct visible names at `t`, in iteration order.
    fn visible_names(&self, t: u64) -> (r: Vec<Name>)
        requires
            self.wf(),
        ensures
            name_views(r@) == self.vis_names(t),
            forall|i: int| 0 <= i < r@.len() ==> (#[trigger] r@[i]).wf(),
    {
        let cands = self.collect_candidates(t);
        let n = cands.len();
        let mut ded: Vec<Name> = Vec::new();
        let mut i: usize = 0;
        proof {
            assert(name_views(cands@.subrange(0, 0)) =~= Seq::<Seq<char>>::empty());
            assert(name_views(ded@) =~= dedup_first(name_views(cands@.subrange(0, 0))));
        }
        while i < n
            invariant
                i <= n,
                n == cands@.len(),
                name_views(cands@) == self.candidates(t),
                forall|a: int| 0 <= a < cands@.len() ==> (#[trigger] cands@[a]).wf(),
                name_views(ded@) == dedup_first(name_views(cands@.subrange(0, i as int))),
                forall|a: int| 0 <= a < ded@.len() ==> (#[trigger] ded@[a]).wf(),
            decreases n - i,
        {
            proof {
                assert(name_views(cands@.subrange(0, i + 1)) =~= name_views(
                    cands@.subrange(0, i as int),
                ).push(cands@[i as int]@));
                assert(name_views(cands@.subrange(0, i + 1)).drop_last() =~= name_views(
                    cands@.subrange(0, i as int),
                ));
            }
            if !names_contain(&ded, &cands[i]) {
                ded.push(cands[i].duplicate());
                proof {
                    assert(name_views(ded@) =~= name_views(ded@.drop_last()).push(
                        ded@.last()@,
                    ));
                }
            }
            i = i + 1;
        }
        proof {
            assert(cands@.subrange(0, n as int) =~= cands@);
        }
        let dn = ded.len();
        let mut out: Vec<Name> = Vec::new();
        let mut j: usize = 0;
        proof {
            assert(name_views(ded@.subrange(0, 0)) =~= Seq::<Seq<char>>::empty());
            assert(name_views(out@) =~= self.filter_vis(t, name_views(ded@.subrange(0, 0))));
        }
        while j < dn
            invariant
                j <= dn,
                dn == ded@.len(),
                self.wf(),
                name_views(ded@) == dedup_first(self.candidates(t)),
                forall|a: int| 0 <= a < ded@.len() ==> (#[trigger] ded@[a]).wf(),
                name_views(out@) == self.filter_vis(t, name_views(ded@.subrange(0, j as int))),
                forall|a: int| 0 <= a < out@.len() ==> (#[trigger] out@[a]).wf(),
            decreases dn - j,
        {
            proof {
                assert(name_views(ded@.subrange(0, j + 1)) =~= name_views(
                    ded@.subrange(0, j as int),
                ).push(ded@[j as int]@));
                assert(name_views(ded@.subrange(0, j + 1)).drop_last() =~= name_views(
                    ded@.subrange(0, j as int),
                ));
            }
            let keep = match self.locate(t, &ded[j]) {
                Loc::Absent => false,
                _ => true,
            };
            if keep {
                out.push(ded[j].duplicate());
                proof {
                    assert(name_views(out@) =~= name_views(out@.drop_last()).push(
                        out@.last()@,
                    ));
                }
            }
            j = j + 1;
        }
        proof {
            assert(ded@.subrange(0, dn as int) =~= ded@);
        }
        out
    }
}

/// Every name of a well-formed layer stack's layer is a valid name.
proof fn lemma_delta_wf_pointwise_layer(ds: Seq<(u64, Delta)>, li: int)
    requires
        layers_wf(ds),
        0 <= li < ds.len(),
    ensures
        forall|a: int|
            0 <= a < ds[li].1@.len() ==> (#[trigger] ds[li].1@[a]).0.wf(),
{
    assert(delta_wf(ds[li].1@));
}

/// A hit at layer `li` with nothing above it decides the committed lookup.
proof fn lemma_deltas_get_from_hit(ds: Seq<(u64, Delta)>, t: u64, k: Seq<char>, li: int, v: Option<
    DirEntry,
>)
    requires
        0 <= li < ds.len(),
        ds[li].0 <= t,
        layer_get(ds[li].1@, k) == Some(v),
        no_delta_hit_above(ds, t, k, li),
    ensures
        deltas_get(ds, t, k) == Some(v),
    decreases ds.len(),
{
    if li == ds.len() - 1 {
        assert(ds.last() == ds[li]);
    } else {
        assert(ds.last().0 > t || layer_get(ds.last().1@, k) is None);
        assert(forall|j: int|
            0 <= j < ds.drop_last().len() ==> ds.drop_last()[j] == ds[j]);
        lemma_deltas_get_from_hit(ds.drop_last(), t, k, li, v);
    }
}

/// With no hit anywhere, the committed lookup misses.
proof fn lemma_deltas_get_no_hit(ds: Seq<(u64, Delta)>, t: u64, k: Seq<char>)
    requires
        no_delta_hit_above(ds, t, k, -1),
    ensures
        deltas_get(ds, t, k) is None,
    decreases ds.len(),
{
    if ds.len() > 0 {
        assert(ds.last().0 > t || layer_get(ds.last().1@, k) is None);
        assert(forall|j: int|
            0 <= j < ds.drop_last().len() ==> ds.drop_last()[j] == ds[j]);
        lemma_deltas_get_no_hit(ds.drop_last(), t, k);
    }
}

/// Two delta stacks that agree on ids and on the lookups of key `k` agree
/// on the committed lookup of `k`.
proof fn lemma_deltas_get_congruent(ds: Seq<(u64, Delta)>, ds2: Seq<(u64, Delta)>, t: u64, k: Seq<
    char,
>)
    requires
        ds2.len() == ds.len(),
        forall|j: int|
            0 <= j < ds.len() ==> (#[trigger] ds2[j]).0 == ds[j].0 && layer_get(ds2[j].1@, k)
                == layer_get(ds[j].1@, k),
    ensures
        deltas_get(ds2, t, k) == deltas_get(ds, t, k),
    decreases ds.len(),
{
    if ds.len() > 0 {
        assert(ds2.last().0 == ds.last().0 && layer_get(ds2.last().1@, k) == layer_get(
            ds.last().1@,
            k,
        ));
        assert(forall|j: int|
            0 <= j < ds.drop_last().len() ==> ds.drop_last()[j] == ds[j]
                && ds2.drop_last()[j] == ds2[j]);
        lemma_deltas_get_congruent(ds.drop_last(), ds2.drop_last(), t, k);
    }
}

/// Updating the canonical entry at index `i` (keeping the name's view)
/// changes only that key's lookup.
proof fn lemma_canon_update(s: Seq<(Name, DirEntry)>, i: int, rec: (Name, DirEntry), k2: Seq<char>)
    requires
        0 <= i < s.len(),
        unique_entry_names(s),
        rec.0@ == s[i].0@,
    ensures
        canon_get(s.update(i, rec), s[i].0@) == Some(rec.1),
        k2 != s[i].0@ ==> canon_get(s.update(i, rec), k2) == canon_get(s, k2),
        unique_entry_names(s.update(i, rec)),
    decreases s.len(),
{
    let s2 = s.update(i, rec);
    assert(forall|a: int| 0 <= a < s.len() ==> s2[a].0@ == s[a].0@);
    if i == 0 {
        assert(s2[0] == rec);
        if k2 != s[0].0@ {
            assert(s2.drop_first() =~= s.drop_first());
        }
    } else {
        assert(s2[0] == s[0]);
        assert(s[0].0@ != s[i].0@);
        assert(s2.drop_first() =~= s.drop_first().update(i - 1, rec));
        assert(s.drop_first()[i - 1] == s[i]);
        assert(forall|a: int, b: int|
            0 <= a < b < s.drop_first().len() ==> s.drop_first()[a] == s[a + 1]
                && s.drop_first()[b] == s[b + 1]);
        lemma_canon_update(s.drop_first(), i - 1, rec, k2);
    }
}

/// True if `post` is `pre` with the entry visible at `(t, k)` replaced by
/// `e2`, the lock and disk state untouched.
pub open spec fn entry_updated(pre: Dir, post: Dir, t: u64, k: Seq<char>, e2: DirEntry) -> bool {
    &&& post.canon@.len() == pre.canon@.len()
    &&& post.deltas@.len() == pre.deltas@.len()
    &&& post.pending@.len() == pre.pending@.len()
    &&& post.commits == pre.commits
    &&& post.finalized_at == pre.finalized_at
    &&& post.read_marks == pre.read_marks
    &&& post.write_marks == pre.write_marks
    &&& post.disk_removed == pre.disk_removed
    &&& post.stray == pre.stray
    &&& post.txfs == pre.txfs
    &&& post.on_disk == pre.on_disk
    &&& post.vis(t, k) == Some(e2)
    &&& forall|t2: u64, k2: Seq<char>| k2 != k ==> post.vis(t2, k2) == pre.vis(t2, k2)
}

/// True if `loc` names a present entry record for key `k` visible at `t`.
spec fn loc_valid(d: Dir, loc: Loc, t: u64, k: Seq<char>) -> bool {
    match loc {
        Loc::Pending(li, ei) => {
            &&& li < d.pending@.len() && ei < d.pending@[li as int].1@.len()
            &&& d.pending@[li as int].0 == t
            &&& d.pending@[li as int].1@[ei as int].0@ == k
            &&& d.pending@[li as int].1@[ei as int].1 is Some
        },
        Loc::Delta(li, ei) => {
            &&& li < d.deltas@.len() && ei < d.deltas@[li as int].1@.len()
            &&& d.deltas@[li as int].0 <= t
            &&& d.deltas@[li as int].1@[ei as int].0@ == k
            &&& d.deltas@[li as int].1@[ei as int].1 is Some
            &&& pending_miss(d.pending@, t, k)
            &&& no_delta_hit_above(d.deltas@, t, k, li as int)
            &&& layer_get(d.deltas@[li as int].1@, k) == Some(
                d.deltas@[li as int].1@[ei as int].1,
            )
        },
        Loc::Canon(i) => {
            &&& i < d.canon@.len()
            &&& d.canon@[i as int].0@ == k
            &&& pending_miss(d.pending@, t, k)
            &&& no_delta_hit_above(d.deltas@, t, k, -1)
            &&& canon_get(d.canon@, k) == Some(d.canon@[i as int].1)
        },
        Loc::Absent => false,
    }
}

impl Dir {
    /// Replace the entry visible at `(t, k)` (located at `loc`) by `e2`,
    /// returning the entry it replaced.
    #[verifier::rlimit(60)]
    fn swap_at(&mut self, loc: Loc, t: u64, k: &Name, e2: DirEntry) -> (r: DirEntry)
        requires
            old(self).wf(),
            entry_wf(e2),
            loc_valid(*old(self), loc, t, k@),
        ensures
            final(self).wf(),
            entry_updated(*old(self), *final(self), t, k@, e2),
            old(self).vis(t, k@) == Some(r),
            loc_valid(*final(self), loc, t, k@),
            entry_wf(r),
            final(self).height() + entry_height(r) == old(self).height() + entry_height(e2),
            loc is Pending ==> final(self).deltas == old(self).deltas && final(self).canon == old(
                self,
            ).canon,
            loc is Delta ==> final(self).pending == old(self).pending && final(self).canon == old(
                self,
            ).canon,
            loc is Canon ==> final(self).pending == old(self).pending && final(self).deltas == old(
                self,
            ).deltas,
            forall|t2: u64, k2: Seq<char>|
                k2 != k@ ==> pending_dropped_file(*final(self), t2, k2) == pending_dropped_file(
                    *old(self),
                    t2,
                    k2,
                ),
    {
        let ghost pre = *self;
        match loc {
            Loc::Pending(li, ei) => {
                let (txn, mut inner) = self.pending.remove(li);
                let ghost inner0 = inner@;
                let (nm, rec_old) = inner.remove(ei);
                inner.insert(ei, (nm, Some(e2)));
                proof {
                    lemma_layers_height_remove(pre.pending@, li as int);
                    lemma_delta_height_remove(inner0, ei as int);
                    lemma_delta_height_insert(inner0.remove(ei as int), ei as int, inner@[
                        ei as int
                    ]);
                    assert(inner@ =~= inner0.remove(ei as int).insert(ei as int, inner@[
                        ei as int
                    ]));
                    assert(inner@ =~= inner0.update(ei as int, inner@[ei as int]));
                    lemma_layer_update(inner0, ei as int, inner@[ei as int], k@);
                    assert forall|k2: Seq<char>| k2 != k@ implies layer_get(inner@, k2)
                        == layer_get(inner0, k2) by {
                        lemma_layer_update(inner0, ei as int, inner@[ei as int], k2);
                    }
                    lemma_delta_wf_pointwise(inner0);
                    lemma_delta_wf_from_pointwise2(inner0, inner@, ei as int, e2);
                    lemma_pending_at(pre.pending@, li as int);
                    lemma_layer_at(inner0, ei as int);
                    assert(pre.vis(t, k@) == inner0[ei as int].1);
                }
                self.pending.insert(li, (txn, inner));
                proof {
                    lemma_layers_height_insert(
                        pre.pending@.remove(li as int),
                        li as int,
                        self.pending@[li as int],
                    );
                    assert(self.pending@ =~= pre.pending@.remove(li as int).insert(
                        li as int,
                        self.pending@[li as int],
                    ));
                    assert(self.pending@ =~= pre.pending@.update(
                        li as int,
                        (txn, self.pending@[li as int].1),
                    ));
                    lemma_pending_update(pre.pending@, li as int, self.pending@[li as int].1, t);
                    lemma_layers_wf_update(pre.pending@, self.pending@, li as int);
                    assert(layer_get(self.pending@[li as int].1@, k@) == Some(Some(e2)));
                    assert forall|t2: u64, k2: Seq<char>| k2 != k@ implies final(self).vis(
                        t2,
                        k2,
                    ) == pre.vis(t2, k2) by {
                        if t2 == t {
                            assert(pending_layer(pre.pending@, t) == Some(
                                pre.pending@[li as int].1,
                            ));
                            assert(pending_layer(self.pending@, t) == Some(
                                self.pending@[li as int].1,
                            ));
                            assert(layer_get(self.pending@[li as int].1@, k2) == layer_get(
                                pre.pending@[li as int].1@,
                                k2,
                            ));
                        } else {
                            lemma_pending_update(
                                pre.pending@,
                                li as int,
                                self.pending@[li as int].1,
                                t2,
                            );
                        }
                    }
                    assert forall|t2: u64, k2: Seq<char>| k2 != k@ implies pending_dropped_file(
                        *final(self),
                        t2,
                        k2,
                    ) == pending_dropped_file(pre, t2, k2) by {
                        if t2 == t {
                            assert(pending_layer(pre.pending@, t) == Some(
                                pre.pending@[li as int].1,
                            ));
                            assert(pending_layer(self.pending@, t) == Some(
                                self.pending@[li as int].1,
                            ));
                            assert(layer_get(self.pending@[li as int].1@, k2) == layer_get(
                                pre.pending@[li as int].1@,
                                k2,
                            ));
                        } else {
                            lemma_pending_update(
                                pre.pending@,
                                li as int,
                                self.pending@[li as int].1,
                                t2,
                            );
                        }
                    }
                }
                match rec_old {
                    Some(e) => e,
                    None => vstd::pervasive::unreached(),
                }
            },
            Loc::Delta(li, ei) => {
                let (txn, mut inner) = self.deltas.remove(li);
                let ghost inner0 = inner@;
                let (nm, rec_old) = inner.remove(ei);
                inner.insert(ei, (nm, Some(e2)));
                proof {
                    lemma_layers_height_remove(pre.deltas@, li as int);
                    lemma_delta_height_remove(inner0, ei as int);
                    lemma_delta_height_insert(inner0.remove(ei as int), ei as int, inner@[
                        ei as int
                    ]);
                    assert(inner@ =~= inner0.remove(ei as int).insert(ei as int, inner@[
                        ei as int
                    ]));
                    assert(inner@ =~= inner0.update(ei as int, inner@[ei as int]));
                    lemma_layer_update(inner0, ei as int, inner@[ei as int], k@);
                    assert forall|k2: Seq<char>| k2 != k@ implies layer_get(inner@, k2)
                        == layer_get(inner0, k2) by {
                        lemma_layer_update(inner0, ei as int, inner@[ei as int], k2);
                    }
                    lemma_delta_wf_pointwise(inner0);
                    lemma_delta_wf_from_pointwise2(inner0, inner@, ei as int, e2);
                    lemma_deltas_get_from_hit(
                        pre.deltas@,
                        t,
                        k@,
                        li as int,
                        inner0[ei as int].1,
                    );
                    assert(pre.vis(t, k@) == inner0[ei as int].1);
                }
                self.deltas.insert(li, (txn, inner));
                proof {
                    lemma_layers_height_insert(
                        pre.deltas@.remove(li as int),
                        li as int,
                        self.deltas@[li as int],
                    );
                    assert(self.deltas@ =~= pre.deltas@.remove(li as int).insert(
                        li as int,
                        self.deltas@[li as int],
                    ));
                    assert(self.deltas@ =~= pre.deltas@.update(
                        li as int,
                        (txn, self.deltas@[li as int].1),
                    ));
                    lemma_layers_wf_update(pre.deltas@, self.deltas@, li as int);
                    assert(no_delta_hit_above(self.deltas@, t, k@, li as int)) by {
                        assert(forall|j: int|
                            li < j < self.deltas@.len() ==> self.deltas@[j] == pre.deltas@[j]);
                    }
                    lemma_deltas_get_from_hit(self.deltas@, t, k@, li as int, Some(e2));
                    assert(final(self).vis(t, k@) == Some(e2));
                    assert forall|t2: u64, k2: Seq<char>| k2 != k@ implies final(self).vis(
                        t2,
                        k2,
                    ) == pre.vis(t2, k2) by {
                        lemma_deltas_get_congruent(pre.deltas@, self.deltas@, t2, k2);
                    }
                }
                match rec_old {
                    Some(e) => e,
                    None => vstd::pervasive::unreached(),
                }
            },
            Loc::Canon(ci) => {
                let (nm, e_old) = self.canon.remove(ci);
                self.canon.insert(ci, (nm, e2));
                proof {
                    lemma_centries_height_remove(pre.canon@, ci as int);
                    lemma_centries_height_insert(pre.canon@.remove(ci as int), ci as int, self.canon@[
                        ci as int
                    ]);
                    assert(self.canon@ =~= pre.canon@.remove(ci as int).insert(
                        ci as int,
                        self.canon@[ci as int],
                    ));
                    assert(self.canon@ =~= pre.canon@.update(ci as int, self.canon@[ci as int]));
                    lemma_canon_update(pre.canon@, ci as int, self.canon@[ci as int], k@);
                    lemma_deltas_get_no_hit(self.deltas@, t, k@);
                    assert(final(self).vis(t, k@) == Some(e2));
                    assert forall|t2: u64, k2: Seq<char>| k2 != k@ implies final(self).vis(
                        t2,
                        k2,
                    ) == pre.vis(t2, k2) by {
                        lemma_canon_update(pre.canon@, ci as int, self.canon@[ci as int], k2);
                    }
                    assert(entries_wf(self.canon@)) by {
                        assert(forall|a: int|
                            0 <= a < pre.canon@.len() && a != ci ==> self.canon@[a]
                                == pre.canon@[a]);
                        assert(self.canon@[ci as int].0.wf() && entry_wf(
                            self.canon@[ci as int].1,
                        ));
                    }
                    assert(pre.vis(t, k@) == Some(e_old));
                }
                e_old
            },
            Loc::Absent => vstd::pervasive::unreached(),
        }
    }
}

/// With distinct names, the record at index `ei` is what a lookup of its
/// name finds.
proof fn lemma_layer_at(s: Seq<(Name, Option<DirEntry>)>, ei: int)
    requires
        unique_delta_names(s),
        0 <= ei < s.len(),
    ensures
        layer_get(s, s[ei].0@) == Some(s[ei].1),
    decreases ei,
{
    if ei > 0 {
        assert(s[0].0@ != s[ei].0@);
        assert(s.drop_first()[ei - 1] == s[ei]);
        assert(forall|a: int, b: int|
            0 <= a < b < s.drop_first().len() ==> s.drop_first()[a] == s[a + 1]
                && s.drop_first()[b] == s[b + 1]);
        lemma_layer_at(s.drop_first(), ei - 1);
    }
}

/// Pointwise well-formedness carries over an update by a well-formed entry.
proof fn lemma_delta_wf_from_pointwise2(
    pre: Seq<(Name, Option<DirEntry>)>,
    post: Seq<(Name, Option<DirEntry>)>,
    ei: int,
    e2: DirEntry,
)
    requires
        forall|i: int|
            0 <= i < pre.len() ==> (#[trigger] pre[i].0).wf() && (match pre[i].1 {
                Some(e) => entry_wf(e),
                None => true,
            }),
        post.len() == pre.len(),
        0 <= ei < pre.len(),
        forall|i: int| 0 <= i < pre.len() && i != ei ==> post[i] == pre[i],
        post[ei].0.wf(),
        post[ei].1 == Some(e2),
        entry_wf(e2),
    ensures
        delta_wf(post),
{
    assert(forall|i: int|
        0 <= i < post.len() ==> (#[trigger] post[i].0).wf() && (match post[i].1 {
            Some(e) => entry_wf(e),
            None => true,
        }));
}

/// With distinct layer transactions, the layer at index `li` is the one a
/// lookup of its transaction finds.
proof fn lemma_pending_at(ps: Seq<(u64, Delta)>, li: int)
    requires
        unique_layer_txns(ps),
        0 <= li < ps.len(),
    ensures
        pending_layer(ps, ps[li].0) == Some(ps[li].1),
    decreases li,
{
    if li > 0 {
        assert(ps[0].0 != ps[li].0);
        assert(ps.drop_first()[li - 1] == ps[li]);
        assert(forall|a: int, b: int|
            0 <= a < b < ps.drop_first().len() ==> ps.drop_first()[a] == ps[a + 1]
                && ps.drop_first()[b] == ps[b + 1]);
        lemma_pending_at(ps.drop_first(), li - 1);
    }
}

/// True if `post` is `pre` with (at most) the read reservations extended by
/// one key reservation: none when `t` had already committed, one on `k`
/// otherwise.
pub open spec fn read_lock_taken(pre: Dir, post: Dir, t: u64, k: Seq<char>) -> bool {
    if pre.lock_committed(t) {
        post.read_marks == pre.read_marks
    } else {
        key_mark_pushed(pre.read_marks@, post.read_marks@, t, k)
    }
}

/// True if `pre` and `post` agree on the lock bookkeeping other than read
/// reservations, and on every entry except (possibly) the one under `k`.
pub open spec fn entries_stable_except(pre: Dir, post: Dir, k: Seq<char>) -> bool {
    &&& post.commits == pre.commits
    &&& post.pending@.len() == pre.pending@.len()
    &&& post.deltas@.len() == pre.deltas@.len()
    &&& post.finalized_at == pre.finalized_at
    &&& post.write_marks == pre.write_marks
    &&& post.disk_removed == pre.disk_removed
    &&& post.stray == pre.stray
    &&& post.txfs == pre.txfs
    &&& post.on_disk == pre.on_disk
    &&& forall|t2: u64, k2: Seq<char>| k2 != k ==> post.vis(t2, k2) == pre.vis(t2, k2)
}

impl Dir {
    /// The outcome of `read_file(t, k)` (see [`Dir::read_file`]).
    pub open spec fn read_file_post(pre: Dir, post: Dir, t: u64, k: Seq<char>, r: Result<
        FileVersionRead,
    >) -> bool {
        if pre.outdated(t) {
            post == pre && (r matches Err(e) && e == Error::Outdated)
        } else if !pre.lock_committed(t) && pre.read_blocked(t, k) {
            post == pre && (r matches Err(e) && e == Error::Conflict)
        } else {
            &&& entries_stable_except(pre, post, k)
            &&& read_lock_taken(pre, post, t, k)
            &&& match pre.vis(t, k) {
                None => post.vis(t, k) == pre.vis(t, k) && (r matches Err(e) && e
                    == Error::NotFound),
                Some(e0) => if e0 is Dir {
                    &&& post.vis(t, k) == pre.vis(t, k)
                    &&& r matches Err(err) && err == Error::InvalidData
                } else {
                    exists|f2: File|
                        {
                            &&& #[trigger] File::read_post(e0->File_0, f2, t, r)
                            &&& post.vis(t, k) == Some(DirEntry::File(f2))
                        }
                },
            }
        }
    }

    /// Lock a file of this directory for reading at `txn_id`: the
    /// convenience composition of a map lookup and [`File::read`].
    ///
    /// Fails with `NotFound` when no entry is visible, `InvalidData` when
    /// the entry is a sub-directory, and otherwise by the rules of
    /// [`File::read`].
    pub fn read_file(&mut self, txn_id: u64, name: &Name) -> (r: Result<FileVersionRead>)
        requires
            old(self).wf(),
            name.wf(),
        ensures
            final(self).wf(),
            Dir::read_file_post(*old(self), *final(self), txn_id, name@, r),
    {
        match self.finalized_at {
            Some(f) => {
                if f > txn_id {
                    return Err(Error::Outdated);
                }
            },
            None => {},
        }
        let committed = contains_txn(&self.commits, txn_id);
        if !committed {
            if self.read_blocked_exec(txn_id, name) {
                return Err(Error::Conflict);
            }
            self.read_marks.push((txn_id, MarkRange::Key(name.duplicate())));
            proof {
                assert(self.read_marks@.subrange(0, old(self).read_marks@.len() as int)
                    =~= old(self).read_marks@);
            }
        } else {
            proof {
                lemma_committed_no_pending(*self, txn_id);
            }
        }
        let loc = self.locate(txn_id, name);
        match loc {
            Loc::Absent => {
                return Err(Error::NotFound);
            },
            _ => {},
        }
        let dummy = DirEntry::File(File::create(txn_id, name.duplicate(), Vec::new()));
        let e = self.swap_at(loc, txn_id, name, dummy);
        match e {
            DirEntry::Dir(d) => {
                self.swap_at(loc, txn_id, name, DirEntry::Dir(d));
                Err(Error::InvalidData)
            },
            DirEntry::File(mut f) => {
                let ghost f0 = f;
                let r = f.read(txn_id);
                proof {
                    assert(entry_wf(DirEntry::File(f)));
                }
                self.swap_at(loc, txn_id, name, DirEntry::File(f));
                proof {
                    assert(File::read_post(f0, f, txn_id, r));
                }
                r
            },
        }
    }

    /// The outcome of `write_file(t, k)` (see [`Dir::write_file`]).
    pub open spec fn write_file_post(pre: Dir, post: Dir, t: u64, k: Seq<char>, r: Result<
        FileVersionWrite,
    >) -> bool {
        if pre.outdated(t) {
            post == pre && (r matches Err(e) && e == Error::Outdated)
        } else if !pre.lock_committed(t) && pre.read_blocked(t, k) {
            post == pre && (r matches Err(e) && e == Error::Conflict)
        } else {
            &&& entries_stable_except(pre, post, k)
            &&& read_lock_taken(pre, post, t, k)
            &&& match pre.vis(t, k) {
                None => post.vis(t, k) == pre.vis(t, k) && (r matches Err(e) && e
                    == Error::NotFound),
                Some(e0) => if e0 is Dir {
                    &&& post.vis(t, k) == pre.vis(t, k)
                    &&& r matches Err(err) && err == Error::InvalidData
                } else {
                    exists|f2: File|
                        {
                            &&& #[trigger] File::write_post(e0->File_0, f2, t, r)
                            &&& post.vis(t, k) == Some(DirEntry::File(f2))
                        }
                },
            }
        }
    }

    /// Lock a file of this directory for writing at `txn_id`: the
    /// convenience composition of a map lookup and [`File::write`].
    pub fn write_file(&mut self, txn_id: u64, name: &Name) -> (r: Result<FileVersionWrite>)
        requires
            old(self).wf(),
            name.wf(),
        ensures
            final(self).wf(),
            Dir::write_file_post(*old(self), *final(self), txn_id, name@, r),
    {
        match self.finalized_at {
            Some(f) => {
                if f > txn_id {
                    return Err(Error::Outdated);
                }
            },
            None => {},
        }
        let committed = contains_txn(&self.commits, txn_id);
        if !committed {
            if self.read_blocked_exec(txn_id, name) {
                return Err(Error::Conflict);
            }
            self.read_marks.push((txn_id, MarkRange::Key(name.duplicate())));
            proof {
                assert(self.read_marks@.subrange(0, old(self).read_marks@.len() as int)
                    =~= old(self).read_marks@);
            }
        } else {
            proof {
                lemma_committed_no_pending(*self, txn_id);
            }
        }
        let loc = self.locate(txn_id, name);
        match loc {
            Loc::Absent => {
                return Err(Error::NotFound);
            },
            _ => {},
        }
        let dummy = DirEntry::File(File::create(txn_id, name.duplicate(), Vec::new()));
        let e = self.swap_at(loc, txn_id, name, dummy);
        match e {
            DirEntry::Dir(d) => {
                self.swap_at(loc, txn_id, name, DirEntry::Dir(d));
                Err(Error::InvalidData)
            },
            DirEntry::File(mut f) => {
                let ghost f0 = f;
                let r = f.write(txn_id);
                proof {
                    assert(entry_wf(DirEntry::File(f)));
                }
                self.swap_at(loc, txn_id, name, DirEntry::File(f));
                proof {
                    assert(File::write_post(f0, f, txn_id, r));
                }
                r
            },
        }
    }

    /// The outcome of handing a file guard back (see
    /// [`Dir::release_file_read`] and [`Dir::release_file_write`]): the
    /// file's own release ran on the entry visible at the guard's
    /// transaction.
    pub open spec fn release_read_at_post(pre: Dir, post: Dir, k: Seq<char>, g: FileVersionRead, r: Result<
        (),
    >) -> bool {
        let t = g.txn_id;
        match pre.vis(t, k) {
            None => post == pre && (r matches Err(e) && e == Error::NotFound),
            Some(e0) => if e0 is Dir {
                &&& entries_stable_except(pre, post, k)
                &&& post.vis(t, k) == pre.vis(t, k)
                &&& post.read_marks == pre.read_marks
                &&& r matches Err(err) && err == Error::InvalidData
            } else {
                &&& r is Ok
                &&& entries_stable_except(pre, post, k)
                &&& post.read_marks == pre.read_marks
                &&& exists|f2: File|
                    {
                        &&& #[trigger] File::release_read_post(e0->File_0, f2, g)
                        &&& post.vis(t, k) == Some(DirEntry::File(f2))
                    }
            },
        }
    }

    /// Hand back a read guard on a file of this directory, releasing the
    /// read lock it holds.
    pub fn release_file_read(&mut self, name: &Name, guard: FileVersionRead) -> (r: Result<()>)
        requires
            old(self).wf(),
            name.wf(),
        ensures
            final(self).wf(),
            Dir::release_read_at_post(*old(self), *final(self), name@, guard, r),
    {
        let txn_id = guard.txn_id;
        let loc = self.locate(txn_id, name);
        match loc {
            Loc::Absent => {
                return Err(Error::NotFound);
            },
            _ => {},
        }
        let dummy = DirEntry::File(File::create(txn_id, name.duplicate(), Vec::new()));
        let e = self.swap_at(loc, txn_id, name, dummy);
        match e {
            DirEntry::Dir(d) => {
                self.swap_at(loc, txn_id, name, DirEntry::Dir(d));
                Err(Error::InvalidData)
            },
            DirEntry::File(mut f) => {
                let ghost f0 = f;
                f.release_read(guard);
                proof {
                    assert(entry_wf(DirEntry::File(f)));
                }
                self.swap_at(loc, txn_id, name, DirEntry::File(f));
                Ok(())
            },
        }
    }

    /// The outcome of handing a write guard back (see
    /// [`Dir::release_file_write`]).
    pub open spec fn release_write_at_post(
        pre: Dir,
        post: Dir,
        k: Seq<char>,
        g: FileVersionWrite,
        r: Result<()>,
    ) -> bool {
        let t = g.txn_id;
        match pre.vis(t, k) {
            None => post == pre && (r matches Err(e) && e == Error::NotFound),
            Some(e0) => if e0 is Dir {
                &&& entries_stable_except(pre, post, k)
                &&& post.vis(t, k) == pre.vis(t, k)
                &&& post.read_marks == pre.read_marks
                &&& r matches Err(err) && err == Error::InvalidData
            } else {
                &&& r is Ok
                &&& entries_stable_except(pre, post, k)
                &&& post.read_marks == pre.read_marks
                &&& exists|f2: File|
                    {
                        &&& #[trigger] File::release_write_post(e0->File_0, f2, g)
                        &&& post.vis(t, k) == Some(DirEntry::File(f2))
                    }
            },
        }
    }

    /// Hand back a write guard on a file of this directory: store its bytes
    /// into the version file and release the write lock.
    pub fn release_file_write(&mut self, name: &Name, guard: FileVersionWrite) -> (r: Result<()>)
        requires
            old(self).wf(),
            name.wf(),
        ensures
            final(self).wf(),
            Dir::release_write_at_post(*old(self), *final(self), name@, guard, r),
    {
        let txn_id = guard.txn_id;
        let loc = self.locate(txn_id, name);
        match loc {
            Loc::Absent => {
                return Err(Error::NotFound);
            },
            _ => {},
        }
        let dummy = DirEntry::File(File::create(txn_id, name.duplicate(), Vec::new()));
        let e = self.swap_at(loc, txn_id, name, dummy);
        match e {
            DirEntry::Dir(d) => {
                self.swap_at(loc, txn_id, name, DirEntry::Dir(d));
                Err(Error::InvalidData)
            },
            DirEntry::File(mut f) => {
                let ghost f0 = f;
                f.release_write(guard);
                proof {
                    assert(entry_wf(DirEntry::File(f)));
                }
                self.swap_at(loc, txn_id, name, DirEntry::File(f));
                Ok(())
            },
        }
    }
}

/// The height contribution of one optional entry.
pub open spec fn rec_height(rec: Option<DirEntry>) -> nat {
    match rec {
        Some(e) => entry_height(e),
        None => 0,
    }
}

proof fn lemma_delta_height_update(s: Seq<(Name, Option<DirEntry>)>, ei: int, rec: (Name, Option<
    DirEntry,
>))
    requires
        0 <= ei < s.len(),
    ensures
        delta_height(s.update(ei, rec)) + rec_height(s[ei].1) == delta_height(s) + rec_height(
            rec.1,
        ),
    decreases s.len(),
{
    let s2 = s.update(ei, rec);
    if ei == 0 {
        assert(s2[0] == rec);
        assert(s2.drop_first() =~= s.drop_first());
    } else {
        assert(s2[0] == s[0]);
        assert(s2.drop_first() =~= s.drop_first().update(ei - 1, rec));
        assert(s.drop_first()[ei - 1] == s[ei]);
        lemma_delta_height_update(s.drop_first(), ei - 1, rec);
    }
}

proof fn lemma_delta_height_push(s: Seq<(Name, Option<DirEntry>)>, rec: (Name, Option<DirEntry>))
    ensures
        delta_height(s.push(rec)) == delta_height(s) + rec_height(rec.1),
    decreases s.len(),
{
    if s.len() == 0 {
        assert(s.push(rec)[0] == rec);
        assert(s.push(rec).drop_first() =~= Seq::<(Name, Option<DirEntry>)>::empty());
        assert(delta_height(s.push(rec).drop_first()) == 0);
        assert(delta_height(s) == 0);
    } else {
        assert(s.push(rec)[0] == s[0]);
        assert(s.push(rec).drop_first() =~= s.drop_first().push(rec));
        lemma_delta_height_push(s.drop_first(), rec);
    }
}

proof fn lemma_delta_height_remove(s: Seq<(Name, Option<DirEntry>)>, ei: int)
    requires
        0 <= ei < s.len(),
    ensures
        delta_height(s.remove(ei)) + rec_height(s[ei].1) == delta_height(s),
    decreases s.len(),
{
    let s2 = s.remove(ei);
    if ei == 0 {
        assert(s2 =~= s.drop_first());
    } else {
        assert(s2[0] == s[0]);
        assert(s2.drop_first() =~= s.drop_first().remove(ei - 1));
        assert(s.drop_first()[ei - 1] == s[ei]);
        lemma_delta_height_remove(s.drop_first(), ei - 1);
    }
}

proof fn lemma_delta_height_insert(s: Seq<(Name, Option<DirEntry>)>, ei: int, rec: (Name, Option<
    DirEntry,
>))
    requires
        0 <= ei <= s.len(),
    ensures
        delta_height(s.insert(ei, rec)) == delta_height(s) + rec_height(rec.1),
    decreases s.len(),
{
    let s2 = s.insert(ei, rec);
    if ei == 0 {
        assert(s2[0] == rec);
        assert(s2.drop_first() =~= s);
    } else {
        assert(s2[0] == s[0]);
        assert(s2.drop_first() =~= s.drop_first().insert(ei - 1, rec));
        lemma_delta_height_insert(s.drop_first(), ei - 1, rec);
    }
}

proof fn lemma_layers_height_update(ds: Seq<(u64, Delta)>, li: int, x: (u64, Delta))
    requires
        0 <= li < ds.len(),
    ensures
        layers_height(ds.update(li, x)) + delta_height(ds[li].1@) == layers_height(ds)
            + delta_height(x.1@),
    decreases ds.len(),
{
    let ds2 = ds.update(li, x);
    if li == 0 {
        assert(ds2[0] == x);
        assert(ds2.drop_first() =~= ds.drop_first());
    } else {
        assert(ds2[0] == ds[0]);
        assert(ds2.drop_first() =~= ds.drop_first().update(li - 1, x));
        assert(ds.drop_first()[li - 1] == ds[li]);
        lemma_layers_height_update(ds.drop_first(), li - 1, x);
    }
}

proof fn lemma_layers_height_remove(ds: Seq<(u64, Delta)>, li: int)
    requires
        0 <= li < ds.len(),
    ensures
        layers_height(ds.remove(li)) + delta_height(ds[li].1@) == layers_height(ds),
    decreases ds.len(),
{
    let ds2 = ds.remove(li);
    if li == 0 {
        assert(ds2 =~= ds.drop_first());
    } else {
        assert(ds2[0] == ds[0]);
        assert(ds2.drop_first() =~= ds.drop_first().remove(li - 1));
        assert(ds.drop_first()[li - 1] == ds[li]);
        lemma_layers_height_remove(ds.drop_first(), li - 1);
    }
}

proof fn lemma_layers_height_insert(ds: Seq<(u64, Delta)>, li: int, x: (u64, Delta))
    requires
        0 <= li <= ds.len(),
    ensures
        layers_height(ds.insert(li, x)) == layers_height(ds) + delta_height(x.1@),
    decreases ds.len(),
{
    let ds2 = ds.insert(li, x);
    if li == 0 {
        assert(ds2[0] == x);
        assert(ds2.drop_first() =~= ds);
    } else {
        assert(ds2[0] == ds[0]);
        assert(ds2.drop_first() =~= ds.drop_first().insert(li - 1, x));
        lemma_layers_height_insert(ds.drop_first(), li - 1, x);
    }
}

proof fn lemma_centries_height_remove(s: Seq<(Name, DirEntry)>, i: int)
    requires
        0 <= i < s.len(),
    ensures
        centries_height(s.remove(i)) + entry_height(s[i].1) == centries_height(s),
    decreases s.len(),
{
    let s2 = s.remove(i);
    if i == 0 {
        assert(s2 =~= s.drop_first());
    } else {
        assert(s2[0] == s[0]);
        assert(s2.drop_first() =~= s.drop_first().remove(i - 1));
        assert(s.drop_first()[i - 1] == s[i]);
        lemma_centries_height_remove(s.drop_first(), i - 1);
    }
}

proof fn lemma_centries_height_insert(s: Seq<(Name, DirEntry)>, i: int, rec: (Name, DirEntry))
    requires
        0 <= i <= s.len(),
    ensures
        centries_height(s.insert(i, rec)) == centries_height(s) + entry_height(rec.1),
    decreases s.len(),
{
    let s2 = s.insert(i, rec);
    if i == 0 {
        assert(s2[0] == rec);
        assert(s2.drop_first() =~= s);
    } else {
        assert(s2[0] == s[0]);
        assert(s2.drop_first() =~= s.drop_first().insert(i - 1, rec));
        lemma_centries_height_insert(s.drop_first(), i - 1, rec);
    }
}

impl Dir {
    /// True if a whole-map write at `t` is refused: any reservation held by
    /// another transaction overlaps the whole map.
    pub open spec fn write_all_blocked(self, t: u64) -> bool {
        ||| exists|i: int| 0 <= i < self.write_marks@.len() && self.write_marks@[i].0 != t
        ||| exists|i: int| 0 <= i < self.read_marks@.len() && self.read_marks@[i].0 > t
    }

    fn write_all_blocked_exec(&self, t: u64) -> (r: bool)
        ensures
            r == self.write_all_blocked(t),
    {
        let n = self.write_marks.len();
        let mut i: usize = 0;
        while i < n
            invariant
                i <= n,
                n == self.write_marks@.len(),
                forall|j: int| 0 <= j < i ==> self.write_marks@[j].0 == t,
            decreases n - i,
        {
            if self.write_marks[i].0 != t {
                return true;
            }
            i = i + 1;
        }
        let m = self.read_marks.len();
        let mut j: usize = 0;
        while j < m
            invariant
                j <= m,
                m == self.read_marks@.len(),
                !(exists|a: int|
                    0 <= a < self.write_marks@.len() && self.write_marks@[a].0 != t),
                forall|a: int| 0 <= a < j ==> !(self.read_marks@[a].0 > t),
            decreases m - j,
        {
            if self.read_marks[j].0 > t {
                return true;
            }
            j = j + 1;
        }
        false
    }

    /// The outcome of `truncate(t)` (see [`Dir::truncate`]).
    pub open spec fn truncate_post(pre: Dir, post: Dir, t: u64, r: Result<()>) -> bool {
        if pre.outdated(t) {
            post == pre && (r matches Err(e) && e == Error::Outdated)
        } else if pre.lock_committed(t) {
            post == pre && (r matches Err(e) && e == Error::Conflict)
        } else if pre.write_all_blocked(t) {
            post == pre && (r matches Err(e) && e == Error::Conflict)
        } else {
            &&& r is Ok ==> forall|k: Seq<char>| post.vis(t, k) is None
            &&& all_mark_pushed(pre.write_marks@, post.write_marks@, t)
            &&& post.commits == pre.commits
            &&& post.read_marks == pre.read_marks
            &&& post.finalized_at == pre.finalized_at
            &&& post.disk_removed == pre.disk_removed
            &&& post.txfs == pre.txfs
            &&& post.on_disk == pre.on_disk
            &&& forall|x: Seq<char>|
                name_views(pre.stray@).contains(x) ==> name_views(post.stray@).contains(x)
            &&& forall|x: Seq<char>|
                name_views(post.stray@).contains(x) ==> (name_views(pre.stray@).contains(x)
                    || pending_dropped_file(pre, t, x))
            &&& r is Err ==> (r matches Err(e) && e == Error::Conflict)
        }
    }

    /// Delete the contents of this directory at `txn_id`: every visible
    /// entry is removed from the map at `txn_id`, and every visible
    /// sub-directory is recursively truncated. Nothing is removed from disk
    /// until commit.
    pub fn truncate(&mut self, txn_id: u64) -> (r: Result<()>)
        requires
            old(self).wf(),
        ensures
            final(self).wf(),
            Dir::truncate_post(*old(self), *final(self), txn_id, r),
            final(self).height() <= old(self).height(),
        decreases old(self).height(),
    {
        match self.finalized_at {
            Some(f) => {
                if f > txn_id {
                    return Err(Error::Outdated);
                }
            },
            None => {},
        }
        if contains_txn(&self.commits, txn_id) {
            return Err(Error::Conflict);
        }
        if self.write_all_blocked_exec(txn_id) {
            return Err(Error::Conflict);
        }
        self.write_marks.push((txn_id, MarkRange::All));
        proof {
            assert(self.write_marks@.subrange(0, old(self).write_marks@.len() as int)
                =~= old(self).write_marks@);
        }
        let ghost mid = *self;
        proof {
            mid.lemma_vis_names(txn_id);
        }
        let names = self.visible_names(txn_id);
        proof {
            assert forall|a: int, b: int|
                0 <= a < b < names@.len() implies (#[trigger] names@[a])@
                != (#[trigger] names@[b])@ by {
                assert(name_views(names@)[a] == names@[a]@);
                assert(name_views(names@)[b] == names@[b]@);
            }
        }
        let n = names.len();
        let mut i: usize = 0;
        while i < n
            invariant
                i <= n,
                n == names@.len(),
                self.wf(),
                self.height() <= mid.height(),
                forall|a: int| 0 <= a < n ==> (#[trigger] names@[a]).wf(),
                forall|a: int, b: int|
                    0 <= a < b < n ==> (#[trigger] names@[a])@ != (#[trigger] names@[b])@,
                self.commits == mid.commits,
                self.read_marks == mid.read_marks,
                self.write_marks == mid.write_marks,
                self.finalized_at == mid.finalized_at,
                self.disk_removed == mid.disk_removed,
                self.txfs == mid.txfs,
                self.on_disk == mid.on_disk,
                forall|x: Seq<char>|
                    name_views(mid.stray@).contains(x) ==> name_views(self.stray@).contains(x),
                forall|x: Seq<char>|
                    name_views(self.stray@).contains(x) ==> (name_views(
                        mid.stray@,
                    ).contains(x) || pending_dropped_file(mid, txn_id, x)),
                forall|x: Seq<char>|
                    (forall|j: int| 0 <= j < i ==> (#[trigger] names@[j])@ != x)
                        ==> pending_dropped_file(*self, txn_id, x) == pending_dropped_file(
                        mid,
                        txn_id,
                        x,
                    ),
                !mid.lock_committed(txn_id),
                !old(self).outdated(txn_id),
                !old(self).lock_committed(txn_id),
                !old(self).write_all_blocked(txn_id),
                all_mark_pushed(old(self).write_marks@, mid.write_marks@, txn_id),
                mid.commits == old(self).commits,
                mid.read_marks == old(self).read_marks,
                mid.finalized_at == old(self).finalized_at,
                mid.disk_removed == old(self).disk_removed,
                mid.stray == old(self).stray,
                mid.pending == old(self).pending,
                mid.txfs == old(self).txfs,
                mid.on_disk == old(self).on_disk,
                mid.height() <= old(self).height(),
                forall|j: int| 0 <= j < i ==> self.vis(txn_id, names@[j]@) is None,
                forall|k: Seq<char>|
                    !name_views(names@).contains(k) ==> self.vis(txn_id, k) is None,
            decreases n - i,
        {
            let ghost at_entry = *self;
            let loc = self.locate(txn_id, &names[i]);
            match loc {
                Loc::Absent => {},
                _ => {
                    let ghost before = *self;
                    let dummy = DirEntry::File(
                        File::create(txn_id, names[i].duplicate(), Vec::new()),
                    );
                    let e = self.swap_at(loc, txn_id, &names[i], dummy);
                    match e {
                        DirEntry::Dir(mut d) => {
                            proof {
                                assert(self.height() >= 1);
                                assert(entry_height(DirEntry::Dir(d)) == 1 + d.height());
                                assert(d.height() < old(self).height());
                            }
                            let cr = d.truncate(txn_id);
                            let ghost swapped = *self;
                            self.swap_at(loc, txn_id, &names[i], DirEntry::Dir(d));
                            match cr {
                                Ok(()) => {},
                                Err(_) => {
                                    proof {
                                        assert(mid.stray == old(self).stray);
                                        assert(self.stray == at_entry.stray);
                                        assert forall|x: Seq<char>|
                                            name_views(self.stray@).contains(x) implies (
                                        name_views(old(self).stray@).contains(x)
                                            || pending_dropped_file(
                                            *old(self),
                                            txn_id,
                                            x,
                                        )) by {
                                            assert(name_views(at_entry.stray@).contains(x)
                                                || pending_dropped_file(mid, txn_id, x));
                                            assert(pending_dropped_file(mid, txn_id, x)
                                                == pending_dropped_file(
                                                *old(self),
                                                txn_id,
                                                x,
                                            )) by {
                                                assert(mid.pending == old(self).pending);
                                            }
                                        }
                                        assert forall|x: Seq<char>|
                                            name_views(old(self).stray@).contains(
                                            x,
                                        ) implies name_views(self.stray@).contains(x) by {
                                            assert(name_views(mid.stray@).contains(x));
                                        }
                                    }
                                    return Err(Error::Conflict);
                                },
                            }
                        },
                        DirEntry::File(f) => {
                            self.swap_at(loc, txn_id, &names[i], DirEntry::File(f));
                        },
                    }
                },
            }
            proof {
                assert(pending_dropped_file(*self, txn_id, names@[i as int]@)
                    == pending_dropped_file(mid, txn_id, names@[i as int]@)) by {
                    assert(pending_dropped_file(at_entry, txn_id, names@[i as int]@)
                        == pending_dropped_file(mid, txn_id, names@[i as int]@));
                    match loc {
                        Loc::Pending(li, ei) => {
                            lemma_pending_at(at_entry.pending@, li as int);
                            lemma_layer_at(at_entry.pending@[li as int].1@, ei as int);
                            assert(pending_dropped_file(at_entry, txn_id, names@[i as int]@)
                                == lay_rec_dropped(
                                at_entry.pending@[li as int].1@[ei as int].1,
                            ));
                            lemma_pending_at(self.pending@, li as int);
                            lemma_layer_at(self.pending@[li as int].1@, ei as int);
                            assert(pending_dropped_file(*self, txn_id, names@[i as int]@)
                                == lay_rec_dropped(
                                self.pending@[li as int].1@[ei as int].1,
                            ));
                        },
                        Loc::Delta(li, ei) => {
                            assert(self.pending == at_entry.pending);
                            assert(pending_dropped_file(at_entry, txn_id, names@[i as int]@)
                                == false) by {
                                match pending_layer(at_entry.pending@, txn_id) {
                                    Some(p) => {
                                        assert(layer_get(p@, names@[i as int]@) is None);
                                    },
                                    None => {},
                                }
                            }
                        },
                        Loc::Canon(ci) => {
                            assert(self.pending == at_entry.pending);
                            assert(pending_dropped_file(at_entry, txn_id, names@[i as int]@)
                                == false) by {
                                match pending_layer(at_entry.pending@, txn_id) {
                                    Some(p) => {
                                        assert(layer_get(p@, names@[i as int]@) is None);
                                    },
                                    None => {},
                                }
                            }
                        },
                        Loc::Absent => {},
                    }
                }
            }
            self.record_pending(txn_id, &names[i], None);
            i = i + 1;
        }
        proof {
            assert forall|k: Seq<char>| self.vis(txn_id, k) is None by {
                if name_views(names@).contains(k) {
                    let j = choose|j: int|
                        0 <= j < name_views(names@).len() && name_views(names@)[j] == k;
                    assert(names@[j]@ == k);
                }
            }
            assert(mid.stray == old(self).stray);
            assert forall|x: Seq<char>|
                pending_dropped_file(mid, txn_id, x) == pending_dropped_file(
                *old(self),
                txn_id,
                x,
            ) by {
                assert(mid.pending == old(self).pending);
            }
            assert forall|x: Seq<char>|
                name_views(self.stray@).contains(x) implies (name_views(
                old(self).stray@,
            ).contains(x) || pending_dropped_file(*old(self), txn_id, x)) by {
                assert(name_views(mid.stray@).contains(x) || pending_dropped_file(
                    mid,
                    txn_id,
                    x,
                ));
                assert(pending_dropped_file(mid, txn_id, x) == pending_dropped_file(
                    *old(self),
                    txn_id,
                    x,
                ));
            }
        }
        Ok(())
    }

    /// The outcome of `delete(t, k)` (see [`Dir::delete`]).
    pub open spec fn delete_post(pre: Dir, post: Dir, t: u64, k: Seq<char>, r: Result<
        bool,
    >) -> bool {
        if pre.outdated(t) {
            post == pre && (r matches Err(e) && e == Error::Outdated)
        } else if pre.lock_committed(t) {
            post == pre && (r matches Err(e) && e == Error::Conflict)
        } else if pre.write_blocked(t, k) {
            post == pre && (r matches Err(e) && e == Error::Conflict)
        } else {
            &&& post.vis(t, k) is None
            &&& key_mark_pushed(pre.write_marks@, post.write_marks@, t, k)
            &&& post.commits == pre.commits
            &&& post.read_marks == pre.read_marks
            &&& post.finalized_at == pre.finalized_at
            &&& post.disk_removed == pre.disk_removed
            &&& post.txfs == pre.txfs
            &&& post.on_disk == pre.on_disk
            &&& match r {
                Ok(b) => b == (pre.vis(t, k) is Some),
                Err(e) => e == Error::Conflict && pre.vis(t, k) is Some,
            }
            &&& pre.vis(t, k) is Some ==> (match pending_layer(post.pending@, t) {
                Some(p) => layer_get(p@, k) == Some(None::<DirEntry>),
                None => false,
            })
            &&& forall|t2: u64, k2: Seq<char>|
                k2 != k ==> post.vis(t2, k2) == pre.vis(t2, k2)
            &&& forall|x: Seq<char>|
                name_views(pre.stray@).contains(x) ==> name_views(post.stray@).contains(x)
            &&& forall|x: Seq<char>|
                name_views(post.stray@).contains(x) ==> (name_views(pre.stray@).contains(x) || (
                x == k && pending_dropped_file(pre, t, k)))
        }
    }

    /// Delete the entry at `name` at `txn_id` and return `true` if one was
    /// present.
    ///
    /// A deleted sub-directory is recursively truncated at `txn_id`; since
    /// the entry itself is gone at `txn_id` and the truncation adds nothing
    /// to what other transactions see, that truncation is unobservable
    /// through this directory's contract. The canonical entry is not
    /// removed from disk yet; that happens at commit.
    pub fn delete(&mut self, txn_id: u64, name: &Name) -> (r: Result<bool>)
        requires
            old(self).wf(),
            name.wf(),
        ensures
            final(self).wf(),
            Dir::delete_post(*old(self), *final(self), txn_id, name@, r),
            final(self).height() <= old(self).height(),
        decreases old(self).height(),
    {
        match self.finalized_at {
            Some(f) => {
                if f > txn_id {
                    return Err(Error::Outdated);
                }
            },
            None => {},
        }
        if contains_txn(&self.commits, txn_id) {
            return Err(Error::Conflict);
        }
        if self.write_blocked_exec(txn_id, name) {
            return Err(Error::Conflict);
        }
        self.write_marks.push((txn_id, MarkRange::Key(name.duplicate())));
        proof {
            assert(self.write_marks@.subrange(0, old(self).write_marks@.len() as int)
                =~= old(self).write_marks@);
        }
        let loc = self.locate(txn_id, name);
        let present = match loc {
            Loc::Absent => false,
            _ => true,
        };
        if !present {
            return Ok(false);
        }
        let ghost pre2 = *self;
        let dummy = DirEntry::File(File::create(txn_id, name.duplicate(), Vec::new()));
        let e = self.swap_at(loc, txn_id, name, dummy);
        let ghost e_orig = e;
        let cr: Result<()> = match e {
            DirEntry::Dir(mut d) => {
                proof {
                    assert(self.height() >= 1);
                    assert(entry_height(DirEntry::Dir(d)) == 1 + d.height());
                }
                let cr = d.truncate(txn_id);
                self.swap_at(loc, txn_id, name, DirEntry::Dir(d));
                cr
            },
            DirEntry::File(f) => {
                self.swap_at(loc, txn_id, name, DirEntry::File(f));
                Ok(())
            },
        };
        proof {
            assert(pending_dropped_file(*self, txn_id, name@) == pending_dropped_file(
                pre2,
                txn_id,
                name@,
            )) by {
                match loc {
                    Loc::Pending(li, ei) => {
                        lemma_pending_at(pre2.pending@, li as int);
                        lemma_layer_at(pre2.pending@[li as int].1@, ei as int);
                        assert(pending_dropped_file(pre2, txn_id, name@) == lay_rec_dropped(
                            Some(e_orig),
                        ));
                        lemma_pending_at(self.pending@, li as int);
                        lemma_layer_at(self.pending@[li as int].1@, ei as int);
                        assert(self.vis(txn_id, name@) == Some(
                            self.pending@[li as int].1@[ei as int].1->Some_0,
                        ));
                        assert(pending_dropped_file(*self, txn_id, name@) == lay_rec_dropped(
                            self.pending@[li as int].1@[ei as int].1,
                        ));
                        assert(lay_rec_dropped(self.pending@[li as int].1@[ei as int].1)
                            == lay_rec_dropped(Some(e_orig)));
                    },
                    Loc::Delta(li, ei) => {
                        assert(self.pending == pre2.pending);
                        assert(pending_dropped_file(pre2, txn_id, name@) == false) by {
                            match pending_layer(pre2.pending@, txn_id) {
                                Some(p) => {
                                    assert(layer_get(p@, name@) is None);
                                },
                                None => {},
                            }
                        }
                    },
                    Loc::Canon(ci) => {
                        assert(self.pending == pre2.pending);
                        assert(pending_dropped_file(pre2, txn_id, name@) == false) by {
                            match pending_layer(pre2.pending@, txn_id) {
                                Some(p) => {
                                    assert(layer_get(p@, name@) is None);
                                },
                                None => {},
                            }
                        }
                    },
                    Loc::Absent => {},
                }
            }
            assert(pending_dropped_file(pre2, txn_id, name@) == pending_dropped_file(
                *old(self),
                txn_id,
                name@,
            ));
        }
        self.record_pending(txn_id, name, None);
        match cr {
            Ok(()) => Ok(true),
            Err(_) => Err(Error::Conflict),
        }
    }
}

/// The reservations of `s` not held by transaction `t`, order kept.
pub open spec fn marks_ne(s: Seq<(u64, MarkRange)>, t: u64) -> Seq<(u64, MarkRange)>
    decreases s.len(),
{
    if s.len() == 0 {
        Seq::empty()
    } else if s[0].0 == t {
        marks_ne(s.drop_first(), t)
    } else {
        seq![s[0]] + marks_ne(s.drop_first(), t)
    }
}

/// Delete, in place, every reservation held by `t`.
fn retain_marks_ne(v: &mut Vec<(u64, MarkRange)>, t: u64)
    ensures
        final(v)@ == marks_ne(old(v)@, t),
{
    let ghost v0 = v@;
    let mut i: usize = 0;
    proof {
        assert(v@.subrange(0, v@.len() as int) =~= v0);
        assert(v@.subrange(0, 0) + marks_ne(v@.subrange(0, v@.len() as int), t) =~= marks_ne(
            v0,
            t,
        ));
    }
    while i < v.len()
        invariant
            i <= v@.len(),
            marks_ne(v0, t) == v@.subrange(0, i as int) + marks_ne(
                v@.subrange(i as int, v@.len() as int),
                t,
            ),
            forall|j: int| 0 <= j < i ==> v@[j].0 != t,
        decreases v@.len() - i,
    {
        let ghost vc = v@;
        let ghost suffix = vc.subrange(i as int, vc.len() as int);
        if v[i].0 == t {
            v.remove(i);
            proof {
                assert(suffix[0] == vc[i as int]);
                assert(marks_ne(suffix, t) == marks_ne(suffix.drop_first(), t));
                assert(v@.subrange(0, i as int) =~= vc.subrange(0, i as int));
                assert(v@.subrange(i as int, v@.len() as int) =~= suffix.drop_first());
            }
        } else {
            proof {
                assert(suffix[0] == vc[i as int]);
                assert(marks_ne(suffix, t) == seq![suffix[0]] + marks_ne(
                    suffix.drop_first(),
                    t,
                ));
                assert(vc.subrange(0, i as int) + (seq![suffix[0]] + marks_ne(
                    suffix.drop_first(),
                    t,
                )) =~= vc.subrange(0, i + 1) + marks_ne(suffix.drop_first(), t));
                assert(suffix.drop_first() =~= vc.subrange(i + 1, vc.len() as int));
            }
            i = i + 1;
        }
    }
    proof {
        assert(v@.subrange(v@.len() as int, v@.len() as int).len() == 0);
        assert(marks_ne(v@.subrange(v@.len() as int, v@.len() as int), t) =~= Seq::<
            (u64, MarkRange),
        >::empty());
        assert(v@.subrange(0, v@.len() as int) =~= v@);
    }
}

/// True if `k` names a canonical entry a committed delete has removed from
/// disk.
pub open spec fn tombstoned(d: Dir, k: Seq<char>) -> bool {
    name_views(d.disk_removed@).contains(k)
}

/// True if no committed delta lies in the window `(t, tp]`.
pub open spec fn no_delta_between(ds: Seq<(u64, Delta)>, t: u64, tp: u64) -> bool {
    forall|i: int| 0 <= i < ds.len() ==> !(t < (#[trigger] ds[i]).0 <= tp)
}

/// With no layer in `(t, tp]`, the committed lookup at `tp >= t` equals the
/// one at `t`: every layer is either at most `t` (seen by both) or beyond
/// `tp` (seen by neither).
proof fn lemma_deltas_get_window(ds: Seq<(u64, Delta)>, t: u64, tp: u64, k: Seq<char>)
    requires
        t <= tp,
        no_delta_between(ds, t, tp),
    ensures
        deltas_get(ds, tp, k) == deltas_get(ds, t, k),
    decreases ds.len(),
{
    if ds.len() > 0 {
        assert(forall|i: int|
            0 <= i < ds.drop_last().len() ==> ds.drop_last()[i] == ds[i]);
        lemma_deltas_get_window(ds.drop_last(), t, tp, k);
        assert(!(t < ds.last().0 <= tp)) by {
            assert(ds[ds.len() - 1] == ds.last());
        }
    }
}

/// Visibility across a quiet window: with no committed delta in `(t, tp]`
/// and neither transaction holding a pending record for `k`, the entry
/// visible at `tp >= t` is the very entry visible at `t`. In particular, a
/// file entry carrying an outstanding write guard at `t` is what a lookup
/// at any such later transaction meets, which makes the guard's `Conflict`
/// on typed lookups derivable (see [`Dir::typed_result`]).
pub proof fn lemma_vis_window(d: Dir, t: u64, tp: u64, k: Seq<char>)
    requires
        t <= tp,
        no_delta_between(d.deltas@, t, tp),
        pending_miss(d.pending@, t, k),
        pending_miss(d.pending@, tp, k),
    ensures
        d.vis(tp, k) == d.vis(t, k),
{
    lemma_deltas_get_window(d.deltas@, t, tp, k);
}

/// True if `a` and `b` hold entries of the same kind (or are both absent).
pub open spec fn same_entry_kind(a: Option<DirEntry>, b: Option<DirEntry>) -> bool {
    match a {
        Some(e) => match b {
            Some(e2) => (e is Dir) == (e2 is Dir),
            None => false,
        },
        None => b is None,
    }
}

/// True if entry `e` has committed at `t`, and so, recursively, has
/// everything visible inside it: a file has `t` among its commits; a
/// sub-directory has committed its map at `t`, retired `t`'s pending
/// version, and committed every visible child in turn.
pub open spec fn entry_committed(e: DirEntry, t: u64) -> bool
    decreases e,
{
    match e {
        DirEntry::File(f) => f.lock_committed(t),
        DirEntry::Dir(d) => {
            &&& d.lock_committed(t)
            &&& pending_layer(d.pending@, t) is None
            &&& children_committed(d, t)
        },
    }
}

/// True if every entry record of `d` that is visible at `t` satisfies
/// [`entry_committed`].
pub open spec fn children_committed(d: Dir, t: u64) -> bool
    decreases d,
{
    &&& forall|i: int, j: int|
        0 <= i < d.deltas@.len() && 0 <= j < d.deltas@[i].1@.len()
            && (#[trigger] d.deltas@[i].1@[j]).1 is Some && d.vis(t, d.deltas@[i].1@[j].0@)
            == d.deltas@[i].1@[j].1 ==> entry_committed(d.deltas@[i].1@[j].1->Some_0, t)
    &&& forall|i: int|
        0 <= i < d.canon@.len() && d.vis(t, (#[trigger] d.canon@[i]).0@) == Some(
            d.canon@[i].1,
        ) ==> entry_committed(d.canon@[i].1, t)
}

/// A hit of `layer_get` comes from a record of the layer.
proof fn lemma_layer_get_witness(s: Seq<(Name, Option<DirEntry>)>, k: Seq<char>)
    requires
        layer_get(s, k) is Some,
    ensures
        exists|j: int|
            0 <= j < s.len() && (#[trigger] s[j]).0@ == k && Some(s[j].1) == layer_get(s, k),
    decreases s.len(),
{
    if s.len() > 0 {
        if s[0].0@ == k {
            assert(s[0].0@ == k && Some(s[0].1) == layer_get(s, k));
        } else {
            lemma_layer_get_witness(s.drop_first(), k);
            let j = choose|j: int|
                0 <= j < s.drop_first().len() && s.drop_first()[j].0@ == k && Some(
                    s.drop_first()[j].1,
                ) == layer_get(s.drop_first(), k);
            assert(s[j + 1] == s.drop_first()[j]);
        }
    }
}

/// A hit of `deltas_get` comes from a record of a layer at or before `t`.
proof fn lemma_deltas_get_witness(ds: Seq<(u64, Delta)>, t: u64, k: Seq<char>)
    requires
        deltas_get(ds, t, k) is Some,
    ensures
        exists|i: int, j: int|
            #![trigger ds[i].1@[j]]
            0 <= i < ds.len() && 0 <= j < ds[i].1@.len() && ds[i].0 <= t && ds[i].1@[j].0@ == k
                && Some(ds[i].1@[j].1) == deltas_get(ds, t, k),
    decreases ds.len(),
{
    if ds.len() > 0 {
        if ds.last().0 <= t && layer_get(ds.last().1@, k) is Some {
            lemma_layer_get_witness(ds.last().1@, k);
            let j = choose|j: int|
                0 <= j < ds.last().1@.len() && ds.last().1@[j].0@ == k && Some(
                    ds.last().1@[j].1,
                ) == layer_get(ds.last().1@, k);
            assert(ds[ds.len() - 1] == ds.last());
        } else {
            lemma_deltas_get_witness(ds.drop_last(), t, k);
            let (i, j) = choose|i: int, j: int|
                0 <= i < ds.drop_last().len() && 0 <= j < ds.drop_last()[i].1@.len()
                    && ds.drop_last()[i].0 <= t && ds.drop_last()[i].1@[j].0@ == k && Some(
                    ds.drop_last()[i].1@[j].1,
                ) == deltas_get(ds.drop_last(), t, k);
            assert(ds[i] == ds.drop_last()[i]);
        }
    }
}

/// A hit of `canon_get` comes from a record of the canonical layer.
proof fn lemma_canon_get_witness(s: Seq<(Name, DirEntry)>, k: Seq<char>)
    requires
        canon_get(s, k) is Some,
    ensures
        exists|i: int|
            0 <= i < s.len() && (#[trigger] s[i]).0@ == k && Some(s[i].1) == canon_get(s, k),
    decreases s.len(),
{
    if s.len() > 0 {
        if s[0].0@ == k {
            assert(s[0].0@ == k && Some(s[0].1) == canon_get(s, k));
        } else {
            lemma_canon_get_witness(s.drop_first(), k);
            let i = choose|i: int|
                0 <= i < s.drop_first().len() && s.drop_first()[i].0@ == k && Some(
                    s.drop_first()[i].1,
                ) == canon_get(s.drop_first(), k);
            assert(s[i + 1] == s.drop_first()[i]);
        }
    }
}

/// True if entry `e` has been finalized at `t` or later, and so,
/// recursively, has everything visible inside it. A file finalized exactly
/// at `t` (with a committed modification at or before `t`) retains only
/// version files above its effective version at `t`, whose bytes therefore
/// resolve from the canonical copy; a sub-directory finalized exactly at
/// `t` has finalized every visible child in turn.
pub open spec fn entry_finalized(e: DirEntry, t: u64) -> bool
    decreases e,
{
    match e {
        DirEntry::File(f) => {
            &&& f.finalized_at matches Some(ft) && ft >= t
            &&& ((f.finalized_at == Some(t) && crate::file::last_le(f.modified@, t) is Some)
                ==> ((forall|i: int|
                0 <= i < f.versions@.len() ==> (#[trigger] f.versions@[i]).0 > f.visible_to(t))
                && crate::file::lookup_version(f.versions@, f.visible_to(t)) is None))
        },
        DirEntry::Dir(d) => {
            &&& d.finalized_at matches Some(dt) && dt >= t
            &&& (d.finalized_at == Some(t) ==> children_finalized(d, t))
        },
    }
}

/// True if every entry record of `d` that is visible at `t` satisfies
/// [`entry_finalized`].
pub open spec fn children_finalized(d: Dir, t: u64) -> bool
    decreases d,
{
    &&& forall|i: int, j: int|
        0 <= i < d.deltas@.len() && 0 <= j < d.deltas@[i].1@.len()
            && (#[trigger] d.deltas@[i].1@[j]).1 is Some && d.vis(t, d.deltas@[i].1@[j].0@)
            == d.deltas@[i].1@[j].1 ==> entry_finalized(d.deltas@[i].1@[j].1->Some_0, t)
    &&& forall|i: int|
        0 <= i < d.canon@.len() && d.vis(t, (#[trigger] d.canon@[i]).0@) == Some(
            d.canon@[i].1,
        ) ==> entry_finalized(d.canon@[i].1, t)
}

/// True if entry `e` has been rolled back at `t`, and so, recursively, has
/// everything visible inside it: a file no longer holds `t`'s pending
/// version nor a read reservation of `t`; a sub-directory has discarded
/// `t`'s pending version and rolled back every visible child in turn.
pub open spec fn entry_rolled_back(e: DirEntry, t: u64) -> bool
    decreases e,
{
    match e {
        DirEntry::File(f) => f.pending != Some(t) && !f.read_marks@.contains(t),
        DirEntry::Dir(d) => {
            &&& pending_layer(d.pending@, t) is None
            &&& children_rolled_back(d, t)
        },
    }
}

/// True if every entry record of `d` that is visible at `t` satisfies
/// [`entry_rolled_back`].
pub open spec fn children_rolled_back(d: Dir, t: u64) -> bool
    decreases d,
{
    &&& forall|i: int, j: int|
        0 <= i < d.deltas@.len() && 0 <= j < d.deltas@[i].1@.len()
            && (#[trigger] d.deltas@[i].1@[j]).1 is Some && d.vis(t, d.deltas@[i].1@[j].0@)
            == d.deltas@[i].1@[j].1 ==> entry_rolled_back(d.deltas@[i].1@[j].1->Some_0, t)
    &&& forall|i: int|
        0 <= i < d.canon@.len() && d.vis(t, (#[trigger] d.canon@[i]).0@) == Some(
            d.canon@[i].1,
        ) ==> entry_rolled_back(d.canon@[i].1, t)
}

/// What [`children_rolled_back`] says of the entries themselves: once
/// `t`'s pending version is discarded, every entry visible at `t`
/// satisfies [`entry_rolled_back`].
pub proof fn lemma_children_rolled_back_vis(d: Dir, t: u64, k: Seq<char>)
    requires
        children_rolled_back(d, t),
        pending_layer(d.pending@, t) is None,
        d.vis(t, k) is Some,
    ensures
        entry_rolled_back(d.vis(t, k)->Some_0, t),
{
    let e = d.vis(t, k)->Some_0;
    match deltas_get(d.deltas@, t, k) {
        Some(v) => {
            lemma_deltas_get_witness(d.deltas@, t, k);
            let (i, j) = choose|i: int, j: int|
                0 <= i < d.deltas@.len() && 0 <= j < d.deltas@[i].1@.len() && d.deltas@[i].0
                    <= t && d.deltas@[i].1@[j].0@ == k && Some(d.deltas@[i].1@[j].1)
                    == deltas_get(d.deltas@, t, k);
            assert(d.vis(t, d.deltas@[i].1@[j].0@) == d.deltas@[i].1@[j].1);
        },
        None => {
            lemma_canon_get_witness(d.canon@, k);
            let i = choose|i: int|
                0 <= i < d.canon@.len() && d.canon@[i].0@ == k && Some(d.canon@[i].1)
                    == canon_get(d.canon@, k);
            assert(d.vis(t, d.canon@[i].0@) == Some(d.canon@[i].1));
        },
    }
}

/// What [`children_finalized`] says of the entries themselves: once `t`'s
/// pending version is retired, every entry visible at `t` satisfies
/// [`entry_finalized`].
pub proof fn lemma_children_finalized_vis(d: Dir, t: u64, k: Seq<char>)
    requires
        children_finalized(d, t),
        pending_layer(d.pending@, t) is None,
        d.vis(t, k) is Some,
    ensures
        entry_finalized(d.vis(t, k)->Some_0, t),
{
    let e = d.vis(t, k)->Some_0;
    match deltas_get(d.deltas@, t, k) {
        Some(v) => {
            lemma_deltas_get_witness(d.deltas@, t, k);
            let (i, j) = choose|i: int, j: int|
                0 <= i < d.deltas@.len() && 0 <= j < d.deltas@[i].1@.len() && d.deltas@[i].0
                    <= t && d.deltas@[i].1@[j].0@ == k && Some(d.deltas@[i].1@[j].1)
                    == deltas_get(d.deltas@, t, k);
            assert(d.vis(t, d.deltas@[i].1@[j].0@) == d.deltas@[i].1@[j].1);
        },
        None => {
            lemma_canon_get_witness(d.canon@, k);
            let i = choose|i: int|
                0 <= i < d.canon@.len() && d.canon@[i].0@ == k && Some(d.canon@[i].1)
                    == canon_get(d.canon@, k);
            assert(d.vis(t, d.canon@[i].0@) == Some(d.canon@[i].1));
        },
    }
}

/// What [`children_committed`] says of the entries themselves: once `t`'s
/// pending version is retired, every entry visible at `t` satisfies
/// [`entry_committed`].
pub proof fn lemma_children_committed_vis(d: Dir, t: u64, k: Seq<char>)
    requires
        children_committed(d, t),
        pending_layer(d.pending@, t) is None,
        d.vis(t, k) is Some,
    ensures
        entry_committed(d.vis(t, k)->Some_0, t),
{
    let e = d.vis(t, k)->Some_0;
    match deltas_get(d.deltas@, t, k) {
        Some(v) => {
            lemma_deltas_get_witness(d.deltas@, t, k);
            let (i, j) = choose|i: int, j: int|
                0 <= i < d.deltas@.len() && 0 <= j < d.deltas@[i].1@.len() && d.deltas@[i].0
                    <= t && d.deltas@[i].1@[j].0@ == k && Some(d.deltas@[i].1@[j].1)
                    == deltas_get(d.deltas@, t, k);
            assert(d.vis(t, d.deltas@[i].1@[j].0@) == d.deltas@[i].1@[j].1);
        },
        None => {
            lemma_canon_get_witness(d.canon@, k);
            let i = choose|i: int|
                0 <= i < d.canon@.len() && d.canon@[i].0@ == k && Some(d.canon@[i].1)
                    == canon_get(d.canon@, k);
            assert(d.vis(t, d.canon@[i].0@) == Some(d.canon@[i].1));
        },
    }
}

impl Dir {
    /// The outcome of `commit(t, recursive)` (see [`Dir::commit`]).
    pub open spec fn commit_post(pre: Dir, post: Dir, t: u64, recursive: bool, r: Result<
        (),
    >) -> bool {
        if pre.outdated(t) {
            post == pre && (r matches Err(e) && e == Error::Outdated)
        } else if pre.read_all_blocked(t) {
            post == pre && (r matches Err(e) && e == Error::Conflict)
        } else {
            Dir::commit_effect(pre, post, t, recursive, r)
        }
    }

    /// What a permitted commit does (see [`Dir::commit`]).
    pub open spec fn commit_effect(pre: Dir, post: Dir, t: u64, recursive: bool, r: Result<
        (),
    >) -> bool {
        {
            let pl = commit_pl(pre, t);
            &&& post.commits@ == set_added(pre.commits@, t)
            &&& pending_layer(post.pending@, t) is None
            &&& forall|k: Seq<char>| (post.vis(t, k) is Some) <==> (pre.vis(t, k) is Some)
            &&& forall|k: Seq<char>| same_entry_kind(pre.vis(t, k), post.vis(t, k))
            &&& post.read_marks@ == marks_ne(pre.read_marks@, t)
            &&& post.write_marks@ == marks_ne(pre.write_marks@, t)
            &&& post.finalized_at == pre.finalized_at
            &&& post.stray == pre.stray
            &&& post.txfs == pre.txfs
            &&& post.on_disk == pre.on_disk
            &&& forall|a: int|
                0 <= a < pl.len() ==> ((pl[a].1 is None ==> tombstoned(post, pl[a].0@)) && (
                pl[a].1 is Some ==> !tombstoned(post, pl[a].0@)))
            &&& forall|k: Seq<char>|
                (forall|a: int| 0 <= a < pl.len() ==> pl[a].0@ != k) ==> tombstoned(post, k)
                    == tombstoned(pre, k)
            &&& forall|tp: u64, k: Seq<char>|
                t <= tp && no_delta_between(post.deltas@, t, tp) ==> #[trigger] post.vis_committed(
                    tp,
                    k,
                ) == post.vis_committed(t, k)
            &&& (!recursive ==> post.canon == pre.canon && (forall|k: Seq<char>|
                post.vis_committed(t, k) == (match layer_get(pl, k) {
                    Some(v) => v,
                    None => pre.vis_committed(t, k),
                })))
            &&& ((recursive && r is Ok) ==> children_committed(post, t))
            &&& (!recursive ==> r is Ok)
            &&& (r is Err ==> recursive && (r matches Err(e) && (e == Error::Conflict || e
                == Error::Outdated || e == Error::NotFound)))
        }
    }

    /// Commit the state of this directory at `txn_id`.
    ///
    /// The pending version of `txn_id` becomes part of the committed state.
    /// For every name the version deleted, the canonical entry is removed
    /// from disk; for every name it set, a committed removal is undone. With
    /// `recursive`, every visible child is committed too (sub-directories
    /// recursively, files as their own commit). Committing is idempotent at
    /// a given `txn_id`.
    #[verifier::rlimit(100)]
    #[verifier::spinoff_prover]
    pub fn commit(&mut self, txn_id: u64, recursive: bool) -> (r: Result<()>)
        requires
            old(self).wf(),
        ensures
            final(self).wf(),
            Dir::commit_post(*old(self), *final(self), txn_id, recursive, r),
            final(self).height() <= old(self).height(),
        decreases old(self).height(),
    {
        match self.finalized_at {
            Some(f) => {
                if f > txn_id {
                    return Err(Error::Outdated);
                }
            },
            None => {},
        }
        if self.read_all_blocked_exec(txn_id) {
            return Err(Error::Conflict);
        }
        let ghost pre = *self;
        let ghost pl = match pending_layer(pre.pending@, txn_id) {
            Some(p) => p@,
            None => Seq::<(Name, Option<DirEntry>)>::empty(),
        };
        // merge the pending version of txn_id into the committed deltas
        let mut layer_info: Vec<(Name, bool)> = Vec::new();
        match pending_index(&self.pending, txn_id) {
            Some(li) => {
                proof {
                    assert(!pre.commits@.contains(txn_id));
                }
                let (txn, inner) = self.pending.remove(li);
                proof {
                    lemma_layers_height_remove(pre.pending@, li as int);
                    assert(forall|a: int|
                        0 <= a < self.pending@.len() ==> self.pending@[a] == (if a < li {
                            pre.pending@[a]
                        } else {
                            pre.pending@[a + 1]
                        }));
                    lemma_pending_remove(pre.pending@, li as int, txn_id);
                    assert(inner@ == pl);
                }
                let n = inner.len();
                let mut i: usize = 0;
                while i < n
                    invariant
                        i <= n,
                        n == inner@.len(),
                        layer_info@.len() == i,
                        forall|a: int|
                            0 <= a < i ==> (#[trigger] layer_info@[a]).0@ == inner@[a].0@
                                && layer_info@[a].1 == (inner@[a].1 is None),
                        forall|a: int| 0 <= a < i ==> (#[trigger] layer_info@[a]).0.wf(),
                        delta_wf(inner@),
                    decreases n - i,
                {
                    layer_info.push((inner[i].0.duplicate(), inner[i].1.is_none()));
                    i = i + 1;
                }
                proof {
                    assert(forall|a: int|
                        0 <= a < self.deltas@.len() ==> (#[trigger] self.deltas@[a]).0 != txn_id);
                }
                let pos = self.delta_insert_pos(txn_id);
                let ghost midd = self.deltas@;
                self.deltas.insert(pos, (txn_id, inner));
                proof {
                    lemma_layers_height_insert(midd, pos as int, self.deltas@[pos as int]);
                    assert(self.deltas@ =~= midd.insert(pos as int, self.deltas@[pos as int]));
                    assert(forall|a: int|
                        0 <= a < self.deltas@.len() ==> self.deltas@[a] == (if a < pos {
                            midd[a]
                        } else if a == pos {
                            self.deltas@[pos as int]
                        } else {
                            midd[a - 1]
                        }));
                    assert(self.deltas@[pos as int].0 == txn_id && self.deltas@[
                        pos as int
                    ].1@ == pl);
                    assert(sorted_strict_deltas(self.deltas@));
                    assert(layers_wf(self.deltas@));
                    lemma_deltas_get_insert(midd, pos as int, (txn_id, self.deltas@[
                        pos as int
                    ].1), txn_id);
                }
            },
            None => {
                proof {
                    assert(pl =~= Seq::<(Name, Option<DirEntry>)>::empty());
                }
            },
        }
        if !contains_txn(&self.commits, txn_id) {
            self.commits.push(txn_id);
            proof {
                assert(self.commits@.subrange(0, pre.commits@.len() as int)
                    =~= pre.commits@);
                assert(self.commits@ == pre.commits@.push(txn_id));
            }
        }
        proof {
            assert(self.commits@ == set_added(pre.commits@, txn_id));
            assert(self.commits@.contains(txn_id)) by {
                if !pre.commits@.contains(txn_id) {
                    assert(self.commits@[pre.commits@.len() as int] == txn_id);
                }
            }
            assert(forall|a: int|
                0 <= a < self.pending@.len() ==> (#[trigger] self.pending@[a]).0 != txn_id);
            lemma_pending_absent(self.pending@, txn_id);
            assert forall|x: u64|
                pre.commits@.contains(x) implies self.commits@.contains(x) by {
                let a = choose|a: int| 0 <= a < pre.commits@.len() && pre.commits@[a] == x;
                assert(self.commits@[a] == x);
            }
        }
        retain_marks_ne(&mut self.read_marks, txn_id);
        retain_marks_ne(&mut self.write_marks, txn_id);
        // reconcile the canonical disk with the committed deletions
        let ghost mid2 = *self;
        let ln = layer_info.len();
        let mut li2: usize = 0;
        while li2 < ln
            invariant
                li2 <= ln,
                ln == layer_info@.len(),
                forall|a: int|
                    0 <= a < ln ==> (#[trigger] layer_info@[a]).0@ == pl[a].0@
                        && layer_info@[a].1 == (pl[a].1 is None),
                forall|a: int| 0 <= a < ln ==> (#[trigger] layer_info@[a]).0.wf(),
                ln == pl.len(),
                unique_delta_names(pl),
                self.canon == mid2.canon,
                self.deltas == mid2.deltas,
                self.commits == mid2.commits,
                self.pending == mid2.pending,
                self.finalized_at == mid2.finalized_at,
                self.read_marks == mid2.read_marks,
                self.write_marks == mid2.write_marks,
                self.stray == mid2.stray,
                self.txfs == mid2.txfs,
                self.on_disk == mid2.on_disk,
                forall|a: int|
                    0 <= a < li2 ==> ((pl[a].1 is None ==> tombstoned(*self, pl[a].0@)) && (
                    pl[a].1 is Some ==> !tombstoned(*self, pl[a].0@))),
                forall|k: Seq<char>|
                    (forall|a: int| 0 <= a < ln ==> pl[a].0@ != k) ==> tombstoned(*self, k)
                        == tombstoned(mid2, k),
            decreases ln - li2,
        {
            let ghost snap = *self;
            let deleted = layer_info[li2].1;
            if deleted {
                if !names_contain(&self.disk_removed, &layer_info[li2].0) {
                    let d = layer_info[li2].0.duplicate();
                    self.disk_removed.push(d);
                    proof {
                        lemma_name_views_push_contains(snap.disk_removed@, self.disk_removed@);
                    }
                }
            } else {
                remove_name(&mut self.disk_removed, &layer_info[li2].0);
                proof {
                    assert forall|x: Seq<char>|
                        tombstoned(*self, x) == (tombstoned(snap, x) && x != pl[
                            li2 as int
                        ].0@) by {
                        lemma_keys_removed_contains(
                            name_views(snap.disk_removed@),
                            pl[li2 as int].0@,
                            x,
                        );
                    }
                }
            }
            proof {
                let kk = pl[li2 as int].0@;
                assert forall|x: Seq<char>| x != kk implies tombstoned(*self, x) == tombstoned(
                    snap,
                    x,
                ) by {
                    if deleted {
                        if !tombstoned(snap, kk) {
                            lemma_name_views_push_contains(
                                snap.disk_removed@,
                                self.disk_removed@,
                            );
                        }
                    } else {
                        lemma_keys_removed_contains(name_views(snap.disk_removed@), kk, x);
                    }
                }
                assert(deleted ==> tombstoned(*self, kk)) by {
                    if deleted && !tombstoned(snap, kk) {
                        lemma_name_views_push_contains(snap.disk_removed@, self.disk_removed@);
                        assert(self.disk_removed@.last()@ == kk);
                    }
                }
                assert(!deleted ==> !tombstoned(*self, kk)) by {
                    if !deleted {
                        lemma_keys_removed_contains(name_views(snap.disk_removed@), kk, kk);
                    }
                }
                assert forall|a: int| 0 <= a < li2 + 1 implies ((pl[a].1 is None ==> tombstoned(
                    *self,
                    pl[a].0@,
                )) && (pl[a].1 is Some ==> !tombstoned(*self, pl[a].0@))) by {
                    if a < li2 {
                        assert(pl[a].0@ != kk);
                    }
                }
            }
            li2 = li2 + 1;
        }
        proof {
            assert forall|k: Seq<char>|
                self.vis(txn_id, k) == pre.vis(txn_id, k) && self.vis_committed(txn_id, k) == (
                match layer_get(pl, k) {
                    Some(v) => v,
                    None => pre.vis_committed(txn_id, k),
                }) by {
                assert(pending_layer(self.pending@, txn_id) is None);
                match pending_layer(pre.pending@, txn_id) {
                    Some(p) => {
                        assert(p@ == pl);
                        assert(deltas_get(self.deltas@, txn_id, k) == match layer_get(pl, k) {
                            Some(v) => Some(v),
                            None => deltas_get(pre.deltas@, txn_id, k),
                        });
                        assert(self.canon@ == pre.canon@);
                    },
                    None => {
                        assert(pl =~= Seq::<(Name, Option<DirEntry>)>::empty());
                        assert(layer_get(pl, k) is None);
                        assert(self.deltas@ == pre.deltas@);
                        assert(self.canon@ == pre.canon@);
                    },
                }
            }
        }
        let ghost mid3 = *self;
        // commit the children
        let mut first_err: Option<Error> = None;
        if recursive {
            proof {
                mid3.lemma_vis_names(txn_id);
            }
            let names = self.visible_names(txn_id);
            proof {
                assert forall|a: int, b: int|
                    0 <= a < b < names@.len() implies (#[trigger] names@[a])@
                    != (#[trigger] names@[b])@ by {
                    assert(name_views(names@)[a] == names@[a]@);
                    assert(name_views(names@)[b] == names@[b]@);
                }
            }
            let n = names.len();
            let mut i: usize = 0;
            while i < n
                invariant
                    recursive,
                    i <= n,
                    n == names@.len(),
                    self.wf(),
                    self.height() <= mid3.height(),
                    mid3.height() <= old(self).height(),
                    forall|a: int| 0 <= a < n ==> (#[trigger] names@[a]).wf(),
                    forall|a: int, b: int|
                        0 <= a < b < n ==> (#[trigger] names@[a])@ != (#[trigger] names@[b])@,
                    name_views(names@) == mid3.vis_names(txn_id),
                    self.commits == mid3.commits,
                    self.read_marks == mid3.read_marks,
                    self.write_marks == mid3.write_marks,
                    self.finalized_at == mid3.finalized_at,
                    self.disk_removed == mid3.disk_removed,
                    self.stray == mid3.stray,
                    self.txfs == mid3.txfs,
                    self.on_disk == mid3.on_disk,
                    pending_layer(self.pending@, txn_id) is None,
                    forall|k: Seq<char>| (self.vis(txn_id, k) is Some) <==> (mid3.vis(
                        txn_id,
                        k,
                    ) is Some),
                    forall|k: Seq<char>| same_entry_kind(
                        mid3.vis(txn_id, k),
                        self.vis(txn_id, k),
                    ),
                    first_err is None ==> forall|j: int|
                        0 <= j < i ==> (match self.vis(txn_id, (#[trigger] names@[j])@) {
                            Some(e) => entry_committed(e, txn_id),
                            None => true,
                        }),
                    match first_err {
                        Some(e) => e == Error::Conflict || e == Error::Outdated || e
                            == Error::NotFound,
                        None => true,
                    },
                decreases n - i,
            {
                let ghost before_step = *self;
                let loc = self.locate(txn_id, &names[i]);
                proof {
                    match loc {
                        Loc::Pending(pli, pei) => {
                            lemma_pending_at(self.pending@, pli as int);
                        },
                        _ => {},
                    }
                    assert(!(loc is Pending));
                }
                match loc {
                    Loc::Absent => {},
                    _ => {
                        let dummy = DirEntry::File(
                            File::create(txn_id, names[i].duplicate(), Vec::new()),
                        );
                        let e = self.swap_at(loc, txn_id, &names[i], dummy);
                        match e {
                            DirEntry::Dir(mut d) => {
                                proof {
                                    assert(self.height() >= 1);
                                    assert(entry_height(DirEntry::Dir(d)) == 1 + d.height());
                                }
                                let ghost d0 = d;
                                let cr = d.commit(txn_id, recursive);
                                self.swap_at(loc, txn_id, &names[i], DirEntry::Dir(d));
                                proof {
                                    if cr is Ok {
                                        assert(Dir::commit_effect(d0, d, txn_id, recursive, cr));
                                        assert(d.commits@ == set_added(d0.commits@, txn_id));
                                        assert(d.lock_committed(txn_id)) by {
                                            if !d0.commits@.contains(txn_id) {
                                                assert(d.commits@[d0.commits@.len() as int]
                                                    == txn_id);
                                            }
                                        }
                                        assert(pending_layer(d.pending@, txn_id) is None);
                                        assert(children_committed(d, txn_id));
                                        assert(entry_committed(DirEntry::Dir(d), txn_id));
                                    }
                                }
                                match cr {
                                    Ok(()) => {},
                                    Err(e2) => {
                                        if matches!(first_err, Option::<Error>::None) {
                                            first_err = Some(e2);
                                        }
                                    },
                                }
                            },
                            DirEntry::File(mut f) => {
                                let ghost f0 = f;
                                let cr = f.commit(txn_id);
                                self.swap_at(loc, txn_id, &names[i], DirEntry::File(f));
                                proof {
                                    if cr is Ok {
                                        assert(f.lock_committed(txn_id)) by {
                                            if !f0.commits@.contains(txn_id) {
                                                assert(f.commits@[f0.commits@.len() as int]
                                                    == txn_id);
                                            }
                                        }
                                        assert(entry_committed(DirEntry::File(f), txn_id));
                                    }
                                }
                                match cr {
                                    Ok(()) => {},
                                    Err(e2) => {
                                        if matches!(first_err, Option::<Error>::None) {
                                            first_err = Some(e2);
                                        }
                                    },
                                }
                            },
                        }
                    },
                }
                proof {
                    assert forall|j: int|
                        first_err is None && 0 <= j < i + 1 implies (match self.vis(
                        txn_id,
                        (#[trigger] names@[j])@,
                    ) {
                        Some(e) => entry_committed(e, txn_id),
                        None => true,
                    }) by {
                        if j < i {
                            assert(names@[j]@ != names@[i as int]@);
                            assert(self.vis(txn_id, names@[j]@) == before_step.vis(
                                txn_id,
                                names@[j]@,
                            ));
                        }
                    }
                }
                i = i + 1;
            }
            proof {
                if first_err is None {
                    assert(children_committed(*self, txn_id)) by {
                        assert forall|i2: int, j2: int|
                            0 <= i2 < self.deltas@.len() && 0 <= j2
                                < self.deltas@[i2].1@.len()
                                && (#[trigger] self.deltas@[i2].1@[j2]).1 is Some && self.vis(
                                txn_id,
                                self.deltas@[i2].1@[j2].0@,
                            ) == self.deltas@[i2].1@[j2].1 implies entry_committed(
                            self.deltas@[i2].1@[j2].1->Some_0,
                            txn_id,
                        ) by {
                            let k = self.deltas@[i2].1@[j2].0@;
                            assert(mid3.vis(txn_id, k) is Some);
                            assert(mid3.vis_names(txn_id).contains(k));
                            let j = choose|j: int|
                                0 <= j < mid3.vis_names(txn_id).len() && mid3.vis_names(
                                    txn_id,
                                )[j] == k;
                            assert(names@[j]@ == k);
                        }
                        assert forall|i2: int|
                            0 <= i2 < self.canon@.len() && self.vis(
                                txn_id,
                                (#[trigger] self.canon@[i2]).0@,
                            ) == Some(self.canon@[i2].1) implies entry_committed(
                            self.canon@[i2].1,
                            txn_id,
                        ) by {
                            let k = self.canon@[i2].0@;
                            assert(mid3.vis(txn_id, k) is Some);
                            assert(mid3.vis_names(txn_id).contains(k));
                            let j = choose|j: int|
                                0 <= j < mid3.vis_names(txn_id).len() && mid3.vis_names(
                                    txn_id,
                                )[j] == k;
                            assert(names@[j]@ == k);
                        }
                    }
                }
            }
        }
        proof {
            assert forall|k: Seq<char>|
                (forall|a: int| 0 <= a < pl.len() ==> pl[a].0@ != k) implies tombstoned(
                *self,
                k,
            ) == tombstoned(pre, k) by {
                assert(tombstoned(mid2, k) == tombstoned(pre, k));
            }
        }
        proof {
            let postd = *self;
            assert(postd.commits@ == set_added(pre.commits@, txn_id));
            assert(pending_layer(postd.pending@, txn_id) is None);
            assert(forall|k: Seq<char>|
                (postd.vis(txn_id, k) is Some) <==> (pre.vis(txn_id, k) is Some));
            assert(forall|k: Seq<char>|
                same_entry_kind(pre.vis(txn_id, k), postd.vis(txn_id, k)));
            assert(postd.read_marks@ == marks_ne(pre.read_marks@, txn_id));
            assert(postd.write_marks@ == marks_ne(pre.write_marks@, txn_id));
            assert(postd.finalized_at == pre.finalized_at);
            assert(postd.stray == pre.stray);
            assert(postd.txfs == pre.txfs && postd.on_disk == pre.on_disk);
            assert(forall|a: int|
                0 <= a < pl.len() ==> ((pl[a].1 is None ==> tombstoned(postd, pl[a].0@)) && (
                pl[a].1 is Some ==> !tombstoned(postd, pl[a].0@))));
            assert(!recursive ==> first_err is None);
            assert forall|tp: u64, k: Seq<char>|
                txn_id <= tp && no_delta_between(postd.deltas@, txn_id, tp) implies
                postd.vis_committed(tp, k) == postd.vis_committed(txn_id, k) by {
                lemma_deltas_get_window(postd.deltas@, txn_id, tp, k);
            }
            if !recursive {
                assert(postd == mid3);
            }
        }
        let r: Result<()> = match first_err {
            Some(e) => Err(e),
            None => Ok(()),
        };
        proof {
            lemma_commit_effect_intro(pre, *self, txn_id, recursive, r);
        }
        r
    }

    /// The first position whose delta transaction exceeds `t`.
    fn delta_insert_pos(&self, t: u64) -> (pos: usize)
        requires
            sorted_strict_deltas(self.deltas@),
            forall|i: int| 0 <= i < self.deltas@.len() ==> self.deltas@[i].0 != t,
        ensures
            pos <= self.deltas@.len(),
            forall|i: int| 0 <= i < pos ==> self.deltas@[i].0 < t,
            forall|i: int| pos <= i < self.deltas@.len() ==> self.deltas@[i].0 > t,
    {
        let n = self.deltas.len();
        let mut pos: usize = 0;
        while pos < n
            invariant
                pos <= n,
                n == self.deltas@.len(),
                sorted_strict_deltas(self.deltas@),
                forall|i: int| 0 <= i < n ==> self.deltas@[i].0 != t,
                forall|i: int| 0 <= i < pos ==> self.deltas@[i].0 < t,
            decreases n - pos,
        {
            if self.deltas[pos].0 > t {
                proof {
                    assert forall|i: int|
                        pos < i < self.deltas@.len() implies self.deltas@[pos as int].0
                        < self.deltas@[i].0 by {
                        assert(sorted_strict_deltas(self.deltas@));
                    }
                }
                return pos;
            }
            pos = pos + 1;
        }
        pos
    }
}

/// Removing the unique layer of `t` leaves no layer of `t`, and other
/// transactions' layers untouched.
proof fn lemma_pending_remove(ps: Seq<(u64, Delta)>, li: int, t: u64)
    requires
        unique_layer_txns(ps),
        0 <= li < ps.len(),
        ps[li].0 == t,
    ensures
        pending_layer(ps.remove(li), t) is None,
        forall|t2: u64|
            t2 != t ==> pending_layer(ps.remove(li), t2) == #[trigger] pending_layer(ps, t2),
    decreases ps.len(),
{
    let ps2 = ps.remove(li);
    if li == 0 {
        assert(ps2 =~= ps.drop_first());
        assert(forall|j: int| 0 <= j < ps2.len() ==> ps2[j] == ps[j + 1]);
        assert(forall|j: int| 0 <= j < ps2.len() ==> ps2[j].0 != t);
        lemma_pending_absent(ps2, t);
        assert forall|t2: u64| t2 != t implies pending_layer(ps2, t2) == pending_layer(
            ps,
            t2,
        ) by {
            assert(pending_layer(ps, t2) == pending_layer(ps.drop_first(), t2));
        }
    } else {
        assert(ps2[0] == ps[0]);
        assert(ps2.drop_first() =~= ps.drop_first().remove(li - 1));
        assert(ps.drop_first()[li - 1] == ps[li]);
        assert(forall|a: int, b: int|
            0 <= a < b < ps.drop_first().len() ==> ps.drop_first()[a] == ps[a + 1]
                && ps.drop_first()[b] == ps[b + 1]);
        lemma_pending_remove(ps.drop_first(), li - 1, t);
        assert forall|t2: u64| t2 != t implies pending_layer(ps2, t2) == pending_layer(
            ps,
            t2,
        ) by {
            if ps[0].0 == t2 {
                assert(pending_layer(ps2, t2) == Some(ps2[0].1));
            } else {
                assert(pending_layer(ps2, t2) == pending_layer(ps2.drop_first(), t2));
                assert(pending_layer(ps, t2) == pending_layer(ps.drop_first(), t2));
            }
        }
        assert(pending_layer(ps2, t) is None) by {
            assert(ps2[0].0 != t);
            assert(pending_layer(ps2, t) == pending_layer(ps2.drop_first(), t));
        }
    }
}

proof fn lemma_pending_absent(ps: Seq<(u64, Delta)>, t: u64)
    requires
        forall|j: int| 0 <= j < ps.len() ==> ps[j].0 != t,
    ensures
        pending_layer(ps, t) is None,
    decreases ps.len(),
{
    if ps.len() > 0 {
        assert(forall|j: int|
            0 <= j < ps.drop_first().len() ==> ps.drop_first()[j] == ps[j + 1]);
        lemma_pending_absent(ps.drop_first(), t);
    }
}

/// Inserting the layer of `t` at its sorted position makes it decide the
/// committed lookup at `t`, falling back to the older layers.
proof fn lemma_deltas_get_insert(ds: Seq<(u64, Delta)>, pos: int, x: (u64, Delta), t: u64)
    requires
        0 <= pos <= ds.len(),
        x.0 == t,
        forall|i: int| 0 <= i < pos ==> ds[i].0 < t,
        forall|i: int| pos <= i < ds.len() ==> ds[i].0 > t,
    ensures
        forall|k: Seq<char>|
            deltas_get(ds.insert(pos, x), t, k) == match layer_get(x.1@, k) {
                Some(v) => Some(v),
                None => #[trigger] deltas_get(ds, t, k),
            },
    decreases ds.len(),
{
    let ds2 = ds.insert(pos, x);
    if pos == ds.len() {
        assert(ds2.last() == x);
        assert(ds2.drop_last() =~= ds);
    } else {
        assert(ds2.last() == ds.last());
        assert(ds.last().0 > t);
        assert(ds2.drop_last() =~= ds.drop_last().insert(pos, x));
        assert(forall|i: int|
            0 <= i < ds.drop_last().len() ==> ds.drop_last()[i] == ds[i]);
        lemma_deltas_get_insert(ds.drop_last(), pos, x, t);
        assert forall|k: Seq<char>|
            deltas_get(ds2, t, k) == match layer_get(x.1@, k) {
                Some(v) => Some(v),
                None => deltas_get(ds, t, k),
            } by {
            assert(deltas_get(ds2, t, k) == deltas_get(ds2.drop_last(), t, k));
            assert(deltas_get(ds, t, k) == deltas_get(ds.drop_last(), t, k));
        }
    }
}

/// Appending one name extends the tombstone set by exactly its view.
proof fn lemma_name_views_push_contains(pre: Seq<Name>, post: Seq<Name>)
    requires
        post.len() == pre.len() + 1,
        forall|i: int| 0 <= i < pre.len() ==> post[i] == pre[i],
    ensures
        forall|x: Seq<char>|
            name_views(post).contains(x) == (name_views(pre).contains(x) || x == post.last()@),
{
    assert forall|x: Seq<char>|
        name_views(post).contains(x) == (name_views(pre).contains(x) || x
        == post.last()@) by {
        if name_views(post).contains(x) {
            let i = choose|i: int| 0 <= i < post.len() && name_views(post)[i] == x;
            if i < pre.len() {
                assert(name_views(pre)[i] == x);
            }
        }
        if name_views(pre).contains(x) {
            let i = choose|i: int| 0 <= i < pre.len() && name_views(pre)[i] == x;
            assert(name_views(post)[i] == x);
        }
        if x == post.last()@ {
            assert(name_views(post)[post.len() - 1] == x);
        }
    }
}

/// Assemble [`Dir::commit_effect`] from its parts.
proof fn lemma_commit_effect_intro(pre: Dir, post: Dir, t: u64, recursive: bool, r: Result<()>)
    requires
        post.commits@ == set_added(pre.commits@, t),
        pending_layer(post.pending@, t) is None,
        forall|k: Seq<char>| (post.vis(t, k) is Some) <==> (pre.vis(t, k) is Some),
        forall|k: Seq<char>| same_entry_kind(pre.vis(t, k), post.vis(t, k)),
        forall|tp: u64, k: Seq<char>|
            t <= tp && no_delta_between(post.deltas@, t, tp) ==> #[trigger] post.vis_committed(
                tp,
                k,
            ) == post.vis_committed(t, k),
        !recursive ==> post.canon == pre.canon && (forall|k: Seq<char>|
            post.vis_committed(t, k) == (match layer_get(commit_pl(pre, t), k) {
                Some(v) => v,
                None => pre.vis_committed(t, k),
            })),
        (recursive && r is Ok) ==> children_committed(post, t),
        post.read_marks@ == marks_ne(pre.read_marks@, t),
        post.write_marks@ == marks_ne(pre.write_marks@, t),
        post.finalized_at == pre.finalized_at,
        post.stray == pre.stray,
        post.txfs == pre.txfs,
        post.on_disk == pre.on_disk,
        forall|a: int|
            0 <= a < commit_pl(pre, t).len() ==> ((commit_pl(pre, t)[a].1 is None ==> tombstoned(
                post,
                commit_pl(pre, t)[a].0@,
            )) && (commit_pl(pre, t)[a].1 is Some ==> !tombstoned(post, commit_pl(pre, t)[a].0@))),
        forall|k: Seq<char>|
            (forall|a: int| 0 <= a < commit_pl(pre, t).len() ==> commit_pl(pre, t)[a].0@ != k)
                ==> tombstoned(post, k) == tombstoned(pre, k),
        !recursive ==> r is Ok,
        r is Err ==> recursive && (r matches Err(e) && (e == Error::Conflict || e
            == Error::Outdated || e == Error::NotFound)),
    ensures
        Dir::commit_effect(pre, post, t, recursive, r),
{
}

/// The pending version a commit at `t` merges (empty if none).
pub open spec fn commit_pl(pre: Dir, t: u64) -> Seq<(Name, Option<DirEntry>)> {
    match pending_layer(pre.pending@, t) {
        Some(p) => p@,
        None => Seq::<(Name, Option<DirEntry>)>::empty(),
    }
}

/// The layers of `s` not belonging to transaction `t`, order kept.
pub open spec fn layers_ne(ps: Seq<(u64, Delta)>, t: u64) -> Seq<(u64, Delta)>
    decreases ps.len(),
{
    if ps.len() == 0 {
        Seq::empty()
    } else if ps[0].0 == t {
        layers_ne(ps.drop_first(), t)
    } else {
        seq![ps[0]] + layers_ne(ps.drop_first(), t)
    }
}

/// The layers of `s` belonging to transactions after `t`, order kept.
pub open spec fn layers_gt(ps: Seq<(u64, Delta)>, t: u64) -> Seq<(u64, Delta)>
    decreases ps.len(),
{
    if ps.len() == 0 {
        Seq::empty()
    } else if ps[0].0 > t {
        seq![ps[0]] + layers_gt(ps.drop_first(), t)
    } else {
        layers_gt(ps.drop_first(), t)
    }
}

/// The reservations of `s` held by transactions after `t`, order kept.
pub open spec fn marks_gt(s: Seq<(u64, MarkRange)>, t: u64) -> Seq<(u64, MarkRange)>
    decreases s.len(),
{
    if s.len() == 0 {
        Seq::empty()
    } else if s[0].0 > t {
        seq![s[0]] + marks_gt(s.drop_first(), t)
    } else {
        marks_gt(s.drop_first(), t)
    }
}

/// Delete, in place, every layer of transaction `t`.
fn retain_layers_ne(v: &mut Vec<(u64, Delta)>, t: u64)
    ensures
        final(v)@ == layers_ne(old(v)@, t),
{
    let ghost v0 = v@;
    let mut i: usize = 0;
    proof {
        assert(v@.subrange(0, v@.len() as int) =~= v0);
        assert(v@.subrange(0, 0) + layers_ne(v@.subrange(0, v@.len() as int), t) =~= layers_ne(
            v0,
            t,
        ));
    }
    while i < v.len()
        invariant
            i <= v@.len(),
            layers_ne(v0, t) == v@.subrange(0, i as int) + layers_ne(
                v@.subrange(i as int, v@.len() as int),
                t,
            ),
            forall|j: int| 0 <= j < i ==> v@[j].0 != t,
        decreases v@.len() - i,
    {
        let ghost vc = v@;
        let ghost suffix = vc.subrange(i as int, vc.len() as int);
        if v[i].0 == t {
            v.remove(i);
            proof {
                assert(suffix[0] == vc[i as int]);
                assert(layers_ne(suffix, t) == layers_ne(suffix.drop_first(), t));
                assert(v@.subrange(0, i as int) =~= vc.subrange(0, i as int));
                assert(v@.subrange(i as int, v@.len() as int) =~= suffix.drop_first());
            }
        } else {
            proof {
                assert(suffix[0] == vc[i as int]);
                assert(layers_ne(suffix, t) == seq![suffix[0]] + layers_ne(
                    suffix.drop_first(),
                    t,
                ));
                assert(vc.subrange(0, i as int) + (seq![suffix[0]] + layers_ne(
                    suffix.drop_first(),
                    t,
                )) =~= vc.subrange(0, i + 1) + layers_ne(suffix.drop_first(), t));
                assert(suffix.drop_first() =~= vc.subrange(i + 1, vc.len() as int));
            }
            i = i + 1;
        }
    }
    proof {
        assert(v@.subrange(v@.len() as int, v@.len() as int).len() == 0);
        assert(layers_ne(v@.subrange(v@.len() as int, v@.len() as int), t) =~= Seq::<
            (u64, Delta),
        >::empty());
        assert(v@.subrange(0, v@.len() as int) =~= v@);
    }
}

/// Delete, in place, every layer of a transaction at or before `t`.
fn retain_layers_gt(v: &mut Vec<(u64, Delta)>, t: u64)
    ensures
        final(v)@ == layers_gt(old(v)@, t),
{
    let ghost v0 = v@;
    let mut i: usize = 0;
    proof {
        assert(v@.subrange(0, v@.len() as int) =~= v0);
        assert(v@.subrange(0, 0) + layers_gt(v@.subrange(0, v@.len() as int), t) =~= layers_gt(
            v0,
            t,
        ));
    }
    while i < v.len()
        invariant
            i <= v@.len(),
            layers_gt(v0, t) == v@.subrange(0, i as int) + layers_gt(
                v@.subrange(i as int, v@.len() as int),
                t,
            ),
            forall|j: int| 0 <= j < i ==> v@[j].0 > t,
        decreases v@.len() - i,
    {
        let ghost vc = v@;
        let ghost suffix = vc.subrange(i as int, vc.len() as int);
        if v[i].0 <= t {
            v.remove(i);
            proof {
                assert(suffix[0] == vc[i as int]);
                assert(layers_gt(suffix, t) == layers_gt(suffix.drop_first(), t));
                assert(v@.subrange(0, i as int) =~= vc.subrange(0, i as int));
                assert(v@.subrange(i as int, v@.len() as int) =~= suffix.drop_first());
            }
        } else {
            proof {
                assert(suffix[0] == vc[i as int]);
                assert(layers_gt(suffix, t) == seq![suffix[0]] + layers_gt(
                    suffix.drop_first(),
                    t,
                ));
                assert(vc.subrange(0, i as int) + (seq![suffix[0]] + layers_gt(
                    suffix.drop_first(),
                    t,
                )) =~= vc.subrange(0, i + 1) + layers_gt(suffix.drop_first(), t));
                assert(suffix.drop_first() =~= vc.subrange(i + 1, vc.len() as int));
            }
            i = i + 1;
        }
    }
    proof {
        assert(v@.subrange(v@.len() as int, v@.len() as int).len() == 0);
        assert(layers_gt(v@.subrange(v@.len() as int, v@.len() as int), t) =~= Seq::<
            (u64, Delta),
        >::empty());
        assert(v@.subrange(0, v@.len() as int) =~= v@);
    }
}

/// Delete, in place, every reservation of a transaction at or before `t`.
fn retain_marks_gt(v: &mut Vec<(u64, MarkRange)>, t: u64)
    ensures
        final(v)@ == marks_gt(old(v)@, t),
{
    let ghost v0 = v@;
    let mut i: usize = 0;
    proof {
        assert(v@.subrange(0, v@.len() as int) =~= v0);
        assert(v@.subrange(0, 0) + marks_gt(v@.subrange(0, v@.len() as int), t) =~= marks_gt(
            v0,
            t,
        ));
    }
    while i < v.len()
        invariant
            i <= v@.len(),
            marks_gt(v0, t) == v@.subrange(0, i as int) + marks_gt(
                v@.subrange(i as int, v@.len() as int),
                t,
            ),
            forall|j: int| 0 <= j < i ==> v@[j].0 > t,
        decreases v@.len() - i,
    {
        let ghost vc = v@;
        let ghost suffix = vc.subrange(i as int, vc.len() as int);
        if v[i].0 <= t {
            v.remove(i);
            proof {
                assert(suffix[0] == vc[i as int]);
                assert(marks_gt(suffix, t) == marks_gt(suffix.drop_first(), t));
                assert(v@.subrange(0, i as int) =~= vc.subrange(0, i as int));
                assert(v@.subrange(i as int, v@.len() as int) =~= suffix.drop_first());
            }
        } else {
            proof {
                assert(suffix[0] == vc[i as int]);
                assert(marks_gt(suffix, t) == seq![suffix[0]] + marks_gt(
                    suffix.drop_first(),
                    t,
                ));
                assert(vc.subrange(0, i as int) + (seq![suffix[0]] + marks_gt(
                    suffix.drop_first(),
                    t,
                )) =~= vc.subrange(0, i + 1) + marks_gt(suffix.drop_first(), t));
                assert(suffix.drop_first() =~= vc.subrange(i + 1, vc.len() as int));
            }
            i = i + 1;
        }
    }
    proof {
        assert(v@.subrange(v@.len() as int, v@.len() as int).len() == 0);
        assert(marks_gt(v@.subrange(v@.len() as int, v@.len() as int), t) =~= Seq::<
            (u64, MarkRange),
        >::empty());
        assert(v@.subrange(0, v@.len() as int) =~= v@);
    }
}

/// Every layer of a transaction after `t` is kept by `layers_gt`.
proof fn lemma_layers_gt_complete(ps: Seq<(u64, Delta)>, t: u64, i: int)
    requires
        0 <= i < ps.len(),
        ps[i].0 > t,
    ensures
        layers_gt(ps, t).contains(ps[i]),
    decreases ps.len(),
{
    if i == 0 {
        let f = seq![ps[0]] + layers_gt(ps.drop_first(), t);
        assert(f[0] == ps[0]);
    } else {
        assert(ps.drop_first()[i - 1] == ps[i]);
        lemma_layers_gt_complete(ps.drop_first(), t, i - 1);
        let rest = layers_gt(ps.drop_first(), t);
        let j = choose|j: int| 0 <= j < rest.len() && rest[j] == ps[i];
        if ps[0].0 > t {
            let f = seq![ps[0]] + rest;
            assert(f[j + 1] == rest[j]);
        }
    }
}

/// True if the model shows a directory's canonical disk directory holds
/// nothing at all: no entry record anywhere that could have put a child on
/// disk, no hidden version subtree, and no stray version directory.
pub open spec fn dir_disk_empty(d: Dir) -> bool {
    &&& !d.txfs
    &&& d.stray@.len() == 0
    &&& d.canon@.len() == 0
    &&& forall|i: int, j: int|
        #![trigger d.deltas@[i].1@[j]]
        0 <= i < d.deltas@.len() && 0 <= j < d.deltas@[i].1@.len() ==> d.deltas@[i].1@[j].1
            is None
    &&& forall|i: int, j: int|
        #![trigger d.pending@[i].1@[j]]
        0 <= i < d.pending@.len() && 0 <= j < d.pending@[i].1@.len() ==> d.pending@[i].1@[j].1
            is None
}

/// True if a canonical-layer record sweeps the canonical subdirectory
/// named `x` at a finalize at `t` (see [`swept_dir`]).
pub open spec fn canon_swept(pre: Dir, t: u64, x: Seq<char>) -> bool {
    exists|i: int|
        0 <= i < pre.canon@.len() && (#[trigger] pre.canon@[i]).0@ == x && (pre.canon@[i].1
            matches DirEntry::Dir(c) && dir_disk_empty(c)) && pre.vis_committed(t, x) is None
}

/// True if a delta-layer record sweeps the canonical subdirectory named
/// `x` at a finalize at `t` (see [`swept_dir`]).
pub open spec fn delta_swept(pre: Dir, t: u64, x: Seq<char>) -> bool {
    exists|i: int, j: int|
        #![trigger pre.deltas@[i].1@[j]]
        0 <= i < pre.deltas@.len() && 0 <= j < pre.deltas@[i].1@.len()
            && pre.deltas@[i].1@[j].0@ == x && (pre.deltas@[i].1@[j].1 matches Some(e) && e
            matches DirEntry::Dir(c) && dir_disk_empty(c)) && pre.vis_committed(t, x) is None
}

/// True if a finalize at `t` sweeps the canonical subdirectory named `x`
/// from disk: some record holds, under that name, a sub-directory that the
/// committed state at `t` no longer reaches and whose disk directory the
/// model shows empty.
pub open spec fn swept_dir(pre: Dir, t: u64, x: Seq<char>) -> bool {
    canon_swept(pre, t, x) || delta_swept(pre, t, x)
}

/// The delta-layer sweeps considered up to position `(di, dj)` of the
/// scan, in layer order.
spec fn delta_swept_upto(pre: Dir, t: u64, x: Seq<char>, di: int, dj: int) -> bool {
    exists|i: int, j: int|
        #![trigger pre.deltas@[i].1@[j]]
        0 <= i < pre.deltas@.len() && 0 <= j < pre.deltas@[i].1@.len() && (i < di || (i == di
            && j < dj)) && pre.deltas@[i].1@[j].0@ == x && (pre.deltas@[i].1@[j].1 matches
        Some(e) && e matches DirEntry::Dir(c) && dir_disk_empty(c)) && pre.vis_committed(
            t,
            x,
        ) is None
}

/// Decide whether every record of a layer stack is a deletion.
fn stack_all_none(v: &Vec<(u64, Delta)>) -> (r: bool)
    ensures
        r == forall|i: int, j: int|
            #![trigger v@[i].1@[j]]
            0 <= i < v@.len() && 0 <= j < v@[i].1@.len() ==> v@[i].1@[j].1 is None,
{
    let n = v.len();
    let mut i: usize = 0;
    while i < n
        invariant
            i <= n,
            n == v@.len(),
            forall|a: int, b: int|
                #![trigger v@[a].1@[b]]
                0 <= a < i && 0 <= b < v@[a].1@.len() ==> v@[a].1@[b].1 is None,
        decreases n - i,
    {
        let m = v[i].1.len();
        let mut j: usize = 0;
        while j < m
            invariant
                i < n,
                n == v@.len(),
                j <= m,
                m == v@[i as int].1@.len(),
                forall|a: int, b: int|
                    #![trigger v@[a].1@[b]]
                    0 <= a < i && 0 <= b < v@[a].1@.len() ==> v@[a].1@[b].1 is None,
                forall|b: int| 0 <= b < j ==> (#[trigger] v@[i as int].1@[b]).1 is None,
            decreases m - j,
        {
            if v[i].1[j].1.is_some() {
                return false;
            }
            j = j + 1;
        }
        i = i + 1;
    }
    true
}

/// Decide whether the model shows a directory's canonical disk directory
/// empty.
fn dir_disk_empty_exec(d: &Dir) -> (r: bool)
    ensures
        r == dir_disk_empty(*d),
{
    if d.txfs {
        return false;
    }
    if d.stray.len() > 0 {
        return false;
    }
    if d.canon.len() > 0 {
        return false;
    }
    if !stack_all_none(&d.deltas) {
        return false;
    }
    if !stack_all_none(&d.pending) {
        return false;
    }
    true
}

/// Decide whether some record of a canonical layer is a file that still
/// holds version files.
fn canon_has_dropped(v: &Vec<(Name, DirEntry)>) -> (r: bool)
    ensures
        r == exists|i: int|
            0 <= i < v@.len() && lay_rec_dropped(Some((#[trigger] v@[i]).1)),
{
    let n = v.len();
    let mut i: usize = 0;
    while i < n
        invariant
            i <= n,
            n == v@.len(),
            forall|a: int| 0 <= a < i ==> !lay_rec_dropped(Some((#[trigger] v@[a]).1)),
        decreases n - i,
    {
        let hit = match &v[i].1 {
            DirEntry::File(f) => f.versions.len() > 0 && f.version_dir,
            DirEntry::Dir(_) => false,
        };
        if hit {
            proof {
                assert(lay_rec_dropped(Some(v@[i as int].1)));
            }
            return true;
        }
        i = i + 1;
    }
    false
}

/// Decide whether some record of a layer stack is a file that still holds
/// version files.
fn stack_has_dropped(v: &Vec<(u64, Delta)>) -> (r: bool)
    ensures
        r == exists|i: int, j: int|
            #![trigger v@[i].1@[j]]
            0 <= i < v@.len() && 0 <= j < v@[i].1@.len() && lay_rec_dropped(v@[i].1@[j].1),
{
    let n = v.len();
    let mut i: usize = 0;
    while i < n
        invariant
            i <= n,
            n == v@.len(),
            forall|a: int, b: int|
                #![trigger v@[a].1@[b]]
                0 <= a < i && 0 <= b < v@[a].1@.len() ==> !lay_rec_dropped(v@[a].1@[b].1),
        decreases n - i,
    {
        let m = v[i].1.len();
        let mut j: usize = 0;
        while j < m
            invariant
                i < n,
                n == v@.len(),
                j <= m,
                m == v@[i as int].1@.len(),
                forall|a: int, b: int|
                    #![trigger v@[a].1@[b]]
                    0 <= a < i && 0 <= b < v@[a].1@.len() ==> !lay_rec_dropped(v@[a].1@[b].1),
                forall|b: int|
                    0 <= b < j ==> !lay_rec_dropped((#[trigger] v@[i as int].1@[b]).1),
            decreases m - j,
        {
            let hit = match &v[i].1[j].1 {
                Some(e) => match e {
                    DirEntry::File(f) => f.versions.len() > 0 && f.version_dir,
                    DirEntry::Dir(_) => false,
                },
                None => false,
            };
            if hit {
                proof {
                    assert(lay_rec_dropped(v@[i as int].1@[j as int].1));
                }
                return true;
            }
            j = j + 1;
        }
        i = i + 1;
    }
    false
}

/// Dropping layers keeps the other transactions' lookups: after removing
/// the layers at or before `t`, only later transactions find theirs.
proof fn lemma_layers_gt_pending(ps: Seq<(u64, Delta)>, t: u64, t2: u64)
    ensures
        t2 > t ==> pending_layer(layers_gt(ps, t), t2) == pending_layer(ps, t2),
        t2 <= t ==> pending_layer(layers_gt(ps, t), t2) is None,
    decreases ps.len(),
{
    if ps.len() > 0 {
        lemma_layers_gt_pending(ps.drop_first(), t, t2);
        if ps[0].0 > t {
            let f = seq![ps[0]] + layers_gt(ps.drop_first(), t);
            assert(f[0] == ps[0]);
            assert(f.drop_first() =~= layers_gt(ps.drop_first(), t));
        }
    }
}

/// Dropping one transaction's layer keeps the other transactions' lookups.
proof fn lemma_layers_ne_pending(ps: Seq<(u64, Delta)>, t: u64, t2: u64)
    ensures
        t2 != t ==> pending_layer(layers_ne(ps, t), t2) == pending_layer(ps, t2),
        pending_layer(layers_ne(ps, t), t) is None,
    decreases ps.len(),
{
    if ps.len() > 0 {
        lemma_layers_ne_pending(ps.drop_first(), t, t2);
        if ps[0].0 != t {
            let f = seq![ps[0]] + layers_ne(ps.drop_first(), t);
            assert(f[0] == ps[0]);
            assert(f.drop_first() =~= layers_ne(ps.drop_first(), t));
        }
    }
}

impl Dir {
    /// Record, as strays, the version subdirectories of the files that the
    /// version layer at `li` still tracks, ahead of dropping that layer:
    /// their version files would otherwise go untracked on disk.
    fn collect_strays(&mut self, li: usize)
        requires
            old(self).wf(),
            li < old(self).pending@.len(),
        ensures
            final(self).wf(),
            final(self).canon == old(self).canon,
            final(self).deltas == old(self).deltas,
            final(self).commits == old(self).commits,
            final(self).pending == old(self).pending,
            final(self).finalized_at == old(self).finalized_at,
            final(self).read_marks == old(self).read_marks,
            final(self).write_marks == old(self).write_marks,
            final(self).disk_removed == old(self).disk_removed,
            final(self).txfs == old(self).txfs,
            final(self).on_disk == old(self).on_disk,
            forall|x: Seq<char>|
                name_views(final(self).stray@).contains(x) <==> (name_views(
                    old(self).stray@,
                ).contains(x) || (exists|j: int|
                    0 <= j < old(self).pending@[li as int].1@.len() && (#[trigger] old(
                        self,
                    ).pending@[li as int].1@[j]).0@ == x && lay_rec_dropped(
                        old(self).pending@[li as int].1@[j].1,
                    ))),
    {
        let ln = self.pending[li].1.len();
        let mut ri: usize = 0;
        while ri < ln
            invariant
                li < self.pending@.len(),
                ri <= ln,
                ln == self.pending@[li as int].1@.len(),
                self.wf(),
                self.canon == old(self).canon,
                self.deltas == old(self).deltas,
                self.commits == old(self).commits,
                self.pending == old(self).pending,
                self.finalized_at == old(self).finalized_at,
                self.read_marks == old(self).read_marks,
                self.write_marks == old(self).write_marks,
                self.disk_removed == old(self).disk_removed,
                self.txfs == old(self).txfs,
                self.on_disk == old(self).on_disk,
                forall|x: Seq<char>|
                    name_views(self.stray@).contains(x) <==> (name_views(
                        old(self).stray@,
                    ).contains(x) || (exists|j: int|
                        0 <= j < ri && (#[trigger] self.pending@[li as int].1@[j]).0@ == x
                            && lay_rec_dropped(self.pending@[li as int].1@[j].1))),
            decreases ln - ri,
        {
            let is_drop = match &self.pending[li].1[ri].1 {
                Some(e) => match e {
                    DirEntry::File(f) => f.versions.len() > 0 && f.version_dir,
                    DirEntry::Dir(_) => false,
                },
                None => false,
            };
            proof {
                assert(is_drop == lay_rec_dropped(self.pending@[li as int].1@[ri as int].1));
            }
            if is_drop {
                if !names_contain(&self.stray, &self.pending[li].1[ri].0) {
                    let nm = self.pending[li].1[ri].0.duplicate();
                    let ghost s0 = self.stray@;
                    self.stray.push(nm);
                    proof {
                        lemma_name_views_push_contains(s0, self.stray@);
                        assert(self.stray@.last()@ == self.pending@[li as int].1@[
                            ri as int
                        ].0@);
                    }
                }
            }
            ri = ri + 1;
        }
    }

    /// What a permitted rollback does (see [`Dir::rollback`]).
    pub open spec fn rollback_effect(pre: Dir, post: Dir, t: u64, recursive: bool, r: Result<
        (),
    >) -> bool {
        &&& post.pending@ == layers_ne(pre.pending@, t)
        &&& post.read_marks@ == marks_ne(pre.read_marks@, t)
        &&& post.write_marks@ == marks_ne(pre.write_marks@, t)
        &&& post.commits == pre.commits
        &&& post.finalized_at == pre.finalized_at
        &&& post.disk_removed == pre.disk_removed
        &&& post.txfs == pre.txfs
        &&& post.on_disk == pre.on_disk
        &&& forall|x: Seq<char>| #![trigger name_views(post.stray@).contains(x)]
            name_views(post.stray@).contains(x) <==> (name_views(pre.stray@).contains(x)
                || pending_dropped_file(pre, t, x))
        &&& (!recursive ==> post.canon == pre.canon && post.deltas == pre.deltas)
        &&& forall|k: Seq<char>| (post.vis(t, k) is Some) <==> (pre.vis_committed(t, k) is Some)
        &&& ((recursive && r is Ok) ==> children_rolled_back(post, t))
        &&& (!recursive ==> r is Ok)
        &&& (r is Err ==> recursive && (r matches Err(e) && (e == Error::Conflict || e
            == Error::Outdated || e == Error::NotFound)))
    }

    /// The outcome of `rollback(t, recursive)` (see [`Dir::rollback`]).
    pub open spec fn rollback_post(pre: Dir, post: Dir, t: u64, recursive: bool, r: Result<
        (),
    >) -> bool {
        if pre.lock_committed(t) {
            post == pre && (r matches Err(e) && e == Error::Conflict)
        } else if pre.outdated(t) {
            post == pre && (r matches Err(e) && e == Error::Outdated)
        } else if pre.read_all_blocked(t) {
            post == pre && (r matches Err(e) && e == Error::Conflict)
        } else {
            Dir::rollback_effect(pre, post, t, recursive, r)
        }
    }

    /// Roll back the state of this directory at `txn_id`: the pending
    /// version of `txn_id` is discarded. With `recursive`, every remaining
    /// visible child is rolled back too. No canonical state changes, since
    /// creation is deferred to commit.
    #[verifier::rlimit(100)]
    #[verifier::spinoff_prover]
    pub fn rollback(&mut self, txn_id: u64, recursive: bool) -> (r: Result<()>)
        requires
            old(self).wf(),
        ensures
            final(self).wf(),
            Dir::rollback_post(*old(self), *final(self), txn_id, recursive, r),
            final(self).height() <= old(self).height(),
        decreases old(self).height(),
    {
        if contains_txn(&self.commits, txn_id) {
            return Err(Error::Conflict);
        }
        match self.finalized_at {
            Some(f) => {
                if f > txn_id {
                    return Err(Error::Outdated);
                }
            },
            None => {},
        }
        if self.read_all_blocked_exec(txn_id) {
            return Err(Error::Conflict);
        }
        let ghost pre = *self;
        match pending_index(&self.pending, txn_id) {
            Some(li) => {
                self.collect_strays(li);
                proof {
                    assert forall|x: Seq<char>|
                        name_views(self.stray@).contains(x) <==> (name_views(
                        pre.stray@,
                    ).contains(x) || pending_dropped_file(pre, txn_id, x)) by {
                        let layer = pre.pending@[li as int].1@;
                        if exists|j: int|
                            0 <= j < layer.len() && (#[trigger] layer[j]).0@ == x
                                && lay_rec_dropped(layer[j].1) {
                            let j = choose|j: int|
                                0 <= j < layer.len() && (#[trigger] layer[j]).0@ == x
                                    && lay_rec_dropped(layer[j].1);
                            lemma_layer_at(layer, j);
                        }
                        if pending_dropped_file(pre, txn_id, x) {
                            lemma_layer_get_witness(layer, x);
                        }
                    }
                }
            },
            None => {
                proof {
                    assert forall|x: Seq<char>|
                        name_views(self.stray@).contains(x) <==> (name_views(
                        pre.stray@,
                    ).contains(x) || pending_dropped_file(pre, txn_id, x)) by {
                        assert(!pending_dropped_file(pre, txn_id, x));
                    }
                }
            },
        }
        retain_layers_ne(&mut self.pending, txn_id);
        retain_marks_ne(&mut self.read_marks, txn_id);
        retain_marks_ne(&mut self.write_marks, txn_id);
        proof {
            lemma_layers_ne_sub(pre.pending@, txn_id);
            assert(layers_wf(self.pending@) && unique_layer_txns(self.pending@));
            assert forall|i: int|
                0 <= i < self.pending@.len() implies !self.commits@.contains(
                #[trigger] self.pending@[i].0,
            ) by {
                assert(pre.pending@.contains(self.pending@[i]));
                let j = choose|j: int|
                    0 <= j < pre.pending@.len() && pre.pending@[j] == self.pending@[i];
            }
            assert forall|k: Seq<char>|
                (self.vis(txn_id, k) is Some) <==> (pre.vis_committed(txn_id, k) is Some) by {
                lemma_layers_ne_pending(pre.pending@, txn_id, txn_id);
            }
            lemma_layers_ne_pending(pre.pending@, txn_id, txn_id);
            assert(pending_layer(self.pending@, txn_id) is None);
        }
        let ghost mid3 = *self;
        let mut first_err: Option<Error> = None;
        if recursive {
            proof {
                mid3.lemma_vis_names(txn_id);
            }
            let names = self.visible_names(txn_id);
            proof {
                assert forall|a: int, b: int|
                    0 <= a < b < names@.len() implies (#[trigger] names@[a])@
                    != (#[trigger] names@[b])@ by {
                    assert(name_views(names@)[a] == names@[a]@);
                    assert(name_views(names@)[b] == names@[b]@);
                }
            }
            let n = names.len();
            let mut i: usize = 0;
            while i < n
                invariant
                    recursive,
                    i <= n,
                    n == names@.len(),
                    self.wf(),
                    self.height() <= mid3.height(),
                    mid3.height() <= old(self).height(),
                    forall|a: int| 0 <= a < n ==> (#[trigger] names@[a]).wf(),
                    forall|a: int, b: int|
                        0 <= a < b < n ==> (#[trigger] names@[a])@ != (#[trigger] names@[b])@,
                    name_views(names@) == mid3.vis_names(txn_id),
                    self.commits == mid3.commits,
                    self.read_marks == mid3.read_marks,
                    self.write_marks == mid3.write_marks,
                    self.finalized_at == mid3.finalized_at,
                    self.disk_removed == mid3.disk_removed,
                    self.stray == mid3.stray,
                    self.txfs == mid3.txfs,
                    self.on_disk == mid3.on_disk,
                    self.pending == mid3.pending,
                    pending_layer(self.pending@, txn_id) is None,
                    forall|k: Seq<char>| (self.vis(txn_id, k) is Some) <==> (mid3.vis(
                        txn_id,
                        k,
                    ) is Some),
                    first_err is None ==> forall|j: int|
                        0 <= j < i ==> (match self.vis(txn_id, (#[trigger] names@[j])@) {
                            Some(e) => entry_rolled_back(e, txn_id),
                            None => true,
                        }),
                    match first_err {
                        Some(e) => e == Error::Conflict || e == Error::Outdated || e
                            == Error::NotFound,
                        None => true,
                    },
                decreases n - i,
            {
                let ghost before_step = *self;
                let loc = self.locate(txn_id, &names[i]);
                proof {
                    match loc {
                        Loc::Pending(pli, pei) => {
                            lemma_pending_at(self.pending@, pli as int);
                        },
                        _ => {},
                    }
                    assert(!(loc is Pending));
                }
                match loc {
                    Loc::Absent => {},
                    _ => {
                        let dummy = DirEntry::File(
                            File::create(txn_id, names[i].duplicate(), Vec::new()),
                        );
                        let e = self.swap_at(loc, txn_id, &names[i], dummy);
                        match e {
                            DirEntry::Dir(mut d) => {
                                proof {
                                    assert(self.height() >= 1);
                                    assert(entry_height(DirEntry::Dir(d)) == 1 + d.height());
                                }
                                let ghost d0 = d;
                                let cr = d.rollback(txn_id, recursive);
                                self.swap_at(loc, txn_id, &names[i], DirEntry::Dir(d));
                                proof {
                                    if cr is Ok {
                                        assert(Dir::rollback_effect(
                                            d0,
                                            d,
                                            txn_id,
                                            recursive,
                                            cr,
                                        ));
                                        lemma_layers_ne_pending(d0.pending@, txn_id, txn_id);
                                        assert(pending_layer(d.pending@, txn_id) is None);
                                        assert(children_rolled_back(d, txn_id));
                                        assert(entry_rolled_back(DirEntry::Dir(d), txn_id));
                                    }
                                }
                                match cr {
                                    Ok(()) => {},
                                    Err(e2) => {
                                        if matches!(first_err, Option::<Error>::None) {
                                            first_err = Some(e2);
                                        }
                                    },
                                }
                            },
                            DirEntry::File(mut f) => {
                                let ghost f0 = f;
                                let cr = f.rollback(txn_id);
                                self.swap_at(loc, txn_id, &names[i], DirEntry::File(f));
                                proof {
                                    if cr is Ok {
                                        assert(f.pending != Some(txn_id));
                                        crate::file::lemma_removed_all_gone(
                                            f0.read_marks@,
                                            txn_id,
                                        );
                                        assert(!f.read_marks@.contains(txn_id));
                                        assert(entry_rolled_back(DirEntry::File(f), txn_id));
                                    }
                                }
                                match cr {
                                    Ok(()) => {},
                                    Err(e2) => {
                                        if matches!(first_err, Option::<Error>::None) {
                                            first_err = Some(e2);
                                        }
                                    },
                                }
                            },
                        }
                    },
                }
                proof {
                    assert forall|j: int|
                        first_err is None && 0 <= j < i + 1 implies (match self.vis(
                        txn_id,
                        (#[trigger] names@[j])@,
                    ) {
                        Some(e) => entry_rolled_back(e, txn_id),
                        None => true,
                    }) by {
                        if j < i {
                            assert(names@[j]@ != names@[i as int]@);
                            assert(self.vis(txn_id, names@[j]@) == before_step.vis(
                                txn_id,
                                names@[j]@,
                            ));
                        }
                    }
                }
                i = i + 1;
            }
            proof {
                if first_err is None {
                    assert(children_rolled_back(*self, txn_id)) by {
                        assert forall|i2: int, j2: int|
                            0 <= i2 < self.deltas@.len() && 0 <= j2
                                < self.deltas@[i2].1@.len()
                                && (#[trigger] self.deltas@[i2].1@[j2]).1 is Some && self.vis(
                                txn_id,
                                self.deltas@[i2].1@[j2].0@,
                            ) == self.deltas@[i2].1@[j2].1 implies entry_rolled_back(
                            self.deltas@[i2].1@[j2].1->Some_0,
                            txn_id,
                        ) by {
                            let k = self.deltas@[i2].1@[j2].0@;
                            assert(mid3.vis(txn_id, k) is Some);
                            assert(mid3.vis_names(txn_id).contains(k));
                            let j = choose|j: int|
                                0 <= j < mid3.vis_names(txn_id).len() && mid3.vis_names(
                                    txn_id,
                                )[j] == k;
                            assert(names@[j]@ == k);
                        }
                        assert forall|i2: int|
                            0 <= i2 < self.canon@.len() && self.vis(
                                txn_id,
                                (#[trigger] self.canon@[i2]).0@,
                            ) == Some(self.canon@[i2].1) implies entry_rolled_back(
                            self.canon@[i2].1,
                            txn_id,
                        ) by {
                            let k = self.canon@[i2].0@;
                            assert(mid3.vis(txn_id, k) is Some);
                            assert(mid3.vis_names(txn_id).contains(k));
                            let j = choose|j: int|
                                0 <= j < mid3.vis_names(txn_id).len() && mid3.vis_names(
                                    txn_id,
                                )[j] == k;
                            assert(names@[j]@ == k);
                        }
                    }
                }
            }
        }
        let r: Result<()> = match first_err {
            Some(e) => Err(e),
            None => Ok(()),
        };
        proof {
            lemma_rollback_effect_intro(pre, *self, txn_id, recursive, r);
        }
        r
    }

    /// The outcome of `finalize(t)` (see [`Dir::finalize`]).
    pub open spec fn finalize_post(pre: Dir, post: Dir, t: u64) -> bool {
        if pre.finalized_at matches Some(f) && f > t {
            post == pre
        } else {
            &&& post.finalized_at == Some(t)
            &&& post.commits == pre.commits
            &&& post.read_marks@ == marks_gt(pre.read_marks@, t)
            &&& post.write_marks@ == marks_gt(pre.write_marks@, t)
            &&& post.pending@ == layers_gt(pre.pending@, t)
            &&& forall|x: Seq<char>| #![trigger name_views(post.disk_removed@).contains(x)]
                name_views(post.disk_removed@).contains(x) <==> (name_views(
                    pre.disk_removed@,
                ).contains(x) || swept_dir(pre, t, x))
            &&& forall|x: Seq<char>| #![trigger name_views(post.stray@).contains(x)]
                name_views(post.stray@).contains(x) <==> (name_views(pre.stray@).contains(x)
                    || drained_stray(pre.pending@, t, x))
            &&& post.txfs == (pre.txfs && finalize_keeps_txfs(pre, t))
            &&& post.on_disk == pre.on_disk
            &&& forall|k: Seq<char>| (post.vis(t, k) is Some) <==> (pre.vis_committed(
                t,
                k,
            ) is Some)
            &&& forall|k: Seq<char>| #[trigger]
                post.vis(t, k) is Some ==> entry_finalized(post.vis(t, k)->Some_0, t)
            &&& children_finalized(post, t)
        }
    }

    /// Decide whether some entry visible at `t` is a file whose version
    /// subdirectory exists on disk.
    fn has_visible_file_dir(&self, t: u64) -> (r: bool)
        requires
            self.wf(),
        ensures
            r == exists|k: Seq<char>|
                #[trigger] self.vis(t, k) matches Some(e) && e matches DirEntry::File(f)
                    && f.version_dir,
    {
        proof {
            self.lemma_vis_names(t);
        }
        let names = self.visible_names(t);
        let n = names.len();
        let mut i: usize = 0;
        while i < n
            invariant
                i <= n,
                n == names@.len(),
                self.wf(),
                name_views(names@) == self.vis_names(t),
                forall|a: int| 0 <= a < n ==> (#[trigger] names@[a]).wf(),
                forall|a: int|
                    0 <= a < i ==> !(self.vis(t, (#[trigger] names@[a])@) matches Some(e)
                        && e matches DirEntry::File(f) && f.version_dir),
            decreases n - i,
        {
            let hit = match self.locate(t, &names[i]) {
                Loc::Pending(li, ei) => match &self.pending[li].1[ei].1 {
                    Some(e) => match e {
                        DirEntry::File(f) => f.version_dir,
                        DirEntry::Dir(_) => false,
                    },
                    None => false,
                },
                Loc::Delta(li, ei) => match &self.deltas[li].1[ei].1 {
                    Some(e) => match e {
                        DirEntry::File(f) => f.version_dir,
                        DirEntry::Dir(_) => false,
                    },
                    None => false,
                },
                Loc::Canon(ci) => match &self.canon[ci].1 {
                    DirEntry::File(f) => f.version_dir,
                    DirEntry::Dir(_) => false,
                },
                Loc::Absent => false,
            };
            if hit {
                return true;
            }
            i = i + 1;
        }
        proof {
            if exists|k: Seq<char>|
                #[trigger] self.vis(t, k) matches Some(e) && e matches DirEntry::File(f)
                    && f.version_dir {
                let k = choose|k: Seq<char>|
                    #[trigger] self.vis(t, k) matches Some(e) && e matches DirEntry::File(f)
                        && f.version_dir;
                self.lemma_vis_names(t);
                assert(self.vis_names(t).contains(k));
                let j = choose|j: int|
                    0 <= j < self.vis_names(t).len() && self.vis_names(t)[j] == k;
                assert(names@[j]@ == k);
            }
        }
        false
    }

    /// Finalize the state of this directory at `txn_id`: all lock state at
    /// or before `txn_id` is retired, and every visible child is finalized
    /// (sub-directories recursively, files reclaiming their version files).
    /// The on-disk version subtree is cleaned up: version subdirectories of
    /// dropped records that still hold version files are recorded as
    /// strays; every other unbacked (and hence empty) version subdirectory
    /// is deleted, and `.txfs` itself is deleted when nothing under it
    /// survives. Canonical subdirectories that the committed state no
    /// longer reaches and whose disk directories are empty are deleted from
    /// the canonical tree, recorded in `disk_removed` for the embedding —
    /// which syncs the canonical directory exactly when that record grew or
    /// the `.txfs` flag dropped, and otherwise leaves the disk untouched.
    /// After this, no operation at an earlier transaction is valid here.
    #[verifier::rlimit(100)]
    #[verifier::spinoff_prover]
    pub fn finalize(&mut self, txn_id: u64)
        requires
            old(self).wf(),
        ensures
            final(self).wf(),
            Dir::finalize_post(*old(self), *final(self), txn_id),
            final(self).height() <= old(self).height(),
        decreases old(self).height(),
    {
        match self.finalized_at {
            Some(f) => {
                if f > txn_id {
                    return ;
                }
            },
            None => {},
        }
        let ghost pre = *self;
        let pln = self.pending.len();
        let mut pli: usize = 0;
        while pli < pln
            invariant
                pli <= pln,
                pln == self.pending@.len(),
                self.wf(),
                self.canon == pre.canon,
                self.deltas == pre.deltas,
                self.commits == pre.commits,
                self.pending == pre.pending,
                self.finalized_at == pre.finalized_at,
                self.read_marks == pre.read_marks,
                self.write_marks == pre.write_marks,
                self.disk_removed == pre.disk_removed,
                self.txfs == pre.txfs,
                self.on_disk == pre.on_disk,
                pre == *old(self),
                forall|x: Seq<char>| #![trigger name_views(self.stray@).contains(x)]
                    name_views(self.stray@).contains(x) <==> (name_views(
                        pre.stray@,
                    ).contains(x) || (exists|i: int, j: int|
                        #![trigger pre.pending@[i].1@[j]]
                        0 <= i < pli && pre.pending@[i].0 <= txn_id && 0 <= j
                            < pre.pending@[i].1@.len() && pre.pending@[i].1@[j].0@ == x
                            && lay_rec_dropped(pre.pending@[i].1@[j].1))),
            decreases pln - pli,
        {
            if self.pending[pli].0 <= txn_id {
                let ghost before = *self;
                self.collect_strays(pli);
                proof {
                    assert forall|x: Seq<char>|
                        name_views(self.stray@).contains(x) <==> (name_views(
                        pre.stray@,
                    ).contains(x) || (exists|i: int, j: int|
                        #![trigger pre.pending@[i].1@[j]]
                        0 <= i < pli + 1 && pre.pending@[i].0 <= txn_id && 0 <= j
                            < pre.pending@[i].1@.len() && pre.pending@[i].1@[j].0@ == x
                            && lay_rec_dropped(pre.pending@[i].1@[j].1))) by {
                        assert(name_views(self.stray@).contains(x) <==> (name_views(
                            before.stray@,
                        ).contains(x) || (exists|j: int|
                            0 <= j < pre.pending@[pli as int].1@.len() && (#[trigger] pre.pending@[
                                pli as int
                            ].1@[j]).0@ == x && lay_rec_dropped(
                                pre.pending@[pli as int].1@[j].1,
                            ))));
                    }
                }
            }
            pli = pli + 1;
        }
        proof {
            assert forall|x: Seq<char>|
                name_views(self.stray@).contains(x) <==> (name_views(pre.stray@).contains(x)
                    || drained_stray(pre.pending@, txn_id, x)) by {}
        }
        retain_layers_gt(&mut self.pending, txn_id);
        retain_marks_gt(&mut self.read_marks, txn_id);
        retain_marks_gt(&mut self.write_marks, txn_id);
        self.finalized_at = Some(txn_id);
        proof {
            lemma_layers_gt_sub(pre.pending@, txn_id);
            assert(layers_wf(self.pending@) && unique_layer_txns(self.pending@));
            assert forall|i: int|
                0 <= i < self.pending@.len() implies !self.commits@.contains(
                #[trigger] self.pending@[i].0,
            ) by {
                assert(pre.pending@.contains(self.pending@[i]));
                let j = choose|j: int|
                    0 <= j < pre.pending@.len() && pre.pending@[j] == self.pending@[i];
            }
            assert forall|k: Seq<char>|
                (self.vis(txn_id, k) is Some) <==> (pre.vis_committed(txn_id, k) is Some) by {
                lemma_layers_gt_pending(pre.pending@, txn_id, txn_id);
            }
            lemma_layers_gt_pending(pre.pending@, txn_id, txn_id);
            assert(pending_layer(self.pending@, txn_id) is None);
        }
        // decide whether any version subdirectory survives under `.txfs`
        let s1 = self.stray.len() > 0;
        let s2 = canon_has_dropped(&self.canon);
        let s3 = stack_has_dropped(&self.deltas);
        let s4 = stack_has_dropped(&self.pending);
        let s5 = self.has_visible_file_dir(txn_id);
        let keep = s1 || s2 || s3 || s4 || s5;
        proof {
            assert forall|k: Seq<char>|
                #[trigger] self.vis(txn_id, k) == pre.vis_committed(txn_id, k) by {
                assert(pending_layer(self.pending@, txn_id) is None);
            }
            assert(keep == finalize_keeps_txfs(pre, txn_id)) by {
                if s1 {
                    let x = name_views(self.stray@)[0];
                    assert(name_views(self.stray@).contains(x));
                    if name_views(pre.stray@).contains(x) {
                        assert(pre.stray@.len() > 0);
                    } else {
                        assert(drained_stray(pre.pending@, txn_id, x));
                    }
                }
                if s4 {
                    let (i, j) = choose|i: int, j: int|
                        #![trigger self.pending@[i].1@[j]]
                        0 <= i < self.pending@.len() && 0 <= j < self.pending@[i].1@.len()
                            && lay_rec_dropped(self.pending@[i].1@[j].1);
                    assert(pre.pending@.contains(self.pending@[i]));
                    let i2 = choose|i2: int|
                        0 <= i2 < pre.pending@.len() && pre.pending@[i2] == self.pending@[i];
                    assert(lay_rec_dropped(pre.pending@[i2].1@[j].1));
                }
                if s5 {
                    let k = choose|k: Seq<char>|
                        #[trigger] self.vis(txn_id, k) matches Some(e) && e matches
                            DirEntry::File(f) && f.version_dir;
                    assert(pre.vis_committed(txn_id, k) matches Some(e) && e matches
                        DirEntry::File(f) && f.version_dir);
                }
                if finalize_keeps_txfs(pre, txn_id) {
                    if pre.stray@.len() > 0 {
                        let x = name_views(pre.stray@)[0];
                        assert(name_views(pre.stray@).contains(x));
                        assert(name_views(self.stray@).contains(x));
                        assert(self.stray@.len() > 0);
                    } else if exists|i: int|
                        0 <= i < pre.canon@.len() && lay_rec_dropped(
                            Some((#[trigger] pre.canon@[i]).1),
                        ) {
                        assert(s2);
                    } else if exists|i: int, j: int|
                        #![trigger pre.deltas@[i].1@[j]]
                        0 <= i < pre.deltas@.len() && 0 <= j < pre.deltas@[i].1@.len()
                            && lay_rec_dropped(pre.deltas@[i].1@[j].1) {
                        assert(s3);
                    } else if exists|i: int, j: int|
                        #![trigger pre.pending@[i].1@[j]]
                        0 <= i < pre.pending@.len() && 0 <= j < pre.pending@[i].1@.len()
                            && lay_rec_dropped(pre.pending@[i].1@[j].1) {
                        let (i, j) = choose|i: int, j: int|
                            #![trigger pre.pending@[i].1@[j]]
                            0 <= i < pre.pending@.len() && 0 <= j < pre.pending@[i].1@.len()
                                && lay_rec_dropped(pre.pending@[i].1@[j].1);
                        if pre.pending@[i].0 <= txn_id {
                            assert(drained_stray(pre.pending@, txn_id, pre.pending@[i].1@[
                                j
                            ].0@));
                            assert(name_views(self.stray@).contains(pre.pending@[i].1@[
                                j
                            ].0@));
                            assert(self.stray@.len() > 0);
                        } else {
                            lemma_layers_gt_complete(pre.pending@, txn_id, i);
                            let i2 = choose|i2: int|
                                0 <= i2 < self.pending@.len() && self.pending@[i2]
                                    == pre.pending@[i];
                            assert(lay_rec_dropped(self.pending@[i2].1@[j].1));
                            assert(s4);
                        }
                    } else {
                        let k = choose|k: Seq<char>|
                            #[trigger] pre.vis_committed(txn_id, k) matches Some(e) && e matches
                                DirEntry::File(f) && f.version_dir;
                        assert(self.vis(txn_id, k) == pre.vis_committed(txn_id, k));
                        assert(s5);
                    }
                }
            }
        }
        let keep_txfs = self.txfs && keep;
        self.txfs = keep_txfs;
        proof {
            assert(self.txfs == (pre.txfs && finalize_keeps_txfs(pre, txn_id)));
        }
        // sweep the empty canonical subdirectories that the committed state
        // at txn_id no longer reaches, recording their removal
        let ghost mid_k = *self;
        let cn = self.canon.len();
        let mut ci: usize = 0;
        while ci < cn
            invariant
                ci <= cn,
                cn == self.canon@.len(),
                self.wf(),
                self.canon == mid_k.canon,
                self.deltas == mid_k.deltas,
                self.commits == mid_k.commits,
                self.pending == mid_k.pending,
                self.finalized_at == mid_k.finalized_at,
                self.read_marks == mid_k.read_marks,
                self.write_marks == mid_k.write_marks,
                self.stray == mid_k.stray,
                self.txfs == mid_k.txfs,
                self.on_disk == mid_k.on_disk,
                mid_k.canon == pre.canon,
                mid_k.deltas == pre.deltas,
                mid_k.disk_removed == pre.disk_removed,
                forall|k: Seq<char>| #[trigger]
                    mid_k.vis(txn_id, k) == pre.vis_committed(txn_id, k),
                forall|k: Seq<char>| #[trigger]
                    self.vis(txn_id, k) == mid_k.vis(txn_id, k),
                forall|x: Seq<char>| #![trigger name_views(self.disk_removed@).contains(x)]
                    name_views(self.disk_removed@).contains(x) <==> (name_views(
                        pre.disk_removed@,
                    ).contains(x) || (exists|i: int|
                        0 <= i < ci && (#[trigger] pre.canon@[i]).0@ == x && (pre.canon@[i].1
                            matches DirEntry::Dir(c) && dir_disk_empty(c))
                            && pre.vis_committed(txn_id, x) is None)),
            decreases cn - ci,
        {
            let is_empty_dir = match &self.canon[ci].1 {
                DirEntry::Dir(c) => dir_disk_empty_exec(c),
                DirEntry::File(_) => false,
            };
            if is_empty_dir {
                let absent = match self.locate(txn_id, &self.canon[ci].0) {
                    Loc::Absent => true,
                    _ => false,
                };
                if absent {
                    if !names_contain(&self.disk_removed, &self.canon[ci].0) {
                        let nm = self.canon[ci].0.duplicate();
                        let ghost dr0 = self.disk_removed@;
                        self.disk_removed.push(nm);
                        proof {
                            lemma_name_views_push_contains(dr0, self.disk_removed@);
                        }
                    }
                }
            }
            ci = ci + 1;
        }
        let dn = self.deltas.len();
        let mut di: usize = 0;
        while di < dn
            invariant
                di <= dn,
                dn == self.deltas@.len(),
                self.wf(),
                self.canon == mid_k.canon,
                self.deltas == mid_k.deltas,
                self.commits == mid_k.commits,
                self.pending == mid_k.pending,
                self.finalized_at == mid_k.finalized_at,
                self.read_marks == mid_k.read_marks,
                self.write_marks == mid_k.write_marks,
                self.stray == mid_k.stray,
                self.txfs == mid_k.txfs,
                self.on_disk == mid_k.on_disk,
                mid_k.canon == pre.canon,
                mid_k.deltas == pre.deltas,
                mid_k.disk_removed == pre.disk_removed,
                forall|k: Seq<char>| #[trigger]
                    mid_k.vis(txn_id, k) == pre.vis_committed(txn_id, k),
                forall|k: Seq<char>| #[trigger]
                    self.vis(txn_id, k) == mid_k.vis(txn_id, k),
                forall|x: Seq<char>| #![trigger name_views(self.disk_removed@).contains(x)]
                    name_views(self.disk_removed@).contains(x) <==> (name_views(
                        pre.disk_removed@,
                    ).contains(x) || canon_swept(pre, txn_id, x) || delta_swept_upto(
                        pre,
                        txn_id,
                        x,
                        di as int,
                        0,
                    )),
            decreases dn - di,
        {
            let em = self.deltas[di].1.len();
            let mut dj: usize = 0;
            while dj < em
                invariant
                    di < dn,
                    dn == self.deltas@.len(),
                    dj <= em,
                    em == self.deltas@[di as int].1@.len(),
                    self.wf(),
                    self.canon == mid_k.canon,
                    self.deltas == mid_k.deltas,
                    self.commits == mid_k.commits,
                    self.pending == mid_k.pending,
                    self.finalized_at == mid_k.finalized_at,
                    self.read_marks == mid_k.read_marks,
                    self.write_marks == mid_k.write_marks,
                    self.stray == mid_k.stray,
                    self.txfs == mid_k.txfs,
                    self.on_disk == mid_k.on_disk,
                    mid_k.canon == pre.canon,
                    mid_k.deltas == pre.deltas,
                    mid_k.disk_removed == pre.disk_removed,
                    forall|k: Seq<char>| #[trigger]
                        mid_k.vis(txn_id, k) == pre.vis_committed(txn_id, k),
                    forall|k: Seq<char>| #[trigger]
                        self.vis(txn_id, k) == mid_k.vis(txn_id, k),
                    forall|x: Seq<char>| #![trigger name_views(self.disk_removed@).contains(x)]
                        name_views(self.disk_removed@).contains(x) <==> (name_views(
                            pre.disk_removed@,
                        ).contains(x) || canon_swept(pre, txn_id, x) || delta_swept_upto(
                            pre,
                            txn_id,
                            x,
                            di as int,
                            dj as int,
                        )),
                decreases em - dj,
            {
                let is_empty_dir = match &self.deltas[di].1[dj].1 {
                    Some(e) => match e {
                        DirEntry::Dir(c) => dir_disk_empty_exec(c),
                        DirEntry::File(_) => false,
                    },
                    None => false,
                };
                if is_empty_dir {
                    let absent = match self.locate(txn_id, &self.deltas[di].1[dj].0) {
                        Loc::Absent => true,
                        _ => false,
                    };
                    if absent {
                        if !names_contain(&self.disk_removed, &self.deltas[di].1[dj].0) {
                            let nm = self.deltas[di].1[dj].0.duplicate();
                            let ghost dr0 = self.disk_removed@;
                            self.disk_removed.push(nm);
                            proof {
                                lemma_name_views_push_contains(dr0, self.disk_removed@);
                            }
                        }
                    }
                }
                dj = dj + 1;
            }
            di = di + 1;
        }
        proof {
            assert forall|x: Seq<char>|
                name_views(self.disk_removed@).contains(x) <==> (name_views(
                pre.disk_removed@,
            ).contains(x) || swept_dir(pre, txn_id, x)) by {
                if delta_swept(pre, txn_id, x) {
                    let (i, j) = choose|i: int, j: int|
                        #![trigger pre.deltas@[i].1@[j]]
                        0 <= i < pre.deltas@.len() && 0 <= j < pre.deltas@[i].1@.len()
                            && pre.deltas@[i].1@[j].0@ == x && (pre.deltas@[i].1@[j].1 matches
                        Some(e) && e matches DirEntry::Dir(c) && dir_disk_empty(c))
                            && pre.vis_committed(txn_id, x) is None;
                    assert(delta_swept_upto(pre, txn_id, x, dn as int, 0));
                }
                if delta_swept_upto(pre, txn_id, x, dn as int, 0) {
                    assert(delta_swept(pre, txn_id, x));
                }
            }
        }
        let ghost mid3 = *self;
        proof {
            mid3.lemma_vis_names(txn_id);
            assert forall|k: Seq<char>| #[trigger]
                mid3.vis(txn_id, k) == pre.vis_committed(txn_id, k) by {
                assert(self.vis(txn_id, k) == mid_k.vis(txn_id, k));
                assert(mid_k.vis(txn_id, k) == pre.vis_committed(txn_id, k));
            }
        }
        let names = self.visible_names(txn_id);
        proof {
            assert forall|a: int, b: int|
                0 <= a < b < names@.len() implies (#[trigger] names@[a])@
                != (#[trigger] names@[b])@ by {
                assert(name_views(names@)[a] == names@[a]@);
                assert(name_views(names@)[b] == names@[b]@);
            }
        }
        let n = names.len();
        let mut i: usize = 0;
        while i < n
            invariant
                i <= n,
                n == names@.len(),
                self.wf(),
                self.height() <= mid3.height(),
                mid3.height() <= old(self).height(),
                forall|a: int| 0 <= a < n ==> (#[trigger] names@[a]).wf(),
                forall|k: Seq<char>| #[trigger]
                    mid3.vis(txn_id, k) == pre.vis_committed(txn_id, k),
                self.commits == mid3.commits,
                self.read_marks == mid3.read_marks,
                self.write_marks == mid3.write_marks,
                self.finalized_at == mid3.finalized_at,
                self.disk_removed == mid3.disk_removed,
                self.stray == mid3.stray,
                self.txfs == mid3.txfs,
                self.on_disk == mid3.on_disk,
                self.pending == mid3.pending,
                pending_layer(self.pending@, txn_id) is None,
                name_views(names@) == mid3.vis_names(txn_id),
                forall|k: Seq<char>| (self.vis(txn_id, k) is Some) <==> (mid3.vis(
                    txn_id,
                    k,
                ) is Some),
                forall|a: int, b: int|
                    0 <= a < b < n ==> (#[trigger] names@[a])@ != (#[trigger] names@[b])@,
                forall|j: int|
                    0 <= j < i ==> (match self.vis(txn_id, (#[trigger] names@[j])@) {
                        Some(e) => entry_finalized(e, txn_id),
                        None => true,
                    }),
            decreases n - i,
        {
            let ghost before_step = *self;
            let loc = self.locate(txn_id, &names[i]);
            proof {
                match loc {
                    Loc::Pending(pli, pei) => {
                        lemma_pending_at(self.pending@, pli as int);
                    },
                    _ => {},
                }
                assert(!(loc is Pending));
            }
            match loc {
                Loc::Absent => {},
                _ => {
                    let dummy = DirEntry::File(
                        File::create(txn_id, names[i].duplicate(), Vec::new()),
                    );
                    let e = self.swap_at(loc, txn_id, &names[i], dummy);
                    match e {
                        DirEntry::Dir(mut d) => {
                            proof {
                                assert(self.height() >= 1);
                                assert(entry_height(DirEntry::Dir(d)) == 1 + d.height());
                            }
                            let ghost d0 = d;
                            d.finalize(txn_id);
                            proof {
                                if d0.finalized_at matches Some(fz) && fz > txn_id {
                                    assert(entry_finalized(DirEntry::Dir(d), txn_id));
                                } else {
                                    assert(d.finalized_at == Some(txn_id));
                                    assert(children_finalized(d, txn_id));
                                    assert(entry_finalized(DirEntry::Dir(d), txn_id));
                                }
                            }
                            self.swap_at(loc, txn_id, &names[i], DirEntry::Dir(d));
                        },
                        DirEntry::File(mut f) => {
                            let ghost f0 = f;
                            f.finalize(txn_id);
                            proof {
                                if f0.finalized_at matches Some(fz) && fz > txn_id {
                                    assert(entry_finalized(DirEntry::File(f), txn_id));
                                } else {
                                    crate::file::lemma_finalized_state(f0, f, txn_id);
                                    assert(entry_finalized(DirEntry::File(f), txn_id));
                                }
                            }
                            self.swap_at(loc, txn_id, &names[i], DirEntry::File(f));
                        },
                    }
                },
            }
            proof {
                assert forall|j: int|
                    0 <= j < i + 1 implies (match self.vis(
                    txn_id,
                    (#[trigger] names@[j])@,
                ) {
                    Some(e) => entry_finalized(e, txn_id),
                    None => true,
                }) by {
                    if j < i {
                        assert(names@[j]@ != names@[i as int]@);
                        assert(self.vis(txn_id, names@[j]@) == before_step.vis(
                            txn_id,
                            names@[j]@,
                        ));
                    }
                }
            }
            i = i + 1;
        }
        proof {
            assert forall|k: Seq<char>| #[trigger]
                self.vis(txn_id, k) is Some implies entry_finalized(
                self.vis(txn_id, k)->Some_0,
                txn_id,
            ) by {
                assert(mid3.vis(txn_id, k) is Some);
                assert(mid3.vis_names(txn_id).contains(k));
                let j = choose|j: int|
                    0 <= j < name_views(names@).len() && name_views(names@)[j] == k;
                assert(names@[j]@ == k);
            }
            assert(children_finalized(*self, txn_id)) by {
                assert forall|i2: int, j2: int|
                    0 <= i2 < self.deltas@.len() && 0 <= j2 < self.deltas@[i2].1@.len()
                        && (#[trigger] self.deltas@[i2].1@[j2]).1 is Some && self.vis(
                        txn_id,
                        self.deltas@[i2].1@[j2].0@,
                    ) == self.deltas@[i2].1@[j2].1 implies entry_finalized(
                    self.deltas@[i2].1@[j2].1->Some_0,
                    txn_id,
                ) by {
                    let k = self.deltas@[i2].1@[j2].0@;
                    assert(self.vis(txn_id, k) is Some);
                }
                assert forall|i2: int|
                    0 <= i2 < self.canon@.len() && self.vis(
                        txn_id,
                        (#[trigger] self.canon@[i2]).0@,
                    ) == Some(self.canon@[i2].1) implies entry_finalized(
                    self.canon@[i2].1,
                    txn_id,
                ) by {
                    let k = self.canon@[i2].0@;
                    assert(self.vis(txn_id, k) is Some);
                }
            }
        }
        proof {
            let postd = *self;
            let pred = *old(self);
            assert(postd.finalized_at == Some(txn_id));
            assert(postd.commits == pred.commits);
            assert(postd.read_marks@ == marks_gt(pred.read_marks@, txn_id));
            assert(postd.write_marks@ == marks_gt(pred.write_marks@, txn_id));
            assert(postd.pending@ == layers_gt(pred.pending@, txn_id));
            assert(forall|x: Seq<char>| #![trigger name_views(postd.disk_removed@).contains(x)]
                name_views(postd.disk_removed@).contains(x) <==> (name_views(
                    pred.disk_removed@,
                ).contains(x) || swept_dir(pred, txn_id, x)));
            assert(forall|x: Seq<char>| #![trigger name_views(postd.stray@).contains(x)]
                name_views(postd.stray@).contains(x) <==> (name_views(pred.stray@).contains(x)
                    || drained_stray(pred.pending@, txn_id, x)));
            assert(postd.txfs == (pred.txfs && finalize_keeps_txfs(pred, txn_id)));
            assert(postd.on_disk == pred.on_disk);
            assert forall|k: Seq<char>|
                (postd.vis(txn_id, k) is Some) <==> (pred.vis_committed(
                txn_id,
                k,
            ) is Some) by {
                assert((postd.vis(txn_id, k) is Some) <==> (mid3.vis(txn_id, k) is Some));
                assert(mid3.vis(txn_id, k) == pre.vis_committed(txn_id, k));
            }
        }
    }
}

/// Assemble [`Dir::rollback_effect`] from its parts.
proof fn lemma_rollback_effect_intro(pre: Dir, post: Dir, t: u64, recursive: bool, r: Result<()>)
    requires
        post.pending@ == layers_ne(pre.pending@, t),
        post.read_marks@ == marks_ne(pre.read_marks@, t),
        post.write_marks@ == marks_ne(pre.write_marks@, t),
        post.commits == pre.commits,
        post.finalized_at == pre.finalized_at,
        post.disk_removed == pre.disk_removed,
        post.txfs == pre.txfs,
        post.on_disk == pre.on_disk,
        forall|x: Seq<char>| #![trigger name_views(post.stray@).contains(x)]
            name_views(post.stray@).contains(x) <==> (name_views(pre.stray@).contains(x)
                || pending_dropped_file(pre, t, x)),
        !recursive ==> post.canon == pre.canon && post.deltas == pre.deltas,
        forall|k: Seq<char>| (post.vis(t, k) is Some) <==> (pre.vis_committed(t, k) is Some),
        (recursive && r is Ok) ==> children_rolled_back(post, t),
        !recursive ==> r is Ok,
        r is Err ==> recursive && (r matches Err(e) && (e == Error::Conflict || e
            == Error::Outdated || e == Error::NotFound)),
    ensures
        Dir::rollback_effect(pre, post, t, recursive, r),
{
}

/// The layers kept by `layers_ne` come from the stack itself, with the
/// stack's well-formedness, distinctness and height bound carried over.
proof fn lemma_layers_ne_sub(ps: Seq<(u64, Delta)>, t: u64)
    ensures
        forall|i: int|
            0 <= i < layers_ne(ps, t).len() ==> ps.contains(#[trigger] layers_ne(ps, t)[i]),
        unique_layer_txns(ps) ==> unique_layer_txns(layers_ne(ps, t)),
        layers_wf(ps) ==> layers_wf(layers_ne(ps, t)),
        layers_height(layers_ne(ps, t)) <= layers_height(ps),
    decreases ps.len(),
{
    if ps.len() > 0 {
        assert(forall|j: int|
            0 <= j < ps.drop_first().len() ==> ps.drop_first()[j] == ps[j + 1]);
        lemma_layers_ne_sub(ps.drop_first(), t);
        let rest = layers_ne(ps.drop_first(), t);
        assert(forall|i: int|
            0 <= i < rest.len() ==> ps.drop_first().contains(#[trigger] rest[i]));
        assert forall|i: int|
            0 <= i < rest.len() implies ps.contains(#[trigger] rest[i]) by {
            let j = choose|j: int|
                0 <= j < ps.drop_first().len() && ps.drop_first()[j] == rest[i];
            assert(ps[j + 1] == rest[i]);
        }
        if ps[0].0 != t {
            let f = seq![ps[0]] + rest;
            assert(f[0] == ps[0]);
            assert(ps.contains(ps[0]));
            assert(forall|i: int| 1 <= i < f.len() ==> f[i] == rest[i - 1]);
            assert(f.drop_first() =~= rest);
            if unique_layer_txns(ps) {
                assert(unique_layer_txns(f)) by {
                    assert forall|i: int| 1 <= i < f.len() implies f[i].0 != ps[0].0 by {
                        let j = choose|j: int|
                            0 <= j < ps.drop_first().len() && ps.drop_first()[j] == f[i];
                        assert(ps[j + 1] == f[i]);
                    }
                }
            }
        }
    } else {
        assert(layers_ne(ps, t) =~= Seq::<(u64, Delta)>::empty());
    }
}

/// The layers kept by `layers_gt` come from the stack itself, with the
/// stack's well-formedness, distinctness and height bound carried over.
proof fn lemma_layers_gt_sub(ps: Seq<(u64, Delta)>, t: u64)
    ensures
        forall|i: int|
            0 <= i < layers_gt(ps, t).len() ==> ps.contains(#[trigger] layers_gt(ps, t)[i]),
        unique_layer_txns(ps) ==> unique_layer_txns(layers_gt(ps, t)),
        layers_wf(ps) ==> layers_wf(layers_gt(ps, t)),
        layers_height(layers_gt(ps, t)) <= layers_height(ps),
    decreases ps.len(),
{
    if ps.len() > 0 {
        assert(forall|j: int|
            0 <= j < ps.drop_first().len() ==> ps.drop_first()[j] == ps[j + 1]);
        lemma_layers_gt_sub(ps.drop_first(), t);
        let rest = layers_gt(ps.drop_first(), t);
        assert(forall|i: int|
            0 <= i < rest.len() ==> ps.drop_first().contains(#[trigger] rest[i]));
        assert forall|i: int|
            0 <= i < rest.len() implies ps.contains(#[trigger] rest[i]) by {
            let j = choose|j: int|
                0 <= j < ps.drop_first().len() && ps.drop_first()[j] == rest[i];
            assert(ps[j + 1] == rest[i]);
        }
        if ps[0].0 > t {
            let f = seq![ps[0]] + rest;
            assert(f[0] == ps[0]);
            assert(ps.contains(ps[0]));
            assert(forall|i: int| 1 <= i < f.len() ==> f[i] == rest[i - 1]);
            assert(f.drop_first() =~= rest);
            if unique_layer_txns(ps) {
                assert(unique_layer_txns(f)) by {
                    assert forall|i: int| 1 <= i < f.len() implies f[i].0 != ps[0].0 by {
                        let j = choose|j: int|
                            0 <= j < ps.drop_first().len() && ps.drop_first()[j] == f[i];
                        assert(ps[j + 1] == f[i]);
                    }
                }
            }
        }
    } else {
        assert(layers_gt(ps, t) =~= Seq::<(u64, Delta)>::empty());
    }
}

/// The height of a scanned tree node, for termination of the loader.
pub open spec fn fsnode_height(n: FsNode) -> nat
    decreases n,
{
    match n {
        FsNode::Dir(v) => 1 + fsnodes_height(v@),
        FsNode::File(_) => 1,
    }
}

/// The summed height of scanned children.
pub open spec fn fsnodes_height(s: Seq<(String, FsNode)>) -> nat
    decreases s,
{
    if s.len() == 0 {
        0
    } else {
        fsnode_height(s[0].1) + fsnodes_height(s.drop_first())
    }
}

proof fn lemma_fsnodes_height_pop(s: Seq<(String, FsNode)>)
    requires
        s.len() > 0,
    ensures
        fsnodes_height(s.drop_last()) + fsnode_height(s.last().1) == fsnodes_height(s),
    decreases s.len(),
{
    if s.len() == 1 {
        assert(s.drop_last() =~= Seq::<(String, FsNode)>::empty());
        assert(s[0] == s.last());
        assert(s.drop_first() =~= Seq::<(String, FsNode)>::empty());
    } else {
        assert(s.drop_last()[0] == s[0]);
        assert(s.drop_last().drop_first() =~= s.drop_first().drop_last());
        assert(s.drop_first().last() == s.last());
        lemma_fsnodes_height_pop(s.drop_first());
    }
}

/// True if some non-hidden child of the scanned node, at any depth below
/// non-hidden ancestors, bears a name that is not a valid entry name.
pub open spec fn node_bad(n: FsNode) -> bool
    decreases n,
{
    match n {
        FsNode::File(_) => false,
        FsNode::Dir(children) => tree_bad(children@),
    }
}

/// True if some non-hidden child of the scan, at any depth below non-hidden
/// ancestors, bears a name that is not a valid entry name.
pub open spec fn tree_bad(s: Seq<(String, FsNode)>) -> bool
    decreases s,
{
    exists|i: int|
        0 <= i < s.len() && !hidden_name((#[trigger] s[i]).0@) && (!valid_name(s[i].0@)
            || node_bad(s[i].1))
}

/// True if child `i` is the first of its name in the scan.
pub open spec fn first_named(s: Seq<(String, FsNode)>, i: int) -> bool {
    forall|j: int| 0 <= j < i ==> (#[trigger] s[j]).0@ != s[i].0@
}

/// True if some non-hidden child of the scan bears the name `k`.
pub open spec fn tree_names_contain(s: Seq<(String, FsNode)>, k: Seq<char>) -> bool {
    exists|i: int| 0 <= i < s.len() && !hidden_name((#[trigger] s[i]).0@) && s[i].0@ == k
}

/// The lock-state shape of a freshly loaded directory at `t`: an empty
/// committed state, the scanned entries pending at `t`, and the whole map
/// reserved for writing by `t`.
pub open spec fn loaded_shape(d: Dir, t: u64) -> bool {
    &&& d.canon@.len() == 0
    &&& d.deltas@.len() == 0
    &&& d.commits@.len() == 0
    &&& d.pending@.len() == 1 && d.pending@[0].0 == t
    &&& d.finalized_at is None
    &&& d.read_marks@.len() == 0
    &&& d.write_marks@.len() == 1 && d.write_marks@[0].0 == t && d.write_marks@[0].1 is All
    &&& d.disk_removed@.len() == 0
    &&& d.stray@.len() == 0
    &&& d.txfs
    &&& d.on_disk
}

/// True if entry `e` is what loading the scanned node `n` at `t` produces:
/// a scanned file becomes a fresh transactional file whose canonical bytes
/// stand as the version named `t`; a scanned directory is loaded
/// recursively.
pub open spec fn entry_loaded(e: DirEntry, t: u64, n: FsNode) -> bool
    decreases n,
{
    match n {
        FsNode::File(bytes) => (e matches DirEntry::File(f) && {
            &&& f.modified@ == seq![t]
            &&& f.commits@.len() == 0
            &&& f.pending is None
            &&& f.finalized_at is None
            &&& !f.writer
            &&& crate::file::versions_view(f.versions@) == seq![(t, bytes@)]
            &&& f.version_dir
            &&& crate::file::option_bytes(f.canon) == Some(bytes@)
        }),
        FsNode::Dir(children) => (e matches DirEntry::Dir(d) && loaded_shape(d, t) && dir_loaded(
            d,
            t,
            children@,
        )),
    }
}

/// True if the entries of `d` visible at `t` mirror the scan `s` exactly:
/// each first occurrence of a non-hidden name maps to its loaded node, and
/// nothing else is visible.
pub open spec fn dir_loaded(d: Dir, t: u64, s: Seq<(String, FsNode)>) -> bool
    decreases s,
{
    &&& forall|i: int|
        0 <= i < s.len() && !hidden_name((#[trigger] s[i]).0@) && first_named(s, i) ==> (
        match d.vis(t, s[i].0@) {
            Some(e) => entry_loaded(e, t, s[i].1),
            None => false,
        })
    &&& forall|k: Seq<char>| !tree_names_contain(s, k) ==> d.vis(t, k) is None
}

/// Some earlier (or equal) child bears the same name as child `i` and is
/// the first of that name.
proof fn lemma_first_occurrence(s: Seq<(String, FsNode)>, i: int)
    requires
        0 <= i < s.len(),
    ensures
        exists|j: int|
            0 <= j <= i && (#[trigger] s[j]).0@ == s[i].0@ && first_named(s, j),
    decreases i,
{
    if first_named(s, i) {
        assert(0 <= i <= i && s[i].0@ == s[i].0@ && first_named(s, i));
    } else {
        let j0 = choose|j: int| 0 <= j < i && (#[trigger] s[j]).0@ == s[i].0@;
        lemma_first_occurrence(s, j0);
        let j1 = choose|j: int|
            0 <= j <= j0 && (#[trigger] s[j]).0@ == s[j0].0@ && first_named(s, j);
        assert(s[j1].0@ == s[i].0@ && first_named(s, j1));
    }
}

impl Dir {
    /// Load a transactional directory from a scanned image of an on-disk
    /// tree.
    ///
    /// Hidden children (names beginning with `'.'`, such as the version
    /// subtree itself) are skipped; every other name must be a valid entry
    /// name, else the load fails with `Parse` — and only then. On success
    /// the entries visible at `txn_id` mirror the scan exactly: each
    /// non-hidden subdirectory is loaded recursively, and each non-hidden
    /// file holds its canonical bytes as the version named `txn_id`. The
    /// entries are installed as the version pending at `txn_id`, with the
    /// whole map reserved for writing by `txn_id`.
    pub fn load(txn_id: u64, tree: &Vec<(String, FsNode)>) -> (r: Result<Dir>)
        ensures
            match r {
                Ok(d) => {
                    &&& d.wf()
                    &&& loaded_shape(d, txn_id)
                    &&& dir_loaded(d, txn_id, tree@)
                    &&& !tree_bad(tree@)
                },
                Err(e) => e == Error::Parse && tree_bad(tree@),
            },
        decreases fsnodes_height(tree@),
    {
        let n = tree.len();
        let mut entries: Delta = Vec::new();
        let mut i: usize = 0;
        while i < n
            invariant
                i <= n,
                n == tree@.len(),
                delta_wf(entries@),
                unique_delta_names(entries@),
                forall|j: int|
                    0 <= j < i ==> !(!hidden_name((#[trigger] tree@[j]).0@) && (!valid_name(
                        tree@[j].0@,
                    ) || node_bad(tree@[j].1))),
                forall|a: int|
                    0 <= a < entries@.len() ==> exists|j: int|
                        0 <= j < i && !hidden_name((#[trigger] tree@[j]).0@) && first_named(
                            tree@,
                            j,
                        ) && tree@[j].0@ == (#[trigger] entries@[a]).0@ && (entries@[a].1 matches
                        Some(e) && entry_loaded(e, txn_id, tree@[j].1)),
                forall|j: int|
                    0 <= j < i && !hidden_name((#[trigger] tree@[j]).0@) && first_named(
                        tree@,
                        j,
                    ) ==> exists|a: int|
                        0 <= a < entries@.len() && (#[trigger] entries@[a]).0@ == tree@[j].0@,
            decreases n - i,
        {
            proof {
                lemma_fsnode_height_at(tree@, i as int);
            }
            let raw = &tree[i].0;
            let hidden = raw.as_str().unicode_len() > 0 && raw.as_str().get_char(0) == '.';
            if !hidden {
                let nm = match Name::new(raw.clone()) {
                    Some(nm) => nm,
                    None => {
                        proof {
                            assert(!hidden_name(tree@[i as int].0@) && !valid_name(
                                tree@[i as int].0@,
                            ));
                        }
                        return Err(Error::Parse);
                    },
                };
                let entry = match &tree[i].1 {
                    FsNode::File(bytes) => {
                        match File::load(txn_id, nm.duplicate(), Some(bytes.clone())) {
                            Ok(f) => DirEntry::File(f),
                            Err(_) => vstd::pervasive::unreached(),
                        }
                    },
                    FsNode::Dir(children) => {
                        proof {
                            assert(fsnode_height(tree@[i as int].1) == 1 + fsnodes_height(
                                children@,
                            ));
                            assert(fsnodes_height(children@) < fsnodes_height(tree@));
                        }
                        match Dir::load(txn_id, children) {
                            Ok(d) => DirEntry::Dir(d),
                            Err(e) => {
                                proof {
                                    assert(node_bad(tree@[i as int].1));
                                }
                                return Err(e);
                            },
                        }
                    },
                };
                proof {
                    assert(entry_loaded(entry, txn_id, tree@[i as int].1));
                }
                let mut dup = false;
                let en = entries.len();
                let mut ei: usize = 0;
                while ei < en
                    invariant
                        ei <= en,
                        en == entries@.len(),
                        dup == exists|j: int| 0 <= j < ei && entries@[j].0@ == nm@,
                    decreases en - ei,
                {
                    if entries[ei].0.eq_name(&nm) {
                        dup = true;
                    }
                    ei = ei + 1;
                }
                if !dup {
                    proof {
                        assert(first_named(tree@, i as int)) by {
                            if !first_named(tree@, i as int) {
                                let j0 = choose|j: int|
                                    0 <= j < i && (#[trigger] tree@[j]).0@ == tree@[
                                        i as int
                                    ].0@;
                                lemma_first_occurrence(tree@, j0);
                                let j1 = choose|j: int|
                                    0 <= j <= j0 && (#[trigger] tree@[j]).0@ == tree@[j0].0@
                                        && first_named(tree@, j);
                                assert(!hidden_name(tree@[j1].0@));
                                let a = choose|a: int|
                                    0 <= a < entries@.len() && (#[trigger] entries@[a]).0@
                                        == tree@[j1].0@;
                                assert(entries@[a].0@ == nm@);
                            }
                        }
                    }
                    let ghost e0 = entries@;
                    entries.push((nm, Some(entry)));
                    proof {
                        assert(forall|j: int| 0 <= j < e0.len() ==> entries@[j] == e0[j]);
                        lemma_delta_wf_pointwise(e0);
                        lemma_delta_wf_from_pointwise(entries@);
                        assert(entries@.last().0@ == tree@[i as int].0@ && (entries@.last().1
                            matches Some(e) && entry_loaded(e, txn_id, tree@[i as int].1)));
                    }
                } else {
                    proof {
                        assert(!first_named(tree@, i as int)) by {
                            let a = choose|a: int|
                                0 <= a < entries@.len() && (#[trigger] entries@[a]).0@ == nm@;
                        }
                    }
                }
            }
            i = i + 1;
        }
        let mut pending: Vec<(u64, Delta)> = Vec::new();
        let ghost inner = entries@;
        pending.push((txn_id, entries));
        let mut marks: Vec<(u64, MarkRange)> = Vec::new();
        marks.push((txn_id, MarkRange::All));
        let d = Dir {
            canon: Vec::new(),
            deltas: Vec::new(),
            commits: Vec::new(),
            pending,
            finalized_at: None,
            read_marks: Vec::new(),
            write_marks: marks,
            disk_removed: Vec::new(),
            stray: Vec::new(),
            txfs: true,
            on_disk: true,
        };
        proof {
            assert(pending_layer(d.pending@, txn_id) == Some(d.pending@[0].1));
            assert(d.pending@[0].1@ == inner);
            assert forall|k: Seq<char>|
                !tree_names_contain(tree@, k) implies d.vis(txn_id, k) is None by {
                assert(layer_get(inner, k) is None) by {
                    if layer_get(inner, k) is Some {
                        lemma_layer_get_witness(inner, k);
                        let a = choose|a: int|
                            0 <= a < inner.len() && (#[trigger] inner[a]).0@ == k && Some(
                                inner[a].1,
                            ) == layer_get(inner, k);
                    }
                }
                assert(deltas_get(d.deltas@, txn_id, k) is None);
                assert(canon_get(d.canon@, k) is None);
            }
            assert forall|j: int|
                0 <= j < tree@.len() && !hidden_name((#[trigger] tree@[j]).0@) && first_named(
                    tree@,
                    j,
                ) implies (match d.vis(txn_id, tree@[j].0@) {
                Some(e) => entry_loaded(e, txn_id, tree@[j].1),
                None => false,
            }) by {
                let a = choose|a: int|
                    0 <= a < inner.len() && (#[trigger] inner[a]).0@ == tree@[j].0@;
                lemma_layer_at(inner, a);
                let j2 = choose|j2: int|
                    0 <= j2 < tree@.len() && !hidden_name((#[trigger] tree@[j2]).0@)
                        && first_named(tree@, j2) && tree@[j2].0@ == inner[a].0@ && (inner[a].1
                        matches Some(e) && entry_loaded(e, txn_id, tree@[j2].1));
                assert(j2 == j) by {
                    if j2 < j {
                        assert(tree@[j2].0@ == tree@[j].0@);
                    } else if j < j2 {
                        assert(tree@[j].0@ == tree@[j2].0@);
                    }
                }
                assert(d.vis(txn_id, tree@[j].0@) == Some(inner[a].1->Some_0));
            }
        }
        Ok(d)
    }
}

/// A child's height is at most the tree's.
proof fn lemma_fsnode_height_at(s: Seq<(String, FsNode)>, i: int)
    requires
        0 <= i < s.len(),
    ensures
        fsnode_height(s[i].1) <= fsnodes_height(s),
    decreases s.len(),
{
    if i > 0 {
        assert(s.drop_first()[i - 1] == s[i]);
        lemma_fsnode_height_at(s.drop_first(), i - 1);
    }
}

impl Dir {
    /// What an iteration of this directory yields: the distinct visible
    /// names, each tagged with whether its entry is a sub-directory.
    pub open spec fn iter_matches(pre: Dir, t: u64, v: Seq<(Name, bool)>) -> bool {
        &&& v.map_values(|p: (Name, bool)| p.0@) == pre.vis_names(t)
        &&& forall|i: int|
            0 <= i < v.len() ==> (match pre.vis(t, (#[trigger] v[i]).0@) {
                Some(e) => v[i].1 == (e is Dir),
                None => false,
            })
    }

    /// Of the names in `names`, those whose visible entry at `t` is a
    /// sub-directory (`want_dir`) or a file, order kept.
    pub open spec fn names_of_kind(
        self,
        t: u64,
        names: Seq<Seq<char>>,
        want_dir: bool,
    ) -> Seq<Seq<char>>
        decreases names.len(),
    {
        if names.len() == 0 {
            Seq::empty()
        } else {
            let rest = self.names_of_kind(t, names.drop_last(), want_dir);
            if (match self.vis(t, names.last()) {
                Some(e) => (e is Dir) == want_dir,
                None => false,
            }) {
                rest.push(names.last())
            } else {
                rest
            }
        }
    }

    /// The visible names of one entry kind at `t`: the sub-directories
    /// (`want_dir`) or the files, in iteration order, each exactly once.
    pub open spec fn kind_names(self, t: u64, want_dir: bool) -> Seq<Seq<char>> {
        self.names_of_kind(t, self.vis_names(t), want_dir)
    }

    /// The names of one kind are a sub-sequence of the given names: each
    /// member names an entry of that kind, each name of that kind among
    /// `names` is kept, and distinctness carries over.
    pub proof fn lemma_names_of_kind(self, t: u64, names: Seq<Seq<char>>, want_dir: bool)
        ensures
            forall|x: Seq<char>| #![trigger self.names_of_kind(t, names, want_dir).contains(x)]
                self.names_of_kind(t, names, want_dir).contains(x) <==> (names.contains(x)
                    && (match self.vis(t, x) {
                    Some(e) => (e is Dir) == want_dir,
                    None => false,
                })),
            (forall|i: int, j: int| 0 <= i < j < names.len() ==> names[i] != names[j])
                ==> (forall|i: int, j: int|
                0 <= i < j < self.names_of_kind(t, names, want_dir).len()
                    ==> self.names_of_kind(t, names, want_dir)[i] != self.names_of_kind(
                    t,
                    names,
                    want_dir,
                )[j]),
        decreases names.len(),
    {
        if names.len() == 0 {
            assert(self.names_of_kind(t, names, want_dir) =~= Seq::<Seq<char>>::empty());
            assert(forall|x: Seq<char>| !names.contains(x));
            assert(forall|x: Seq<char>|
                !self.names_of_kind(t, names, want_dir).contains(x));
        } else {
            self.lemma_names_of_kind(t, names.drop_last(), want_dir);
            let rest = self.names_of_kind(t, names.drop_last(), want_dir);
            assert forall|x: Seq<char>| names.drop_last().contains(x) implies names.contains(
                x,
            ) by {
                let i = choose|i: int|
                    0 <= i < names.drop_last().len() && names.drop_last()[i] == x;
                assert(names[i] == x);
            }
            assert(names.contains(names.last()));
            assert forall|x: Seq<char>|
                names.contains(x) && x != names.last() implies names.drop_last().contains(
                x,
            ) by {
                let i = choose|i: int| 0 <= i < names.len() && names[i] == x;
                assert(names.drop_last()[i] == x);
            }
            if (match self.vis(t, names.last()) {
                Some(e) => (e is Dir) == want_dir,
                None => false,
            }) {
                let full = rest.push(names.last());
                assert(forall|i: int| 0 <= i < rest.len() ==> full[i] == rest[i]);
                assert forall|x: Seq<char>| full.contains(x) implies (rest.contains(x) || x
                    == names.last()) by {
                    let i = choose|i: int| 0 <= i < full.len() && full[i] == x;
                    if i < rest.len() {
                        assert(rest[i] == x);
                    }
                }
                assert(forall|x: Seq<char>| rest.contains(x) ==> full.contains(x));
                assert(full[full.len() - 1] == names.last());
                if forall|i: int, j: int| 0 <= i < j < names.len() ==> names[i] != names[j] {
                    assert forall|i: int, j: int|
                        0 <= i < j < names.drop_last().len() implies names.drop_last()[i]
                        != names.drop_last()[j] by {
                        assert(names.drop_last()[i] == names[i]);
                        assert(names.drop_last()[j] == names[j]);
                    }
                    assert(!names.drop_last().contains(names.last())) by {
                        if names.drop_last().contains(names.last()) {
                            let i = choose|i: int|
                                0 <= i < names.drop_last().len() && names.drop_last()[i]
                                    == names.last();
                            assert(names[i] == names[names.len() - 1]);
                        }
                    }
                    assert(!rest.contains(names.last()));
                }
            }
            assert forall|x: Seq<char>|
                self.names_of_kind(t, names, want_dir).contains(x) <==> (names.contains(x)
                    && (match self.vis(t, x) {
                    Some(e) => (e is Dir) == want_dir,
                    None => false,
                })) by {
                let hit = (match self.vis(t, names.last()) {
                    Some(e) => (e is Dir) == want_dir,
                    None => false,
                });
                if hit {
                    let full = rest.push(names.last());
                    assert(self.names_of_kind(t, names, want_dir) == full);
                    assert(full.contains(names.last())) by {
                        assert(full[full.len() - 1] == names.last());
                    }
                    if x != names.last() {
                        assert(full.contains(x) <==> rest.contains(x)) by {
                            if full.contains(x) {
                                let i = choose|i: int|
                                    0 <= i < full.len() && full[i] == x;
                                assert(i < rest.len());
                                assert(rest[i] == x);
                            }
                            if rest.contains(x) {
                                let i = choose|i: int|
                                    0 <= i < rest.len() && rest[i] == x;
                                assert(full[i] == x);
                            }
                        }
                    }
                } else {
                    assert(self.names_of_kind(t, names, want_dir) == rest);
                    if x == names.last() {
                        assert(!rest.contains(x));
                    }
                }
            }
            if forall|i: int, j: int| 0 <= i < j < names.len() ==> names[i] != names[j] {
                assert forall|i: int, j: int|
                    0 <= i < j < names.drop_last().len() implies names.drop_last()[i]
                    != names.drop_last()[j] by {
                    assert(names.drop_last()[i] == names[i]);
                    assert(names.drop_last()[j] == names[j]);
                }
                let hit = (match self.vis(t, names.last()) {
                    Some(e) => (e is Dir) == want_dir,
                    None => false,
                });
                if hit {
                    let full = rest.push(names.last());
                    assert(self.names_of_kind(t, names, want_dir) == full);
                    assert(!rest.contains(names.last()));
                    assert forall|i: int, j: int|
                        0 <= i < j < full.len() implies full[i] != full[j] by {
                        if j < rest.len() {
                            assert(full[i] == rest[i] && full[j] == rest[j]);
                        } else {
                            assert(full[j] == names.last());
                            assert(full[i] == rest[i]);
                            if rest[i] == names.last() {
                                assert(rest.contains(names.last()));
                            }
                        }
                    }
                } else {
                    assert(self.names_of_kind(t, names, want_dir) == rest);
                }
            }
        }
    }

    /// The outcome of a whole-map snapshot read returning `x` (see
    /// [`Dir::iter`], [`Dir::len`] and their kin).
    pub open spec fn snapshot_prologue(pre: Dir, post: Dir, t: u64, failed: Option<Error>) -> bool {
        if pre.outdated(t) {
            post == pre && failed == Some(Error::Outdated)
        } else if pre.lock_committed(t) {
            post == pre && failed is None
        } else if pre.read_all_blocked(t) {
            post == pre && failed == Some(Error::Conflict)
        } else {
            &&& same_except_read_marks(pre, post)
            &&& all_mark_pushed(pre.read_marks@, post.read_marks@, t)
            &&& failed is None
        }
    }

    fn snapshot_lock(&mut self, txn_id: u64) -> (r: Option<Error>)
        requires
            old(self).wf(),
        ensures
            final(self).wf(),
            Dir::snapshot_prologue(*old(self), *final(self), txn_id, r),
            r is None ==> final(self).vis_names(txn_id) == old(self).vis_names(txn_id) && (forall|
                k: Seq<char>,
            | final(self).vis(txn_id, k) == old(self).vis(txn_id, k)),
    {
        match self.finalized_at {
            Some(f) => {
                if f > txn_id {
                    return Some(Error::Outdated);
                }
            },
            None => {},
        }
        if !contains_txn(&self.commits, txn_id) {
            if self.read_all_blocked_exec(txn_id) {
                return Some(Error::Conflict);
            }
            self.read_marks.push((txn_id, MarkRange::All));
            proof {
                assert(self.read_marks@.subrange(0, old(self).read_marks@.len() as int)
                    =~= old(self).read_marks@);
            }
        }
        proof {
            lemma_vis_fields(*self, *old(self), txn_id);
        }
        None
    }

    /// Iterate the entries of this directory at `txn_id`: every visible
    /// name once, tagged with whether it is a sub-directory.
    pub fn iter(&mut self, txn_id: u64) -> (r: Result<Vec<(Name, bool)>>)
        requires
            old(self).wf(),
        ensures
            final(self).wf(),
            match r {
                Ok(v) => Dir::snapshot_prologue(*old(self), *final(self), txn_id, None)
                    && Dir::iter_matches(*old(self), txn_id, v@) && (forall|i: int|
                    0 <= i < v@.len() ==> (#[trigger] v@[i]).0.wf()),
                Err(e) => Dir::snapshot_prologue(*old(self), *final(self), txn_id, Some(e)),
            },
    {
        match self.snapshot_lock(txn_id) {
            Some(e) => {
                return Err(e);
            },
            None => {},
        }
        let names = self.visible_names(txn_id);
        let n = names.len();
        let mut out: Vec<(Name, bool)> = Vec::new();
        let mut i: usize = 0;
        while i < n
            invariant
                i <= n,
                n == names@.len(),
                self.wf(),
                name_views(names@) == self.vis_names(txn_id),
                self.vis_names(txn_id) == old(self).vis_names(txn_id),
                forall|k: Seq<char>| self.vis(txn_id, k) == old(self).vis(txn_id, k),
                forall|a: int| 0 <= a < n ==> (#[trigger] names@[a]).wf(),
                out@.len() == i,
                forall|a: int| 0 <= a < i ==> (#[trigger] out@[a]).0@ == names@[a]@,
                forall|a: int| 0 <= a < i ==> (#[trigger] out@[a]).0.wf(),
                forall|a: int|
                    0 <= a < i ==> (match self.vis(txn_id, (#[trigger] out@[a]).0@) {
                        Some(e) => out@[a].1 == (e is Dir),
                        None => false,
                    }),
            decreases n - i,
        {
            let tag = match self.locate(txn_id, &names[i]) {
                Loc::Pending(li, ei) => {
                    match &self.pending[li].1[ei].1 {
                        Some(e) => e.is_dir(),
                        None => {
                            proof {
                                assert(false);
                            }
                            false
                        },
                    }
                },
                Loc::Delta(li, ei) => {
                    match &self.deltas[li].1[ei].1 {
                        Some(e) => e.is_dir(),
                        None => {
                            proof {
                                assert(false);
                            }
                            false
                        },
                    }
                },
                Loc::Canon(ci) => self.canon[ci].1.is_dir(),
                Loc::Absent => {
                    proof {
                        assert(self.vis_names(txn_id).contains(names@[i as int]@)) by {
                            assert(name_views(names@)[i as int] == names@[i as int]@);
                        }
                        self.lemma_vis_names(txn_id);
                        assert(false);
                    }
                    false
                },
            };
            out.push((names[i].duplicate(), tag));
            i = i + 1;
        }
        proof {
            assert(out@.map_values(|p: (Name, bool)| p.0@) =~= name_views(names@));
        }
        Ok(out)
    }

    /// The number of entries in this directory at `txn_id`.
    pub fn len(&mut self, txn_id: u64) -> (r: Result<usize>)
        requires
            old(self).wf(),
        ensures
            final(self).wf(),
            match r {
                Ok(c) => Dir::snapshot_prologue(*old(self), *final(self), txn_id, None) && c
                    == old(self).vis_names(txn_id).len(),
                Err(e) => Dir::snapshot_prologue(*old(self), *final(self), txn_id, Some(e)),
            },
    {
        match self.snapshot_lock(txn_id) {
            Some(e) => {
                return Err(e);
            },
            None => {},
        }
        let names = self.visible_names(txn_id);
        Ok(names.len())
    }

    /// Return `true` if this directory has no entries at `txn_id`.
    pub fn is_empty(&mut self, txn_id: u64) -> (r: Result<bool>)
        requires
            old(self).wf(),
        ensures
            final(self).wf(),
            match r {
                Ok(b) => Dir::snapshot_prologue(*old(self), *final(self), txn_id, None) && b == (
                old(self).vis_names(txn_id).len() == 0),
                Err(e) => Dir::snapshot_prologue(*old(self), *final(self), txn_id, Some(e)),
            },
    {
        match self.len(txn_id) {
            Ok(c) => Ok(c == 0),
            Err(e) => Err(e),
        }
    }

    /// Return `true` if at least one file is an entry of this directory at
    /// `txn_id`.
    pub fn contains_files(&mut self, txn_id: u64) -> (r: Result<bool>)
        requires
            old(self).wf(),
        ensures
            final(self).wf(),
            match r {
                Ok(b) => Dir::snapshot_prologue(*old(self), *final(self), txn_id, None) && b == (
                exists|k: Seq<char>|
                    #[trigger] old(self).vis(txn_id, k) matches Some(e) && e is File),
                Err(e) => Dir::snapshot_prologue(*old(self), *final(self), txn_id, Some(e)),
            },
    {
        let entries = match self.iter(txn_id) {
            Ok(v) => v,
            Err(e) => {
                return Err(e);
            },
        };
        let n = entries.len();
        let mut i: usize = 0;
        while i < n
            invariant
                i <= n,
                n == entries@.len(),
                self.wf(),
                Dir::snapshot_prologue(*old(self), *self, txn_id, None),
                Dir::iter_matches(*old(self), txn_id, entries@),
                forall|a: int| 0 <= a < i ==> (#[trigger] entries@[a]).1,
            decreases n - i,
        {
            if !entries[i].1 {
                proof {
                    assert(old(self).vis(txn_id, entries@[i as int].0@) matches Some(e) && e
                        is File);
                }
                return Ok(true);
            }
            i = i + 1;
        }
        proof {
            if exists|k: Seq<char>|
                #[trigger] old(self).vis(txn_id, k) matches Some(e) && e is File {
                let k = choose|k: Seq<char>|
                    #[trigger] old(self).vis(txn_id, k) matches Some(e) && e is File;
                old(self).lemma_vis_names(txn_id);
                assert(old(self).vis_names(txn_id).contains(k));
                let j = choose|j: int|
                    0 <= j < old(self).vis_names(txn_id).len() && old(self).vis_names(txn_id)[j]
                        == k;
                assert(entries@.map_values(|p: (Name, bool)| p.0@)[j] == k);
                assert(entries@[j].0@ == k);
                assert(entries@[j].1);
            }
        }
        Ok(false)
    }

    /// The names of the sub-directories of this directory at `txn_id`:
    /// exactly the visible names whose entry is a sub-directory, in
    /// iteration order, each once. Together with [`Dir::file_names`] they
    /// partition the visible names.
    pub fn dir_names(&mut self, txn_id: u64) -> (r: Result<Vec<Name>>)
        requires
            old(self).wf(),
        ensures
            final(self).wf(),
            match r {
                Ok(v) => Dir::snapshot_prologue(*old(self), *final(self), txn_id, None)
                    && name_views(v@) == old(self).kind_names(txn_id, true) && (forall|a: int|
                    0 <= a < v@.len() ==> (#[trigger] v@[a]).wf()),
                Err(e) => Dir::snapshot_prologue(*old(self), *final(self), txn_id, Some(e)),
            },
    {
        self.names_of_tag(txn_id, true)
    }

    /// The names of the files of this directory at `txn_id`: exactly the
    /// visible names whose entry is a file, in iteration order, each once.
    pub fn file_names(&mut self, txn_id: u64) -> (r: Result<Vec<Name>>)
        requires
            old(self).wf(),
        ensures
            final(self).wf(),
            match r {
                Ok(v) => Dir::snapshot_prologue(*old(self), *final(self), txn_id, None)
                    && name_views(v@) == old(self).kind_names(txn_id, false) && (forall|a: int|
                    0 <= a < v@.len() ==> (#[trigger] v@[a]).wf()),
                Err(e) => Dir::snapshot_prologue(*old(self), *final(self), txn_id, Some(e)),
            },
    {
        self.names_of_tag(txn_id, false)
    }

    fn names_of_tag(&mut self, txn_id: u64, want_dir: bool) -> (r: Result<Vec<Name>>)
        requires
            old(self).wf(),
        ensures
            final(self).wf(),
            match r {
                Ok(v) => Dir::snapshot_prologue(*old(self), *final(self), txn_id, None)
                    && name_views(v@) == old(self).kind_names(txn_id, want_dir) && (forall|a: int|
                    0 <= a < v@.len() ==> (#[trigger] v@[a]).wf()),
                Err(e) => Dir::snapshot_prologue(*old(self), *final(self), txn_id, Some(e)),
            },
    {
        let entries = match self.iter(txn_id) {
            Ok(v) => v,
            Err(e) => {
                return Err(e);
            },
        };
        let mut out: Vec<Name> = Vec::new();
        let n = entries.len();
        let mut i: usize = 0;
        proof {
            assert(entries@.subrange(0, 0).map_values(|p: (Name, bool)| p.0@) =~= Seq::<
                Seq<char>,
            >::empty());
            assert(name_views(out@) =~= old(self).names_of_kind(
                txn_id,
                entries@.subrange(0, 0).map_values(|p: (Name, bool)| p.0@),
                want_dir,
            ));
        }
        while i < n
            invariant
                i <= n,
                n == entries@.len(),
                self.wf(),
                Dir::snapshot_prologue(*old(self), *self, txn_id, None),
                Dir::iter_matches(*old(self), txn_id, entries@),
                forall|a: int| 0 <= a < n ==> (#[trigger] entries@[a]).0.wf(),
                forall|a: int| 0 <= a < out@.len() ==> (#[trigger] out@[a]).wf(),
                name_views(out@) == old(self).names_of_kind(
                    txn_id,
                    entries@.subrange(0, i as int).map_values(|p: (Name, bool)| p.0@),
                    want_dir,
                ),
            decreases n - i,
        {
            let ghost pref = entries@.subrange(0, i as int).map_values(
                |p: (Name, bool)| p.0@,
            );
            let ghost prefnext = entries@.subrange(0, i + 1).map_values(
                |p: (Name, bool)| p.0@,
            );
            proof {
                assert(prefnext.drop_last() =~= pref);
                assert(prefnext.last() == entries@[i as int].0@);
                assert(old(self).vis(txn_id, entries@[i as int].0@) matches Some(e)
                    && entries@[i as int].1 == (e is Dir));
            }
            if entries[i].1 == want_dir {
                out.push(entries[i].0.duplicate());
                proof {
                    assert(name_views(out@) =~= name_views(out@.drop_last()).push(
                        out@.last()@,
                    ));
                }
            }
            i = i + 1;
        }
        proof {
            assert(entries@.subrange(0, n as int) =~= entries@);
            assert(entries@.map_values(|p: (Name, bool)| p.0@) == old(self).vis_names(
                txn_id,
            ));
        }
        Ok(out)
    }
}

/// Visibility and iteration depend only on the entry layers, not on the
/// reservations.
proof fn lemma_vis_fields(d1: Dir, d2: Dir, t: u64)
    requires
        d1.canon == d2.canon,
        d1.deltas == d2.deltas,
        d1.pending == d2.pending,
    ensures
        forall|k: Seq<char>| d1.vis(t, k) == d2.vis(t, k),
        d1.vis_names(t) == d2.vis_names(t),
{
    assert(d1.candidates(t) == d2.candidates(t));
    lemma_filter_vis_congruent(d1, d2, t, dedup_first(d1.candidates(t)));
}

proof fn lemma_filter_vis_congruent(d1: Dir, d2: Dir, t: u64, names: Seq<Seq<char>>)
    requires
        d1.canon == d2.canon,
        d1.deltas == d2.deltas,
        d1.pending == d2.pending,
    ensures
        d1.filter_vis(t, names) == d2.filter_vis(t, names),
    decreases names.len(),
{
    if names.len() > 0 {
        lemma_filter_vis_congruent(d1, d2, t, names.drop_last());
    }
}

impl Dir {
    /// Entry uniqueness: at any transaction, an iteration of this directory
    /// yields each name at most once, and the entry under a name is unique
    /// (visibility is a function of the name). A pending reservation cannot
    /// add a second entry: a key already visible makes `create_dir` and
    /// `create_file` fail with `AlreadyExists`, and a reserved key blocks
    /// every other writer.
    pub proof fn lemma_entry_uniqueness(self, t: u64)
        ensures
            forall|i: int, j: int|
                0 <= i < j < self.vis_names(t).len() ==> self.vis_names(t)[i] != self.vis_names(
                    t,
                )[j],
            forall|k: Seq<char>|
                self.vis_names(t).contains(k) <==> self.vis(t, k) is Some,
    {
        self.lemma_vis_names(t);
    }

    /// Isolation: a modification pending at transaction `a` is invisible at
    /// any other transaction `b` — visibility at `b` consults only `b`'s own
    /// pending version and the committed state, never `a`'s pending layer.
    pub proof fn lemma_isolation(self, a: u64, b: u64, k: Seq<char>)
        requires
            a != b,
            pending_miss(self.pending@, b, k),
        ensures
            self.vis(b, k) == self.vis_committed(b, k),
    {
    }

    /// Committing twice at the same transaction is a no-op the second time:
    /// the lock state after the second commit equals the state after the
    /// first.
    pub proof fn lemma_commit_idempotent(
        pre: Dir,
        s1: Dir,
        s2: Dir,
        t: u64,
        r1: Result<()>,
        r2: Result<()>,
    )
        requires
            pre.wf(),
            s1.wf(),
            !pre.outdated(t),
            !pre.read_all_blocked(t),
            Dir::commit_post(pre, s1, t, false, r1),
            Dir::commit_post(s1, s2, t, false, r2),
        ensures
            r1 is Ok,
            r2 is Ok,
            s2.commits@ == s1.commits@,
            s2.read_marks@ == s1.read_marks@,
            s2.write_marks@ == s1.write_marks@,
            pending_layer(s2.pending@, t) is None,
            forall|k: Seq<char>| (s2.vis(t, k) is Some) <==> (s1.vis(t, k) is Some),
            forall|k: Seq<char>| tombstoned(s2, k) == tombstoned(s1, k),
    {
        assert(!s1.outdated(t));
        assert(!s1.read_all_blocked(t)) by {
            if s1.read_all_blocked(t) {
                let i = choose|i: int|
                    0 <= i < s1.write_marks@.len() && s1.write_marks@[i].0 < t;
                lemma_marks_ne_contains(pre.write_marks@, t, i);
            }
        }
        assert(s1.commits@.contains(t)) by {
            if !pre.commits@.contains(t) {
                assert(s1.commits@ == pre.commits@.push(t));
                assert(s1.commits@[pre.commits@.len() as int] == t);
            }
        }
        assert(s2.commits@ == set_added(s1.commits@, t));
        lemma_marks_ne_idempotent(pre.read_marks@, t);
        lemma_marks_ne_idempotent(pre.write_marks@, t);
        assert(commit_pl(s1, t) =~= Seq::<(Name, Option<DirEntry>)>::empty());
        assert forall|k: Seq<char>| tombstoned(s2, k) == tombstoned(s1, k) by {
            assert(forall|a: int|
                0 <= a < commit_pl(s1, t).len() ==> commit_pl(s1, t)[a].0@ != k);
        }
    }
}

proof fn lemma_layers_ne_idempotent(ps: Seq<(u64, Delta)>, t: u64)
    ensures
        layers_ne(layers_ne(ps, t), t) == layers_ne(ps, t),
    decreases ps.len(),
{
    if ps.len() > 0 {
        lemma_layers_ne_idempotent(ps.drop_first(), t);
        if ps[0].0 != t {
            let f = seq![ps[0]] + layers_ne(ps.drop_first(), t);
            assert(f[0] == ps[0]);
            assert(f.drop_first() =~= layers_ne(ps.drop_first(), t));
        }
    } else {
        assert(layers_ne(ps, t) =~= Seq::<(u64, Delta)>::empty());
    }
}

impl Dir {
    /// Rolling back twice at the same transaction is a no-op the second
    /// time: the lock state after the second rollback equals the state
    /// after the first.
    pub proof fn lemma_rollback_idempotent(
        pre: Dir,
        s1: Dir,
        s2: Dir,
        t: u64,
        r1: Result<()>,
        r2: Result<()>,
    )
        requires
            pre.wf(),
            s1.wf(),
            !pre.lock_committed(t),
            !pre.outdated(t),
            !pre.read_all_blocked(t),
            Dir::rollback_post(pre, s1, t, false, r1),
            Dir::rollback_post(s1, s2, t, false, r2),
        ensures
            r1 is Ok,
            r2 is Ok,
            s2.pending@ == s1.pending@,
            s2.read_marks@ == s1.read_marks@,
            s2.write_marks@ == s1.write_marks@,
            s2.canon == s1.canon,
            s2.deltas == s1.deltas,
            s2.commits == s1.commits,
            s2.finalized_at == s1.finalized_at,
            s2.disk_removed == s1.disk_removed,
            s2.txfs == s1.txfs,
            s2.on_disk == s1.on_disk,
            forall|x: Seq<char>|
                name_views(s2.stray@).contains(x) <==> name_views(s1.stray@).contains(x),
    {
        assert(!s1.lock_committed(t) && !s1.outdated(t));
        assert(!s1.read_all_blocked(t)) by {
            if s1.read_all_blocked(t) {
                let i = choose|i: int|
                    0 <= i < s1.write_marks@.len() && s1.write_marks@[i].0 < t;
                lemma_marks_ne_contains(pre.write_marks@, t, i);
            }
        }
        lemma_layers_ne_idempotent(pre.pending@, t);
        lemma_marks_ne_idempotent(pre.read_marks@, t);
        lemma_marks_ne_idempotent(pre.write_marks@, t);
        lemma_layers_ne_pending(pre.pending@, t, t);
        assert(pending_layer(s1.pending@, t) is None);
        assert forall|x: Seq<char>|
            name_views(s2.stray@).contains(x) <==> name_views(s1.stray@).contains(x) by {
            assert(!pending_dropped_file(s1, t, x));
        }
    }
}

/// Reservations kept by `marks_ne` come from the stack they were kept from.
proof fn lemma_marks_ne_contains(s: Seq<(u64, MarkRange)>, t: u64, i: int)
    requires
        0 <= i < marks_ne(s, t).len(),
    ensures
        exists|j: int|
            0 <= j < s.len() && s[j] == marks_ne(s, t)[i] && s[j].0 == marks_ne(s, t)[i].0,
    decreases s.len(),
{
    if s.len() > 0 {
        if s[0].0 == t {
            assert(forall|a: int|
                0 <= a < s.drop_first().len() ==> s.drop_first()[a] == s[a + 1]);
            lemma_marks_ne_contains(s.drop_first(), t, i);
            let j = choose|j: int|
                0 <= j < s.drop_first().len() && s.drop_first()[j] == marks_ne(s, t)[i];
            assert(s[j + 1] == marks_ne(s, t)[i]);
        } else {
            let f = seq![s[0]] + marks_ne(s.drop_first(), t);
            if i == 0 {
                assert(f[0] == s[0]);
            } else {
                assert(f[i] == marks_ne(s.drop_first(), t)[i - 1]);
                assert(forall|a: int|
                    0 <= a < s.drop_first().len() ==> s.drop_first()[a] == s[a + 1]);
                lemma_marks_ne_contains(s.drop_first(), t, i - 1);
                let j = choose|j: int|
                    0 <= j < s.drop_first().len() && s.drop_first()[j] == marks_ne(
                        s.drop_first(),
                        t,
                    )[i - 1];
                assert(s[j + 1] == marks_ne(s, t)[i]);
            }
        }
    }
}

proof fn lemma_marks_ne_idempotent(s: Seq<(u64, MarkRange)>, t: u64)
    ensures
        marks_ne(marks_ne(s, t), t) == marks_ne(s, t),
    decreases s.len(),
{
    if s.len() > 0 {
        lemma_marks_ne_idempotent(s.drop_first(), t);
        if s[0].0 != t {
            let f = seq![s[0]] + marks_ne(s.drop_first(), t);
            assert(f[0] == s[0]);
            assert(f.drop_first() =~= marks_ne(s.drop_first(), t));
        }
    } else {
        assert(marks_ne(s, t) =~= Seq::<(u64, MarkRange)>::empty());
    }
}

impl Dir {
    /// True if a read of the file visible at `(t, k)` is refused by
    /// [`File::read`]'s rules: the file is finalized past `t`, the lock
    /// acquisition would have to wait, or no bytes resolve for the effective
    /// version. False where no file is visible under `k`.
    pub open spec fn file_read_refused(self, t: u64, k: Seq<char>) -> bool {
        match self.vis(t, k) {
            Some(e) => match e {
                DirEntry::File(f) => {
                    ||| f.outdated(t)
                    ||| (!f.lock_committed(t) && f.blocked(t))
                    ||| (!f.lock_committed(t) && f.resolve(f.effective_version(t)) is None)
                    ||| (f.lock_committed(t) && f.resolve(f.visible_to(t)) is None)
                },
                DirEntry::Dir(_) => false,
            },
            None => false,
        }
    }

    /// Acquire a read guard on every file of this directory at `txn_id`,
    /// paired with its name: the owned counterpart of iterating the files'
    /// contents. On success the pairs name exactly the files visible at
    /// `txn_id`, in iteration order, and each guard holds what
    /// [`File::read`] yields for that file; it fails only when the snapshot
    /// is refused or the read of some visible file is.
    pub fn files(&mut self, txn_id: u64) -> (r: Result<Vec<(Name, FileVersionRead)>>)
        requires
            old(self).wf(),
        ensures
            final(self).wf(),
            match r {
                Ok(v) => {
                    &&& v@.map_values(|p: (Name, FileVersionRead)| p.0@) == old(self).kind_names(
                        txn_id,
                        false,
                    )
                    &&& forall|a: int|
                        0 <= a < v@.len() ==> (#[trigger] v@[a]).0.wf() && v@[a].1.txn_id == txn_id
                            && (match old(self).vis(txn_id, v@[a].0@) {
                            Some(e) => e matches DirEntry::File(f) && (exists|f2: File|
                                #[trigger] File::read_post(f, f2, txn_id, Ok(v@[a].1))),
                            None => false,
                        })
                },
                Err(e) => {
                    ||| old(self).outdated(txn_id) && e == Error::Outdated
                    ||| (!old(self).outdated(txn_id) && !old(self).lock_committed(txn_id) && old(
                        self,
                    ).read_all_blocked(txn_id) && e == Error::Conflict)
                    ||| exists|k: Seq<char>| #[trigger] old(self).file_read_refused(txn_id, k)
                },
            },
    {
        let entries = match self.iter(txn_id) {
            Ok(v) => v,
            Err(e) => {
                return Err(e);
            },
        };
        proof {
            old(self).lemma_entry_uniqueness(txn_id);
            assert forall|a: int, b: int|
                0 <= a < b < entries@.len() implies (#[trigger] entries@[a]).0@
                != (#[trigger] entries@[b]).0@ by {
                assert(entries@.map_values(|p: (Name, bool)| p.0@)[a] == entries@[a].0@);
                assert(entries@.map_values(|p: (Name, bool)| p.0@)[b] == entries@[b].0@);
            }
        }
        let n = entries.len();
        let mut out: Vec<(Name, FileVersionRead)> = Vec::new();
        let mut i: usize = 0;
        proof {
            assert(entries@.subrange(0, 0).map_values(|p: (Name, bool)| p.0@) =~= Seq::<
                Seq<char>,
            >::empty());
            assert(out@.map_values(|p: (Name, FileVersionRead)| p.0@) =~= old(
                self,
            ).names_of_kind(
                txn_id,
                entries@.subrange(0, 0).map_values(|p: (Name, bool)| p.0@),
                false,
            ));
        }
        while i < n
            invariant
                i <= n,
                n == entries@.len(),
                self.wf(),
                Dir::iter_matches(*old(self), txn_id, entries@),
                forall|a: int| 0 <= a < n ==> (#[trigger] entries@[a]).0.wf(),
                forall|a: int, b: int|
                    0 <= a < b < n ==> (#[trigger] entries@[a]).0@ != (#[trigger] entries@[b]).0@,
                !old(self).outdated(txn_id),
                !old(self).lock_committed(txn_id) ==> !old(self).read_all_blocked(txn_id),
                self.finalized_at == old(self).finalized_at,
                self.commits == old(self).commits,
                self.write_marks == old(self).write_marks,
                forall|a: int|
                    i <= a < n ==> self.vis(txn_id, (#[trigger] entries@[a]).0@) == old(self).vis(
                        txn_id,
                        entries@[a].0@,
                    ),
                out@.map_values(|p: (Name, FileVersionRead)| p.0@) == old(self).names_of_kind(
                    txn_id,
                    entries@.subrange(0, i as int).map_values(|p: (Name, bool)| p.0@),
                    false,
                ),
                forall|a: int|
                    0 <= a < out@.len() ==> (#[trigger] out@[a]).0.wf() && out@[a].1.txn_id
                        == txn_id && (match old(self).vis(txn_id, out@[a].0@) {
                        Some(e) => e matches DirEntry::File(f) && (exists|f2: File|
                            #[trigger] File::read_post(f, f2, txn_id, Ok(out@[a].1))),
                        None => false,
                    }),
            decreases n - i,
        {
            let ghost pref = entries@.subrange(0, i as int).map_values(
                |p: (Name, bool)| p.0@,
            );
            let ghost prefnext = entries@.subrange(0, i + 1).map_values(
                |p: (Name, bool)| p.0@,
            );
            proof {
                assert(prefnext.drop_last() =~= pref);
                assert(prefnext.last() == entries@[i as int].0@);
                assert(old(self).vis(txn_id, entries@[i as int].0@) matches Some(e)
                    && entries@[i as int].1 == (e is Dir));
            }
            if !entries[i].1 {
                let ghost pre_step = *self;
                match self.read_file(txn_id, &entries[i].0) {
                    Ok(guard) => {
                        out.push((entries[i].0.duplicate(), guard));
                        proof {
                            let m = out@.map_values(|p: (Name, FileVersionRead)| p.0@);
                            assert(m =~= out@.drop_last().map_values(
                                |p: (Name, FileVersionRead)| p.0@,
                            ).push(out@.last().0@));
                            let la = out@.len() - 1;
                            let k = entries@[i as int].0@;
                            assert(out@[la].0@ == k && out@[la].1 == guard);
                            assert(pre_step.vis(txn_id, k) == old(self).vis(txn_id, k));
                            let f = old(self).vis(txn_id, k)->Some_0->File_0;
                            let f2 = choose|f2: File|
                                #[trigger] File::read_post(f, f2, txn_id, Ok(guard))
                                    && self.vis(txn_id, k) == Some(DirEntry::File(f2));
                            assert(File::read_post(f, f2, txn_id, Ok(out@[la].1)));
                            assert(out@[la].1.txn_id == txn_id);
                        }
                    },
                    Err(e) => {
                        proof {
                            let k = entries@[i as int].0@;
                            assert(pre_step.vis(txn_id, k) == old(self).vis(txn_id, k));
                            assert(!pre_step.outdated(txn_id));
                            assert(!pre_step.lock_committed(txn_id) ==> !pre_step.read_blocked(
                                txn_id,
                                k,
                            )) by {
                                if pre_step.read_blocked(txn_id, k) {
                                    let a = choose|a: int|
                                        0 <= a < pre_step.write_marks@.len()
                                            && pre_step.write_marks@[a].0 < txn_id
                                            && mark_overlaps(pre_step.write_marks@[a].1, k);
                                    assert(old(self).read_all_blocked(txn_id));
                                }
                            }
                            assert(old(self).file_read_refused(txn_id, k));
                        }
                        return Err(e);
                    },
                }
            }
            i = i + 1;
        }
        proof {
            assert(entries@.subrange(0, n as int) =~= entries@);
            assert(entries@.map_values(|p: (Name, bool)| p.0@) == old(self).vis_names(
                txn_id,
            ));
        }
        Ok(out)
    }
}


/// True if `b` agrees with `a` on all the lock and disk bookkeeping of the
/// directory itself (everything but the entry layers).
pub open spec fn same_lock_state(a: Dir, b: Dir) -> bool {
    &&& b.commits == a.commits
    &&& b.read_marks == a.read_marks
    &&& b.write_marks == a.write_marks
    &&& b.finalized_at == a.finalized_at
    &&& b.disk_removed == a.disk_removed
    &&& b.stray == a.stray
    &&& b.txfs == a.txfs
    &&& b.on_disk == a.on_disk
}

/// The directory reached by descending `path` from `d` at `t`: `d` itself
/// for the empty path, else the sub-directory visible under the first
/// component, descended recursively.
pub open spec fn dir_at(d: Dir, t: u64, path: Seq<Seq<char>>) -> Option<Dir>
    decreases path.len(),
{
    if path.len() == 0 {
        Some(d)
    } else {
        match d.vis(t, path[0]) {
            Some(e) => match e {
                DirEntry::Dir(sub) => dir_at(sub, t, path.drop_first()),
                DirEntry::File(_) => None,
            },
            None => None,
        }
    }
}

/// Why a descent of `path` from `d` at `t` fails: `NotFound` at the first
/// missing component, `InvalidData` at the first component naming a file,
/// and `None` when the descent reaches a directory.
pub open spec fn path_err(d: Dir, t: u64, path: Seq<Seq<char>>) -> Option<Error>
    decreases path.len(),
{
    if path.len() == 0 {
        None
    } else {
        match d.vis(t, path[0]) {
            Some(e) => match e {
                DirEntry::Dir(sub) => path_err(sub, t, path.drop_first()),
                DirEntry::File(_) => Some(Error::InvalidData),
            },
            None => Some(Error::NotFound),
        }
    }
}

impl Dir {
    /// Create a new empty sub-directory named `name` inside the directory
    /// reached by descending `path` from this one at `txn_id` (an empty
    /// `path` means this directory). The descent borrows each spine entry
    /// transiently and takes no reservation, since none outlives the call;
    /// the creation itself follows
    /// [`Dir::create_dir`]'s contract in the directory reached. The descent
    /// fails with `NotFound` at the first missing component and
    /// `InvalidData` at the first component naming a file.
    pub fn create_dir_at(&mut self, txn_id: u64, path: &Vec<Name>, name: &Name) -> (r: Result<()>)
        requires
            old(self).wf(),
            name.wf(),
            forall|i: int| 0 <= i < path@.len() ==> (#[trigger] path@[i]).wf(),
        ensures
            final(self).wf(),
            match dir_at(*old(self), txn_id, name_views(path@)) {
                Some(dpre) => exists|dpost: Dir|
                    {
                        &&& #[trigger] Dir::create_dir_post(dpre, dpost, txn_id, name@, r)
                        &&& dpost.wf()
                        &&& dir_at(*final(self), txn_id, name_views(path@)) == Some(dpost)
                    },
                None => r matches Err(e) && Some(e) == path_err(
                    *old(self),
                    txn_id,
                    name_views(path@),
                ),
            },
            path@.len() > 0 ==> same_lock_state(*old(self), *final(self)) && (forall|
                t2: u64,
                k2: Seq<char>,
            |
                k2 != name_views(path@)[0] ==> final(self).vis(t2, k2) == old(self).vis(
                    t2,
                    k2,
                )),
    {
        proof {
            assert(name_views(path@).subrange(0, path@.len() as int) =~= name_views(path@));
        }
        self.create_dir_from(txn_id, path, 0, name)
    }

    fn create_dir_from(&mut self, txn_id: u64, path: &Vec<Name>, depth: usize, name: &Name) -> (r: Result<
        (),
    >)
        requires
            old(self).wf(),
            name.wf(),
            depth <= path@.len(),
            forall|i: int| 0 <= i < path@.len() ==> (#[trigger] path@[i]).wf(),
        ensures
            final(self).wf(),
            ({
                let p = name_views(path@).subrange(depth as int, path@.len() as int);
                match dir_at(*old(self), txn_id, p) {
                    Some(dpre) => exists|dpost: Dir|
                        {
                            &&& #[trigger] Dir::create_dir_post(dpre, dpost, txn_id, name@, r)
                            &&& dpost.wf()
                            &&& dir_at(*final(self), txn_id, p) == Some(dpost)
                        },
                    None => r matches Err(e) && Some(e) == path_err(*old(self), txn_id, p),
                }
            }),
            depth < path@.len() ==> same_lock_state(*old(self), *final(self)) && (forall|
                t2: u64,
                k2: Seq<char>,
            |
                k2 != name_views(path@)[depth as int] ==> final(self).vis(t2, k2) == old(
                    self,
                ).vis(t2, k2)),
        decreases path@.len() - depth,
    {
        if depth == path.len() {
            proof {
                assert(name_views(path@).subrange(depth as int, path@.len() as int).len() == 0);
            }
            return self.create_dir(txn_id, name);
        }
        let ghost p = name_views(path@).subrange(depth as int, path@.len() as int);
        let ghost p2 = name_views(path@).subrange(depth as int + 1, path@.len() as int);
        proof {
            assert(p[0] == path@[depth as int]@);
            assert(p.drop_first() =~= p2);
        }
        let head = &path[depth];
        let loc = self.locate(txn_id, head);
        match loc {
            Loc::Absent => {
                return Err(Error::NotFound);
            },
            _ => {},
        }
        let dummy = DirEntry::File(File::create(txn_id, head.duplicate(), Vec::new()));
        let e = self.swap_at(loc, txn_id, head, dummy);
        match e {
            DirEntry::Dir(mut d) => {
                let ghost d0 = d;
                let r = d.create_dir_from(txn_id, path, depth + 1, name);
                proof {
                    assert(entry_wf(DirEntry::Dir(d)));
                }
                self.swap_at(loc, txn_id, head, DirEntry::Dir(d));
                proof {
                    assert(old(self).vis(txn_id, p[0]) == Some(DirEntry::Dir(d0)));
                    assert(final(self).vis(txn_id, p[0]) == Some(DirEntry::Dir(d)));
                    match dir_at(d0, txn_id, p2) {
                        Some(dpre) => {
                            let dpost = choose|dpost: Dir|
                                #[trigger] Dir::create_dir_post(dpre, dpost, txn_id, name@, r) && dpost.wf()
                                    && dir_at(d, txn_id, p2) == Some(dpost);
                            assert(dir_at(*old(self), txn_id, p) == Some(dpre));
                            assert(dir_at(*final(self), txn_id, p) == Some(dpost));
                            assert(Dir::create_dir_post(dpre, dpost, txn_id, name@, r));
                        },
                        None => {
                            assert(dir_at(*old(self), txn_id, p) is None);
                            assert(path_err(*old(self), txn_id, p) == path_err(
                                d0,
                                txn_id,
                                p2,
                            ));
                        },
                    }
                }
                r
            },
            DirEntry::File(f) => {
                self.swap_at(loc, txn_id, head, DirEntry::File(f));
                proof {
                    assert(dir_at(*old(self), txn_id, p) is None);
                    assert(path_err(*old(self), txn_id, p) == Some(Error::InvalidData));
                }
                Err(Error::InvalidData)
            },
        }
    }

    /// Create a new file named `name` with `contents` inside the directory
    /// reached by descending `path` from this one at `txn_id`. The descent
    /// behaves as in [`Dir::create_dir_at`]; the creation itself follows
    /// [`Dir::create_file`]'s contract in the directory reached.
    pub fn create_file_at(&mut self, txn_id: u64, path: &Vec<Name>, name: &Name, contents: Vec<u8>) -> (r: Result<()>)
        requires
            old(self).wf(),
            name.wf(),
            forall|i: int| 0 <= i < path@.len() ==> (#[trigger] path@[i]).wf(),
        ensures
            final(self).wf(),
            match dir_at(*old(self), txn_id, name_views(path@)) {
                Some(dpre) => exists|dpost: Dir|
                    {
                        &&& #[trigger] Dir::create_file_post(dpre, dpost, txn_id, name@, contents@, r)
                        &&& dpost.wf()
                        &&& dir_at(*final(self), txn_id, name_views(path@)) == Some(dpost)
                    },
                None => r matches Err(e) && Some(e) == path_err(
                    *old(self),
                    txn_id,
                    name_views(path@),
                ),
            },
            path@.len() > 0 ==> same_lock_state(*old(self), *final(self)) && (forall|
                t2: u64,
                k2: Seq<char>,
            |
                k2 != name_views(path@)[0] ==> final(self).vis(t2, k2) == old(self).vis(
                    t2,
                    k2,
                )),
    {
        proof {
            assert(name_views(path@).subrange(0, path@.len() as int) =~= name_views(path@));
        }
        self.create_file_from(txn_id, path, 0, name, contents)
    }

    fn create_file_from(&mut self, txn_id: u64, path: &Vec<Name>, depth: usize, name: &Name, contents: Vec<u8>) -> (r: Result<
        (),
    >)
        requires
            old(self).wf(),
            name.wf(),
            depth <= path@.len(),
            forall|i: int| 0 <= i < path@.len() ==> (#[trigger] path@[i]).wf(),
        ensures
            final(self).wf(),
            ({
                let p = name_views(path@).subrange(depth as int, path@.len() as int);
                match dir_at(*old(self), txn_id, p) {
                    Some(dpre) => exists|dpost: Dir|
                        {
                            &&& #[trigger] Dir::create_file_post(dpre, dpost, txn_id, name@, contents@, r)
                            &&& dpost.wf()
                            &&& dir_at(*final(self), txn_id, p) == Some(dpost)
                        },
                    None => r matches Err(e) && Some(e) == path_err(*old(self), txn_id, p),
                }
            }),
            depth < path@.len() ==> same_lock_state(*old(self), *final(self)) && (forall|
                t2: u64,
                k2: Seq<char>,
            |
                k2 != name_views(path@)[depth as int] ==> final(self).vis(t2, k2) == old(
                    self,
                ).vis(t2, k2)),
        decreases path@.len() - depth,
    {
        if depth == path.len() {
            proof {
                assert(name_views(path@).subrange(depth as int, path@.len() as int).len() == 0);
            }
            return self.create_file(txn_id, name, contents);
        }
        let ghost p = name_views(path@).subrange(depth as int, path@.len() as int);
        let ghost p2 = name_views(path@).subrange(depth as int + 1, path@.len() as int);
        proof {
            assert(p[0] == path@[depth as int]@);
            assert(p.drop_first() =~= p2);
        }
        let head = &path[depth];
        let loc = self.locate(txn_id, head);
        match loc {
            Loc::Absent => {
                return Err(Error::NotFound);
            },
            _ => {},
        }
        let dummy = DirEntry::File(File::create(txn_id, head.duplicate(), Vec::new()));
        let e = self.swap_at(loc, txn_id, head, dummy);
        match e {
            DirEntry::Dir(mut d) => {
                let ghost d0 = d;
                let r = d.create_file_from(txn_id, path, depth + 1, name, contents);
                proof {
                    assert(entry_wf(DirEntry::Dir(d)));
                }
                self.swap_at(loc, txn_id, head, DirEntry::Dir(d));
                proof {
                    assert(old(self).vis(txn_id, p[0]) == Some(DirEntry::Dir(d0)));
                    assert(final(self).vis(txn_id, p[0]) == Some(DirEntry::Dir(d)));
                    match dir_at(d0, txn_id, p2) {
                        Some(dpre) => {
                            let dpost = choose|dpost: Dir|
                                #[trigger] Dir::create_file_post(dpre, dpost, txn_id, name@, contents@, r) && dpost.wf()
                                    && dir_at(d, txn_id, p2) == Some(dpost);
                            assert(dir_at(*old(self), txn_id, p) == Some(dpre));
                            assert(dir_at(*final(self), txn_id, p) == Some(dpost));
                            assert(Dir::create_file_post(dpre, dpost, txn_id, name@, contents@, r));
                        },
                        None => {
                            assert(dir_at(*old(self), txn_id, p) is None);
                            assert(path_err(*old(self), txn_id, p) == path_err(
                                d0,
                                txn_id,
                                p2,
                            ));
                        },
                    }
                }
                r
            },
            DirEntry::File(f) => {
                self.swap_at(loc, txn_id, head, DirEntry::File(f));
                proof {
                    assert(dir_at(*old(self), txn_id, p) is None);
                    assert(path_err(*old(self), txn_id, p) == Some(Error::InvalidData));
                }
                Err(Error::InvalidData)
            },
        }
    }

    /// Delete the entry at `name` inside the directory reached by
    /// descending `path` from this one at `txn_id`, returning `true` if one
    /// was present. The descent behaves as in [`Dir::create_dir_at`]; the
    /// deletion itself follows [`Dir::delete`]'s contract in the directory
    /// reached.
    pub fn delete_at(&mut self, txn_id: u64, path: &Vec<Name>, name: &Name) -> (r: Result<bool>)
        requires
            old(self).wf(),
            name.wf(),
            forall|i: int| 0 <= i < path@.len() ==> (#[trigger] path@[i]).wf(),
        ensures
            final(self).wf(),
            match dir_at(*old(self), txn_id, name_views(path@)) {
                Some(dpre) => exists|dpost: Dir|
                    {
                        &&& #[trigger] Dir::delete_post(dpre, dpost, txn_id, name@, r)
                        &&& dpost.wf()
                        &&& dir_at(*final(self), txn_id, name_views(path@)) == Some(dpost)
                    },
                None => r matches Err(e) && Some(e) == path_err(
                    *old(self),
                    txn_id,
                    name_views(path@),
                ),
            },
            path@.len() > 0 ==> same_lock_state(*old(self), *final(self)) && (forall|
                t2: u64,
                k2: Seq<char>,
            |
                k2 != name_views(path@)[0] ==> final(self).vis(t2, k2) == old(self).vis(
                    t2,
                    k2,
                )),
    {
        proof {
            assert(name_views(path@).subrange(0, path@.len() as int) =~= name_views(path@));
        }
        self.delete_from(txn_id, path, 0, name)
    }

    fn delete_from(&mut self, txn_id: u64, path: &Vec<Name>, depth: usize, name: &Name) -> (r: Result<
        bool,
    >)
        requires
            old(self).wf(),
            name.wf(),
            depth <= path@.len(),
            forall|i: int| 0 <= i < path@.len() ==> (#[trigger] path@[i]).wf(),
        ensures
            final(self).wf(),
            ({
                let p = name_views(path@).subrange(depth as int, path@.len() as int);
                match dir_at(*old(self), txn_id, p) {
                    Some(dpre) => exists|dpost: Dir|
                        {
                            &&& #[trigger] Dir::delete_post(dpre, dpost, txn_id, name@, r)
                            &&& dpost.wf()
                            &&& dir_at(*final(self), txn_id, p) == Some(dpost)
                        },
                    None => r matches Err(e) && Some(e) == path_err(*old(self), txn_id, p),
                }
            }),
            depth < path@.len() ==> same_lock_state(*old(self), *final(self)) && (forall|
                t2: u64,
                k2: Seq<char>,
            |
                k2 != name_views(path@)[depth as int] ==> final(self).vis(t2, k2) == old(
                    self,
                ).vis(t2, k2)),
        decreases path@.len() - depth,
    {
        if depth == path.len() {
            proof {
                assert(name_views(path@).subrange(depth as int, path@.len() as int).len() == 0);
            }
            return self.delete(txn_id, name);
        }
        let ghost p = name_views(path@).subrange(depth as int, path@.len() as int);
        let ghost p2 = name_views(path@).subrange(depth as int + 1, path@.len() as int);
        proof {
            assert(p[0] == path@[depth as int]@);
            assert(p.drop_first() =~= p2);
        }
        let head = &path[depth];
        let loc = self.locate(txn_id, head);
        match loc {
            Loc::Absent => {
                return Err(Error::NotFound);
            },
            _ => {},
        }
        let dummy = DirEntry::File(File::create(txn_id, head.duplicate(), Vec::new()));
        let e = self.swap_at(loc, txn_id, head, dummy);
        match e {
            DirEntry::Dir(mut d) => {
                let ghost d0 = d;
                let r = d.delete_from(txn_id, path, depth + 1, name);
                proof {
                    assert(entry_wf(DirEntry::Dir(d)));
                }
                self.swap_at(loc, txn_id, head, DirEntry::Dir(d));
                proof {
                    assert(old(self).vis(txn_id, p[0]) == Some(DirEntry::Dir(d0)));
                    assert(final(self).vis(txn_id, p[0]) == Some(DirEntry::Dir(d)));
                    match dir_at(d0, txn_id, p2) {
                        Some(dpre) => {
                            let dpost = choose|dpost: Dir|
                                #[trigger] Dir::delete_post(dpre, dpost, txn_id, name@, r) && dpost.wf()
                                    && dir_at(d, txn_id, p2) == Some(dpost);
                            assert(dir_at(*old(self), txn_id, p) == Some(dpre));
                            assert(dir_at(*final(self), txn_id, p) == Some(dpost));
                            assert(Dir::delete_post(dpre, dpost, txn_id, name@, r));
                        },
                        None => {
                            assert(dir_at(*old(self), txn_id, p) is None);
                            assert(path_err(*old(self), txn_id, p) == path_err(
                                d0,
                                txn_id,
                                p2,
                            ));
                        },
                    }
                }
                r
            },
            DirEntry::File(f) => {
                self.swap_at(loc, txn_id, head, DirEntry::File(f));
                proof {
                    assert(dir_at(*old(self), txn_id, p) is None);
                    assert(path_err(*old(self), txn_id, p) == Some(Error::InvalidData));
                }
                Err(Error::InvalidData)
            },
        }
    }

    /// Lock for reading the file at `name` inside the directory reached by
    /// descending `path` from this one at `txn_id`. The descent behaves as
    /// in [`Dir::create_dir_at`]; the read itself follows
    /// [`Dir::read_file`]'s contract in the directory reached. Hand the
    /// guard back with [`Dir::release_file_read_at`] under the same path.
    pub fn read_file_at(&mut self, txn_id: u64, path: &Vec<Name>, name: &Name) -> (r: Result<FileVersionRead>)
        requires
            old(self).wf(),
            name.wf(),
            forall|i: int| 0 <= i < path@.len() ==> (#[trigger] path@[i]).wf(),
        ensures
            final(self).wf(),
            match dir_at(*old(self), txn_id, name_views(path@)) {
                Some(dpre) => exists|dpost: Dir|
                    {
                        &&& #[trigger] Dir::read_file_post(dpre, dpost, txn_id, name@, r)
                        &&& dpost.wf()
                        &&& dir_at(*final(self), txn_id, name_views(path@)) == Some(dpost)
                    },
                None => r matches Err(e) && Some(e) == path_err(
                    *old(self),
                    txn_id,
                    name_views(path@),
                ),
            },
            path@.len() > 0 ==> same_lock_state(*old(self), *final(self)) && (forall|
                t2: u64,
                k2: Seq<char>,
            |
                k2 != name_views(path@)[0] ==> final(self).vis(t2, k2) == old(self).vis(
                    t2,
                    k2,
                )),
    {
        proof {
            assert(name_views(path@).subrange(0, path@.len() as int) =~= name_views(path@));
        }
        self.read_file_from(txn_id, path, 0, name)
    }

    fn read_file_from(&mut self, txn_id: u64, path: &Vec<Name>, depth: usize, name: &Name) -> (r: Result<
        FileVersionRead,
    >)
        requires
            old(self).wf(),
            name.wf(),
            depth <= path@.len(),
            forall|i: int| 0 <= i < path@.len() ==> (#[trigger] path@[i]).wf(),
        ensures
            final(self).wf(),
            ({
                let p = name_views(path@).subrange(depth as int, path@.len() as int);
                match dir_at(*old(self), txn_id, p) {
                    Some(dpre) => exists|dpost: Dir|
                        {
                            &&& #[trigger] Dir::read_file_post(dpre, dpost, txn_id, name@, r)
                            &&& dpost.wf()
                            &&& dir_at(*final(self), txn_id, p) == Some(dpost)
                        },
                    None => r matches Err(e) && Some(e) == path_err(*old(self), txn_id, p),
                }
            }),
            depth < path@.len() ==> same_lock_state(*old(self), *final(self)) && (forall|
                t2: u64,
                k2: Seq<char>,
            |
                k2 != name_views(path@)[depth as int] ==> final(self).vis(t2, k2) == old(
                    self,
                ).vis(t2, k2)),
        decreases path@.len() - depth,
    {
        if depth == path.len() {
            proof {
                assert(name_views(path@).subrange(depth as int, path@.len() as int).len() == 0);
            }
            return self.read_file(txn_id, name);
        }
        let ghost p = name_views(path@).subrange(depth as int, path@.len() as int);
        let ghost p2 = name_views(path@).subrange(depth as int + 1, path@.len() as int);
        proof {
            assert(p[0] == path@[depth as int]@);
            assert(p.drop_first() =~= p2);
        }
        let head = &path[depth];
        let loc = self.locate(txn_id, head);
        match loc {
            Loc::Absent => {
                return Err(Error::NotFound);
            },
            _ => {},
        }
        let dummy = DirEntry::File(File::create(txn_id, head.duplicate(), Vec::new()));
        let e = self.swap_at(loc, txn_id, head, dummy);
        match e {
            DirEntry::Dir(mut d) => {
                let ghost d0 = d;
                let r = d.read_file_from(txn_id, path, depth + 1, name);
                proof {
                    assert(entry_wf(DirEntry::Dir(d)));
                }
                self.swap_at(loc, txn_id, head, DirEntry::Dir(d));
                proof {
                    assert(old(self).vis(txn_id, p[0]) == Some(DirEntry::Dir(d0)));
                    assert(final(self).vis(txn_id, p[0]) == Some(DirEntry::Dir(d)));
                    match dir_at(d0, txn_id, p2) {
                        Some(dpre) => {
                            let dpost = choose|dpost: Dir|
                                #[trigger] Dir::read_file_post(dpre, dpost, txn_id, name@, r) && dpost.wf()
                                    && dir_at(d, txn_id, p2) == Some(dpost);
                            assert(dir_at(*old(self), txn_id, p) == Some(dpre));
                            assert(dir_at(*final(self), txn_id, p) == Some(dpost));
                            assert(Dir::read_file_post(dpre, dpost, txn_id, name@, r));
                        },
                        None => {
                            assert(dir_at(*old(self), txn_id, p) is None);
                            assert(path_err(*old(self), txn_id, p) == path_err(
                                d0,
                                txn_id,
                                p2,
                            ));
                        },
                    }
                }
                r
            },
            DirEntry::File(f) => {
                self.swap_at(loc, txn_id, head, DirEntry::File(f));
                proof {
                    assert(dir_at(*old(self), txn_id, p) is None);
                    assert(path_err(*old(self), txn_id, p) == Some(Error::InvalidData));
                }
                Err(Error::InvalidData)
            },
        }
    }

    /// Lock for writing the file at `name` inside the directory reached by
    /// descending `path` from this one at `txn_id`. The descent behaves as
    /// in [`Dir::create_dir_at`]; the write itself follows
    /// [`Dir::write_file`]'s contract in the directory reached. Hand the
    /// guard back with [`Dir::release_file_write_at`] under the same path.
    pub fn write_file_at(&mut self, txn_id: u64, path: &Vec<Name>, name: &Name) -> (r: Result<FileVersionWrite>)
        requires
            old(self).wf(),
            name.wf(),
            forall|i: int| 0 <= i < path@.len() ==> (#[trigger] path@[i]).wf(),
        ensures
            final(self).wf(),
            match dir_at(*old(self), txn_id, name_views(path@)) {
                Some(dpre) => exists|dpost: Dir|
                    {
                        &&& #[trigger] Dir::write_file_post(dpre, dpost, txn_id, name@, r)
                        &&& dpost.wf()
                        &&& dir_at(*final(self), txn_id, name_views(path@)) == Some(dpost)
                    },
                None => r matches Err(e) && Some(e) == path_err(
                    *old(self),
                    txn_id,
                    name_views(path@),
                ),
            },
            path@.len() > 0 ==> same_lock_state(*old(self), *final(self)) && (forall|
                t2: u64,
                k2: Seq<char>,
            |
                k2 != name_views(path@)[0] ==> final(self).vis(t2, k2) == old(self).vis(
                    t2,
                    k2,
                )),
    {
        proof {
            assert(name_views(path@).subrange(0, path@.len() as int) =~= name_views(path@));
        }
        self.write_file_from(txn_id, path, 0, name)
    }

    fn write_file_from(&mut self, txn_id: u64, path: &Vec<Name>, depth: usize, name: &Name) -> (r: Result<
        FileVersionWrite,
    >)
        requires
            old(self).wf(),
            name.wf(),
            depth <= path@.len(),
            forall|i: int| 0 <= i < path@.len() ==> (#[trigger] path@[i]).wf(),
        ensures
            final(self).wf(),
            ({
                let p = name_views(path@).subrange(depth as int, path@.len() as int);
                match dir_at(*old(self), txn_id, p) {
                    Some(dpre) => exists|dpost: Dir|
                        {
                            &&& #[trigger] Dir::write_file_post(dpre, dpost, txn_id, name@, r)
                            &&& dpost.wf()
                            &&& dir_at(*final(self), txn_id, p) == Some(dpost)
                        },
                    None => r matches Err(e) && Some(e) == path_err(*old(self), txn_id, p),
                }
            }),
            depth < path@.len() ==> same_lock_state(*old(self), *final(self)) && (forall|
                t2: u64,
                k2: Seq<char>,
            |
                k2 != name_views(path@)[depth as int] ==> final(self).vis(t2, k2) == old(
                    self,
                ).vis(t2, k2)),
        decreases path@.len() - depth,
    {
        if depth == path.len() {
            proof {
                assert(name_views(path@).subrange(depth as int, path@.len() as int).len() == 0);
            }
            return self.write_file(txn_id, name);
        }
        let ghost p = name_views(path@).subrange(depth as int, path@.len() as int);
        let ghost p2 = name_views(path@).subrange(depth as int + 1, path@.len() as int);
        proof {
            assert(p[0] == path@[depth as int]@);
            assert(p.drop_first() =~= p2);
        }
        let head = &path[depth];
        let loc = self.locate(txn_id, head);
        match loc {
            Loc::Absent => {
                return Err(Error::NotFound);
            },
            _ => {},
        }
        let dummy = DirEntry::File(File::create(txn_id, head.duplicate(), Vec::new()));
        let e = self.swap_at(loc, txn_id, head, dummy);
        match e {
            DirEntry::Dir(mut d) => {
                let ghost d0 = d;
                let r = d.write_file_from(txn_id, path, depth + 1, name);
                proof {
                    assert(entry_wf(DirEntry::Dir(d)));
                }
                self.swap_at(loc, txn_id, head, DirEntry::Dir(d));
                proof {
                    assert(old(self).vis(txn_id, p[0]) == Some(DirEntry::Dir(d0)));
                    assert(final(self).vis(txn_id, p[0]) == Some(DirEntry::Dir(d)));
                    match dir_at(d0, txn_id, p2) {
                        Some(dpre) => {
                            let dpost = choose|dpost: Dir|
                                #[trigger] Dir::write_file_post(dpre, dpost, txn_id, name@, r) && dpost.wf()
                                    && dir_at(d, txn_id, p2) == Some(dpost);
                            assert(dir_at(*old(self), txn_id, p) == Some(dpre));
                            assert(dir_at(*final(self), txn_id, p) == Some(dpost));
                            assert(Dir::write_file_post(dpre, dpost, txn_id, name@, r));
                        },
                        None => {
                            assert(dir_at(*old(self), txn_id, p) is None);
                            assert(path_err(*old(self), txn_id, p) == path_err(
                                d0,
                                txn_id,
                                p2,
                            ));
                        },
                    }
                }
                r
            },
            DirEntry::File(f) => {
                self.swap_at(loc, txn_id, head, DirEntry::File(f));
                proof {
                    assert(dir_at(*old(self), txn_id, p) is None);
                    assert(path_err(*old(self), txn_id, p) == Some(Error::InvalidData));
                }
                Err(Error::InvalidData)
            },
        }
    }

    /// Hand back a read guard on a file inside the directory reached by
    /// descending `path` from this one at the guard's transaction. The
    /// descent behaves as in [`Dir::create_dir_at`]; the release itself
    /// follows [`Dir::release_file_read`]'s contract in the directory
    /// reached.
    pub fn release_file_read_at(&mut self, path: &Vec<Name>, name: &Name, guard: FileVersionRead) -> (r: Result<()>)
        requires
            old(self).wf(),
            name.wf(),
            forall|i: int| 0 <= i < path@.len() ==> (#[trigger] path@[i]).wf(),
        ensures
            final(self).wf(),
            match dir_at(*old(self), guard.txn_id, name_views(path@)) {
                Some(dpre) => exists|dpost: Dir|
                    {
                        &&& #[trigger] Dir::release_read_at_post(dpre, dpost, name@, guard, r)
                        &&& dpost.wf()
                        &&& dir_at(*final(self), guard.txn_id, name_views(path@)) == Some(dpost)
                    },
                None => r matches Err(e) && Some(e) == path_err(
                    *old(self),
                    guard.txn_id,
                    name_views(path@),
                ),
            },
            path@.len() > 0 ==> same_lock_state(*old(self), *final(self)) && (forall|
                t2: u64,
                k2: Seq<char>,
            |
                k2 != name_views(path@)[0] ==> final(self).vis(t2, k2) == old(self).vis(
                    t2,
                    k2,
                )),
    {
        proof {
            assert(name_views(path@).subrange(0, path@.len() as int) =~= name_views(path@));
        }
        self.release_file_read_from(path, 0, name, guard)
    }

    fn release_file_read_from(&mut self, path: &Vec<Name>, depth: usize, name: &Name, guard: FileVersionRead) -> (r: Result<
        (),
    >)
        requires
            old(self).wf(),
            name.wf(),
            depth <= path@.len(),
            forall|i: int| 0 <= i < path@.len() ==> (#[trigger] path@[i]).wf(),
        ensures
            final(self).wf(),
            ({
                let p = name_views(path@).subrange(depth as int, path@.len() as int);
                match dir_at(*old(self), guard.txn_id, p) {
                    Some(dpre) => exists|dpost: Dir|
                        {
                            &&& #[trigger] Dir::release_read_at_post(dpre, dpost, name@, guard, r)
                            &&& dpost.wf()
                            &&& dir_at(*final(self), guard.txn_id, p) == Some(dpost)
                        },
                    None => r matches Err(e) && Some(e) == path_err(*old(self), guard.txn_id, p),
                }
            }),
            depth < path@.len() ==> same_lock_state(*old(self), *final(self)) && (forall|
                t2: u64,
                k2: Seq<char>,
            |
                k2 != name_views(path@)[depth as int] ==> final(self).vis(t2, k2) == old(
                    self,
                ).vis(t2, k2)),
        decreases path@.len() - depth,
    {
        let gtxn = guard.txn_id;
        if depth == path.len() {
            proof {
                assert(name_views(path@).subrange(depth as int, path@.len() as int).len() == 0);
            }
            return self.release_file_read(name, guard);
        }
        let ghost p = name_views(path@).subrange(depth as int, path@.len() as int);
        let ghost p2 = name_views(path@).subrange(depth as int + 1, path@.len() as int);
        proof {
            assert(p[0] == path@[depth as int]@);
            assert(p.drop_first() =~= p2);
        }
        let head = &path[depth];
        let loc = self.locate(gtxn, head);
        match loc {
            Loc::Absent => {
                return Err(Error::NotFound);
            },
            _ => {},
        }
        let dummy = DirEntry::File(File::create(gtxn, head.duplicate(), Vec::new()));
        let e = self.swap_at(loc, gtxn, head, dummy);
        match e {
            DirEntry::Dir(mut d) => {
                let ghost d0 = d;
                let r = d.release_file_read_from(path, depth + 1, name, guard);
                proof {
                    assert(entry_wf(DirEntry::Dir(d)));
                }
                self.swap_at(loc, gtxn, head, DirEntry::Dir(d));
                proof {
                    assert(old(self).vis(guard.txn_id, p[0]) == Some(DirEntry::Dir(d0)));
                    assert(final(self).vis(guard.txn_id, p[0]) == Some(DirEntry::Dir(d)));
                    match dir_at(d0, guard.txn_id, p2) {
                        Some(dpre) => {
                            let dpost = choose|dpost: Dir|
                                #[trigger] Dir::release_read_at_post(dpre, dpost, name@, guard, r) && dpost.wf()
                                    && dir_at(d, guard.txn_id, p2) == Some(dpost);
                            assert(dir_at(*old(self), guard.txn_id, p) == Some(dpre));
                            assert(dir_at(*final(self), guard.txn_id, p) == Some(dpost));
                            assert(Dir::release_read_at_post(dpre, dpost, name@, guard, r));
                        },
                        None => {
                            assert(dir_at(*old(self), guard.txn_id, p) is None);
                            assert(path_err(*old(self), guard.txn_id, p) == path_err(
                                d0,
                                guard.txn_id,
                                p2,
                            ));
                        },
                    }
                }
                r
            },
            DirEntry::File(f) => {
                self.swap_at(loc, gtxn, head, DirEntry::File(f));
                proof {
                    assert(dir_at(*old(self), guard.txn_id, p) is None);
                    assert(path_err(*old(self), guard.txn_id, p) == Some(Error::InvalidData));
                }
                Err(Error::InvalidData)
            },
        }
    }

    /// Hand back a write guard on a file inside the directory reached by
    /// descending `path` from this one at the guard's transaction: its
    /// bytes are stored into the version file and the write lock released.
    /// The descent behaves as in [`Dir::create_dir_at`]; the release itself
    /// follows [`Dir::release_file_write`]'s contract in the directory
    /// reached.
    pub fn release_file_write_at(&mut self, path: &Vec<Name>, name: &Name, guard: FileVersionWrite) -> (r: Result<()>)
        requires
            old(self).wf(),
            name.wf(),
            forall|i: int| 0 <= i < path@.len() ==> (#[trigger] path@[i]).wf(),
        ensures
            final(self).wf(),
            match dir_at(*old(self), guard.txn_id, name_views(path@)) {
                Some(dpre) => exists|dpost: Dir|
                    {
                        &&& #[trigger] Dir::release_write_at_post(dpre, dpost, name@, guard, r)
                        &&& dpost.wf()
                        &&& dir_at(*final(self), guard.txn_id, name_views(path@)) == Some(dpost)
                    },
                None => r matches Err(e) && Some(e) == path_err(
                    *old(self),
                    guard.txn_id,
                    name_views(path@),
                ),
            },
            path@.len() > 0 ==> same_lock_state(*old(self), *final(self)) && (forall|
                t2: u64,
                k2: Seq<char>,
            |
                k2 != name_views(path@)[0] ==> final(self).vis(t2, k2) == old(self).vis(
                    t2,
                    k2,
                )),
    {
        proof {
            assert(name_views(path@).subrange(0, path@.len() as int) =~= name_views(path@));
        }
        self.release_file_write_from(path, 0, name, guard)
    }

    fn release_file_write_from(&mut self, path: &Vec<Name>, depth: usize, name: &Name, guard: FileVersionWrite) -> (r: Result<
        (),
    >)
        requires
            old(self).wf(),
            name.wf(),
            depth <= path@.len(),
            forall|i: int| 0 <= i < path@.len() ==> (#[trigger] path@[i]).wf(),
        ensures
            final(self).wf(),
            ({
                let p = name_views(path@).subrange(depth as int, path@.len() as int);
                match dir_at(*old(self), guard.txn_id, p) {
                    Some(dpre) => exists|dpost: Dir|
                        {
                            &&& #[trigger] Dir::release_write_at_post(dpre, dpost, name@, guard, r)
                            &&& dpost.wf()
                            &&& dir_at(*final(self), guard.txn_id, p) == Some(dpost)
                        },
                    None => r matches Err(e) && Some(e) == path_err(*old(self), guard.txn_id, p),
                }
            }),
            depth < path@.len() ==> same_lock_state(*old(self), *final(self)) && (forall|
                t2: u64,
                k2: Seq<char>,
            |
                k2 != name_views(path@)[depth as int] ==> final(self).vis(t2, k2) == old(
                    self,
                ).vis(t2, k2)),
        decreases path@.len() - depth,
    {
        let gtxn = guard.txn_id;
        if depth == path.len() {
            proof {
                assert(name_views(path@).subrange(depth as int, path@.len() as int).len() == 0);
            }
            return self.release_file_write(name, guard);
        }
        let ghost p = name_views(path@).subrange(depth as int, path@.len() as int);
        let ghost p2 = name_views(path@).subrange(depth as int + 1, path@.len() as int);
        proof {
            assert(p[0] == path@[depth as int]@);
            assert(p.drop_first() =~= p2);
        }
        let head = &path[depth];
        let loc = self.locate(gtxn, head);
        match loc {
            Loc::Absent => {
                return Err(Error::NotFound);
            },
            _ => {},
        }
        let dummy = DirEntry::File(File::create(gtxn, head.duplicate(), Vec::new()));
        let e = self.swap_at(loc, gtxn, head, dummy);
        match e {
            DirEntry::Dir(mut d) => {
                let ghost d0 = d;
                let r = d.release_file_write_from(path, depth + 1, name, guard);
                proof {
                    assert(entry_wf(DirEntry::Dir(d)));
                }
                self.swap_at(loc, gtxn, head, DirEntry::Dir(d));
                proof {
                    assert(old(self).vis(guard.txn_id, p[0]) == Some(DirEntry::Dir(d0)));
                    assert(final(self).vis(guard.txn_id, p[0]) == Some(DirEntry::Dir(d)));
                    match dir_at(d0, guard.txn_id, p2) {
                        Some(dpre) => {
                            let dpost = choose|dpost: Dir|
                                #[trigger] Dir::release_write_at_post(dpre, dpost, name@, guard, r) && dpost.wf()
                                    && dir_at(d, guard.txn_id, p2) == Some(dpost);
                            assert(dir_at(*old(self), guard.txn_id, p) == Some(dpre));
                            assert(dir_at(*final(self), guard.txn_id, p) == Some(dpost));
                            assert(Dir::release_write_at_post(dpre, dpost, name@, guard, r));
                        },
                        None => {
                            assert(dir_at(*old(self), guard.txn_id, p) is None);
                            assert(path_err(*old(self), guard.txn_id, p) == path_err(
                                d0,
                                guard.txn_id,
                                p2,
                            ));
                        },
                    }
                }
                r
            },
            DirEntry::File(f) => {
                self.swap_at(loc, gtxn, head, DirEntry::File(f));
                proof {
                    assert(dir_at(*old(self), guard.txn_id, p) is None);
                    assert(path_err(*old(self), guard.txn_id, p) == Some(Error::InvalidData));
                }
                Err(Error::InvalidData)
            },
        }
    }
}

} // verus!


















