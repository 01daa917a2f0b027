//! The [`Entry`] tree every scanning backend produces, the [`ScanEngine`]
//! trait, and the outcome/event vocabulary engines report through.

use std::path::{Path, PathBuf};
use std::sync::mpsc::{Receiver, SyncSender};
use vstd::prelude::*;

use crate::order::{is_permutation, sort_desc_stable};

pub mod mft;
pub mod progress;
pub mod volume;

pub use progress::{ScanContext, ScanProgress};

verus! {

#[verifier::external_type_specification]
#[verifier::external_body]
pub struct ExPathBuf(PathBuf);

#[verifier::external_type_specification]
#[verifier::external_body]
pub struct ExPath(Path);

/// `PathBuf::clone`: the copy is the same path.
pub assume_specification[ <PathBuf as Clone>::clone ](path: &PathBuf) -> (copy: PathBuf)
    ensures
        copy == *path,
;

#[verifier::external_type_specification]
#[verifier::external_body]
pub struct ExIoError(std::io::Error);

#[verifier::external_type_specification]
#[verifier::external_body]
#[verifier::reject_recursive_types(T)]
pub struct ExSyncSender<T>(SyncSender<T>);

#[verifier::external_type_specification]
#[verifier::external_body]
#[verifier::reject_recursive_types(T)]
pub struct ExReceiver<T>(Receiver<T>);

/// What `Path::join` gives: `base` extended by the component `name`.
pub uninterp spec fn joined(base: PathBuf, name: Seq<char>) -> PathBuf;

/// `Path::join`: `base` extended by `name`; its result is named.
#[verifier::external_body]
pub(crate) fn join_name(base: &PathBuf, name: &String) -> (path: PathBuf)
    ensures
        path == joined(*base, name@),
{
    base.join(name)
}

/// Process-local identity for one scan generation.
pub type ScanId = u64;

/// Maximum number of provisional discovery events retained for the UI.
pub const LIVE_EVENT_CAPACITY: usize = 1024;

/// The number of messages a channel whose sending end is `sender` can hold
/// undelivered, as it was made with.
pub uninterp spec fn channel_bound(sender: SyncSender<ScanEvent>) -> usize;

/// `std::sync::mpsc::sync_channel`: a channel whose buffer holds at most
/// `bound` queued messages.
#[verifier::external_body]
fn bounded_channel(bound: usize) -> (pair: (SyncSender<ScanEvent>, Receiver<ScanEvent>))
    ensures
        channel_bound(pair.0) == bound,
{
    std::sync::mpsc::sync_channel(bound)
}

/// Creates the bounded channel used for provisional live discovery, holding
/// at most [`LIVE_EVENT_CAPACITY`] undelivered events.
pub fn live_event_channel() -> (pair: (SyncSender<ScanEvent>, Receiver<ScanEvent>))
    ensures
        channel_bound(pair.0) == LIVE_EVENT_CAPACITY,
{
    bounded_channel(LIVE_EVENT_CAPACITY)
}

/// A single file or directory discovered during a scan. Directories store
/// the total size of everything beneath them in `size`.
#[derive(Debug)]
pub struct Entry {
    pub name: String,
    pub path: PathBuf,
    pub size: u64,
    pub is_dir: bool,
    pub children: Vec<Entry>,
}

impl Clone for Entry {
    /// A deep copy: the same tree.
    fn clone(&self) -> (copy: Self)
        ensures
            copy.same_tree(*self),
        decreases self,
    {
        let mut children: Vec<Entry> = Vec::new();
        let n = self.children.len();
        let mut i: usize = 0;
        while i < n
            invariant
                n == self.children@.len(),
                i <= n,
                children@.len() == i,
                forall|j: int| 0 <= j < i ==> (#[trigger] children@[j]).same_tree(self.children@[j]),
            decreases n - i,
        {
            proof {
                assert(decreases_to!(*self => self.children));
                assert(decreases_to!(self.children => self.children@));
                assert(decreases_to!(self.children@ => self.children@[i as int]));
            }
            let child = self.children[i].clone();
            children.push(child);
            i += 1;
        }
        let copy = Entry {
            name: self.name.clone(),
            path: self.path.clone(),
            size: self.size,
            is_dir: self.is_dir,
            children,
        };
        copy
    }
}

impl Entry {
    /// `self` and `other` hold the same names, paths, sizes and kinds, level by
    /// level, in the same order.
    pub open spec fn same_tree(self, other: Entry) -> bool
        decreases self,
    {
        &&& self.name@ == other.name@
        &&& self.path == other.path
        &&& self.size == other.size
        &&& self.is_dir == other.is_dir
        &&& self.children@.len() == other.children@.len()
        &&& forall|k: int|
            0 <= k < self.children@.len() ==> (#[trigger] self.children@[k]).same_tree(
                other.children@[k],
            )
    }

    /// The direct children run largest first.
    pub open spec fn children_sorted(self) -> bool {
        forall|a: int, b: int|
            #![trigger self.children@[a], self.children@[b]]
            0 <= a < b < self.children@.len() ==> self.children@[a].size
                >= self.children@[b].size
    }

    /// Every level of the tree runs largest first.
    pub open spec fn sorted_deep(self) -> bool
        decreases self,
    {
        &&& self.children_sorted()
        &&& forall|k: int|
            0 <= k < self.children@.len() ==> (#[trigger] self.children@[k]).sorted_deep()
    }

    /// `self` is `other` with the children of every directory put in another
    /// order, where children of equal size keep their relative order, and
    /// nothing else changed.
    pub open spec fn reordering_of(self, other: Entry) -> bool
        decreases self,
    {
        &&& self.name == other.name
        &&& self.path == other.path
        &&& self.size == other.size
        &&& self.is_dir == other.is_dir
        &&& self.children@.len() == other.children@.len()
        &&& exists|p: Seq<int>|
            {
                &&& is_permutation(p, self.children@.len() as int)
                &&& forall|a: int, b: int|
                    #![trigger p[a], p[b]]
                    0 <= a < b < self.children@.len() && self.children@[a].size
                        == self.children@[b].size ==> p[a] < p[b]
                &&& forall|k: int|
                    0 <= k < self.children@.len() ==> (#[trigger] self.children@[k]).reordering_of(
                        other.children@[p[k]],
                    )
            }
    }

    /// Sorts this entry's children largest-first, recursively.
    pub fn sort_children_recursive(&mut self)
        ensures
            final(self).sorted_deep(),
            final(self).reordering_of(*old(self)),
        decreases *old(self),
    {
        let n = self.children.len();
        let mut i: usize = 0;
        while i < n
            invariant
                n == self.children.len(),
                n == old(self).children.len(),
                self.name == old(self).name,
                self.path == old(self).path,
                self.size == old(self).size,
                self.is_dir == old(self).is_dir,
                forall|j: int| i <= j < n ==> self.children@[j] == old(self).children@[j],
                forall|j: int|
                    0 <= j < i ==> (#[trigger] self.children@[j]).sorted_deep()
                        && self.children@[j].reordering_of(old(self).children@[j]),
            decreases n - i,
        {
            proof {
                assert(decreases_to!(*old(self) => old(self).children));
                assert(decreases_to!(old(self).children => old(self).children@));
                assert(decreases_to!(old(self).children@ => old(self).children@[i as int]));
            }
            self.children[i].sort_children_recursive();
            i += 1;
        }
        let ghost mid = self.children@;
        let mut keys: Vec<u64> = Vec::new();
        let mut k: usize = 0;
        while k < n
            invariant
                k <= n,
                n == self.children.len(),
                self.children@ == mid,
                keys@.len() == k,
                forall|j: int| 0 <= j < k ==> keys@[j] == mid[j].size,
            decreases n - k,
        {
            keys.push(self.children[k].size);
            k += 1;
        }
        let perm = sort_desc_stable(&mut self.children, &mut keys);
        proof {
            let p = perm@;
            assert forall|a: int| 0 <= a < n implies (#[trigger] self.children@[a]).reordering_of(
                old(self).children@[p[a]],
            ) && self.children@[a].sorted_deep() && self.children@[a].size == keys@[a] by {
                assert(mid[p[a]].reordering_of(old(self).children@[p[a]]));
            }
            assert(is_permutation(p, self.children@.len() as int));
            assert forall|a: int, b: int|
                #![trigger p[a], p[b]]
                0 <= a < b < self.children@.len() && self.children@[a].size
                    == self.children@[b].size implies p[a] < p[b] by {
                assert(keys@[a] == self.children@[a].size && keys@[b] == self.children@[b].size);
            }
            assert(self.children_sorted());
        }
    }

    /// Number of direct children.
    pub fn child_count(&self) -> (count: usize)
        ensures
            count == self.children@.len(),
    {
        self.children.len()
    }
}

/// Whether a given engine can scan a given target. Anything other than
/// [`Availability::Available`] tells the orchestration layer to fall back to
/// another engine.
#[derive(Debug, Clone, Copy, PartialEq, Eq, Structural)]
pub enum Availability {
    /// The engine can scan this target right now.
    Available,
    /// The engine could scan this target, but only with elevated privileges.
    RequiresElevation,
    /// The target's filesystem is one this engine cannot read.
    UnsupportedFilesystem,
    /// The engine does not apply to this kind of target at all.
    NotApplicable,
}

/// Why an engine produced no result at all (as opposed to individual
/// unreadable entries, which are skipped).
#[derive(Debug)]
pub enum ScanError {
    /// The engine cannot run against this target.
    Unavailable(Availability),
    /// The scan root itself could not be read.
    RootUnreadable(std::io::Error),
}

/// The complete outcome of one scan generation.
#[derive(Debug)]
pub enum ScanOutcome {
    /// The engine produced the authoritative tree.
    Success(Entry),
    /// Cooperative cancellation stopped this generation.
    Cancelled,
    /// The engine could not produce a result.
    Failed(ScanError),
    /// The worker contained a panic raised by the engine.
    Panicked,
}

/// A live-discovery notification an engine may emit while scanning.
#[derive(Debug, Clone)]
pub enum ScanEvent {
    Discovered { scan_id: ScanId, path: PathBuf, size: u64, is_dir: bool },
}

impl ScanEvent {
    /// The event's fields: generation, path, size and kind.
    pub open spec fn parts(self) -> (ScanId, PathBuf, u64, bool) {
        match self {
            ScanEvent::Discovered { scan_id, path, size, is_dir } => (scan_id, path, size, is_dir),
        }
    }

    /// The same event, stamped with `scan_id`.
    pub fn with_scan_id(self, scan_id: ScanId) -> (event: Self)
        ensures
            event.parts() == (scan_id, self.parts().1, self.parts().2, self.parts().3),
    {
        match self {
            ScanEvent::Discovered { path, size, is_dir, .. } => ScanEvent::Discovered {
                scan_id,
                path,
                size,
                is_dir,
            },
        }
    }

    /// The generation this event belongs to.
    pub fn scan_id(&self) -> (id: ScanId)
        ensures
            id == self.parts().0,
    {
        match self {
            ScanEvent::Discovered { scan_id, .. } => *scan_id,
        }
    }
}

/// A scanning backend: the parallel directory walker and the raw-volume
/// reader both implement it, and the orchestration layer drives whichever it
/// holds through this interface only.
pub trait ScanEngine: Send + Sync {
    /// Short human-readable engine name, for status display.
    fn name(&self) -> &'static str;

    /// Whether this engine can scan `target`.
    fn is_available(&self, target: &Path) -> Availability;

    /// Scans `target`, returning a success, cancellation, or failure outcome.
    fn scan(&self, target: &Path, ctx: &ScanContext) -> ScanOutcome;
}

} // verus!
