//! The decisions the interface makes around the tree: where focus lands,
//! what an action targets, which identities a new scan or tree gets, and
//! what the Turbo toggle shows.

use std::path::PathBuf;
use vstd::prelude::*;

use crate::display_tree::{locate, DisplayNode};
use crate::insights::CleanupCandidate;
use crate::scanner::{Availability, ScanId};
use crate::text::names_of;

verus! {

/// What moment the hidden debug-screenshot mode should capture.
#[derive(Debug, Clone, Copy, PartialEq, Eq, Structural)]
pub enum DebugShotMode {
    /// After the scan completes and the final tree has rendered.
    Final,
    /// Mid-scan, while the map is still filling in live.
    Live,
    /// After completion, drilled into the root's largest directory child.
    Drill,
}

/// Drives the hidden debug-screenshot mode: auto-scan a path, wait for the
/// chosen moment, capture one frame, and exit.
pub struct DebugShot {
    pub out: PathBuf,
    pub scan: PathBuf,
    pub mode: DebugShotMode,
    pub started: bool,
    pub drilled: bool,
    pub frames_after_done: u32,
    pub requested: bool,
}

impl DebugShot {
    /// A capture of `scan` into `out` at `mode`'s moment, nothing done yet.
    pub fn new(out: PathBuf, scan: PathBuf, mode: DebugShotMode) -> (shot: Self)
        ensures
            shot.out == out,
            shot.scan == scan,
            shot.mode == mode,
            !shot.started,
            !shot.drilled,
            shot.frames_after_done == 0,
            !shot.requested,
    {
        DebugShot {
            out,
            scan,
            mode,
            started: false,
            drilled: false,
            frames_after_done: 0,
            requested: false,
        }
    }
}

/// What the interface should do on a debug-screenshot frame.
#[derive(Debug)]
pub enum ShotAction {
    /// Nothing this frame.
    Wait,
    /// Start scanning the capture's path.
    StartScan,
    /// Ask the window for a screenshot.
    RequestScreenshot,
    /// The screenshot arrived: save it and close the window.
    SaveAndClose,
    /// Focus the treemap on this trail.
    Focus(Vec<String>),
}

/// Whether `d` is the largest directory child of `n`: a directory of
/// maximal size among the directory children, and the last such.
pub open spec fn largest_dir_at(n: DisplayNode, d: int) -> bool {
    let s = n.children@;
    &&& 0 <= d < s.len()
    &&& s[d].is_dir
    &&& forall|j: int| 0 <= j < s.len() && #[trigger] s[j].is_dir ==> s[j].size <= s[d].size
    &&& forall|j: int| d < j < s.len() && #[trigger] s[j].is_dir ==> s[j].size < s[d].size
}

/// Whether some child of `n` is a directory.
pub open spec fn has_dir_child(n: DisplayNode) -> bool {
    exists|j: int| 0 <= j < n.children@.len() && #[trigger] n.children@[j].is_dir
}

/// The name of the root's largest directory child (the last of equal
/// sizes), or `None` when it has no directory child.
pub fn largest_dir_child(root: &DisplayNode) -> (name: Option<String>)
    ensures
        match name {
            Some(t) => exists|d: int| #[trigger] largest_dir_at(*root, d) && t@ == root.children@[d].name@,
            None => !has_dir_child(*root),
        },
{
    let n = root.children.len();
    let mut best: Option<usize> = None;
    let mut k: usize = 0;
    while k < n
        invariant
            k <= n,
            n == root.children@.len(),
            match best {
                Some(d) => {
                    &&& d < k
                    &&& root.children@[d as int].is_dir
                    &&& forall|j: int|
                        0 <= j < k && #[trigger] root.children@[j].is_dir ==> root.children@[j].size
                            <= root.children@[d as int].size
                    &&& forall|j: int|
                        d < j < k && #[trigger] root.children@[j].is_dir ==> root.children@[j].size
                            < root.children@[d as int].size
                },
                None => forall|j: int| 0 <= j < k ==> !(#[trigger] root.children@[j]).is_dir,
            },
        decreases n - k,
    {
        let c = &root.children[k];
        if c.is_dir {
            match best {
                Some(d) => {
                    if c.size >= root.children[d].size {
                        best = Some(k);
                    }
                },
                None => {
                    best = Some(k);
                },
            }
        }
        k += 1;
    }
    match best {
        Some(d) => {
            proof {
                assert(largest_dir_at(*root, d as int));
            }
            Some(root.children[d].name.clone())
        },
        None => None,
    }
}

impl DebugShot {
    /// One frame of the debug capture: start the scan once; once the
    /// screenshot arrives, save it and close; in `Live` mode, while a scan
    /// runs (`live_files` is its file count), ask for the screenshot once
    /// more than 500 files are in; otherwise, once no scan is running and a
    /// tree is shown, in `Drill` mode first focus the root's largest
    /// directory child, then count settle frames and ask for the screenshot
    /// on the third.
    pub fn step(
        &mut self,
        screenshot_arrived: bool,
        live_files: Option<u64>,
        scan_active: bool,
        root: Option<&DisplayNode>,
    ) -> (action: ShotAction)
        ensures
            final(self).out == old(self).out,
            final(self).scan == old(self).scan,
            final(self).mode == old(self).mode,
            !old(self).started ==> {
                &&& action is StartScan
                &&& final(self).started
                &&& final(self).drilled == old(self).drilled
                &&& final(self).frames_after_done == old(self).frames_after_done
                &&& final(self).requested == old(self).requested
            },
            old(self).started && screenshot_arrived ==> action is SaveAndClose && *final(self)
                == *old(self),
            old(self).started && !screenshot_arrived && old(self).mode == DebugShotMode::Live
                && live_files is Some ==> {
                let ask = live_files->0 > 500 && !old(self).requested;
                &&& final(self).started == old(self).started
                &&& final(self).drilled == old(self).drilled
                &&& final(self).frames_after_done == old(self).frames_after_done
                &&& final(self).requested == (old(self).requested || ask)
                &&& if ask { action is RequestScreenshot } else { action is Wait }
            },
            old(self).started && !screenshot_arrived && !(old(self).mode == DebugShotMode::Live
                && live_files is Some) ==> if !scan_active && root is Some {
                if old(self).mode == DebugShotMode::Drill && !old(self).drilled {
                    &&& final(self).drilled
                    &&& final(self).started == old(self).started
                    &&& final(self).frames_after_done == old(self).frames_after_done
                    &&& final(self).requested == old(self).requested
                    &&& match action {
                        ShotAction::Focus(v) => v@.len() == 1 && exists|d: int|
                            #[trigger] largest_dir_at(*root->0, d) && v@[0]@
                                == root->0.children@[d].name@,
                        ShotAction::Wait => !has_dir_child(*root->0),
                        _ => false,
                    }
                } else {
                    let frames = old(self).frames_after_done.saturating_add(1);
                    let ask = frames >= 3 && !old(self).requested;
                    &&& final(self).started == old(self).started
                    &&& final(self).drilled == old(self).drilled
                    &&& final(self).frames_after_done == frames
                    &&& final(self).requested == (old(self).requested || ask)
                    &&& if ask { action is RequestScreenshot } else { action is Wait }
                }
            } else {
                action is Wait && *final(self) == *old(self)
            },
    {
        if !self.started {
            self.started = true;
            return ShotAction::StartScan;
        }
        if screenshot_arrived {
            return ShotAction::SaveAndClose;
        }
        if self.mode == DebugShotMode::Live {
            match live_files {
                Some(files) => {
                    if files > 500 && !self.requested {
                        self.requested = true;
                        return ShotAction::RequestScreenshot;
                    }
                    return ShotAction::Wait;
                },
                None => {},
            }
        }
        match root {
            Some(tree) => {
                if scan_active {
                    return ShotAction::Wait;
                }
                if self.mode == DebugShotMode::Drill && !self.drilled {
                    self.drilled = true;
                    return match largest_dir_child(tree) {
                        Some(name) => {
                            let mut trail: Vec<String> = Vec::new();
                            trail.push(name);
                            ShotAction::Focus(trail)
                        },
                        None => ShotAction::Wait,
                    };
                }
                self.frames_after_done = self.frames_after_done.saturating_add(1);
                if self.frames_after_done >= 3 && !self.requested {
                    self.requested = true;
                    return ShotAction::RequestScreenshot;
                }
                ShotAction::Wait
            },
            None => ShotAction::Wait,
        }
    }
}

/// The focus kept when a finished scan's tree replaces the shown one: the
/// same trail while it still names a node of the new tree, the root
/// otherwise.
pub fn focus_after_rescan(root: &DisplayNode, focus: Vec<String>) -> (kept: Vec<String>)
    ensures
        locate(*root, names_of(focus@)) is Some ==> kept@ == focus@,
        locate(*root, names_of(focus@)) is None ==> kept@.len() == 0,
{
    if root.find(focus.as_slice()).is_some() {
        focus
    } else {
        Vec::new()
    }
}

/// What the Turbo toggle shows.
#[derive(Debug, Clone, Copy, PartialEq, Eq, Structural)]
pub enum TurboState {
    /// A non-NTFS target on an unelevated process: greyed out.
    Disabled,
    /// NTFS target, not yet elevated: clicking begins the warn-then-elevate
    /// flow.
    Promptable,
    /// NTFS target on an elevated process: turbo is on.
    Active,
    /// An elevated process pointed at a non-NTFS target: turbo cannot apply.
    WarnUnsupported,
}

/// The toggle's state for the target's engine availability (`None` before
/// anything was checked, when NTFS is assumed) and whether this process is
/// elevated.
pub open spec fn turbo_rule(availability: Option<Availability>, elevated: bool) -> TurboState {
    match availability {
        None => if elevated {
            TurboState::Active
        } else {
            TurboState::Promptable
        },
        Some(Availability::Available) => TurboState::Active,
        Some(Availability::RequiresElevation) => TurboState::Promptable,
        Some(_) => if elevated {
            TurboState::WarnUnsupported
        } else {
            TurboState::Disabled
        },
    }
}

/// The Turbo toggle's state per [`turbo_rule`].
pub fn turbo_state(availability: Option<Availability>, elevated: bool) -> (state: TurboState)
    ensures
        state == turbo_rule(availability, elevated),
{
    match availability {
        None => if elevated {
            TurboState::Active
        } else {
            TurboState::Promptable
        },
        Some(Availability::Available) => TurboState::Active,
        Some(Availability::RequiresElevation) => TurboState::Promptable,
        Some(Availability::UnsupportedFilesystem) | Some(Availability::NotApplicable) => if elevated {
            TurboState::WarnUnsupported
        } else {
            TurboState::Disabled
        },
    }
}

/// Copies the strings of `s[from..to]` onto the end of `out`.
fn extend_names(out: &mut Vec<String>, s: &[String], from: usize, to: usize)
    requires
        from <= to <= s@.len(),
    ensures
        final(out)@ == old(out)@ + s@.subrange(from as int, to as int),
{
    let mut i = from;
    while i < to
        invariant
            from <= i <= to <= s@.len(),
            out@ == old(out)@ + s@.subrange(from as int, i as int),
        decreases to - i,
    {
        out.push(s[i].clone());
        i += 1;
        proof {
            assert(out@ =~= old(out)@ + s@.subrange(from as int, i as int));
        }
    }
}

/// The absolute focus trail for an entry: the current focus `base` plus the
/// entry's relative `trail`. A file cannot be focused, so it resolves to its
/// parent directory.
pub fn focus_for(base: &[String], trail: &[String], is_dir: bool) -> (focus: Vec<String>)
    ensures
        focus@ == base@ + (if is_dir {
            trail@
        } else {
            trail@.take(if trail@.len() == 0 {
                0
            } else {
                trail@.len() - 1
            })
        }),
{
    let mut f: Vec<String> = Vec::new();
    extend_names(&mut f, base, 0, base.len());
    let take = if is_dir {
        trail.len()
    } else {
        trail.len().saturating_sub(1)
    };
    extend_names(&mut f, trail, 0, take);
    proof {
        assert(base@.subrange(0, base@.len() as int) =~= base@);
    }
    f
}

/// One exact filesystem target shared by the treemap and the insights
/// actions. The trail is relative to the scan root; `path` is what Open,
/// Reveal and the recycle bin are given.
#[derive(Debug, Clone)]
pub struct ActionTarget {
    pub trail: Vec<String>,
    pub path: PathBuf,
    pub is_dir: bool,
    pub display_name: String,
}

/// What `Path::file_name` gives, converted lossily to text: the final
/// named component, if there is one.
pub uninterp spec fn file_name_text(path: PathBuf) -> Option<Seq<char>>;

/// What `Path::display` renders the path as.
pub uninterp spec fn shown_text(path: PathBuf) -> Seq<char>;

/// `Path::file_name`, converted lossily to text; its result is named.
#[verifier::external_body]
fn final_component_text(path: &PathBuf) -> (name: Option<String>)
    ensures
        match file_name_text(*path) {
            Some(t) => name matches Some(s) && s@ == t,
            None => name is None,
        },
{
    path.file_name().map(|name| name.to_string_lossy().into_owned())
}

/// `Path::display`, as text; its result is named.
#[verifier::external_body]
fn display_text(path: &PathBuf) -> (text: String)
    ensures
        text@ == shown_text(*path),
{
    format!("{}", path.display())
}

/// Builds the action payload: the display name is the last trail name, or,
/// for an empty trail, the path's final component or the whole path.
pub fn make_action_target(trail: Vec<String>, path: PathBuf, is_dir: bool) -> (t: ActionTarget)
    ensures
        t.trail@ == trail@,
        t.path == path,
        t.is_dir == is_dir,
        trail@.len() > 0 ==> t.display_name@ == trail@.last()@,
        trail@.len() == 0 ==> t.display_name@ == match file_name_text(path) {
            Some(name) => name,
            None => shown_text(path),
        },
{
    let n = trail.len();
    let display_name = if n > 0 {
        trail[n - 1].clone()
    } else {
        match final_component_text(&path) {
            Some(name) => name,
            None => display_text(&path),
        }
    };
    ActionTarget { trail, path, is_dir, display_name }
}

/// The target of a cleanup candidate shown below the focus `base`.
pub fn action_target_from_cleanup_candidate(base: &[String], entry: &CleanupCandidate) -> (t:
    ActionTarget)
    ensures
        t.trail@ == base@ + entry.trail@,
        t.path == entry.path,
        t.is_dir == entry.is_dir,
        entry.trail@.len() > 0 ==> t.display_name@ == entry.trail@.last()@,
        base@.len() > 0 && entry.trail@.len() == 0 ==> t.display_name@ == base@.last()@,
        base@.len() == 0 && entry.trail@.len() == 0 ==> t.display_name@ == match file_name_text(
            entry.path,
        ) {
            Some(name) => name,
            None => shown_text(entry.path),
        },
{
    let mut trail: Vec<String> = Vec::new();
    extend_names(&mut trail, base, 0, base.len());
    extend_names(&mut trail, entry.trail.as_slice(), 0, entry.trail.len());
    proof {
        assert(base@.subrange(0, base@.len() as int) =~= base@);
        assert(entry.trail@.subrange(0, entry.trail@.len() as int) =~= entry.trail@);
    }
    make_action_target(trail, entry.path.clone(), entry.is_dir)
}

/// Whether `n` hands drawing down to its only child: it has exactly one
/// child and that child is a directory.
pub open spec fn passes_down(n: DisplayNode) -> bool {
    n.children@.len() == 1 && n.children@[0].is_dir
}

/// The names of a run of directories from `n` that each have exactly one
/// child which is itself a directory, `n` first.
pub open spec fn chain_names(n: DisplayNode) -> Seq<Seq<char>>
    decreases n,
{
    if passes_down(n) {
        seq![n.name@] + chain_names(n.children@[0])
    } else {
        seq![n.name@]
    }
}

/// The first node of that run that branches.
pub open spec fn chain_end(n: DisplayNode) -> DisplayNode
    decreases n,
{
    if passes_down(n) {
        chain_end(n.children@[0])
    } else {
        n
    }
}

/// Walks down a run of single-directory-child directories, joining their
/// names into a chain, and returns it with the first directory that
/// branches: the node whose frame and contents get drawn.
pub fn collapse_chain(start: &DisplayNode) -> (res: (Vec<&str>, &DisplayNode))
    ensures
        res.0@.map_values(|s: &str| s@) == chain_names(*start),
        *res.1 == chain_end(*start),
{
    let mut names: Vec<&str> = Vec::new();
    names.push(start.name.as_str());
    let mut node = start;
    proof {
        assert(names@.map_values(|s: &str| s@) =~= seq![start.name@]);
    }
    while node.children.len() == 1 && node.children[0].is_dir
        invariant
            names@.len() >= 1,
            names@.map_values(|s: &str| s@).drop_last() + chain_names(*node) == chain_names(
                *start,
            ),
            names@.last()@ == node.name@,
            chain_end(*node) == chain_end(*start),
        decreases *node,
    {
        let ghost before = names@;
        proof {
            assert(decreases_to!(*node => node.children));
            assert(decreases_to!(node.children => node.children@));
            assert(decreases_to!(node.children@ => node.children@[0]));
        }
        node = &node.children[0];
        names.push(node.name.as_str());
        proof {
            let v = names@.map_values(|s: &str| s@);
            let b = before.map_values(|s: &str| s@);
            assert(v.drop_last() =~= b);
            assert(b =~= b.drop_last() + seq![b.last()]);
        }
    }
    proof {
        let v = names@.map_values(|s: &str| s@);
        assert(v =~= v.drop_last() + seq![v.last()]);
    }
    (names, node)
}

/// The longest prefix of `focus` that can still be looked up from `root`.
pub open spec fn surviving_focus(root: DisplayNode, focus: Seq<Seq<char>>) -> Seq<Seq<char>>
    decreases focus.len(),
{
    if focus.len() == 0 || locate(root, focus) is Some {
        focus
    } else {
        surviving_focus(root, focus.drop_last())
    }
}

/// The focus after the node at `removed` was removed: a focus inside the
/// removed node moves to its parent, then ancestors are dropped until the
/// focus can be looked up again; without a tree there is no focus.
pub open spec fn repaired_focus(
    focus: Seq<Seq<char>>,
    removed: Seq<Seq<char>>,
    root: Option<DisplayNode>,
) -> Seq<Seq<char>> {
    let inside = removed.len() <= focus.len() && focus.take(removed.len() as int) == removed;
    let cut = if inside {
        focus.take(if removed.len() == 0 {
            0
        } else {
            removed.len() - 1
        })
    } else {
        focus
    };
    match root {
        Some(r) => surviving_focus(r, cut),
        None => seq![],
    }
}

/// Whether `prefix` starts `s`, compared by text.
fn starts_with_names(s: &Vec<String>, prefix: &[String]) -> (yes: bool)
    ensures
        yes == (prefix@.len() <= s@.len() && names_of(s@).take(prefix@.len() as int) == names_of(
            prefix@,
        )),
{
    let n = prefix.len();
    if n > s.len() {
        return false;
    }
    let mut i: usize = 0;
    while i < n
        invariant
            i <= n <= s@.len(),
            n == prefix@.len(),
            names_of(s@).take(i as int) == names_of(prefix@).take(i as int),
        decreases n - i,
    {
        if !crate::text::same_text(s[i].as_str(), prefix[i].as_str()) {
            proof {
                assert(names_of(s@).take(n as int)[i as int] != names_of(prefix@)[i as int]);
            }
            return false;
        }
        i += 1;
        proof {
            assert(names_of(s@).take(i as int) =~= names_of(prefix@).take(i as int));
        }
    }
    proof {
        assert(names_of(prefix@).take(n as int) =~= names_of(prefix@));
    }
    true
}

/// Repairs the focus after the node at `removed_trail` was removed from
/// `root`: see [`repaired_focus`].
pub fn repair_focus_after_removal(
    focus: Vec<String>,
    removed_trail: &[String],
    root: Option<&DisplayNode>,
) -> (repaired: Vec<String>)
    ensures
        names_of(repaired@) == repaired_focus(
            names_of(focus@),
            names_of(removed_trail@),
            match root {
                Some(r) => Some(*r),
                None => None,
            },
        ),
{
    let mut focus = focus;
    let ghost f0 = names_of(focus@);
    let ghost rm = names_of(removed_trail@);
    if starts_with_names(&focus, removed_trail) {
        let keep = removed_trail.len().saturating_sub(1);
        focus.truncate(keep);
        proof {
            assert(names_of(focus@) =~= f0.take(
                if rm.len() == 0 {
                    0
                } else {
                    rm.len() - 1
                },
            ));
        }
    }
    match root {
        Some(r) => {
            let ghost cut = names_of(focus@);
            while focus.len() > 0 && r.find(focus.as_slice()).is_none()
                invariant
                    surviving_focus(*r, names_of(focus@)) == surviving_focus(*r, cut),
                decreases focus@.len(),
            {
                let ghost before = names_of(focus@);
                focus.pop();
                proof {
                    assert(names_of(focus@) =~= before.drop_last());
                }
            }
            focus
        },
        None => {
            let empty: Vec<String> = Vec::new();
            proof {
                assert(names_of(empty@) =~= Seq::<Seq<char>>::empty());
            }
            empty
        },
    }
}

/// One step of an identity counter: the next value, skipping zero.
pub open spec fn advance(id: u64) -> u64 {
    if id == u64::MAX {
        1
    } else {
        (id + 1) as u64
    }
}

/// An identity the controller may hand out while `current` is running.
pub open spec fn usable(id: u64, current: Option<ScanId>) -> bool {
    id != 0 && current != Some(id)
}

/// The id handed to the next scan and the counter left behind: the counter's
/// value if usable, else the first usable one after it.
pub open spec fn issue(next: u64, current: Option<ScanId>) -> (ScanId, u64) {
    if usable(next, current) {
        (next, advance(next))
    } else if usable(advance(next), current) {
        (advance(next), advance(advance(next)))
    } else {
        (advance(advance(next)), advance(advance(advance(next))))
    }
}

/// How many values the counter steps past before a usable one.
spec fn skips_needed(next: u64, current: Option<ScanId>) -> nat {
    if usable(next, current) {
        0
    } else if usable(advance(next), current) {
        1
    } else {
        2
    }
}

/// Allocates the id for a new scan generation from the counter `next`,
/// never zero and never the generation still `current`; returns the id and
/// the advanced counter.
pub fn next_scan_id(next: ScanId, current: Option<ScanId>) -> (issued: (ScanId, ScanId))
    ensures
        issued == issue(next, current),
        issued.0 != 0,
        current != Some(issued.0),
        issued.1 != 0,
{
    let mut counter = next;
    let ghost start = next;
    loop
        invariant
            counter == start || counter == advance(start) || counter == advance(advance(start)),
            counter == advance(start) ==> !usable(start, current),
            counter == advance(advance(start)) ==> !usable(start, current) && !usable(
                advance(start),
                current,
            ),
            counter == start || counter != 0,
            start == next,
        decreases skips_needed(counter, current),
    {
        let id = counter;
        counter = if counter == u64::MAX {
            1
        } else {
            counter + 1
        };
        let usable_now = match current {
            Some(active) => id != 0 && active != id,
            None => id != 0,
        };
        if usable_now {
            return (id, counter);
        }
    }
}

/// The identity a replaced tree gets: one more, wrapping, never zero.
pub fn next_tree_identity(identity: u64) -> (next: u64)
    ensures
        next == advance(identity),
        next != 0,
{
    let next = identity.wrapping_add(1);
    if next == 0 {
        1
    } else {
        next
    }
}

} // verus!
