//! Shared, lock-free scan progress and the per-scan context handed to an
//! engine: cooperative cancellation, pollable counters, and an optional
//! best-effort event sink.

use std::sync::atomic::{AtomicBool, AtomicU64, Ordering};
use std::sync::mpsc::SyncSender;
use std::sync::Arc;
use vstd::prelude::*;

use super::{ScanEvent, ScanId};

verus! {

/// Progress counters a caller can poll from another thread while a scan is
/// in flight. The values are shared with other threads, so nothing is
/// claimed of what a read returns.
pub struct ScanProgress {
    pub files_scanned: AtomicU64,
    pub dirs_scanned: AtomicU64,
    pub bytes_scanned: AtomicU64,
    conversion_nodes_total: AtomicU64,
    conversion_nodes_finished: AtomicU64,
    conversion_started: AtomicBool,
    conversion_complete: AtomicBool,
    complete: AtomicBool,
}

impl Default for ScanProgress {
    fn default() -> Self {
        ScanProgress {
            files_scanned: AtomicU64::new(0),
            dirs_scanned: AtomicU64::new(0),
            bytes_scanned: AtomicU64::new(0),
            conversion_nodes_total: AtomicU64::new(0),
            conversion_nodes_finished: AtomicU64::new(0),
            conversion_started: AtomicBool::new(false),
            conversion_complete: AtomicBool::new(false),
            complete: AtomicBool::new(false),
        }
    }
}

impl ScanProgress {
    /// Opens the display-tree preparation window for `total` nodes.
    pub fn start_conversion(&self, total: u64) {
        self.conversion_nodes_total.store(total, Ordering::Relaxed);
        self.conversion_nodes_finished.store(0, Ordering::Relaxed);
        self.conversion_started.store(true, Ordering::Release);
        self.conversion_complete.store(false, Ordering::Release);
    }

    /// Counts one more prepared node.
    pub fn conversion_node_finished(&self) {
        self.conversion_nodes_finished.fetch_add(1, Ordering::Relaxed);
    }

    /// Closes the preparation window.
    pub fn finish_conversion(&self) {
        self.conversion_complete.store(true, Ordering::Release);
    }

    /// Whether preparation has started.
    pub fn conversion_started(&self) -> bool {
        self.conversion_started.load(Ordering::Acquire)
    }

    /// Whether preparation has finished.
    pub fn conversion_complete(&self) -> bool {
        self.conversion_complete.load(Ordering::Acquire)
    }

    /// `(total, finished)` preparation node counts.
    pub fn conversion_counts(&self) -> (u64, u64) {
        (
            self.conversion_nodes_total.load(Ordering::Relaxed),
            self.conversion_nodes_finished.load(Ordering::Relaxed),
        )
    }

    /// Counts one more directory discovered.
    pub fn count_directory(&self) {
        self.dirs_scanned.fetch_add(1, Ordering::Relaxed);
    }

    /// Counts one more file of `size` bytes discovered.
    pub fn count_file(&self, size: u64) {
        self.files_scanned.fetch_add(1, Ordering::Relaxed);
        self.bytes_scanned.fetch_add(size, Ordering::Relaxed);
    }

    /// Reopens the in-flight window.
    pub fn mark_incomplete(&self) {
        self.complete.store(false, Ordering::Release);
    }

    /// Marks the scan as no longer in flight.
    pub fn mark_complete(&self) {
        self.complete.store(true, Ordering::Release);
    }

    /// Whether the scan has been marked complete.
    pub fn is_complete(&self) -> bool {
        self.complete.load(Ordering::Relaxed)
    }
}

/// `SyncSender::try_send`: queues `event` if there is room and a receiver;
/// whether it was queued is not reported.
#[verifier::external_body]
fn offer_event(sender: &SyncSender<ScanEvent>, event: ScanEvent) {
    let _ = sender.try_send(event);
}

/// Everything an engine needs while a scan runs.
pub struct ScanContext {
    /// Generation identity copied onto every emitted event.
    pub scan_id: ScanId,
    pub cancel: Arc<AtomicBool>,
    pub progress: Arc<ScanProgress>,
    pub events: Option<SyncSender<ScanEvent>>,
}

impl ScanContext {
    /// A context for generation 0 with fresh flags and no event sink.
    pub fn new() -> (ctx: Self)
        ensures
            ctx.scan_id == 0,
            ctx.events is None,
    {
        ScanContext {
            scan_id: 0,
            cancel: Arc::new(AtomicBool::new(false)),
            progress: Arc::new(ScanProgress::default()),
            events: None,
        }
    }

    /// The same context, tagged with `scan_id`.
    pub fn with_scan_id(self, scan_id: ScanId) -> (ctx: Self)
        ensures
            ctx.scan_id == scan_id,
            ctx.cancel == self.cancel,
            ctx.progress == self.progress,
            ctx.events == self.events,
    {
        let mut ctx = self;
        ctx.scan_id = scan_id;
        ctx
    }

    /// The same context, with `sender` as its event sink.
    pub fn with_events(self, sender: SyncSender<ScanEvent>) -> (ctx: Self)
        ensures
            ctx.scan_id == self.scan_id,
            ctx.cancel == self.cancel,
            ctx.progress == self.progress,
            ctx.events == Some(sender),
    {
        let mut ctx = self;
        ctx.events = Some(sender);
        ctx
    }

    /// The UI-side view of this context: the same generation, cancel flag and
    /// progress, but no event sender.
    pub fn ui_handle(&self) -> (ctx: Self)
        ensures
            ctx.scan_id == self.scan_id,
            ctx.cancel == self.cancel,
            ctx.progress == self.progress,
            ctx.events is None,
    {
        ScanContext {
            scan_id: self.scan_id,
            cancel: self.cancel.clone(),
            progress: self.progress.clone(),
            events: None,
        }
    }

    /// Sends a discovery event, stamped with this context's generation, if a
    /// sink is attached; a full or disconnected queue is ignored.
    pub fn emit(&self, event: ScanEvent) {
        if let Some(sender) = &self.events {
            offer_event(sender, event.with_scan_id(self.scan_id));
        }
    }

    /// Whether cancellation has been requested.
    pub fn is_cancelled(&self) -> bool {
        self.cancel.load(Ordering::Relaxed)
    }
}

impl Default for ScanContext {
    fn default() -> (ctx: Self)
        ensures
            ctx.scan_id == 0,
            ctx.events is None,
    {
        ScanContext::new()
    }
}

} // verus!
