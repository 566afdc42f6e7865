//! Counters of what a synchronisation did.

use vstd::prelude::*;

verus! {

/// How many files were copied, skipped and deleted, how many bytes the
/// copied files hold, and how many of them were actually carried.
#[derive(Clone, Copy, Debug)]
pub struct SyncStats {
    pub files_copied: usize,
    pub files_skipped: usize,
    pub files_deleted: usize,
    pub bytes_transferred: u64,
    pub bytes_on_wire: u64,
}

/// All counters zero.
pub open spec fn zero_stats() -> SyncStats {
    SyncStats {
        files_copied: 0,
        files_skipped: 0,
        files_deleted: 0,
        bytes_transferred: 0,
        bytes_on_wire: 0,
    }
}

/// Adding the counters of `a` and `b` overflows none of them.
pub open spec fn can_merge(a: SyncStats, b: SyncStats) -> bool {
    &&& a.files_copied + b.files_copied <= usize::MAX
    &&& a.files_skipped + b.files_skipped <= usize::MAX
    &&& a.files_deleted + b.files_deleted <= usize::MAX
    &&& a.bytes_transferred + b.bytes_transferred <= u64::MAX
    &&& a.bytes_on_wire + b.bytes_on_wire <= u64::MAX
}

/// The counters of `a` and `b` added up.
pub open spec fn merged(a: SyncStats, b: SyncStats) -> SyncStats {
    SyncStats {
        files_copied: (a.files_copied + b.files_copied) as usize,
        files_skipped: (a.files_skipped + b.files_skipped) as usize,
        files_deleted: (a.files_deleted + b.files_deleted) as usize,
        bytes_transferred: (a.bytes_transferred + b.bytes_transferred) as u64,
        bytes_on_wire: (a.bytes_on_wire + b.bytes_on_wire) as u64,
    }
}

impl SyncStats {
    /// All counters zero.
    pub fn new() -> (stats: Self)
        ensures
            stats == zero_stats(),
    {
        SyncStats {
            files_copied: 0,
            files_skipped: 0,
            files_deleted: 0,
            bytes_transferred: 0,
            bytes_on_wire: 0,
        }
    }

    /// Adds the counters of `other` to these.
    pub fn merge(&mut self, other: &SyncStats)
        requires
            can_merge(*old(self), *other),
        ensures
            *final(self) == merged(*old(self), *other),
    {
        self.files_copied = self.files_copied + other.files_copied;
        self.files_skipped = self.files_skipped + other.files_skipped;
        self.files_deleted = self.files_deleted + other.files_deleted;
        self.bytes_transferred = self.bytes_transferred + other.bytes_transferred;
        self.bytes_on_wire = self.bytes_on_wire + other.bytes_on_wire;
    }

    /// Counts one copied file of `size` bytes, `wire_bytes` of which were carried.
    pub fn record_copy(&mut self, size: u64, wire_bytes: u64)
        requires
            old(self).files_copied + 1 <= usize::MAX,
            old(self).bytes_transferred + size <= u64::MAX,
            old(self).bytes_on_wire + wire_bytes <= u64::MAX,
        ensures
            *final(self) == (SyncStats {
                files_copied: (old(self).files_copied + 1) as usize,
                bytes_transferred: (old(self).bytes_transferred + size) as u64,
                bytes_on_wire: (old(self).bytes_on_wire + wire_bytes) as u64,
                ..*old(self)
            }),
    {
        self.files_copied = self.files_copied + 1;
        self.bytes_transferred = self.bytes_transferred + size;
        self.bytes_on_wire = self.bytes_on_wire + wire_bytes;
    }

    /// Counts one file left alone.
    pub fn record_skip(&mut self)
        requires
            old(self).files_skipped + 1 <= usize::MAX,
        ensures
            *final(self) == (SyncStats {
                files_skipped: (old(self).files_skipped + 1) as usize,
                ..*old(self)
            }),
    {
        self.files_skipped = self.files_skipped + 1;
    }

    /// Counts one deleted file.
    pub fn record_delete(&mut self)
        requires
            old(self).files_deleted + 1 <= usize::MAX,
        ensures
            *final(self) == (SyncStats {
                files_deleted: (old(self).files_deleted + 1) as usize,
                ..*old(self)
            }),
    {
        self.files_deleted = self.files_deleted + 1;
    }

    /// The bytes saved by compression or delta transfer (zero if more were carried).
    pub fn savings(&self) -> (saved: u64)
        ensures
            saved == (if self.bytes_transferred >= self.bytes_on_wire {
                self.bytes_transferred - self.bytes_on_wire
            } else {
                0
            }),
    {
        self.bytes_transferred.saturating_sub(self.bytes_on_wire)
    }

    /// Whether the summary reports the carried bytes: they differ from the copied bytes.
    pub fn reports_wire_bytes(&self) -> (reports: bool)
        ensures
            reports == (self.bytes_on_wire != self.bytes_transferred),
    {
        self.bytes_on_wire != self.bytes_transferred
    }

    /// Whether nothing was copied and nothing deleted.
    pub fn already_in_sync(&self) -> (in_sync: bool)
        ensures
            in_sync == (self.files_copied == 0 && self.files_deleted == 0),
    {
        self.files_copied == 0 && self.files_deleted == 0
    }
}

/// Merging all-zero counters changes nothing.
pub proof fn lemma_merge_zero_neutral(a: SyncStats)
    ensures
        can_merge(a, zero_stats()),
        merged(a, zero_stats()) == a,
        merged(zero_stats(), a) == a,
{
}

/// The order of two merges does not matter.
pub proof fn lemma_merge_commutative(a: SyncStats, b: SyncStats)
    requires
        can_merge(a, b),
    ensures
        can_merge(b, a),
        merged(a, b) == merged(b, a),
{
}

/// Merging per-file counters in any grouping gives the same totals, which
/// is what lets workers running in parallel merge into one total.
pub proof fn lemma_merge_associative(a: SyncStats, b: SyncStats, c: SyncStats)
    requires
        can_merge(a, b),
        can_merge(merged(a, b), c),
    ensures
        can_merge(b, c),
        can_merge(a, merged(b, c)),
        merged(merged(a, b), c) == merged(a, merged(b, c)),
{
}

} // verus!
