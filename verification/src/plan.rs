//! The decisions of a synchronisation: whether it can run, what kind of
//! source it has, whether a file is copied, how it is transferred, and what
//! happens to a destination file that the source no longer has.

use crate::size::{decimal, push_decimal};
use crate::text::string_of;
use vstd::prelude::*;

verus! {

/// Why a synchronisation cannot run.
#[derive(Clone, Copy, Debug, PartialEq, Eq, Structural)]
pub enum PlanError {
    /// Source and destination are both remote.
    BothRemote,
    /// The source is remote; only a remote destination is supported.
    RemoteSource,
    /// The local source does not exist.
    SourceMissing,
    /// The source is a directory and recursion was not asked for.
    NotRecursive,
}

/// Where the files go.
#[derive(Clone, Copy, Debug, PartialEq, Eq, Structural)]
pub enum Target {
    /// To a remote destination over SSH.
    Remote,
    /// To a local destination.
    Local,
}

/// The endpoints of a synchronisation, checked in the order `main` checks them.
pub fn plan_target(source_remote: bool, destination_remote: bool, source_exists: bool) -> (target:
    Result<Target, PlanError>)
    ensures
        target == (if source_remote && destination_remote {
            Err(PlanError::BothRemote)
        } else if source_remote {
            Err(PlanError::RemoteSource)
        } else if !source_exists {
            Err(PlanError::SourceMissing)
        } else if destination_remote {
            Ok(Target::Remote)
        } else {
            Ok(Target::Local)
        }),
{
    if source_remote && destination_remote {
        Err(PlanError::BothRemote)
    } else if source_remote {
        Err(PlanError::RemoteSource)
    } else if !source_exists {
        Err(PlanError::SourceMissing)
    } else if destination_remote {
        Ok(Target::Remote)
    } else {
        Ok(Target::Local)
    }
}

/// What the source is.
#[derive(Clone, Copy, Debug, PartialEq, Eq, Structural)]
pub enum SourceKind {
    /// A single file.
    File,
    /// A directory, crawled recursively.
    Directory,
    /// Neither a file nor a directory: nothing is synchronised.
    Other,
}

/// The kind of a source; a directory needs recursion.
pub fn source_kind(is_file: bool, is_dir: bool, recursive: bool) -> (kind: Result<
    SourceKind,
    PlanError,
>)
    ensures
        kind == (if is_file {
            Ok(SourceKind::File)
        } else if is_dir {
            if recursive {
                Ok(SourceKind::Directory)
            } else {
                Err(PlanError::NotRecursive)
            }
        } else {
            Ok(SourceKind::Other)
        }),
{
    if is_file {
        Ok(SourceKind::File)
    } else if is_dir {
        if recursive {
            Ok(SourceKind::Directory)
        } else {
            Err(PlanError::NotRecursive)
        }
    } else {
        Ok(SourceKind::Other)
    }
}

/// How to find out whether a file must be copied.
#[derive(Clone, Copy, Debug, PartialEq, Eq, Structural)]
pub enum CopyCheck {
    /// The destination does not exist: copy.
    Copy,
    /// Copy unless the SHA-256 checksums match.
    CompareChecksums,
    /// Copy unless size and modification time match.
    CompareMetadata,
}

/// The check that decides whether a file is copied.
pub fn copy_check(destination_exists: bool, use_checksum: bool) -> (check: CopyCheck)
    ensures
        check == (if !destination_exists {
            CopyCheck::Copy
        } else if use_checksum {
            CopyCheck::CompareChecksums
        } else {
            CopyCheck::CompareMetadata
        }),
{
    if !destination_exists {
        CopyCheck::Copy
    } else if use_checksum {
        CopyCheck::CompareChecksums
    } else {
        CopyCheck::CompareMetadata
    }
}

/// What happens to one source file.
#[derive(Clone, Copy, Debug, PartialEq, Eq, Structural)]
pub enum FileOutcome {
    /// It is transferred and counted as copied.
    Transfer,
    /// It would be transferred, but this is a dry run: nothing is counted.
    Preview,
    /// It is left alone and counted as skipped.
    Skip,
}

/// What happens to a file, given whether it must be copied.
pub fn file_outcome(should_copy: bool, dry_run: bool) -> (outcome: FileOutcome)
    ensures
        outcome == (if !should_copy {
            FileOutcome::Skip
        } else if dry_run {
            FileOutcome::Preview
        } else {
            FileOutcome::Transfer
        }),
{
    if !should_copy {
        FileOutcome::Skip
    } else if dry_run {
        FileOutcome::Preview
    } else {
        FileOutcome::Transfer
    }
}

/// How a file's contents reach the destination.
#[derive(Clone, Copy, Debug, PartialEq, Eq, Structural)]
pub enum TransferMethod {
    /// Only the blocks the destination lacks are carried.
    Delta,
    /// The contents are carried zstd-compressed.
    Compressed,
    /// The file is copied as it is.
    Plain,
}

/// The transfer method: delta needs an existing destination.
pub fn transfer_method(use_delta: bool, destination_exists: bool, use_compression: bool) -> (method:
    TransferMethod)
    ensures
        method == (if use_delta && destination_exists {
            TransferMethod::Delta
        } else if use_compression {
            TransferMethod::Compressed
        } else {
            TransferMethod::Plain
        }),
{
    if use_delta && destination_exists {
        TransferMethod::Delta
    } else if use_compression {
        TransferMethod::Compressed
    } else {
        TransferMethod::Plain
    }
}

/// What happens to a destination file, given whether the source still has it.
#[derive(Clone, Copy, Debug, PartialEq, Eq, Structural)]
pub struct DeletionPlan {
    /// Its name is printed.
    pub report: bool,
    /// It is deleted and counted.
    pub delete: bool,
}

/// A destination file the source lacks is reported when verbose or in a
/// dry run, and deleted unless in a dry run; any other file is kept quietly.
pub fn deletion_plan(source_exists: bool, verbose: bool, dry_run: bool) -> (plan: DeletionPlan)
    ensures
        plan.report == (!source_exists && (verbose || dry_run)),
        plan.delete == (!source_exists && !dry_run),
{
    if source_exists {
        DeletionPlan { report: false, delete: false }
    } else {
        DeletionPlan { report: verbose || dry_run, delete: !dry_run }
    }
}

/// A file's size and modification time, in nanoseconds from the Unix epoch
/// (negative before it).
#[derive(Clone, Copy, Debug)]
pub struct FileStamp {
    pub len: u64,
    pub modified_nanos: i128,
}

/// Whether a destination file is up to date by metadata: same size, and
/// modified no earlier than the source.
pub fn metadata_match(source: &FileStamp, destination: &FileStamp) -> (matched: bool)
    ensures
        matched == (source.len == destination.len && source.modified_nanos
            <= destination.modified_nanos),
{
    if source.len != destination.len {
        return false;
    }
    source.modified_nanos <= destination.modified_nanos
}

/// The extension of the temporary file a delta transfer writes:
/// `carsync.tmp.<pid>.<nanoseconds>`.
pub open spec fn temp_extension_text(pid: u32, now_nanos: u128) -> Seq<char> {
    seq!['c', 'a', 'r', 's', 'y', 'n', 'c', '.', 't', 'm', 'p', '.'] + decimal(pid as nat) + seq!['.']
        + decimal(now_nanos as nat)
}

/// The extension of the temporary file of a delta transfer for the process
/// `pid` at `now_nanos` nanoseconds since the Unix epoch.
pub fn temp_extension(pid: u32, now_nanos: u128) -> (extension: String)
    ensures
        extension@ == temp_extension_text(pid, now_nanos),
{
    let mut out: Vec<char> = Vec::new();
    out.push('c');
    out.push('a');
    out.push('r');
    out.push('s');
    out.push('y');
    out.push('n');
    out.push('c');
    out.push('.');
    out.push('t');
    out.push('m');
    out.push('p');
    out.push('.');
    push_decimal(&mut out, pid as u128);
    out.push('.');
    push_decimal(&mut out, now_nanos);
    proof {
        assert(out@ =~= temp_extension_text(pid, now_nanos));
    }
    string_of(out.as_slice())
}

} // verus!
