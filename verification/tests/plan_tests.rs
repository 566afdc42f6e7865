use carsync::plan::{
    copy_check, deletion_plan, file_outcome, metadata_match, plan_target, source_kind,
    temp_extension, transfer_method, CopyCheck, FileOutcome, FileStamp, PlanError, SourceKind,
    Target, TransferMethod,
};

#[test]
fn both_remote_is_refused_first() {
    assert_eq!(plan_target(true, true, false), Err(PlanError::BothRemote));
    assert_eq!(plan_target(true, true, true), Err(PlanError::BothRemote));
}

#[test]
fn remote_source_is_refused() {
    assert_eq!(plan_target(true, false, true), Err(PlanError::RemoteSource));
}

#[test]
fn missing_source_is_refused() {
    assert_eq!(plan_target(false, false, false), Err(PlanError::SourceMissing));
    assert_eq!(plan_target(false, true, false), Err(PlanError::SourceMissing));
}

#[test]
fn existing_local_source_goes_local_or_remote() {
    assert_eq!(plan_target(false, false, true), Ok(Target::Local));
    assert_eq!(plan_target(false, true, true), Ok(Target::Remote));
}

#[test]
fn directory_source_needs_recursion() {
    assert_eq!(source_kind(false, true, false), Err(PlanError::NotRecursive));
    assert_eq!(source_kind(false, true, true), Ok(SourceKind::Directory));
}

#[test]
fn file_source_needs_no_recursion() {
    assert_eq!(source_kind(true, false, false), Ok(SourceKind::File));
    assert_eq!(source_kind(true, false, true), Ok(SourceKind::File));
    assert_eq!(source_kind(false, false, true), Ok(SourceKind::Other));
}

#[test]
fn copy_check_follows_existence_then_checksum_flag() {
    assert_eq!(copy_check(false, true), CopyCheck::Copy);
    assert_eq!(copy_check(false, false), CopyCheck::Copy);
    assert_eq!(copy_check(true, true), CopyCheck::CompareChecksums);
    assert_eq!(copy_check(true, false), CopyCheck::CompareMetadata);
}

#[test]
fn dry_run_previews_instead_of_transferring() {
    assert_eq!(file_outcome(true, false), FileOutcome::Transfer);
    assert_eq!(file_outcome(true, true), FileOutcome::Preview);
    assert_eq!(file_outcome(false, true), FileOutcome::Skip);
    assert_eq!(file_outcome(false, false), FileOutcome::Skip);
}

#[test]
fn delta_needs_an_existing_destination() {
    assert_eq!(transfer_method(true, true, true), TransferMethod::Delta);
    assert_eq!(transfer_method(true, false, true), TransferMethod::Compressed);
    assert_eq!(transfer_method(true, false, false), TransferMethod::Plain);
    assert_eq!(transfer_method(false, true, true), TransferMethod::Compressed);
    assert_eq!(transfer_method(false, true, false), TransferMethod::Plain);
}

#[test]
fn deletion_keeps_files_the_source_has() {
    for verbose in [false, true] {
        for dry_run in [false, true] {
            let plan = deletion_plan(true, verbose, dry_run);
            assert!(!plan.report && !plan.delete);
        }
    }
}

#[test]
fn deletion_of_extra_file_depends_on_dry_run() {
    let plan = deletion_plan(false, false, false);
    assert!(!plan.report && plan.delete);
    let plan = deletion_plan(false, true, false);
    assert!(plan.report && plan.delete);
    let plan = deletion_plan(false, false, true);
    assert!(plan.report && !plan.delete);
}

#[test]
fn metadata_match_needs_same_size_and_newer_destination() {
    let src = FileStamp { len: 10, modified_nanos: 500 };
    assert!(metadata_match(&src, &FileStamp { len: 10, modified_nanos: 500 }));
    assert!(metadata_match(&src, &FileStamp { len: 10, modified_nanos: 501 }));
    assert!(!metadata_match(&src, &FileStamp { len: 10, modified_nanos: 499 }));
    assert!(!metadata_match(&src, &FileStamp { len: 11, modified_nanos: 900 }));
    let before_epoch = FileStamp { len: 0, modified_nanos: -5 };
    assert!(metadata_match(&before_epoch, &FileStamp { len: 0, modified_nanos: 0 }));
}

#[test]
fn temp_extension_names_process_and_time() {
    assert_eq!(temp_extension(1234, 5678), "carsync.tmp.1234.5678");
    assert_eq!(temp_extension(0, 0), "carsync.tmp.0.0");
    assert_eq!(
        temp_extension(u32::MAX, u128::MAX),
        format!("carsync.tmp.{}.{}", u32::MAX, u128::MAX)
    );
}
