use file_chunker::session::{SplitSession, SplitStep};

#[test]
fn happy_path_writes_manifest_last() {
    let mut s = SplitSession::start(2);
    assert_eq!(s.next_step(), SplitStep::WriteArtifact(0));
    s.report(true);
    assert_eq!(s.next_step(), SplitStep::WriteArtifact(1));
    s.report(true);
    assert_eq!(s.next_step(), SplitStep::WriteManifest);
    s.report(true);
    assert_eq!(s.next_step(), SplitStep::Done);
}

#[test]
fn failure_on_second_of_four_cleans_directory() {
    let mut s = SplitSession::start(4);
    assert_eq!(s.next_step(), SplitStep::WriteArtifact(0));
    s.report(true);
    assert_eq!(s.next_step(), SplitStep::WriteArtifact(1));
    // the write of chunk 2 of 4 fails: no further artifact or manifest
    // write is prescribed, only removing the whole chunk directory
    s.report(false);
    assert_eq!(s.next_step(), SplitStep::RemoveDir);
    s.report(true);
    assert_eq!(s.next_step(), SplitStep::Failed);
    assert!(!s.manifest_written);
}

#[test]
fn failed_manifest_write_cleans_directory() {
    let mut s = SplitSession::start(1);
    s.report(true);
    assert_eq!(s.next_step(), SplitStep::WriteManifest);
    s.report(false);
    assert_eq!(s.next_step(), SplitStep::RemoveDir);
    s.report(true);
    assert_eq!(s.next_step(), SplitStep::Failed);
    assert!(!s.manifest_written);
}

#[test]
fn empty_split_writes_only_manifest() {
    let mut s = SplitSession::start(0);
    assert_eq!(s.next_step(), SplitStep::WriteManifest);
    s.report(true);
    assert_eq!(s.next_step(), SplitStep::Done);
}
