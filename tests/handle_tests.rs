use file_store::{
    lock_kind_for, read_step, write_step, FlushStep, LockKind, OpenMode, ReadStep, WriteBuffer,
    WriteStep,
};

#[test]
fn truncating_modes_select_exclusive() {
    assert_eq!(lock_kind_for(OpenMode::TruncateWrite), LockKind::Exclusive);
    assert_eq!(lock_kind_for(OpenMode::TruncateReadWrite), LockKind::Exclusive);
    assert_eq!(lock_kind_for(OpenMode::OnlyRead), LockKind::ReaderWriter);
    assert_eq!(lock_kind_for(OpenMode::ReadWrite), LockKind::ReaderWriter);
    assert_eq!(lock_kind_for(OpenMode::OnlyAppend), LockKind::ReaderWriter);
}

#[test]
fn zero_length_read_is_empty() {
    let mut buf = WriteBuffer::new();
    buf.stage(vec![1, 2, 3]);
    assert!(matches!(read_step(LockKind::ReaderWriter, &buf, 0, 0), ReadStep::Empty));
    assert!(matches!(read_step(LockKind::Exclusive, &buf, 5, 0), ReadStep::Empty));
}

#[test]
fn zero_length_write_is_empty() {
    assert_eq!(write_step(LockKind::ReaderWriter, 0), WriteStep::Empty);
    assert_eq!(write_step(LockKind::Exclusive, 0), WriteStep::Empty);
    assert_eq!(write_step(LockKind::ReaderWriter, 4), WriteStep::Direct);
    assert_eq!(write_step(LockKind::Exclusive, 4), WriteStep::Stage);
}

#[test]
fn pending_read_returns_requested_range() {
    let mut buf = WriteBuffer::new();
    buf.stage(vec![10, 11, 12, 13, 14]);
    match read_step(LockKind::Exclusive, &buf.snapshot(), 1, 3) {
        ReadStep::Staged(b) => assert_eq!(b, vec![11, 12, 13]),
        other => panic!("unexpected {:?}", other),
    }
    match read_step(LockKind::Exclusive, &buf, 3, 10) {
        ReadStep::Staged(b) => assert_eq!(b, vec![13, 14]),
        other => panic!("unexpected {:?}", other),
    }
    match read_step(LockKind::Exclusive, &buf, 9, 2) {
        ReadStep::Staged(b) => assert!(b.is_empty()),
        other => panic!("unexpected {:?}", other),
    }
}

#[test]
fn durable_buffer_reads_raw_file() {
    let buf = WriteBuffer::new();
    assert!(matches!(read_step(LockKind::Exclusive, &buf, 0, 4), ReadStep::Raw));
    assert!(matches!(read_step(LockKind::ReaderWriter, &buf, 0, 4), ReadStep::Raw));
}

#[test]
fn late_flush_does_not_clear_newer_generation() {
    let mut buf = WriteBuffer::new();
    let g1 = buf.stage(vec![1, 1, 1]);
    assert_eq!(g1, 1);
    let first = buf.begin_flush();
    let g2 = buf.stage(vec![2, 2]);
    assert_eq!(g2, 2);
    match first {
        FlushStep::Flush(b, g) => {
            assert_eq!(b, vec![1, 1, 1]);
            assert_eq!(g, 1);
            buf.complete_flush(g);
        }
        other => panic!("unexpected {:?}", other),
    }
    assert!(buf.is_pending());
    assert_eq!(buf.generation, 2);
    match read_step(LockKind::Exclusive, &buf, 0, 8) {
        ReadStep::Staged(b) => assert_eq!(b, vec![2, 2]),
        other => panic!("unexpected {:?}", other),
    }
    match buf.begin_flush() {
        FlushStep::Flush(b, g) => {
            assert_eq!(b, vec![2, 2]);
            buf.complete_flush(g);
        }
        other => panic!("unexpected {:?}", other),
    }
    assert!(!buf.is_pending());
}

#[test]
fn flush_of_latest_makes_later_write_short_circuit() {
    let mut buf = WriteBuffer::new();
    buf.stage(vec![7]);
    buf.stage(vec![8, 9]);
    match buf.begin_flush() {
        FlushStep::Flush(b, g) => {
            assert_eq!(b, vec![8, 9]);
            assert_eq!(g, 2);
            buf.complete_flush(g);
        }
        other => panic!("unexpected {:?}", other),
    }
    match buf.begin_flush() {
        FlushStep::AlreadyDurable(n) => assert_eq!(n, 2),
        other => panic!("unexpected {:?}", other),
    }
}

#[test]
fn generation_wraps_past_zero() {
    let mut buf = WriteBuffer { bytes: Vec::new(), generation: u64::MAX };
    assert_eq!(buf.stage(vec![1]), 1);
}
