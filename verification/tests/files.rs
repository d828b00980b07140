use dope::manifold::Idle;
use dope::manifold::file::metadata::{Metadata, RawMetadata, SystemTime};
use dope::manifold::file::open::{OpenDone, OpenEvent};
use dope::manifold::file::raw::{room_of, spare_room, ReadRegion};
use dope::manifold::file::read::{ReadDone, ReadEvent};
use dope::manifold::file::splice::{SpliceDone, SpliceEvent, SpliceTable};
use dope::manifold::file::stat::{StatDone, StatEvent};
use dope::manifold::file::table::Targets;
use dope::manifold::file::{FileError, FileEvent, FileOutcome, Files, FilesFactory};
use dope::park::WakeRef;
use dope::token::{Token, OPEN, READ, SPLICE};

type TestFiles = Files<&'static str, u32, u32, 3, 2>;

fn wake(id: u64) -> WakeRef {
    WakeRef { id }
}

#[test]
fn modification_times_are_exact() {
    let meta = Metadata::from_raw(RawMetadata { len: 7, modified: Some((-1, 500)), regular: true });
    assert_eq!(meta.len(), 7);
    assert!(!meta.is_empty());
    assert!(meta.is_file());
    assert_eq!(meta.modified(), Some(SystemTime { seconds: -1, nanos: 500 }));
    let none = Metadata::from_raw(RawMetadata { len: 0, modified: None, regular: false });
    assert!(none.is_empty());
    assert!(!none.is_file());
    assert_eq!(none.modified(), None);
}

#[test]
fn open_is_polled_once() {
    let mut files: TestFiles = Files::new().unwrap();
    assert_eq!(files.idle(), Idle::Park(None));
    let submission = files.begin_open("a.txt", 2).unwrap();
    assert_eq!(submission.flags, 2);
    assert_eq!(submission.token.kind, OPEN);
    assert_eq!(submission.token.route, 3);
    assert_eq!(files.idle(), Idle::Busy);
    assert!(matches!(files.poll_open(submission.token, wake(1)), FileOutcome::Pending));
    let woken = files.dispatch(FileEvent::Open(submission.token, OpenEvent::Opened(42)));
    assert_eq!(woken, Some(wake(1)));
    match files.poll_open(submission.token, wake(2)) {
        FileOutcome::Done(OpenDone::Opened(fd)) => assert_eq!(fd, 42),
        _ => panic!("the open is done"),
    }
    assert!(matches!(files.poll_open(submission.token, wake(3)), FileOutcome::Pending));
    assert_eq!(files.idle(), Idle::Park(None));
}

#[test]
fn failed_open_reports_the_error() {
    let mut files: TestFiles = FilesFactory::<3, 2>.build();
    let submission = files.begin_open("missing", 0).unwrap();
    assert_eq!(files.dispatch(FileEvent::Open(submission.token, OpenEvent::Failed(2))), None);
    match files.poll_open(submission.token, wake(1)) {
        FileOutcome::Done(OpenDone::Failed(errno)) => assert_eq!(errno, 2),
        _ => panic!("the open has failed"),
    }
}

#[test]
fn open_table_is_bounded() {
    let mut files: TestFiles = Files::new().unwrap();
    let a = files.begin_open("a", 0).unwrap();
    let _b = files.begin_open("b", 0).unwrap();
    assert!(files.begin_open("c", 0).is_none());
    files.abort_open(a.token);
    assert!(files.begin_open("c", 0).is_some());
}

#[test]
fn read_gives_its_parts_back() {
    let mut files: TestFiles = Files::new().unwrap();
    let buffer = Vec::with_capacity(16);
    let submission = match files.begin_read(9, buffer, 8, 100) {
        Ok(submission) => submission,
        Err(_) => panic!("there is room"),
    };
    assert_eq!((submission.len, submission.offset), (8, 100));
    assert_eq!(submission.token.kind, READ);
    files.accept_read(submission.token);
    assert!(matches!(files.poll_read(submission.token, wake(1)), FileOutcome::Pending));
    let woken = files.dispatch(FileEvent::Read(
        submission.token,
        ReadEvent::Read(b"abc".to_vec()),
    ));
    assert_eq!(woken, Some(wake(1)));
    match files.poll_read(submission.token, wake(1)) {
        FileOutcome::Done((source, buffer, done)) => {
            assert_eq!(source, 9);
            assert_eq!(buffer, b"abc".to_vec());
            assert_eq!(done, ReadDone::Progress(3));
        }
        FileOutcome::Pending => panic!("the read is done"),
    }
}

#[test]
fn room_is_what_the_capacity_leaves() {
    assert_eq!(room_of(10, 4), 6);
    assert_eq!(room_of(4, 4), 0);
    let mut buffer: Vec<u8> = Vec::with_capacity(16);
    buffer.extend_from_slice(b"abc");
    let room = buffer.capacity() - 3;
    assert_eq!(spare_room(&buffer), room);
    assert!(ReadRegion::new(buffer, 1).is_ok());
}

#[test]
fn read_needs_a_writable_region() {
    let mut files: TestFiles = Files::new().unwrap();
    match files.begin_read_with_room(1, Vec::new(), 4, 5, 0) {
        Err((source, _, error)) => {
            assert_eq!(source, 1);
            assert_eq!(error, FileError::NoWritableRegion);
        }
        Ok(_) => panic!("there is no room"),
    }
    assert!(files.begin_read_with_room(1, Vec::new(), 5, 5, 0).is_ok());
    assert!(files.begin_read_with_room(2, Vec::new(), 5, 5, 0).is_ok());
    match files.begin_read_with_room(3, Vec::new(), 5, 5, 0) {
        Err((_, _, error)) => assert_eq!(error, FileError::WouldBlock),
        Ok(_) => panic!("the table is full"),
    }
}

#[test]
fn aborted_read_is_not_submitted() {
    let mut files: TestFiles = Files::new().unwrap();
    let submission = match files.begin_read_with_room(5, b"xy".to_vec(), 10, 4, 0) {
        Ok(submission) => submission,
        Err(_) => panic!("there is room"),
    };
    let (source, buffer, error) = files.abort_read(submission.token, FileError::Os(11));
    assert_eq!(source, 5);
    assert_eq!(buffer, b"xy".to_vec());
    assert_eq!(error, FileError::Os(11));
    assert_eq!(files.idle(), Idle::Park(None));
}

#[test]
fn read_appends_to_what_the_buffer_holds() {
    let region = ReadRegion::with_room(b"ab".to_vec(), 4, 4).unwrap();
    assert_eq!(region.commit(b"cd".to_vec()).unwrap(), b"abcd".to_vec());
    let region = ReadRegion::with_room(b"ab".to_vec(), 4, 1).unwrap();
    match region.commit(b"cd".to_vec()) {
        Err((buffer, error)) => {
            assert_eq!(buffer, b"ab".to_vec());
            assert_eq!(error, FileError::RegionExceeded);
        }
        Ok(_) => panic!("more than the region was filled"),
    }
    assert!(ReadRegion::with_room(Vec::new(), 3, 4).is_err());
    assert!(ReadRegion::new(Vec::new(), 4).is_err());
}

#[test]
fn stat_of_a_descriptor_gives_it_back() {
    let mut files: TestFiles = Files::new().unwrap();
    let token = files.begin_stat_fd(11).unwrap();
    let raw = RawMetadata { len: 3, modified: Some((1, 2)), regular: true };
    assert_eq!(files.dispatch(FileEvent::Stat(token, StatEvent::Done(Ok(raw)))), None);
    match files.poll_stat_fd(token, wake(1)) {
        FileOutcome::Done((source, StatDone::Metadata(meta))) => {
            assert_eq!(source, 11);
            assert_eq!(meta.len(), 3);
        }
        _ => panic!("the stat is done"),
    }
}

#[test]
fn stat_of_a_path_reports_errors() {
    let mut files: TestFiles = Files::new().unwrap();
    let token = files.begin_stat_path("nowhere").unwrap();
    assert!(files.begin_stat_path("b").is_ok());
    assert_eq!(files.begin_stat_path("c"), Err("c"));
    assert_eq!(files.dispatch(FileEvent::Stat(token, StatEvent::Failed(2))), None);
    match files.poll_stat_path(token, wake(1)) {
        FileOutcome::Done(StatDone::Failed(error)) => assert_eq!(error, FileError::Os(2)),
        _ => panic!("the stat has failed"),
    }
}

#[test]
fn canceled_open_yields_nothing() {
    let mut files: TestFiles = Files::new().unwrap();
    let a = files.begin_open("a", 0).unwrap();
    let b = files.begin_open("b", 0).unwrap();
    files.cancel_open(a.token);
    assert_eq!(files.flush_cancellations(), vec![a.token]);
    assert_eq!(files.flush_cancellations(), vec![]);
    assert_eq!(files.dispatch(FileEvent::Open(a.token, OpenEvent::Opened(1))), None);
    assert!(matches!(files.poll_open(a.token, wake(1)), FileOutcome::Pending));
    assert_eq!(files.shutdown(), vec![b.token]);
}

#[test]
fn quiescing_poisons_the_route() {
    let mut files: TestFiles = Files::new().unwrap();
    assert!(!files.poisons_route(false));
    assert!(files.poisons_route(true));
    files.record_quiesce(false);
    assert!(!files.poisons_route(false));
    files.record_quiesce(true);
    assert!(files.poisons_route(false));
}

#[test]
fn too_many_operations_are_refused() {
    assert!(Files::<u8, u8, u8, 0, 0x0100_0001>::new().is_err());
}

#[test]
fn splice_moves_between_descriptors() {
    let mut table: SpliceTable<u32, 1> = SpliceTable::new(1);
    let submission = table.begin(4, -1, 5, 64).unwrap();
    assert_eq!((submission.off_in, submission.len), (-1, 64));
    assert_eq!(submission.token.kind, SPLICE);
    assert!(table.begin(4, 0, 5, 64).is_none());
    assert!(matches!(table.poll(submission.token, wake(1)), FileOutcome::Pending));
    assert_eq!(table.complete(submission.token, SpliceEvent::Moved(10)), Some(wake(1)));
    match table.poll(submission.token, wake(1)) {
        FileOutcome::Done(done) => assert_eq!(done, SpliceDone::Moved(10)),
        FileOutcome::Pending => panic!("the splice is done"),
    }
    assert!(table.is_empty());
}

#[test]
fn canceled_splices_are_swept() {
    let mut table: SpliceTable<u32, 1> = SpliceTable::new(2);
    let a = table.begin(4, 0, 5, 64).unwrap();
    let b = table.begin(6, 0, 7, 64).unwrap();
    table.cancel(b.token);
    let stopped = table.flush_cancellations();
    assert_eq!(stopped, vec![Targets::one(b.token)]);
    let mut targets = Vec::new();
    table.append_targets(&mut targets);
    assert_eq!(targets, vec![a.token]);
    assert_eq!(table.complete(b.token, SpliceEvent::Eof), None);
    assert!(matches!(table.poll(b.token, wake(1)), FileOutcome::Pending));
}

#[test]
fn targets_stop_the_second_before_the_first() {
    let first = Token { route: 1, kind: 2, slot: 3, epoch: 4 };
    let second = Token { route: 1, kind: 2, slot: 5, epoch: 6 };
    let mut all = Vec::new();
    Targets::one(first).append_to(&mut all);
    Targets::two_releasing(first, second, 9).append_to(&mut all);
    assert_eq!(all.len(), 3);
    let (order, release) = Targets::two_releasing(first, second, 9).quiesce();
    assert_eq!(order.len(), 2);
    assert_eq!(release, Some(9));
    assert_eq!(Targets::one(first).quiesce(), (vec![first], None));
}
