use atomic_dbg::dbg::{_dbg_finish, _dbg_label, _dbg_start, _dbg_write, _Dbg};
use atomic_dbg::log::{enabled, init, label, log, Level};
use atomic_dbg::model::{Failure, WriteOutcome};
use atomic_dbg::print::{_eprint, _eprintln};
use atomic_dbg::writer::{Pending, Writer};

fn drain<const N: usize>(writer: &mut Writer<N>, payloads: &mut Vec<Vec<u8>>) {
    while let Pending::Bytes(bytes) = writer.pending() {
        let n = bytes.len();
        payloads.push(bytes.to_vec());
        assert_eq!(writer.flush(WriteOutcome::Written(n)), Ok(()));
    }
}

#[test]
fn eprint_adds_nothing() {
    let mut writer = Writer::<32>::with_error(0);
    assert!(_eprint(&mut writer, "Hello, ", false).unwrap().is_empty());
    assert!(_eprint(&mut writer, "World!", false).unwrap().is_empty());
    assert_eq!(writer.buffered(), b"Hello, World!");
}

#[test]
fn eprintln_adds_a_newline() {
    let mut writer = Writer::<32>::with_error(0);
    assert!(_eprintln(&mut writer, "2, 3.5, purple", false).unwrap().is_empty());
    assert_eq!(writer.buffered(), b"2, 3.5, purple\n");
    assert!(_eprintln(&mut writer, "", false).unwrap().is_empty());
    assert_eq!(writer.buffered(), b"2, 3.5, purple\n\n");
}

#[test]
fn eprintln_hands_back_what_did_not_fit() {
    let mut writer = Writer::<8>::with_error(0);
    let rest = _eprintln(&mut writer, "12345678", false).unwrap();
    assert_eq!(rest.parts(), &["\n"]);
    assert_eq!(writer.buffered(), b"12345678");
    let mut payloads = Vec::new();
    drain(&mut writer, &mut payloads);
    assert!(writer.write(rest, false).unwrap().is_empty());
    drain(&mut writer, &mut payloads);
    assert_eq!(payloads, vec![b"12345678".to_vec(), b"\n".to_vec()]);
}

#[test]
fn eprint_is_turned_away_by_a_writer_that_gave_up() {
    let mut writer = Writer::<8>::with_error(0);
    assert!(_eprint(&mut writer, "a", false).is_ok());
    assert_eq!(writer.flush(WriteOutcome::Failed), Err(Failure::Destination));
    assert_eq!(_eprint(&mut writer, "b", false).err(), Some(Failure::Destination));
    assert_eq!(_eprintln(&mut writer, "b", false).err(), Some(Failure::Destination));
    assert_eq!(writer.buffered(), b"a");
}

#[test]
fn a_dump_of_two_values_is_two_lines_in_one_unit() {
    let mut dbg: _Dbg<64> = _dbg_start();
    assert!(_dbg_write(&mut dbg, "a", 10, "1+1", "2", false).unwrap().is_empty());
    assert!(_dbg_write(&mut dbg, "a", 10, "\"x\"", "\"x\"", false).unwrap().is_empty());
    let mut writer = _dbg_finish(dbg);
    let mut payloads = Vec::new();
    drain(&mut writer, &mut payloads);
    assert_eq!(payloads, vec![b"[a:10] 1+1 = 2\n[a:10] \"x\" = \"x\"\n".to_vec()]);
}

#[test]
fn a_dump_keeps_the_order_of_its_values() {
    let mut dbg: _Dbg<16> = _dbg_start();
    let mut payloads = Vec::new();
    for (line, value) in [(1u32, "zero"), (20, "two"), (4_000_000_000, "four")] {
        let mut rest = _dbg_write(&mut dbg, "src/main.rs", line, "n", value, false).unwrap();
        while !rest.is_empty() {
            drain(&mut dbg.0, &mut payloads);
            rest = dbg.0.write(rest, false).unwrap();
        }
    }
    let mut writer = _dbg_finish(dbg);
    drain(&mut writer, &mut payloads);
    assert_eq!(
        String::from_utf8(payloads.concat()).unwrap(),
        "[src/main.rs:1] n = zero\n[src/main.rs:20] n = two\n[src/main.rs:4000000000] n = four\n"
    );
    assert!(payloads.iter().all(|payload| payload.len() <= 16));
}

#[test]
fn a_dump_starts_with_the_current_error_status() {
    errno::set_errno(errno::Errno(11));
    let dbg: _Dbg<16> = _dbg_start();
    assert_eq!(dbg.0.saved_error(), 11);
    errno::set_errno(errno::Errno(12));
    let writer = _dbg_finish(dbg);
    assert_eq!(writer.saved_error(), 11);
    drop(writer);
    assert_eq!(errno::errno(), errno::Errno(11));
}

#[test]
fn a_record_is_one_line() {
    let mut writer = Writer::<64>::with_error(0);
    assert!(log(&mut writer, "more", Level::Info, "This is an INFO log message!", false)
        .unwrap()
        .is_empty());
    assert_eq!(writer.buffered(), b"more: INFO - This is an INFO log message!\n");
}

#[test]
fn every_level_has_its_name() {
    for (level, line) in [
        (Level::Error, "t: ERROR - m\n"),
        (Level::Warn, "t: WARN - m\n"),
        (Level::Info, "t: INFO - m\n"),
        (Level::Debug, "t: DEBUG - m\n"),
        (Level::Trace, "t: TRACE - m\n"),
    ] {
        let mut writer = Writer::<32>::with_error(0);
        assert!(log(&mut writer, "t", level, "m", false).unwrap().is_empty());
        assert_eq!(writer.buffered(), line.as_bytes());
    }
}

#[test]
fn every_level_is_enabled() {
    for level in [Level::Error, Level::Warn, Level::Info, Level::Debug, Level::Trace] {
        assert!(enabled(level));
    }
}

#[test]
fn init_opens_the_log_for_every_level() {
    init();
    assert_eq!(::log::max_level(), ::log::LevelFilter::Trace);
}

#[test]
fn eprint_of_nothing_is_one_write_of_nothing() {
    let mut writer = Writer::<8>::with_error(0);
    assert!(_eprint(&mut writer, "", false).unwrap().is_empty());
    let mut payloads = Vec::new();
    drain(&mut writer, &mut payloads);
    assert_eq!(payloads, vec![Vec::<u8>::new()]);
    assert_eq!(writer.pending(), Pending::Nothing);
}

#[test]
fn a_label_and_a_value_in_pieces_are_the_line() {
    let mut dbg: _Dbg<64> = _dbg_start();
    assert!(_dbg_label(&mut dbg, "a", 10, "1+1", false).unwrap().is_empty());
    assert_eq!(dbg.0.buffered(), b"[a:10] 1+1 = ");
    assert_eq!(dbg.0.write_str("2", false), Ok(""));
    assert!(_eprintln(&mut dbg.0, "", false).unwrap().is_empty());
    let mut whole: _Dbg<64> = _dbg_start();
    assert!(_dbg_write(&mut whole, "a", 10, "1+1", "2", false).unwrap().is_empty());
    assert_eq!(dbg.0.buffered(), whole.0.buffered());
    assert_eq!(dbg.0.buffered(), b"[a:10] 1+1 = 2\n");
}

#[test]
fn a_label_and_a_message_in_pieces_are_the_record() {
    let mut writer = Writer::<64>::with_error(0);
    assert!(label(&mut writer, "more", Level::Warn, false).unwrap().is_empty());
    assert_eq!(writer.buffered(), b"more: WARN - ");
    assert_eq!(writer.write_str("disk ", false), Ok(""));
    assert_eq!(writer.write_str("full", false), Ok(""));
    assert!(_eprintln(&mut writer, "", false).unwrap().is_empty());
    assert_eq!(writer.buffered(), b"more: WARN - disk full\n");
}
