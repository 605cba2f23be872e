use atomic_dbg::model::{Failure, Path, WriteOutcome};
use atomic_dbg::text::Text;
use atomic_dbg::writer::{Pending, Writer};

/// A destination that takes at most `limit` bytes per write and keeps what
/// it was handed and what it took.
struct Sink {
    limit: usize,
    payloads: Vec<Vec<u8>>,
    taken: Vec<u8>,
}

impl Sink {
    fn new(limit: usize) -> Sink {
        Sink { limit, payloads: Vec::new(), taken: Vec::new() }
    }

    fn drain<const N: usize>(&mut self, writer: &mut Writer<N>) {
        loop {
            let n = match writer.pending() {
                Pending::Nothing => return,
                Pending::Bytes(bytes) => {
                    let n = bytes.len().min(self.limit);
                    self.payloads.push(bytes.to_vec());
                    self.taken.extend_from_slice(&bytes[..n]);
                    n
                }
                Pending::Console(_) => panic!("the byte path was taken"),
            };
            assert_eq!(writer.flush(WriteOutcome::Written(n)), Ok(()));
        }
    }

    fn print<const N: usize>(&mut self, writer: &mut Writer<N>, text: &str) {
        let mut rest = text;
        loop {
            rest = writer.write_str(rest, false).unwrap();
            if rest.is_empty() {
                return;
            }
            self.drain(writer);
        }
    }
}

fn pending_bytes<const N: usize>(writer: &Writer<N>) -> Vec<u8> {
    match writer.pending() {
        Pending::Bytes(bytes) => bytes.to_vec(),
        Pending::Nothing => Vec::new(),
        Pending::Console(_) => panic!("the byte path was taken"),
    }
}

fn pending_units<const N: usize>(writer: &Writer<N>) -> Vec<u16> {
    match writer.pending() {
        Pending::Console(units) => units.to_vec(),
        Pending::Nothing => Vec::new(),
        Pending::Bytes(_) => panic!("the console path was taken"),
    }
}

#[test]
fn a_fresh_writer_holds_nothing() {
    let writer = Writer::<16>::with_error(3);
    assert_eq!(writer.capacity(), 16);
    assert_eq!(writer.saved_error(), 3);
    assert_eq!(writer.path(), Path::Unset);
    assert_eq!(writer.failure(), None);
    assert_eq!(writer.buffered(), b"");
    assert_eq!(writer.console_buffered(), &[] as &[u16]);
    // Nothing has been written yet, so a write is owed: of nothing.
    assert_eq!(writer.pending(), Pending::Bytes(&[]));
}

#[test]
fn the_empty_message_is_one_write_of_nothing() {
    let mut writer = Writer::<8>::with_error(0);
    assert_eq!(writer.write_str("", false), Ok(""));
    let mut sink = Sink::new(usize::MAX);
    sink.drain(&mut writer);
    assert_eq!(sink.payloads, vec![Vec::<u8>::new()]);
    assert_eq!(writer.pending(), Pending::Nothing);
    sink.drain(&mut writer);
    assert_eq!(sink.payloads.len(), 1);
}

#[test]
fn a_writer_without_any_text_owes_one_write() {
    let mut writer = Writer::<8>::with_error(0);
    assert_eq!(writer.pending(), Pending::Bytes(&[]));
    assert_eq!(writer.flush(WriteOutcome::Interrupted), Ok(()));
    assert_eq!(writer.pending(), Pending::Bytes(&[]));
    assert_eq!(writer.flush(WriteOutcome::Written(0)), Ok(()));
    assert_eq!(writer.pending(), Pending::Nothing);
}

#[test]
fn after_an_emptying_flush_no_write_is_owed() {
    let mut writer = Writer::<8>::with_error(0);
    assert_eq!(writer.write_str("abc", false), Ok(""));
    assert_eq!(writer.flush(WriteOutcome::Written(3)), Ok(()));
    assert_eq!(writer.pending(), Pending::Nothing);
    assert_eq!(writer.write_str("", false), Ok(""));
    assert_eq!(writer.pending(), Pending::Nothing);
}

#[test]
fn a_destination_that_turns_console_ends_the_writer() {
    let mut writer = Writer::<8>::with_error(0);
    assert_eq!(writer.commit(false), Ok(()));
    assert_eq!(writer.path(), Path::Bytes);
    assert_eq!(writer.write_str("abc", false), Ok(""));
    assert_eq!(writer.commit(false), Ok(()));
    assert_eq!(writer.commit(true), Err(Failure::Switched));
    assert_eq!(writer.failure(), Some(Failure::Switched));
    assert_eq!(writer.pending(), Pending::Nothing);
    assert_eq!(writer.buffered(), b"abc");
    assert_eq!(writer.commit(false), Err(Failure::Switched));
}

#[test]
fn a_console_that_turns_into_a_file_ends_the_writer() {
    let mut writer = Writer::<8>::with_error(0);
    assert_eq!(writer.commit(true), Ok(()));
    assert_eq!(writer.path(), Path::Console);
    assert_eq!(writer.pending(), Pending::Console(&[]));
    assert_eq!(writer.write_str("ab", true), Ok(""));
    assert_eq!(writer.commit(false), Err(Failure::Switched));
    assert_eq!(writer.pending(), Pending::Nothing);
    assert_eq!(writer.console_buffered(), &[0x61, 0x62]);
}

#[test]
fn a_message_that_fits_is_one_write() {
    let mut writer = Writer::<16>::with_error(0);
    assert_eq!(writer.write_str("hello, ", false), Ok(""));
    assert_eq!(writer.write_str("world\n", false), Ok(""));
    assert_eq!(writer.path(), Path::Bytes);
    let mut sink = Sink::new(usize::MAX);
    sink.drain(&mut writer);
    assert_eq!(sink.payloads, vec![b"hello, world\n".to_vec()]);
    assert_eq!(writer.pending(), Pending::Nothing);
    assert_eq!(writer.buffered(), b"");
}

#[test]
fn a_message_of_exactly_the_capacity_is_one_write() {
    let mut writer = Writer::<8>::with_error(0);
    assert_eq!(writer.write_str("12345678", false), Ok(""));
    assert_eq!(pending_bytes(&writer), b"12345678".to_vec());
    assert_eq!(writer.flush_buf(WriteOutcome::Written(8)), Ok(()));
    assert_eq!(writer.pending(), Pending::Nothing);
}

#[test]
fn a_chunk_that_does_not_fit_waits_for_the_flush() {
    let mut writer = Writer::<8>::with_error(0);
    assert_eq!(writer.write_str("12345", false), Ok(""));
    assert_eq!(writer.write_str("6789", false), Ok("6789"));
    assert_eq!(writer.buffered(), b"12345");
    assert_eq!(writer.flush(WriteOutcome::Written(5)), Ok(()));
    assert_eq!(writer.write_str("6789", false), Ok(""));
    assert_eq!(writer.buffered(), b"6789");
}

#[test]
fn a_long_message_arrives_whole_and_in_order() {
    let message = "The quick brown fox jumps over the lazy dog, twice over.\n";
    let mut writer = Writer::<8>::with_error(0);
    let mut sink = Sink::new(usize::MAX);
    sink.print(&mut writer, message);
    sink.drain(&mut writer);
    assert_eq!(sink.taken, message.as_bytes().to_vec());
    assert_eq!(sink.payloads.concat(), message.as_bytes().to_vec());
    assert_eq!(sink.payloads.len(), 8);
    assert_eq!(sink.payloads[0], b"The quic".to_vec());
}

#[test]
fn partial_writes_lose_and_repeat_nothing() {
    let message = "abcdefghijklmnopqrstuvwxyz";
    let mut writer = Writer::<8>::with_error(0);
    let mut sink = Sink::new(3);
    sink.print(&mut writer, message);
    sink.drain(&mut writer);
    assert_eq!(sink.taken, message.as_bytes().to_vec());
    assert_eq!(sink.payloads[0], b"abcdefgh".to_vec());
    assert_eq!(sink.payloads[1], b"defgh".to_vec());
    assert_eq!(sink.payloads[2], b"gh".to_vec());
    assert_eq!(sink.payloads[3], b"ijklmnop".to_vec());
}

#[test]
fn a_partial_write_leaves_the_rest_pending() {
    let mut writer = Writer::<8>::with_error(0);
    assert_eq!(writer.write_str("abcdef", false), Ok(""));
    assert_eq!(writer.flush_buf(WriteOutcome::Written(4)), Ok(()));
    assert_eq!(pending_bytes(&writer), b"ef".to_vec());
    assert_eq!(writer.buffered(), b"abcdef");
    assert_eq!(writer.write_str("g", false), Ok("g"));
    assert_eq!(writer.flush_buf(WriteOutcome::Written(0)), Ok(()));
    assert_eq!(pending_bytes(&writer), b"ef".to_vec());
    assert_eq!(writer.flush_buf(WriteOutcome::Written(2)), Ok(()));
    assert_eq!(writer.pending(), Pending::Nothing);
    assert_eq!(writer.write_str("g", false), Ok(""));
}

#[test]
fn an_interrupted_write_is_repeated_as_it_was() {
    let mut writer = Writer::<8>::with_error(0);
    assert_eq!(writer.write_str("abc", false), Ok(""));
    assert_eq!(writer.flush(WriteOutcome::Interrupted), Ok(()));
    assert_eq!(pending_bytes(&writer), b"abc".to_vec());
    assert_eq!(writer.failure(), None);
}

#[test]
fn a_failed_write_ends_the_writer() {
    let mut writer = Writer::<8>::with_error(0);
    assert_eq!(writer.write_str("abc", false), Ok(""));
    assert_eq!(writer.flush(WriteOutcome::Failed), Err(Failure::Destination));
    assert_eq!(writer.failure(), Some(Failure::Destination));
    assert_eq!(writer.pending(), Pending::Nothing);
    assert_eq!(writer.write_str("d", false), Err(Failure::Destination));
    assert_eq!(writer.flush(WriteOutcome::Written(0)), Err(Failure::Destination));
    assert_eq!(writer.flush_buf(WriteOutcome::Interrupted), Err(Failure::Destination));
    assert_eq!(writer.flush_console(WriteOutcome::Interrupted), Err(Failure::Destination));
    assert_eq!(writer.buffered(), b"abc");
}

#[test]
fn a_change_of_kind_ends_the_writer() {
    let mut writer = Writer::<8>::with_error(0);
    assert_eq!(writer.write_str("abc", false), Ok(""));
    assert_eq!(writer.flush(WriteOutcome::Written(3)), Ok(()));
    assert_eq!(writer.write_str("d", true), Err(Failure::Switched));
    assert_eq!(writer.failure(), Some(Failure::Switched));
    assert_eq!(writer.write_str("d", false), Err(Failure::Switched));

    let mut writer = Writer::<8>::with_error(0);
    assert_eq!(writer.write_str("abc", true), Ok(""));
    assert_eq!(writer.write_str("d", false), Err(Failure::Switched));
    assert_eq!(writer.console_buffered(), &[0x61, 0x62, 0x63]);
}

#[test]
fn a_large_chunk_is_cut_where_a_character_starts() {
    // Each of these characters takes three bytes.
    let text = "\u{20AC}\u{20AC}\u{20AC}\u{20AC}";
    let mut writer = Writer::<8>::with_error(0);
    let rest = writer.write_str(text, false).unwrap();
    assert_eq!(rest, "\u{20AC}\u{20AC}");
    assert_eq!(writer.buffered(), "\u{20AC}\u{20AC}".as_bytes());
    assert_eq!(writer.flush(WriteOutcome::Written(6)), Ok(()));
    assert_eq!(writer.write_str(rest, false), Ok(""));
    assert_eq!(writer.buffered(), "\u{20AC}\u{20AC}".as_bytes());
}

#[test]
fn every_flush_of_mixed_text_is_text() {
    let message = "a\u{E9}\u{20AC}\u{1F600}b\u{E9}\u{20AC}\u{1F600}c\u{E9}\u{20AC}\u{1F600}";
    let mut writer = Writer::<5>::with_error(0);
    let mut sink = Sink::new(usize::MAX);
    sink.print(&mut writer, message);
    sink.drain(&mut writer);
    assert_eq!(sink.taken, message.as_bytes().to_vec());
    for payload in &sink.payloads {
        assert!(std::str::from_utf8(payload).is_ok());
    }
}

#[test]
fn the_console_takes_units_that_read_back() {
    let text = "a\u{1F600}b\u{20AC}";
    let mut writer = Writer::<8>::with_error(0);
    assert_eq!(writer.write_str(text, true), Ok(""));
    assert_eq!(writer.path(), Path::Console);
    let units = pending_units(&writer);
    assert_eq!(units, vec![0x61, 0xD83D, 0xDE00, 0x62, 0x20AC]);
    assert_eq!(units, text.encode_utf16().collect::<Vec<u16>>());
    assert_eq!(String::from_utf16(&units).unwrap(), text);
    assert_eq!(writer.buffered(), b"");
    assert_eq!(writer.flush_console(WriteOutcome::Written(5)), Ok(()));
    assert_eq!(writer.pending(), Pending::Nothing);
}

#[test]
fn the_console_never_gets_half_a_pair() {
    let mut writer = Writer::<4>::with_error(0);
    let rest = writer.write_str("abc\u{1F600}d", true).unwrap();
    assert_eq!(rest, "\u{1F600}d");
    assert_eq!(pending_units(&writer), vec![0x61, 0x62, 0x63]);
    assert_eq!(writer.flush(WriteOutcome::Written(3)), Ok(()));
    let rest = writer.write_str(rest, true).unwrap();
    assert_eq!(rest, "");
    assert_eq!(pending_units(&writer), vec![0xD83D, 0xDE00, 0x64]);
    assert_eq!(writer.flush(WriteOutcome::Written(1)), Ok(()));
    assert_eq!(pending_units(&writer), vec![0xDE00, 0x64]);
    assert_eq!(writer.write_str("e", true), Ok("e"));
    assert_eq!(writer.flush(WriteOutcome::Written(2)), Ok(()));
    assert_eq!(writer.write_str("e", true), Ok(""));
    assert_eq!(pending_units(&writer), vec![0x65]);
}

#[test]
fn the_console_is_flushed_when_fewer_than_two_places_are_free() {
    let mut writer = Writer::<4>::with_error(0);
    // Three units leave one place, which is not enough for any character.
    assert_eq!(writer.write_str("abcd", true), Ok("d"));
    assert_eq!(pending_units(&writer), vec![0x61, 0x62, 0x63]);
}

#[test]
fn text_of_several_chunks_is_taken_in_order() {
    let mut writer = Writer::<8>::with_error(0);
    let rest = writer.write(Text::new(["ab", "", "cd", "efghi", "j"]), false).unwrap();
    assert!(!rest.is_empty());
    assert_eq!(rest.parts(), &["efghi", "j"]);
    assert_eq!(writer.buffered(), b"abcd");
    assert_eq!(writer.flush(WriteOutcome::Written(4)), Ok(()));
    let rest = writer.write(rest, false).unwrap();
    assert!(rest.is_empty());
    assert_eq!(rest.parts(), &[] as &[&str]);
    assert_eq!(writer.buffered(), b"efghij");
}

#[test]
fn empty_text_commits_the_writer_and_takes_nothing() {
    let mut writer = Writer::<8>::with_error(0);
    assert_eq!(writer.write_str("", true), Ok(""));
    assert_eq!(writer.path(), Path::Console);
    assert_eq!(writer.pending(), Pending::Console(&[]));
    assert_eq!(writer.flush(WriteOutcome::Written(0)), Ok(()));
    assert_eq!(writer.pending(), Pending::Nothing);
    let text: Text<'_, 0> = Text::new([]);
    assert!(text.is_empty());
    assert!(writer.write(text, true).unwrap().is_empty());
}

#[test]
fn a_failed_write_of_nothing_ends_the_writer() {
    let mut writer = Writer::<8>::with_error(9);
    assert_eq!(writer.flush(WriteOutcome::Failed), Err(Failure::Destination));
    assert_eq!(writer.path(), Path::Unset);
    assert_eq!(writer.saved_error(), 9);
    assert_eq!(writer.pending(), Pending::Nothing);
}

#[test]
fn the_saved_error_outlives_every_outcome() {
    let mut writer = Writer::<4>::with_error(-17);
    let mut sink = Sink::new(1);
    sink.print(&mut writer, "some text that needs many writes");
    assert_eq!(writer.saved_error(), -17);
    assert_eq!(writer.flush(WriteOutcome::Failed), Err(Failure::Destination));
    assert_eq!(writer.saved_error(), -17);
    assert_eq!(writer.write_str("x", true), Err(Failure::Destination));
    assert_eq!(writer.saved_error(), -17);
}

#[test]
fn a_new_writer_keeps_the_current_error_status() {
    errno::set_errno(errno::Errno(42));
    let writer = Writer::<8>::new();
    assert_eq!(writer.saved_error(), 42);
    assert_eq!(writer.buffered(), b"");
}

#[test]
fn dropping_a_writer_puts_the_error_status_back() {
    errno::set_errno(errno::Errno(7));
    let mut writer = Writer::<8>::new();
    errno::set_errno(errno::Errno(99));
    assert_eq!(writer.write_str("abc", false), Ok(""));
    assert_eq!(writer.flush(WriteOutcome::Failed), Err(Failure::Destination));
    errno::set_errno(errno::Errno(98));
    drop(writer);
    assert_eq!(errno::errno(), errno::Errno(7));
}

#[test]
fn a_buffer_of_four_bytes_takes_every_character() {
    let message = "\u{1F600}\u{1F601}a\u{20AC}";
    let mut writer = Writer::<4>::with_error(0);
    let mut sink = Sink::new(usize::MAX);
    sink.print(&mut writer, message);
    sink.drain(&mut writer);
    assert_eq!(
        sink.payloads,
        vec![
            "\u{1F600}".as_bytes().to_vec(),
            "\u{1F601}".as_bytes().to_vec(),
            "a\u{20AC}".as_bytes().to_vec(),
        ]
    );
}

#[test]
fn two_writers_share_nothing() {
    let mut first = Writer::<16>::with_error(1);
    let mut second = Writer::<16>::with_error(2);
    assert_eq!(first.write_str("even\n", false), Ok(""));
    assert_eq!(second.write_str("odd\n", false), Ok(""));
    assert_eq!(pending_bytes(&first), b"even\n".to_vec());
    assert_eq!(pending_bytes(&second), b"odd\n".to_vec());
    assert_eq!(first.saved_error(), 1);
    assert_eq!(second.saved_error(), 2);
}
