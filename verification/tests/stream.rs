use vgm_core::scan::{scan, Scan, ScanEnd};
use vgm_core::{Chip, Error, Event, Reader};

fn first(d: &[u8]) -> (Result<Event, Error>, usize) {
    let mut r = Reader::new(d, 0);
    let e = r.next_event();
    (e, r.pos)
}

#[test]
fn every_write_command_names_its_chip() {
    let table = [
        (0x51, Chip::Ym2413, 0),
        (0x52, Chip::Ym2612, 0),
        (0x53, Chip::Ym2612, 1),
        (0x54, Chip::Ym2151, 0),
        (0x55, Chip::Opn, 0),
        (0x56, Chip::Opn, 0),
        (0x57, Chip::Opn, 1),
        (0x5A, Chip::Opl, 0),
        (0x5B, Chip::Opl, 0),
        (0x5E, Chip::Opl, 0),
        (0x5F, Chip::Opl, 1),
        (0xB9, Chip::HuC6280, 0),
        (0xA0, Chip::Ay8910, 0),
        (0xB3, Chip::GbDmg, 0),
        (0xB4, Chip::NesApu, 0),
        (0xB7, Chip::Okim6258, 0),
        (0xB8, Chip::Okim6295, 0),
        (0xBA, Chip::K053260, 0),
    ];
    for (cmd, chip, port) in table {
        let want = Event::Write { chip, port, addr: 0x7F, data: 0xFE };
        assert_eq!(first(&[cmd, 0x7F, 0xFE]), (Ok(want), 3));
        // a write that is cut off has consumed what there was
        assert_eq!(first(&[cmd, 0x7F]), (Err(Error::TooShort), 2));
        assert_eq!(first(&[cmd]), (Err(Error::TooShort), 1));
    }
    // register bytes that are handed on whole keep bit 7
    let want = Event::Write { chip: Chip::HuC6280, port: 0, addr: 0x80, data: 1 };
    assert_eq!(first(&[0xB9, 0x80, 1]), (Ok(want), 3));
    let want = Event::Write { chip: Chip::Ym2612, port: 0, addr: 0xB4, data: 0xC0 };
    assert_eq!(first(&[0x52, 0xB4, 0xC0]), (Ok(want), 3));
}

#[test]
fn psg_writes_have_two_sides() {
    let w = |port, data| Event::Write { chip: Chip::Sn76489, port, addr: 0, data };
    assert_eq!(first(&[0x50, 0x9F]), (Ok(w(0, 0x9F)), 2));
    assert_eq!(first(&[0x30, 0x9F]), (Ok(w(1, 0x9F)), 2));
    assert_eq!(first(&[0x50]), (Err(Error::TooShort), 1));
}

#[test]
fn unplayed_commands_name_themselves() {
    let lengths = [
        (0x58u8, 2), (0x59, 2), (0x5C, 2), (0x5D, 2), (0x68, 11), (0xB0, 2), (0xB2, 2), (0xB5, 2),
        (0xB6, 2), (0xBB, 2), (0xBF, 2), (0xC1, 3), (0xD1, 3), (0xD3, 3), (0xDF, 3), (0xE0, 4),
        (0xE1, 4), (0xFF, 4),
    ];
    for (cmd, n) in lengths {
        let mut d = vec![cmd];
        d.extend(vec![0xEEu8; n]);
        let want = Event::Write { chip: Chip::Unknown(cmd), port: 0, addr: 0, data: 0 };
        assert_eq!(first(&d), (Ok(want), n + 1));
        // cut off: the position stays right behind the command byte
        d.pop();
        assert_eq!(first(&d), (Err(Error::TooShort), 1));
    }
}

#[test]
fn unknown_commands_are_refused_with_their_place() {
    for cmd in [0x00u8, 0x2F, 0x31, 0x3E, 0x40, 0x4E, 0x60, 0x64, 0x65, 0x69, 0x6F, 0x96, 0x9F] {
        let d = [0x62, cmd, 0, 0, 0, 0];
        let mut r = Reader::new(&d, 1);
        assert_eq!(r.next_event(), Err(Error::UnknownCommand { cmd, pos: 1 }));
        assert_eq!(r.pos, 2);
    }
}

#[test]
fn waits() {
    assert_eq!(first(&[0x61, 0x34, 0x12]), (Ok(Event::Wait { ticks: 0x1234 }), 3));
    assert_eq!(first(&[0x61, 0x34]), (Err(Error::TooShort), 2));
    assert_eq!(first(&[0x62]), (Ok(Event::Wait { ticks: 735 }), 1));
    assert_eq!(first(&[0x63]), (Ok(Event::Wait { ticks: 882 }), 1));
    assert_eq!(first(&[0x70]), (Ok(Event::Wait { ticks: 1 }), 1));
    assert_eq!(first(&[0x7F]), (Ok(Event::Wait { ticks: 16 }), 1));
}

#[test]
fn dac_pointer_moves_and_seeks() {
    let d = [0x80, 0x8F, 0xE0, 0x78, 0x56, 0x34, 0x12, 0x81, 0xE0, 0xFF, 0xFF, 0xFF, 0xFF, 0x80, 0x80];
    let mut r = Reader::new(&d, 0);
    assert_eq!(r.next_event(), Ok(Event::Ym2612Dac { ticks: 0, offset: 0 }));
    assert_eq!(r.next_event(), Ok(Event::Ym2612Dac { ticks: 15, offset: 1 }));
    assert_eq!(
        r.next_event(),
        Ok(Event::Write { chip: Chip::Unknown(0xE0), port: 0, addr: 0, data: 0 })
    );
    assert_eq!(r.dac_ptr, 0x1234_5678);
    assert_eq!(r.next_event(), Ok(Event::Ym2612Dac { ticks: 1, offset: 0x1234_5678 }));
    assert_eq!(r.dac_ptr, 0x1234_5679);
    r.next_event().unwrap();
    assert_eq!(r.next_event(), Ok(Event::Ym2612Dac { ticks: 0, offset: 0xFFFF_FFFF }));
    assert_eq!(r.next_event(), Ok(Event::Ym2612Dac { ticks: 0, offset: 0 }));
}

#[test]
fn dac_streams_have_their_lengths() {
    for (cmd, len) in [(0x90u8, 4), (0x91, 4), (0x92, 5), (0x93, 10), (0x94, 1), (0x95, 4)] {
        let mut d = vec![cmd];
        d.extend(vec![0u8; len]);
        assert_eq!(first(&d), (Ok(Event::DacStream { cmd, start: 1, len }), 1 + len));
        d.pop();
        assert_eq!(first(&d), (Err(Error::TooShort), 1));
    }
}

#[test]
fn data_blocks_are_bounded() {
    // the top bit of the length is no part of it
    let d = [0x67, 0x66, 0x05, 0x02, 0, 0, 0x80, 0xAA, 0xBB];
    assert_eq!(first(&d), (Ok(Event::DataBlock { kind: 5, start: 7, len: 2 }), 9));
    assert_eq!(first(&d[..8]), (Err(Error::TooShort), 7));
    assert_eq!(first(&d[..6]), (Err(Error::TooShort), 3));
    assert_eq!(first(&d[..2]), (Err(Error::TooShort), 2));
    assert_eq!(first(&d[..1]), (Err(Error::TooShort), 1));
    assert_eq!(first(&[0x67, 0x66, 0, 0, 0, 0, 0]), (Ok(Event::DataBlock { kind: 0, start: 7, len: 0 }), 7));
}

#[test]
fn second_chips_are_kept_apart() {
    for cmd in 0xA1..=0xAFu8 {
        assert_eq!(first(&[cmd, 0x28, 0x00]), (Ok(Event::SecondChip { cmd }), 3));
        assert_eq!(first(&[cmd, 0x28]), (Err(Error::TooShort), 1));
    }
    for cmd in [0xA0u8, 0xB3, 0xB4, 0xB7, 0xB8, 0xBA] {
        assert_eq!(first(&[cmd, 0x80, 0x00]), (Ok(Event::SecondChip { cmd }), 3));
    }
    assert_eq!(first(&[0xC0, 0x01, 0x80, 9]), (Ok(Event::SecondChip { cmd: 0xC0 }), 4));
    assert_eq!(
        first(&[0xC0, 0xFF, 0x7F, 9]),
        (Ok(Event::SegaPcmWrite { offset: 0x7FFF, data: 9 }), 4)
    );
    assert_eq!(first(&[0xC0, 0xFF, 0x7F]), (Err(Error::TooShort), 3));
    assert_eq!(first(&[0xD2, 0x81, 2, 3]), (Ok(Event::SecondChip { cmd: 0xD2 }), 4));
    assert_eq!(first(&[0xD2, 0x01, 2]), (Err(Error::TooShort), 3));
}

#[test]
fn reading_behind_the_end_is_an_error() {
    let mut r = Reader::new(&[0x66], 1);
    assert_eq!(r.next_event(), Err(Error::TooShort));
    assert_eq!(r.pos, 1);
    let mut r = Reader::new(&[0x66], usize::MAX);
    assert_eq!(r.next_event(), Err(Error::TooShort));
    assert_eq!(r.pos, usize::MAX);
}

#[test]
fn an_event_depends_on_its_own_bytes_only() {
    let a = [0x11, 0x54, 0x28, 0x4A, 0x66];
    let b = [0x99, 0x54, 0x28, 0x4A];
    let mut ra = Reader::new(&a, 1);
    let mut rb = Reader::new(&b, 1);
    assert_eq!(ra.next_event(), rb.next_event());
    assert_eq!(ra.pos, rb.pos);
}

#[test]
fn a_saved_position_replays() {
    let d = [0x62, 0x80, 0x54, 0x28, 0x4A, 0x81, 0x66];
    let mut r = Reader::new(&d, 0);
    r.next_event().unwrap();
    let (pos, dac) = (r.pos, r.dac_ptr);
    let once = [r.next_event(), r.next_event(), r.next_event(), r.next_event()];
    r.pos = pos;
    r.dac_ptr = dac;
    let twice = [r.next_event(), r.next_event(), r.next_event(), r.next_event()];
    assert_eq!(once, twice);
    // with the pointer left where it was, only the bank offsets move on
    r.pos = pos;
    assert_eq!(r.next_event(), Ok(Event::Ym2612Dac { ticks: 0, offset: 2 }));
    assert_eq!(r.next_event(), once[1]);
    assert_eq!(r.next_event(), Ok(Event::Ym2612Dac { ticks: 1, offset: 3 }));
    assert_eq!(r.next_event(), Ok(Event::End));
}

#[test]
fn scan_counts_events_and_waits() {
    let d = [0x54, 0x28, 0x4A, 0x61, 0xDF, 0x02, 0x73, 0x85, 0x66, 0x62];
    assert_eq!(scan(&d, 0), Scan { events: 4, waits: 739, end: ScanEnd::Complete });
    assert_eq!(scan(&d, 9), Scan { events: 1, waits: 735, end: ScanEnd::Failed(Error::TooShort) });
    assert_eq!(scan(&d, 10), Scan { events: 0, waits: 0, end: ScanEnd::Failed(Error::TooShort) });
}

#[test]
fn scan_reports_the_error_of_the_stream() {
    let d = [0x62, 0x63, 0x00];
    let end = ScanEnd::Failed(Error::UnknownCommand { cmd: 0, pos: 2 });
    assert_eq!(scan(&d, 0), Scan { events: 2, waits: 1617, end });
}
