//! The commands from the writer's side: how each is written down, and what
//! the reader makes of it.

use crate::bytes::{le32, lemma_field_comes_back, lemma_stands_bytewise, stands_at};
use crate::event::{Chip, Error, Event};
use crate::header::TICK_RATE;
use crate::reader::{step, Reader, Step, FRAME_50HZ, FRAME_60HZ};
use vstd::prelude::*;

verus! {

/// One command, as the format describes it.
#[allow(inconsistent_fields)]
pub enum Command {
    /// A byte for the PSG, or for the other half of a T6W28.
    Psg { second: bool, data: u8 },
    /// The Game Gear stereo mask of the first or of the second PSG.
    Stereo { second: bool, mask: u8 },
    /// A register write to the first instance of a chip.
    Write { chip: Chip, port: u8, addr: u8, data: u8 },
    /// A register write to a YM2203, which plays as an OPN.
    Ym2203 { addr: u8, data: u8 },
    /// A register write to a YM3812, which plays as an OPL.
    Ym3812 { addr: u8, data: u8 },
    /// A register write to a YM3526, which plays as an OPL.
    Ym3526 { addr: u8, data: u8 },
    /// A register write to the second instance of a chip with a short
    /// register field.
    SecondWrite { chip: Chip, addr: u8, data: u8 },
    /// A register write to the second instance of an FM chip: `mirrored` is
    /// the command for the first instance.
    SecondFm { mirrored: u8, addr: u8, data: u8 },
    /// A write to the memory of the first or of the second SegaPCM.
    SegaPcm { second: bool, offset: u16, data: u8 },
    /// A register write to the first or to the second K051649.
    Scc { second: bool, port: u8, addr: u8, data: u8 },
    /// A wait for any number of ticks.
    Wait { ticks: u16 },
    /// A wait for one frame at 60 Hz.
    Frame60,
    /// A wait for one frame at 50 Hz.
    Frame50,
    /// A wait for 1 to 16 ticks.
    ShortWait { ticks: u8 },
    /// The next byte of the DAC bank, then a wait for 0 to 15 ticks.
    DacByte { ticks: u8 },
    /// Moves the read pointer of the DAC bank.
    DacSeek { offset: u32 },
    /// A data block; `marked` is the top bit of its length field.
    Block { compat: u8, kind: u8, marked: bool, content: Seq<u8> },
    /// A DAC stream command.
    DacStream { cmd: u8, operands: Seq<u8> },
    /// A command of a chip that is not played.
    Unplayed { cmd: u8, operands: Seq<u8> },
    /// The end of the sound data.
    End,
}

/// The command byte of a register write to the first instance of `chip`.
pub open spec fn write_byte(chip: Chip, port: u8) -> Option<u8> {
    match chip {
        Chip::Ym2413 => if port == 0 { Some(0x51u8) } else { None },
        Chip::Ym2612 => if port <= 1 { Some((0x52 + port) as u8) } else { None },
        Chip::Ym2151 => if port == 0 { Some(0x54u8) } else { None },
        Chip::Opn => if port <= 1 { Some((0x56 + port) as u8) } else { None },
        Chip::Opl => if port <= 1 { Some((0x5E + port) as u8) } else { None },
        Chip::HuC6280 => if port == 0 { Some(0xB9u8) } else { None },
        _ => if port == 0 { short_write_byte(chip) } else { None },
    }
}

/// The command byte of a register write to a chip whose register field is
/// shorter than a byte.
pub open spec fn short_write_byte(chip: Chip) -> Option<u8> {
    match chip {
        Chip::Ay8910 => Some(0xA0u8),
        Chip::GbDmg => Some(0xB3u8),
        Chip::NesApu => Some(0xB4u8),
        Chip::Okim6258 => Some(0xB7u8),
        Chip::Okim6295 => Some(0xB8u8),
        Chip::K053260 => Some(0xBAu8),
        _ => None,
    }
}

/// Whether `cmd` with `count` operand bytes is a command of a chip that is not
/// played.
pub open spec fn unplayed_command(cmd: u8, count: int) -> bool {
    ||| count == 2 && (cmd == 0x58 || cmd == 0x59 || cmd == 0x5C || cmd == 0x5D)
    ||| count == 11 && cmd == 0x68
    ||| count == 2 && (0xB0 <= cmd <= 0xB2 || cmd == 0xB5 || cmd == 0xB6 || 0xBB <= cmd <= 0xBF)
    ||| count == 3 && 0xC1 <= cmd <= 0xDF && cmd != 0xD2
    ||| count == 4 && 0xE1 <= cmd
}

/// Whether `cmd` with `count` operand bytes is a DAC stream command: setup,
/// data, frequency, start, stop, fast start.
pub open spec fn dac_stream_command(cmd: u8, count: int) -> bool {
    ||| cmd == 0x90 && count == 4
    ||| cmd == 0x91 && count == 4
    ||| cmd == 0x92 && count == 5
    ||| cmd == 0x93 && count == 10
    ||| cmd == 0x94 && count == 1
    ||| cmd == 0x95 && count == 4
}

/// Whether the format gives `cmd` no meaning.
pub open spec fn undefined_command(cmd: u8) -> bool {
    ||| cmd <= 0x2F
    ||| 0x31 <= cmd <= 0x3E
    ||| 0x40 <= cmd <= 0x4E
    ||| cmd == 0x60
    ||| cmd == 0x64 || cmd == 0x65
    ||| 0x69 <= cmd <= 0x6F
    ||| 0x96 <= cmd <= 0x9F
}

impl Command {
    /// The parts of the command fit in their places.
    pub open spec fn valid(self) -> bool {
        match self {
            Command::Write { chip, port, addr, data: _ } => write_byte(chip, port) is Some && (
            short_write_byte(chip) is Some ==> addr < 0x80),
            Command::SecondWrite { chip, addr, data: _ } => short_write_byte(chip) is Some && addr
                < 0x80,
            Command::SecondFm { mirrored, .. } => 0x51 <= mirrored <= 0x5F,
            Command::SegaPcm { offset, .. } => offset < 0x8000,
            Command::Scc { port, .. } => port < 0x80,
            Command::ShortWait { ticks } => 1 <= ticks <= 16,
            Command::DacByte { ticks } => ticks <= 15,
            Command::Block { content, .. } => content.len() < 0x8000_0000,
            Command::DacStream { cmd, operands } => dac_stream_command(
                cmd,
                operands.len() as int,
            ),
            Command::Unplayed { cmd, operands } => unplayed_command(cmd, operands.len() as int),
            _ => true,
        }
    }

    /// The bytes of the command.
    pub open spec fn bytes(self) -> Seq<u8> {
        match self {
            Command::Psg { second, data } => seq![if second { 0x30u8 } else { 0x50u8 }, data],
            Command::Stereo { second, mask } => seq![if second { 0x3Fu8 } else { 0x4Fu8 }, mask],
            Command::Write { chip, port, addr, data } => seq![
                write_byte(chip, port)->0,
                addr,
                data,
            ],
            Command::Ym2203 { addr, data } => seq![0x55u8, addr, data],
            Command::Ym3812 { addr, data } => seq![0x5Au8, addr, data],
            Command::Ym3526 { addr, data } => seq![0x5Bu8, addr, data],
            Command::SecondWrite { chip, addr, data } => seq![
                short_write_byte(chip)->0,
                (0x80 + addr) as u8,
                data,
            ],
            Command::SecondFm { mirrored, addr, data } => seq![(mirrored + 0x50) as u8, addr, data],
            Command::SegaPcm { second, offset, data } => seq![
                0xC0u8,
                (offset % 0x100) as u8,
                (offset / 0x100 + if second { 0x80int } else { 0 }) as u8,
                data,
            ],
            Command::Scc { second, port, addr, data } => seq![
                0xD2u8,
                (port + if second { 0x80int } else { 0 }) as u8,
                addr,
                data,
            ],
            Command::Wait { ticks } => seq![0x61u8, (ticks % 0x100) as u8, (ticks / 0x100) as u8],
            Command::Frame60 => seq![0x62u8],
            Command::Frame50 => seq![0x63u8],
            Command::ShortWait { ticks } => seq![(0x70 + (ticks - 1)) as u8],
            Command::DacByte { ticks } => seq![(0x80 + ticks) as u8],
            Command::DacSeek { offset } => seq![
                0xE0u8,
                (offset % 0x100) as u8,
                (offset / 0x100 % 0x100) as u8,
                (offset / 0x1_0000 % 0x100) as u8,
                (offset / 0x100_0000) as u8,
            ],
            Command::Block { compat, kind, marked, content } => seq![
                0x67u8,
                compat,
                kind,
                (content.len() % 0x100) as u8,
                (content.len() / 0x100 % 0x100) as u8,
                (content.len() / 0x1_0000 % 0x100) as u8,
                (content.len() / 0x100_0000 + if marked { 0x80int } else { 0 }) as u8,
            ] + content,
            Command::DacStream { cmd, operands } => seq![cmd] + operands,
            Command::Unplayed { cmd, operands } => seq![cmd] + operands,
            Command::End => seq![0x66u8],
        }
    }

    /// What the command says, where it stands at `pos` and the DAC bank pointer
    /// is `dac_ptr`.
    pub open spec fn says(self, pos: int, dac_ptr: u32) -> Event {
        match self {
            Command::Psg { second, data } => Event::Write {
                chip: Chip::Sn76489,
                port: if second { 1 } else { 0 },
                addr: 0,
                data,
            },
            Command::Stereo { second, mask } => Event::GgStereo { chip2: second, mask },
            Command::Write { chip, port, addr, data } => Event::Write { chip, port, addr, data },
            Command::Ym2203 { addr, data } => Event::Write {
                chip: Chip::Opn,
                port: 0,
                addr,
                data,
            },
            Command::Ym3812 { addr, data } => Event::Write {
                chip: Chip::Opl,
                port: 0,
                addr,
                data,
            },
            Command::Ym3526 { addr, data } => Event::Write {
                chip: Chip::Opl,
                port: 0,
                addr,
                data,
            },
            Command::SecondWrite { chip, .. } => Event::SecondChip {
                cmd: short_write_byte(chip)->0,
            },
            Command::SecondFm { mirrored, .. } => Event::SecondChip {
                cmd: (mirrored + 0x50) as u8,
            },
            Command::SegaPcm { second, offset, data } => if second {
                Event::SecondChip { cmd: 0xC0 }
            } else {
                Event::SegaPcmWrite { offset, data }
            },
            Command::Scc { second, port, addr, data } => if second {
                Event::SecondChip { cmd: 0xD2 }
            } else {
                Event::Write { chip: Chip::K051649, port, addr, data }
            },
            Command::Wait { ticks } => Event::Wait { ticks },
            Command::Frame60 => Event::Wait { ticks: 735 },
            Command::Frame50 => Event::Wait { ticks: 882 },
            Command::ShortWait { ticks } => Event::Wait { ticks: ticks as u16 },
            Command::DacByte { ticks } => Event::Ym2612Dac { ticks, offset: dac_ptr },
            Command::DacSeek { .. } => Event::Write {
                chip: Chip::Unknown(0xE0),
                port: 0,
                addr: 0,
                data: 0,
            },
            Command::Block { kind, content, .. } => Event::DataBlock {
                kind,
                start: (pos + 7) as usize,
                len: content.len() as usize,
            },
            Command::DacStream { cmd, operands } => Event::DacStream {
                cmd,
                start: (pos + 1) as usize,
                len: operands.len() as usize,
            },
            Command::Unplayed { cmd, .. } => Event::Write {
                chip: Chip::Unknown(cmd),
                port: 0,
                addr: 0,
                data: 0,
            },
            Command::End => Event::End,
        }
    }

    /// The ticks that the command waits, where it is a wait.
    pub open spec fn ticks(self) -> int {
        match self {
            Command::Wait { ticks } => ticks as int,
            Command::Frame60 => 735,
            Command::Frame50 => 882,
            Command::ShortWait { ticks } => ticks as int,
            _ => 0,
        }
    }

    /// The DAC bank pointer behind the command.
    pub open spec fn dac_ptr_behind(self, dac_ptr: u32) -> u32 {
        match self {
            Command::DacSeek { offset } => offset,
            Command::DacByte { .. } => if dac_ptr < u32::MAX {
                (dac_ptr + 1) as u32
            } else {
                0
            },
            _ => dac_ptr,
        }
    }

    /// Where the reader is left when the buffer ends at `end`, inside this
    /// command at `pos`. Most commands are read byte by byte up to the end.
    /// Operands that are only skipped, and the fields and the content of a data
    /// block, are taken as a whole or not at all.
    pub open spec fn stuck_at(self, pos: int, end: int) -> int {
        match self {
            Command::SecondFm { .. }
            | Command::DacSeek { .. }
            | Command::DacStream { .. }
            | Command::Unplayed { .. } => if end == pos { pos } else { pos + 1 },
            Command::Block { .. } => if end < pos + 3 {
                end
            } else if end < pos + 7 {
                pos + 3
            } else {
                pos + 7
            },
            _ => end,
        }
    }
}

/// At `pos` of `d` the command `c` is read, in terms of [`step`].
spec fn is_read(d: Seq<u8>, pos: int, dac_ptr: u32, c: Command) -> bool {
    step(d, pos, dac_ptr) == (Step {
        outcome: Ok(c.says(pos, dac_ptr)),
        pos: pos + c.bytes().len(),
        dac_ptr: c.dac_ptr_behind(dac_ptr),
    })
}

// One lemma for each form that a command can have.

proof fn lemma_two_bytes_are_read(d: Seq<u8>, pos: int, dac_ptr: u32, c: Command)
    requires
        c.valid(),
        stands_at(d, pos, c.bytes()),
        c is Psg || c is Stereo,
    ensures
        is_read(d, pos, dac_ptr, c),
{
    let b = c.bytes();
    lemma_stands_bytewise(d, pos, b);
    assert(d[pos + 0] == b[0] && d[pos + 1] == b[1]);
}

proof fn lemma_write_is_read(d: Seq<u8>, pos: int, dac_ptr: u32, c: Command)
    requires
        c.valid(),
        stands_at(d, pos, c.bytes()),
        c is Write,
    ensures
        is_read(d, pos, dac_ptr, c),
{
    let b = c.bytes();
    lemma_stands_bytewise(d, pos, b);
    assert(d[pos + 0] == b[0] && d[pos + 1] == b[1] && d[pos + 2] == b[2]);
}

proof fn lemma_other_write_is_read(d: Seq<u8>, pos: int, dac_ptr: u32, c: Command)
    requires
        c.valid(),
        stands_at(d, pos, c.bytes()),
        c is Ym2203 || c is Ym3812 || c is Ym3526,
    ensures
        is_read(d, pos, dac_ptr, c),
{
    let b = c.bytes();
    lemma_stands_bytewise(d, pos, b);
    assert(d[pos + 0] == b[0] && d[pos + 1] == b[1] && d[pos + 2] == b[2]);
}

proof fn lemma_second_write_is_read(d: Seq<u8>, pos: int, dac_ptr: u32, c: Command)
    requires
        c.valid(),
        stands_at(d, pos, c.bytes()),
        c is SecondWrite || c is SecondFm,
    ensures
        is_read(d, pos, dac_ptr, c),
{
    let b = c.bytes();
    lemma_stands_bytewise(d, pos, b);
    assert(d[pos + 0] == b[0] && d[pos + 1] == b[1] && d[pos + 2] == b[2]);
}

proof fn lemma_wide_write_is_read(d: Seq<u8>, pos: int, dac_ptr: u32, c: Command)
    requires
        c.valid(),
        stands_at(d, pos, c.bytes()),
        c is SegaPcm || c is Scc,
    ensures
        is_read(d, pos, dac_ptr, c),
{
    let b = c.bytes();
    lemma_stands_bytewise(d, pos, b);
    assert(d[pos + 0] == b[0] && d[pos + 1] == b[1] && d[pos + 2] == b[2] && d[pos + 3] == b[3]);
}

proof fn lemma_wait_is_read(d: Seq<u8>, pos: int, dac_ptr: u32, c: Command)
    requires
        c.valid(),
        stands_at(d, pos, c.bytes()),
        c is Wait,
    ensures
        is_read(d, pos, dac_ptr, c),
{
    let b = c.bytes();
    lemma_stands_bytewise(d, pos, b);
    assert(d[pos + 0] == b[0] && d[pos + 1] == b[1] && d[pos + 2] == b[2]);
}

proof fn lemma_single_byte_is_read(d: Seq<u8>, pos: int, dac_ptr: u32, c: Command)
    requires
        c.valid(),
        stands_at(d, pos, c.bytes()),
        c is Frame60 || c is Frame50 || c is ShortWait || c is DacByte || c is End,
    ensures
        is_read(d, pos, dac_ptr, c),
{
    let b = c.bytes();
    lemma_stands_bytewise(d, pos, b);
    assert(d[pos + 0] == b[0]);
}

proof fn lemma_seek_is_read(d: Seq<u8>, pos: int, dac_ptr: u32, c: Command)
    requires
        c.valid(),
        stands_at(d, pos, c.bytes()),
        c is DacSeek,
    ensures
        is_read(d, pos, dac_ptr, c),
{
    let b = c.bytes();
    lemma_stands_bytewise(d, pos, b);
    assert(d[pos + 0] == b[0] && d[pos + 1] == b[1] && d[pos + 2] == b[2] && d[pos + 3] == b[3]
        && d[pos + 4] == b[4]);
}

proof fn lemma_block_is_read(d: Seq<u8>, pos: int, dac_ptr: u32, c: Command)
    requires
        c.valid(),
        stands_at(d, pos, c.bytes()),
        c is Block,
    ensures
        is_read(d, pos, dac_ptr, c),
{
    let b = c.bytes();
    lemma_stands_bytewise(d, pos, b);
    assert(d[pos + 0] == b[0] && d[pos + 2] == b[2]);
    assert(d[pos + 3] == b[3] && d[pos + 4] == b[4] && d[pos + 5] == b[5] && d[pos + 6] == b[6]);
    if let Command::Block { compat: _, kind, marked, content } = c {
        assert(d[pos] == 0x67 && d[pos + 2] == kind);
        lemma_block_length(d, pos + 3, content.len(), marked);
        assert(b.len() == 7 + content.len());
    }
}

/// The length field of a data block gives the length back, without its top bit.
proof fn lemma_block_length(d: Seq<u8>, at: int, len: nat, marked: bool)
    requires
        len < 0x8000_0000,
        d[at] == len % 0x100,
        d[at + 1] == len / 0x100 % 0x100,
        d[at + 2] == len / 0x1_0000 % 0x100,
        d[at + 3] == len / 0x100_0000 + if marked { 0x80int } else { 0 },
    ensures
        le32(d, at) % 0x8000_0000 == len,
{
    assert(le32(d, at) == len + if marked { 0x8000_0000int } else { 0 });
}

proof fn lemma_skipped_operands_are_read(d: Seq<u8>, pos: int, dac_ptr: u32, c: Command)
    requires
        c.valid(),
        stands_at(d, pos, c.bytes()),
        c is DacStream || c is Unplayed,
    ensures
        is_read(d, pos, dac_ptr, c),
{
    let b = c.bytes();
    lemma_stands_bytewise(d, pos, b);
    assert(d[pos + 0] == b[0]);
}

/// What reading a command gives, in terms of [`step`].
pub proof fn lemma_step_of_command(d: Seq<u8>, pos: int, dac_ptr: u32, c: Command)
    requires
        c.valid(),
        stands_at(d, pos, c.bytes()),
    ensures
        step(d, pos, dac_ptr) == (Step {
            outcome: Ok(c.says(pos, dac_ptr)),
            pos: pos + c.bytes().len(),
            dac_ptr: c.dac_ptr_behind(dac_ptr),
        }),
{
    assert(is_read(d, pos, dac_ptr, c)) by {
        match c {
            Command::Psg { .. } | Command::Stereo { .. } => lemma_two_bytes_are_read(
                d,
                pos,
                dac_ptr,
                c,
            ),
            Command::Write { .. } => lemma_write_is_read(d, pos, dac_ptr, c),
            Command::Ym2203 { .. }
            | Command::Ym3812 { .. }
            | Command::Ym3526 { .. } => lemma_other_write_is_read(d, pos, dac_ptr, c),
            Command::SecondWrite { .. } | Command::SecondFm { .. } => lemma_second_write_is_read(
                d,
                pos,
                dac_ptr,
                c,
            ),
            Command::SegaPcm { .. } | Command::Scc { .. } => lemma_wide_write_is_read(
                d,
                pos,
                dac_ptr,
                c,
            ),
            Command::Wait { .. } => lemma_wait_is_read(d, pos, dac_ptr, c),
            Command::DacSeek { .. } => lemma_seek_is_read(d, pos, dac_ptr, c),
            Command::Block { .. } => lemma_block_is_read(d, pos, dac_ptr, c),
            Command::DacStream { .. } | Command::Unplayed { .. } => lemma_skipped_operands_are_read(
                d,
                pos,
                dac_ptr,
                c,
            ),
            _ => lemma_single_byte_is_read(d, pos, dac_ptr, c),
        }
    }
}

/// Every command comes back: where it stands, at any position and whatever
/// stands before and behind it, [`Reader::next_event`] gives what it says and
/// moves right behind it.
pub proof fn lemma_command_comes_back<'a>(
    reader: &mut Reader<'a>,
    r: Result<Event, Error>,
    c: Command,
)
    requires
        call_ensures(Reader::next_event, (reader,), r),
        c.valid(),
        stands_at(old(reader).data@, old(reader).pos as int, c.bytes()),
    ensures
        r == Ok::<Event, Error>(c.says(old(reader).pos as int, old(reader).dac_ptr)),
        final(reader).pos == old(reader).pos + c.bytes().len(),
        final(reader).dac_ptr == c.dac_ptr_behind(old(reader).dac_ptr),
        final(reader).data@ == old(reader).data@,
{
    lemma_step_of_command(old(reader).data@, old(reader).pos as int, old(reader).dac_ptr, c);
}

/// A wait lasts as long as it says: 0x61 for any number of ticks, low byte first,
/// 0x62 and 0x63 for a frame, and 0x70 to 0x7F for 1 to 16 ticks.
pub proof fn lemma_wait_lasts_as_written<'a>(
    reader: &mut Reader<'a>,
    r: Result<Event, Error>,
    n: u16,
)
    requires
        call_ensures(Reader::next_event, (reader,), r),
        old(reader).pos < old(reader).data@.len(),
    ensures
        ({
            let d = old(reader).data@;
            let pos = old(reader).pos as int;
            let waits = r == Ok::<Event, Error>(Event::Wait { ticks: n });
            &&& pos + 3 <= d.len() && d[pos] == 0x61 && d[pos + 1] == n % 256 && d[pos + 2] == n
                / 256 ==> waits && final(reader).pos == pos + 3
            &&& d[pos] == 0x62 && n == 735 ==> waits && final(reader).pos == pos + 1
            &&& d[pos] == 0x63 && n == 882 ==> waits && final(reader).pos == pos + 1
            &&& 1 <= n <= 16 && d[pos] == 0x70 + (n - 1) ==> waits && final(reader).pos == pos + 1
        }),
{
}

/// The command `c` stands in `d` at `pos`, but the buffer ends inside it.
pub open spec fn cut_off(d: Seq<u8>, pos: int, c: Command) -> bool {
    &&& c.valid()
    &&& 0 <= pos <= d.len() < pos + c.bytes().len()
    &&& d.skip(pos) == c.bytes().take(d.len() - pos)
}

/// What reading a command gives whose end is missing, in terms of [`step`].
#[verifier::rlimit(40)]
pub proof fn lemma_step_of_cut_command(d: Seq<u8>, pos: int, dac_ptr: u32, c: Command)
    requires
        cut_off(d, pos, c),
    ensures
        step(d, pos, dac_ptr) == (Step {
            outcome: Err(Error::TooShort),
            pos: c.stuck_at(pos, d.len() as int),
            dac_ptr,
        }),
{
    let b = c.bytes();
    assert forall|i: int| 0 <= i < d.len() - pos implies d[pos + i] == #[trigger] b[i] by {
        assert(d.skip(pos)[i] == b.take(d.len() - pos)[i]);
    }
    if pos < d.len() {
        assert(d[pos + 0] == b[0]);
        if c is Block && pos + 7 <= d.len() {
            assert(d[pos + 3] == b[3] && d[pos + 4] == b[4] && d[pos + 5] == b[5] && d[pos + 6]
                == b[6]);
            if let Command::Block { compat: _, kind: _, marked, content } = c {
                lemma_block_length(d, pos + 3, content.len(), marked);
            }
        }
    }
}

/// A command whose end is missing is refused: [`Reader::next_event`] answers
/// [`Error::TooShort`], and leaves the DAC bank pointer alone.
pub proof fn lemma_cut_command_is_refused<'a>(
    reader: &mut Reader<'a>,
    r: Result<Event, Error>,
    c: Command,
)
    requires
        call_ensures(Reader::next_event, (reader,), r),
        cut_off(old(reader).data@, old(reader).pos as int, c),
    ensures
        r == Err::<Event, Error>(Error::TooShort),
        final(reader).pos == c.stuck_at(old(reader).pos as int, old(reader).data@.len() as int),
        final(reader).dac_ptr == old(reader).dac_ptr,
        final(reader).data@ == old(reader).data@,
{
    lemma_step_of_cut_command(old(reader).data@, old(reader).pos as int, old(reader).dac_ptr, c);
}

/// Behind the end of the buffer there is nothing to read, and nothing moves. A
/// byte that the format gives no meaning is refused by its value and its place;
/// the reader is then right behind it.
pub proof fn lemma_nothing_to_read<'a>(reader: &mut Reader<'a>, r: Result<Event, Error>)
    requires
        call_ensures(Reader::next_event, (reader,), r),
    ensures
        ({
            let d = old(reader).data@;
            let pos = old(reader).pos;
            &&& final(reader).data@ == d
            &&& pos >= d.len() ==> {
                &&& r == Err::<Event, Error>(Error::TooShort)
                &&& final(reader).pos == pos
                &&& final(reader).dac_ptr == old(reader).dac_ptr
            }
            &&& pos < d.len() && undefined_command(d[pos as int]) ==> {
                &&& r == Err::<Event, Error>(
                    Error::UnknownCommand { cmd: d[pos as int], pos },
                )
                &&& final(reader).pos == pos + 1
                &&& final(reader).dac_ptr == old(reader).dac_ptr
            }
        }),
{
}

/// The command that the bytes from `pos` on are, where they are one.
spec fn command_at(d: Seq<u8>, pos: int) -> Command {
    let cmd = d[pos];
    let a = d[pos + 1];
    let b = d[pos + 2];
    if cmd == 0x50 || cmd == 0x30 {
        Command::Psg { second: cmd == 0x30, data: a }
    } else if cmd == 0x4F || cmd == 0x3F {
        Command::Stereo { second: cmd == 0x3F, mask: a }
    } else if cmd == 0x51 {
        Command::Write { chip: Chip::Ym2413, port: 0, addr: a, data: b }
    } else if cmd == 0x52 || cmd == 0x53 {
        Command::Write { chip: Chip::Ym2612, port: (cmd - 0x52) as u8, addr: a, data: b }
    } else if cmd == 0x54 {
        Command::Write { chip: Chip::Ym2151, port: 0, addr: a, data: b }
    } else if cmd == 0x55 {
        Command::Ym2203 { addr: a, data: b }
    } else if cmd == 0x56 || cmd == 0x57 {
        Command::Write { chip: Chip::Opn, port: (cmd - 0x56) as u8, addr: a, data: b }
    } else if cmd == 0x5A {
        Command::Ym3812 { addr: a, data: b }
    } else if cmd == 0x5B {
        Command::Ym3526 { addr: a, data: b }
    } else if cmd == 0x5E || cmd == 0x5F {
        Command::Write { chip: Chip::Opl, port: (cmd - 0x5E) as u8, addr: a, data: b }
    } else if cmd == 0xB9 {
        Command::Write { chip: Chip::HuC6280, port: 0, addr: a, data: b }
    } else if short_chip(cmd) is Some {
        let chip = short_chip(cmd)->0;
        if a >= 0x80 {
            Command::SecondWrite { chip, addr: (a - 0x80) as u8, data: b }
        } else {
            Command::Write { chip, port: 0, addr: a, data: b }
        }
    } else if 0xA1 <= cmd <= 0xAF {
        Command::SecondFm { mirrored: (cmd - 0x50) as u8, addr: a, data: b }
    } else if cmd == 0xC0 {
        Command::SegaPcm {
            second: b >= 0x80,
            offset: (a + 0x100 * (b as int % 0x80)) as u16,
            data: d[pos + 3],
        }
    } else if cmd == 0xD2 {
        Command::Scc { second: a >= 0x80, port: (a as int % 0x80) as u8, addr: b, data: d[pos + 3] }
    } else if cmd == 0x61 {
        Command::Wait { ticks: (a + 0x100 * b) as u16 }
    } else if cmd == 0x62 {
        Command::Frame60
    } else if cmd == 0x63 {
        Command::Frame50
    } else if cmd == 0x66 {
        Command::End
    } else if 0x70 <= cmd <= 0x7F {
        Command::ShortWait { ticks: (cmd - 0x6F) as u8 }
    } else if 0x80 <= cmd <= 0x8F {
        Command::DacByte { ticks: (cmd - 0x80) as u8 }
    } else if cmd == 0xE0 {
        Command::DacSeek { offset: le32(d, pos + 1) as u32 }
    } else if cmd == 0x67 {
        Command::Block {
            compat: a,
            kind: b,
            marked: d[pos + 6] >= 0x80,
            content: d.subrange(pos + 7, pos + 7 + le32(d, pos + 3) % 0x8000_0000),
        }
    } else if 0x90 <= cmd <= 0x95 {
        Command::DacStream { cmd, operands: d.subrange(pos + 1, step(d, pos, 0).pos) }
    } else {
        Command::Unplayed { cmd, operands: d.subrange(pos + 1, step(d, pos, 0).pos) }
    }
}

/// The chip with a short register field that `cmd` writes to.
spec fn short_chip(cmd: u8) -> Option<Chip> {
    if cmd == 0xA0 {
        Some(Chip::Ay8910)
    } else if cmd == 0xB3 {
        Some(Chip::GbDmg)
    } else if cmd == 0xB4 {
        Some(Chip::NesApu)
    } else if cmd == 0xB7 {
        Some(Chip::Okim6258)
    } else if cmd == 0xB8 {
        Some(Chip::Okim6295)
    } else if cmd == 0xBA {
        Some(Chip::K053260)
    } else {
        None
    }
}

/// Nothing but a command is read: what [`Reader::next_event`] gives is what
/// some command says, and this command is what stands there.
pub proof fn lemma_only_commands_are_read<'a>(reader: &mut Reader<'a>, r: Result<Event, Error>)
    requires
        call_ensures(Reader::next_event, (reader,), r),
    ensures
        r matches Ok(ev) ==> exists|c: Command|
            c.valid() && stands_at(
                old(reader).data@,
                old(reader).pos as int,
                #[trigger] c.bytes(),
            ) && ev == c.says(old(reader).pos as int, old(reader).dac_ptr),
{
    let d = old(reader).data@;
    let pos = old(reader).pos as int;
    if r is Ok {
        let c = command_at(d, pos);
        lemma_command_stands(d, pos);
        lemma_step_of_command(d, pos, old(reader).dac_ptr, c);
        assert(stands_at(d, pos, c.bytes()));
    }
}

proof fn lemma_chip_command_stands(d: Seq<u8>, pos: int)
    requires
        0 <= pos < d.len(),
        d[pos] <= 0x5F,
        step(d, pos, 0).outcome is Ok,
    ensures
        command_at(d, pos).valid(),
        stands_at(d, pos, command_at(d, pos).bytes()),
{
    let b = command_at(d, pos).bytes();
    assert(d.subrange(pos, pos + b.len()) =~= b);
}

proof fn lemma_timing_command_stands(d: Seq<u8>, pos: int)
    requires
        0 <= pos < d.len(),
        0x60 <= d[pos] <= 0x8F && d[pos] != 0x67,
        step(d, pos, 0).outcome is Ok,
    ensures
        command_at(d, pos).valid(),
        stands_at(d, pos, command_at(d, pos).bytes()),
{
    let b = command_at(d, pos).bytes();
    assert(d.subrange(pos, pos + b.len()) =~= b);
}

/// The length field of a data block is its length, and a bit at the top.
proof fn lemma_length_field(d: Seq<u8>, at: int)
    ensures
        ({
            let len = le32(d, at) % 0x8000_0000;
            &&& 0 <= len
            &&& d[at] == len % 0x100
            &&& d[at + 1] == len / 0x100 % 0x100
            &&& d[at + 2] == len / 0x1_0000 % 0x100
            &&& d[at + 3] == len / 0x100_0000 + if d[at + 3] >= 0x80 { 0x80int } else { 0 }
        }),
{
    let top = d[at + 3] as int;
    let low = le32(d, at) - 0x100_0000 * top;
    assert(0 <= low < 0x100_0000);
    if top >= 0x80 {
        lemma_split_length(d, at, low + 0x100_0000 * (top - 0x80));
        assert(le32(d, at) % 0x8000_0000 == low + 0x100_0000 * (top - 0x80));
    } else {
        lemma_split_length(d, at, low + 0x100_0000 * top);
        assert(le32(d, at) % 0x8000_0000 == low + 0x100_0000 * top);
    }
}

/// The lower three bytes of a number are those of the field that it differs from
/// by a multiple of 2^24.
proof fn lemma_split_length(d: Seq<u8>, at: int, len: int)
    requires
        0 <= len,
        len % 0x100_0000 == d[at] + 0x100 * d[at + 1] + 0x1_0000 * d[at + 2],
    ensures
        d[at] == len % 0x100,
        d[at + 1] == len / 0x100 % 0x100,
        d[at + 2] == len / 0x1_0000 % 0x100,
{
    let top = len / 0x100_0000;
    assert(len == 0x100_0000 * top + d[at] + 0x100 * d[at + 1] + 0x1_0000 * d[at + 2]);
    assert(len / 0x100 == 0x1_0000 * top + d[at + 1] + 0x100 * d[at + 2]);
    assert(len / 0x1_0000 == 0x100 * top + d[at + 2]);
}

proof fn lemma_block_stands(d: Seq<u8>, pos: int)
    requires
        0 <= pos < d.len(),
        d[pos] == 0x67,
        step(d, pos, 0).outcome is Ok,
    ensures
        command_at(d, pos).valid(),
        stands_at(d, pos, command_at(d, pos).bytes()),
{
    let c = command_at(d, pos);
    let b = c.bytes();
    let len = le32(d, pos + 3) % 0x8000_0000;
    lemma_length_field(d, pos + 3);
    assert(c->content.len() == len);
    assert forall|i: int| 0 <= i < b.len() implies d.subrange(pos, pos + b.len())[i] == b[i] by {
        if i >= 7 {
            assert(b[i] == c->content[i - 7]);
        }
    }
    assert(d.subrange(pos, pos + b.len()) =~= b);
}

proof fn lemma_stream_command_stands(d: Seq<u8>, pos: int)
    requires
        0 <= pos < d.len(),
        0x90 <= d[pos] <= 0x9F,
        step(d, pos, 0).outcome is Ok,
    ensures
        command_at(d, pos).valid(),
        stands_at(d, pos, command_at(d, pos).bytes()),
{
    let b = command_at(d, pos).bytes();
    assert(d.subrange(pos, pos + b.len()) =~= b);
}

proof fn lemma_short_write_stands(d: Seq<u8>, pos: int)
    requires
        0 <= pos < d.len(),
        0xA0 <= d[pos] <= 0xBF,
        step(d, pos, 0).outcome is Ok,
    ensures
        command_at(d, pos).valid(),
        stands_at(d, pos, command_at(d, pos).bytes()),
{
    let b = command_at(d, pos).bytes();
    assert(d.subrange(pos, pos + b.len()) =~= b);
}

proof fn lemma_long_command_stands(d: Seq<u8>, pos: int)
    requires
        0 <= pos < d.len(),
        0xC0 <= d[pos],
        step(d, pos, 0).outcome is Ok,
    ensures
        command_at(d, pos).valid(),
        stands_at(d, pos, command_at(d, pos).bytes()),
{
    let cmd = d[pos];
    let b = command_at(d, pos).bytes();
    if cmd == 0xE0 {
        lemma_field_comes_back(d, pos + 1, le32(d, pos + 1));
        assert(d.subrange(pos, pos + b.len()) =~= b);
    } else if cmd == 0xC0 || cmd == 0xD2 {
        assert(d.subrange(pos, pos + b.len()) =~= b);
    } else {
        assert(d.subrange(pos, pos + b.len()) =~= b);
    }
}

/// Where [`step`] gives an event, a command stands.
proof fn lemma_command_stands(d: Seq<u8>, pos: int)
    requires
        0 <= pos,
        step(d, pos, 0).outcome is Ok,
    ensures
        command_at(d, pos).valid(),
        stands_at(d, pos, command_at(d, pos).bytes()),
{
    let cmd = d[pos];
    if cmd <= 0x5F {
        lemma_chip_command_stands(d, pos);
    } else if cmd == 0x67 {
        lemma_block_stands(d, pos);
    } else if cmd <= 0x8F {
        lemma_timing_command_stands(d, pos);
    } else if cmd <= 0x9F {
        lemma_stream_command_stands(d, pos);
    } else if cmd <= 0xBF {
        lemma_short_write_stands(d, pos);
    } else {
        lemma_long_command_stands(d, pos);
    }
}

/// A fresh reader begins with the command at the position it was given, and with
/// the first byte of the DAC bank.
pub proof fn lemma_fresh_reader_starts<'a>(
    data: &'a [u8],
    start: usize,
    reader: &mut Reader<'a>,
    r: Result<Event, Error>,
    c: Command,
)
    requires
        call_ensures(Reader::new, (data, start), *old(reader)),
        call_ensures(Reader::next_event, (reader,), r),
        c.valid(),
        stands_at(data@, start as int, c.bytes()),
    ensures
        r == Ok::<Event, Error>(c.says(start as int, 0)),
        final(reader).pos == start + c.bytes().len(),
{
    lemma_step_of_command(data@, start as int, 0, c);
}

/// A second is 44100 ticks: 60 frames at 60 Hz, or 50 frames at 50 Hz.
pub proof fn lemma_frames_make_a_second()
    ensures
        TICK_RATE == 44100,
        60 * FRAME_60HZ == TICK_RATE,
        50 * FRAME_50HZ == TICK_RATE,
{
}

} // verus!
