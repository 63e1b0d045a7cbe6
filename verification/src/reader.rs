//! The command stream: one command in, one [`Event`] out.

use crate::bytes::{le16, le32, rd32};
use crate::event::{Chip, Error, Event};
use vstd::prelude::*;

verus! {

/// Ticks of a wait for one frame at 60 Hz (command 0x62).
pub const FRAME_60HZ: u16 = 735;

/// Ticks of a wait for one frame at 50 Hz (command 0x63).
pub const FRAME_50HZ: u16 = 882;

/// Operand bytes of the DAC stream commands 0x90-0x95.
pub const DAC_STREAM_LEN: [usize; 6] = [4, 4, 5, 10, 1, 4];

/// What reading one command gives: the event or the error, the position
/// afterwards and the DAC bank pointer afterwards.
pub struct Step {
    pub outcome: Result<Event, Error>,
    pub pos: int,
    pub dac_ptr: u32,
}

/// How many operand bytes follow the command byte `cmd`; `None` where `cmd`
/// is no command. The data block command 0x67 carries its own length and is
/// not listed here.
pub open spec fn operand_count(cmd: u8) -> Option<int> {
    if cmd == 0x30 || cmd == 0x3F || cmd == 0x4F || cmd == 0x50 {
        Some(1)
    } else if 0x51 <= cmd <= 0x5F || cmd == 0x61 {
        Some(2)
    } else if cmd == 0x62 || cmd == 0x63 || cmd == 0x66 || 0x70 <= cmd <= 0x8F {
        Some(0)
    } else if cmd == 0x68 {
        Some(11)
    } else if 0x90 <= cmd <= 0x95 {
        Some(DAC_STREAM_LEN[cmd - 0x90] as int)
    } else if 0xA0 <= cmd <= 0xBF {
        Some(2)
    } else if 0xC0 <= cmd <= 0xDF {
        Some(3)
    } else if 0xE0 <= cmd {
        Some(4)
    } else {
        None
    }
}

/// Whether the operands of `cmd` are fetched byte by byte. When the buffer
/// ends inside such a command, the bytes that are there have been consumed;
/// any other command is then left right behind its command byte.
pub open spec fn fetched_bytewise(cmd: u8) -> bool {
    ||| cmd == 0x30 || cmd == 0x3F || cmd == 0x4F || cmd == 0x50 || cmd == 0x61
    ||| first_chip_write(cmd) is Some
    ||| short_field_chip(cmd) is Some
    ||| cmd == 0xC0 || cmd == 0xD2
}

/// The chip and register bank that a plain two-byte write (register, data)
/// goes to.
pub open spec fn first_chip_write(cmd: u8) -> Option<(Chip, u8)> {
    if cmd == 0x51 {
        Some((Chip::Ym2413, 0))
    } else if cmd == 0x52 {
        Some((Chip::Ym2612, 0))
    } else if cmd == 0x53 {
        Some((Chip::Ym2612, 1))
    } else if cmd == 0x54 {
        Some((Chip::Ym2151, 0))
    } else if cmd == 0x55 || cmd == 0x56 {
        Some((Chip::Opn, 0))
    } else if cmd == 0x57 {
        Some((Chip::Opn, 1))
    } else if cmd == 0x5A || cmd == 0x5B || cmd == 0x5E {
        Some((Chip::Opl, 0))
    } else if cmd == 0x5F {
        Some((Chip::Opl, 1))
    } else if cmd == 0xB9 {
        Some((Chip::HuC6280, 0))
    } else {
        None
    }
}

/// The chip of a two-byte write whose register field is shorter than a byte:
/// there bit 7 of the register byte selects the second instance of the chip.
pub open spec fn short_field_chip(cmd: u8) -> Option<Chip> {
    if cmd == 0xA0 {
        Some(Chip::Ay8910)
    } else if cmd == 0xB3 {
        Some(Chip::GbDmg)
    } else if cmd == 0xB4 {
        Some(Chip::NesApu)
    } else if cmd == 0xB7 {
        Some(Chip::Okim6258)
    } else if cmd == 0xB8 {
        Some(Chip::Okim6295)
    } else if cmd == 0xBA {
        Some(Chip::K053260)
    } else {
        None
    }
}

/// The event of a command that carries a write nobody plays.
pub open spec fn unplayed(cmd: u8) -> Event {
    Event::Write { chip: Chip::Unknown(cmd), port: 0, addr: 0, data: 0 }
}

/// The event of `cmd`, whose operands all lie in `d` from `at` on, when the
/// DAC bank pointer is `dac_ptr`.
pub open spec fn event_of(cmd: u8, d: Seq<u8>, at: int, dac_ptr: u32) -> Event {
    if cmd == 0x50 {
        Event::Write { chip: Chip::Sn76489, port: 0, addr: 0, data: d[at] }
    } else if cmd == 0x30 {
        Event::Write { chip: Chip::Sn76489, port: 1, addr: 0, data: d[at] }
    } else if cmd == 0x4F || cmd == 0x3F {
        Event::GgStereo { chip2: cmd == 0x3F, mask: d[at] }
    } else if first_chip_write(cmd) is Some {
        let (chip, port) = first_chip_write(cmd)->0;
        Event::Write { chip, port, addr: d[at], data: d[at + 1] }
    } else if short_field_chip(cmd) is Some {
        if d[at] >= 0x80 {
            Event::SecondChip { cmd }
        } else {
            Event::Write {
                chip: short_field_chip(cmd)->0,
                port: 0,
                addr: d[at],
                data: d[at + 1],
            }
        }
    } else if 0xA1 <= cmd <= 0xAF {
        Event::SecondChip { cmd }
    } else if cmd == 0x61 {
        Event::Wait { ticks: le16(d, at) as u16 }
    } else if cmd == 0x62 {
        Event::Wait { ticks: FRAME_60HZ }
    } else if cmd == 0x63 {
        Event::Wait { ticks: FRAME_50HZ }
    } else if cmd == 0x66 {
        Event::End
    } else if 0x70 <= cmd <= 0x7F {
        Event::Wait { ticks: (cmd - 0x6F) as u16 }
    } else if 0x80 <= cmd <= 0x8F {
        Event::Ym2612Dac { ticks: (cmd - 0x80) as u8, offset: dac_ptr }
    } else if 0x90 <= cmd <= 0x95 {
        Event::DacStream { cmd, start: at as usize, len: DAC_STREAM_LEN[cmd - 0x90] }
    } else if cmd == 0xC0 {
        if d[at + 1] >= 0x80 {
            Event::SecondChip { cmd }
        } else {
            Event::SegaPcmWrite { offset: le16(d, at) as u16, data: d[at + 2] }
        }
    } else if cmd == 0xD2 {
        if d[at] >= 0x80 {
            Event::SecondChip { cmd }
        } else {
            Event::Write { chip: Chip::K051649, port: d[at], addr: d[at + 1], data: d[at + 2] }
        }
    } else {
        unplayed(cmd)
    }
}

/// The DAC bank pointer after `cmd`: 0xE0 sets it, 0x80-0x8F move it on by
/// one byte (from the last 32-bit offset back to the first).
pub open spec fn dac_ptr_after(cmd: u8, d: Seq<u8>, at: int, dac_ptr: u32) -> u32 {
    if cmd == 0xE0 {
        le32(d, at) as u32
    } else if 0x80 <= cmd <= 0x8F {
        if dac_ptr == u32::MAX {
            0
        } else {
            (dac_ptr + 1) as u32
        }
    } else {
        dac_ptr
    }
}

/// Reading a data block whose command byte stands right before `at`: a
/// compatibility byte, the type, a 31-bit length and that many bytes.
pub open spec fn data_block_step(d: Seq<u8>, at: int, dac_ptr: u32) -> Step {
    let len = le32(d, at + 2) % 0x8000_0000;
    if at + 2 > d.len() {
        Step { outcome: Err(Error::TooShort), pos: d.len() as int, dac_ptr }
    } else if at + 6 > d.len() {
        Step { outcome: Err(Error::TooShort), pos: at + 2, dac_ptr }
    } else if at + 6 + len > d.len() {
        Step { outcome: Err(Error::TooShort), pos: at + 6, dac_ptr }
    } else {
        Step {
            outcome: Ok(
                Event::DataBlock { kind: d[at + 1], start: (at + 6) as usize, len: len as usize },
            ),
            pos: at + 6 + len,
            dac_ptr,
        }
    }
}

/// Reading the command at `pos` of `d` with the DAC bank pointer at `dac_ptr`.
pub open spec fn step(d: Seq<u8>, pos: int, dac_ptr: u32) -> Step {
    let cmd = d[pos];
    let at = pos + 1;
    if pos >= d.len() {
        Step { outcome: Err(Error::TooShort), pos, dac_ptr }
    } else if cmd == 0x67 {
        data_block_step(d, at, dac_ptr)
    } else {
        match operand_count(cmd) {
            None => Step {
                outcome: Err(Error::UnknownCommand { cmd, pos: pos as usize }),
                pos: at,
                dac_ptr,
            },
            Some(n) => if at + n <= d.len() {
                Step {
                    outcome: Ok(event_of(cmd, d, at, dac_ptr)),
                    pos: at + n,
                    dac_ptr: dac_ptr_after(cmd, d, at, dac_ptr),
                }
            } else {
                Step {
                    outcome: Err(Error::TooShort),
                    pos: if fetched_bytewise(cmd) {
                        d.len() as int
                    } else {
                        at
                    },
                    dac_ptr,
                }
            },
        }
    }
}

/// A cursor over the commands of a VGM buffer. It does not own the data, and
/// its position can be saved and put back (that is how a loop is played).
pub struct Reader<'a> {
    /// The whole buffer.
    pub data: &'a [u8],
    /// Where the next command starts.
    pub pos: usize,
    /// Read pointer into the YM2612 DAC bank (moved by 0x80-0x8F, set by 0xE0).
    pub dac_ptr: u32,
}

impl<'a> Reader<'a> {
    /// A reader of `data` that starts at `start`.
    pub fn new(data: &'a [u8], start: usize) -> (r: Reader<'a>)
        ensures
            r.data@ == data@,
            r.pos == start,
            r.dac_ptr == 0,
    {
        Reader { data, pos: start, dac_ptr: 0 }
    }

    /// Takes one byte.
    fn u8(&mut self) -> (r: Result<u8, Error>)
        ensures
            final(self).data@ == old(self).data@,
            final(self).dac_ptr == old(self).dac_ptr,
            old(self).pos < old(self).data@.len() ==> r == Ok::<u8, Error>(
                old(self).data@[old(self).pos as int],
            ) && final(self).pos == old(self).pos + 1,
            old(self).pos >= old(self).data@.len() ==> r == Err::<u8, Error>(Error::TooShort)
                && final(self).pos == old(self).pos,
    {
        if self.pos >= self.data.len() {
            return Err(Error::TooShort);
        }
        let b: u8 = self.data[self.pos];
        self.pos = self.pos + 1;
        Ok(b)
    }

    /// Takes a 16-bit number, byte by byte.
    fn u16(&mut self) -> (r: Result<u16, Error>)
        ensures
            final(self).data@ == old(self).data@,
            final(self).dac_ptr == old(self).dac_ptr,
            old(self).pos + 2 <= old(self).data@.len() ==> r == Ok::<u16, Error>(
                le16(old(self).data@, old(self).pos as int) as u16,
            ) && final(self).pos == old(self).pos + 2,
            old(self).pos + 2 > old(self).data@.len() ==> r == Err::<u16, Error>(Error::TooShort)
                && final(self).pos == (if old(self).pos <= old(self).data@.len() {
                    old(self).data@.len() as int
                } else {
                    old(self).pos as int
                }),
    {
        let lo: u8 = self.u8()?;
        let hi: u8 = self.u8()?;
        Ok(lo as u16 + hi as u16 * 0x100)
    }

    /// Moves on by `n` bytes, all of which must be there.
    fn skip(&mut self, n: usize) -> (r: Result<(), Error>)
        ensures
            final(self).data@ == old(self).data@,
            final(self).dac_ptr == old(self).dac_ptr,
            old(self).pos + n <= old(self).data@.len() ==> r == Ok::<(), Error>(())
                && final(self).pos == old(self).pos + n,
            old(self).pos + n > old(self).data@.len() ==> r == Err::<(), Error>(Error::TooShort)
                && final(self).pos == old(self).pos,
    {
        if self.pos > self.data.len() || n > self.data.len() - self.pos {
            return Err(Error::TooShort);
        }
        self.pos = self.pos + n;
        Ok(())
    }

    /// A plain register write: the register, then the data.
    fn reg_write(&mut self, chip: Chip, port: u8) -> (r: Result<Event, Error>)
        ensures
            final(self).data@ == old(self).data@,
            final(self).dac_ptr == old(self).dac_ptr,
            old(self).pos + 2 <= old(self).data@.len() ==> r == Ok::<Event, Error>(
                Event::Write {
                    chip,
                    port,
                    addr: old(self).data@[old(self).pos as int],
                    data: old(self).data@[old(self).pos + 1],
                },
            ) && final(self).pos == old(self).pos + 2,
            old(self).pos + 2 > old(self).data@.len() ==> r == Err::<Event, Error>(
                Error::TooShort,
            ) && final(self).pos == (if old(self).pos <= old(self).data@.len() {
                    old(self).data@.len() as int
                } else {
                    old(self).pos as int
                }),
    {
        let addr: u8 = self.u8()?;
        let data: u8 = self.u8()?;
        Ok(Event::Write { chip, port, addr, data })
    }

    /// A register write to a chip whose register field is shorter than a
    /// byte: bit 7 of the register byte selects the second instance.
    fn reg_write_dual(&mut self, chip: Chip, port: u8, cmd: u8) -> (r: Result<Event, Error>)
        ensures
            final(self).data@ == old(self).data@,
            final(self).dac_ptr == old(self).dac_ptr,
            old(self).pos + 2 <= old(self).data@.len() ==> r == Ok::<Event, Error>(
                if old(self).data@[old(self).pos as int] >= 0x80 {
                    Event::SecondChip { cmd }
                } else {
                    Event::Write {
                        chip,
                        port,
                        addr: old(self).data@[old(self).pos as int],
                        data: old(self).data@[old(self).pos + 1],
                    }
                },
            ) && final(self).pos == old(self).pos + 2,
            old(self).pos + 2 > old(self).data@.len() ==> r == Err::<Event, Error>(
                Error::TooShort,
            ) && final(self).pos == (if old(self).pos <= old(self).data@.len() {
                    old(self).data@.len() as int
                } else {
                    old(self).pos as int
                }),
    {
        let addr: u8 = self.u8()?;
        let data: u8 = self.u8()?;
        if addr >= 0x80 {
            return Ok(Event::SecondChip { cmd });
        }
        Ok(Event::Write { chip, port, addr, data })
    }

    /// The next event of the stream.
    ///
    /// The result, the new position and the new DAC pointer are those of
    /// [`step`], on success and on failure alike.
    pub fn next_event(&mut self) -> (r: Result<Event, Error>)
        ensures
            final(self).data@ == old(self).data@,
            ({
                let s = step(old(self).data@, old(self).pos as int, old(self).dac_ptr);
                &&& r == s.outcome
                &&& final(self).pos == s.pos
                &&& final(self).dac_ptr == s.dac_ptr
            }),
    {
        let at: usize = self.pos;
        let cmd: u8 = self.u8()?;
        let ev = match cmd {
            0x50 => Event::Write { chip: Chip::Sn76489, port: 0, addr: 0, data: self.u8()? },
            // The second SN76489. On a Neo Geo Pocket this is no second chip
            // but the other half of a T6W28, one side of the stereo picture.
            0x30 => Event::Write { chip: Chip::Sn76489, port: 1, addr: 0, data: self.u8()? },
            0x4F => Event::GgStereo { chip2: false, mask: self.u8()? },
            0x3F => Event::GgStereo { chip2: true, mask: self.u8()? },
            0x51 => self.reg_write(Chip::Ym2413, 0)?,
            0x52 => self.reg_write(Chip::Ym2612, 0)?,
            0x53 => self.reg_write(Chip::Ym2612, 1)?,
            0x54 => self.reg_write(Chip::Ym2151, 0)?,
            // A YM2203 has one port, a YM2608 two.
            0x55 | 0x56 => self.reg_write(Chip::Opn, 0)?,
            0x57 => self.reg_write(Chip::Opn, 1)?,
            0xB9 => self.reg_write(Chip::HuC6280, 0)?,
            // YM3812 and YM3526 have one bank, a YMF262 two (0x5E, 0x5F).
            0x5A | 0x5B | 0x5E => self.reg_write(Chip::Opl, 0)?,
            0x5F => self.reg_write(Chip::Opl, 1)?,
            0x58 | 0x59 | 0x5C | 0x5D => {
                self.skip(2)?;
                Event::Write { chip: Chip::Unknown(cmd), port: 0, addr: 0, data: 0 }
            },
            0x61 => Event::Wait { ticks: self.u16()? },
            0x62 => Event::Wait { ticks: FRAME_60HZ },
            0x63 => Event::Wait { ticks: FRAME_50HZ },
            0x66 => Event::End,
            0x67 => self.data_block()?,
            0x68 => {
                self.skip(11)?;
                Event::Write { chip: Chip::Unknown(cmd), port: 0, addr: 0, data: 0 }
            },
            0x70..=0x7F => Event::Wait { ticks: (cmd - 0x6F) as u16 },
            0x80..=0x8F => {
                let off: u32 = self.dac_ptr;
                self.dac_ptr = off.wrapping_add(1);
                Event::Ym2612Dac { ticks: cmd - 0x80, offset: off }
            },
            0x90..=0x95 => {
                let len: usize = DAC_STREAM_LEN[(cmd - 0x90) as usize];
                let start: usize = self.pos;
                self.skip(len)?;
                Event::DacStream { cmd, start, len }
            },
            0xA0 => self.reg_write_dual(Chip::Ay8910, 0, cmd)?,
            0xB4 => self.reg_write_dual(Chip::NesApu, 0, cmd)?,
            0xB3 => self.reg_write_dual(Chip::GbDmg, 0, cmd)?,
            0xB7 => self.reg_write_dual(Chip::Okim6258, 0, cmd)?,
            0xB8 => self.reg_write_dual(Chip::Okim6295, 0, cmd)?,
            0xBA => self.reg_write_dual(Chip::K053260, 0, cmd)?,
            // The second instance of the FM chips: 0xA1-0xAF mirror 0x51-0x5F.
            // Their register field is a full byte, so bit 7 cannot select it.
            0xA1..=0xAF => {
                self.skip(2)?;
                Event::SecondChip { cmd }
            },
            0xB0..=0xB2 | 0xB5 | 0xB6 | 0xBB..=0xBF => {
                self.skip(2)?;
                Event::Write { chip: Chip::Unknown(cmd), port: 0, addr: 0, data: 0 }
            },
            0xC0 => {
                let offset: u16 = self.u16()?;
                let data: u8 = self.u8()?;
                // The top bit of the offset selects the second SegaPCM.
                if offset >= 0x8000 {
                    Event::SecondChip { cmd }
                } else {
                    Event::SegaPcmWrite { offset, data }
                }
            },
            0xD2 => {
                // K051649/K052539 (SCC): port, register, data. Bit 7 of the
                // port byte selects the second instance.
                let port: u8 = self.u8()?;
                let addr: u8 = self.u8()?;
                let data: u8 = self.u8()?;
                if port >= 0x80 {
                    Event::SecondChip { cmd }
                } else {
                    Event::Write { chip: Chip::K051649, port, addr, data }
                }
            },
            0xC1..=0xDF => {
                self.skip(3)?;
                Event::Write { chip: Chip::Unknown(cmd), port: 0, addr: 0, data: 0 }
            },
            0xE0 => {
                let a: u32 = rd32(self.data, self.pos)?;
                assert(self.pos + 4 <= self.data.len());
                self.pos = self.pos + 4;
                self.dac_ptr = a;
                Event::Write { chip: Chip::Unknown(cmd), port: 0, addr: 0, data: 0 }
            },
            0xE1..=0xFF => {
                self.skip(4)?;
                Event::Write { chip: Chip::Unknown(cmd), port: 0, addr: 0, data: 0 }
            },
            _ => return Err(Error::UnknownCommand { cmd, pos: at }),
        };
        Ok(ev)
    }

    /// The rest of a data block, behind its command byte.
    fn data_block(&mut self) -> (r: Result<Event, Error>)
        requires
            old(self).pos <= old(self).data@.len(),
        ensures
            final(self).data@ == old(self).data@,
            ({
                let s = data_block_step(
                    old(self).data@,
                    old(self).pos as int,
                    old(self).dac_ptr,
                );
                &&& r == s.outcome
                &&& final(self).pos == s.pos
                &&& final(self).dac_ptr == s.dac_ptr
            }),
    {
        let _compat: u8 = self.u8()?;
        let kind: u8 = self.u8()?;
        let len: usize = (rd32(self.data, self.pos)? % 0x8000_0000) as usize;
        assert(self.pos + 4 <= self.data.len());
        self.pos = self.pos + 4;
        let start: usize = self.pos;
        self.skip(len)?;
        Ok(Event::DataBlock { kind, start, len })
    }
}

} // verus!
