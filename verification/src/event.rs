//! What a VGM stream says: chips, events and the errors of a damaged file.

use vstd::prelude::*;

verus! {

/// The chip that a register write is meant for.
#[derive(Debug, Clone, Copy, PartialEq, Eq, Structural)]
pub enum Chip {
    Sn76489,
    Ym2413,
    Ym2612,
    Ym2151,
    SegaPcm,
    Ay8910,
    NesApu,
    GbDmg,
    Okim6258,
    Okim6295,
    K051649,
    K053260,
    /// The OPN family (YM2203, YM2608). The FM part has the registers of a
    /// YM2612 and the SSG part those of an AY-3-8910. `port` is the register
    /// bank (0 or 1; always 0 for a YM2203).
    Opn,
    /// HuC6280 PSG (PC Engine / TurboGrafx-16).
    HuC6280,
    /// The OPL family (YM3812, YM3526, YMF262), played on an OPL3. `port` is
    /// the register bank (0 or 1; always 0 for an OPL2).
    Opl,
    /// A chip that is not played; the value is the command byte.
    Unknown(u8),
}

/// One event of the stream.
#[allow(inconsistent_fields)]
#[derive(Debug, Clone, Copy, PartialEq, Eq, Structural)]
pub enum Event {
    /// A register write. `port` tells register banks apart (a YM2612 has
    /// two; other chips use 0).
    Write { chip: Chip, port: u8, addr: u8, data: u8 },
    /// A write to SegaPCM memory (16-bit offset).
    SegaPcmWrite { offset: u16, data: u8 },
    /// Wait for `ticks` ticks of 1/44100 s.
    Wait { ticks: u16 },
    /// A data block (a ROM or RAM image for a PCM chip): its type, and where
    /// its bytes lie inside the buffer.
    DataBlock { kind: u8, start: usize, len: usize },
    /// A DAC stream command 0x90-0x95, handed to the player as it is.
    DacStream { cmd: u8, start: usize, len: usize },
    /// A YM2612 DAC byte from data bank 0 (commands 0x80-0x8F): write the
    /// byte of the bank at `offset` to register 0x2A, then wait.
    Ym2612Dac { ticks: u8, offset: u32 },
    /// The Game Gear stereo mask: command 0x4F (0x3F for the second chip),
    /// one bit per channel and side. It goes to port 0x06 and is no PSG
    /// register write: as PSG data the usual mask 0xFF would mute the noise
    /// channel.
    GgStereo { chip2: bool, mask: u8 },
    /// A write that addresses the second instance of a chip. There is no
    /// second instance to play it on, but it must neither be lost silently
    /// nor land on the registers of the first one.
    SecondChip { cmd: u8 },
    /// End of the sound data.
    End,
}

/// Why a file or a stream was refused.
#[derive(Debug, Clone, Copy, PartialEq, Eq, Structural)]
pub enum Error {
    /// The file does not begin with the VGM identification.
    BadMagic,
    /// The buffer ends before the data that was asked for.
    TooShort,
    /// An offset of the header points outside the file.
    BadOffset,
    /// A byte that is no VGM command stands at `pos`.
    UnknownCommand { cmd: u8, pos: usize },
    /// A gzip header is cut off, or its contents cannot be inflated.
    Gzip,
}

} // verus!
