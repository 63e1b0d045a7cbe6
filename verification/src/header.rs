//! The file header: versions, offsets, clocks and volumes.

use crate::bytes::{has_tag, holds32, le32, lemma_field_comes_back, rd32, rd32_or_zero};
use crate::event::Error;
use crate::volume::{
    chip_scale_of, chip_volumes_of, lemma_few_volumes, padded, parse_chip_volumes, scale_of_chip,
    scale_of_modifier, volume_scale_of, ChipVolume, MAX_CHIP_VOLUMES,
};
use vstd::prelude::*;

verus! {

/// The first four bytes of a VGM file: "Vgm ".
pub const VGM_MAGIC: &'static [u8; 4] = &[0x56, 0x67, 0x6D, 0x20];

/// The rate of VGM ticks: every wait counts in 1/44100 s.
pub const TICK_RATE: u32 = 44100;

/// The clock fields of all chips but the SN76489. Bit 30 of each declares a
/// second instance of its chip; for the SN76489 bit 31 counts too.
pub const DUAL_FIELDS: [usize; 22] = [
    0x10, 0x2C, 0x30, 0x38, 0x40, 0x44, 0x48, 0x50, 0x54, 0x5C, 0x6C, 0x70, 0x74, 0x80, 0x84, 0x8C,
    0x90, 0x98, 0x9C, 0xA4, 0xAC, 0xC0,
];

/// The clocks of the chips that a file declares, in Hz; 0 means that the
/// chip is not used.
#[derive(Debug, Clone, Copy)]
pub struct Clocks {
    pub sn76489: u32,
    pub ym2413: u32,
    pub ym2612: u32,
    pub ym2203: u32,
    pub ym2608: u32,
    pub ym2151: u32,
    pub sega_pcm: u32,
    pub sega_pcm_iface: u32,
    pub ay8910: u32,
    pub nes_apu: u32,
    pub gb_dmg: u32,
    pub okim6258: u32,
    pub okim6258_flags: u8,
    pub ay_flags: u8,
    pub k051649: u32,
    pub okim6295: u32,
    pub k053260: u32,
    /// HuC6280 (PC Engine): a wave table with 6 channels.
    pub huc6280: u32,
    /// The OPL family: YM3812 (OPL2), YM3526 (OPL), YMF262 (OPL3).
    pub ym3812: u32,
    pub ym3526: u32,
    pub ymf262: u32,
    /// Chips that are not played but must be recognised: it is better to say
    /// that a part of the sound is missing than to keep silent about it.
    pub pwm: u32,
    pub upd7759: u32,
    pub wonderswan: u32,
    /// The PCM chip of the Sega CD and its arcade relative.
    pub rf5c164: u32,
    pub rf5c68: u32,
    /// Famicom disk system: the top bit of the NES APU clock.
    pub fds: bool,
    /// A second SN76489 (bit 30) and the T6W28 variant (bit 31). A Neo Geo
    /// Pocket sets both: one chip with two sides of stereo.
    pub sn_dual: bool,
    pub sn_t6w28: bool,
    /// The file declares a second instance of some chip. A T6W28 does not
    /// count: there the SN76489 field has bits 30 and 31 set at once.
    pub second_chip: bool,
}

impl Default for Clocks {
    fn default() -> (c: Self)
        ensures
            c == no_clocks(),
    {
        Clocks {
            sn76489: 0,
            ym2413: 0,
            ym2612: 0,
            ym2203: 0,
            ym2608: 0,
            ym2151: 0,
            sega_pcm: 0,
            sega_pcm_iface: 0,
            ay8910: 0,
            nes_apu: 0,
            gb_dmg: 0,
            okim6258: 0,
            okim6258_flags: 0,
            ay_flags: 0,
            k051649: 0,
            okim6295: 0,
            k053260: 0,
            huc6280: 0,
            ym3812: 0,
            ym3526: 0,
            ymf262: 0,
            pwm: 0,
            upd7759: 0,
            wonderswan: 0,
            rf5c164: 0,
            rf5c68: 0,
            fds: false,
            sn_dual: false,
            sn_t6w28: false,
            second_chip: false,
        }
    }
}

/// No chip at all.
pub open spec fn no_clocks() -> Clocks {
    Clocks {
        sn76489: 0,
        ym2413: 0,
        ym2612: 0,
        ym2203: 0,
        ym2608: 0,
        ym2151: 0,
        sega_pcm: 0,
        sega_pcm_iface: 0,
        ay8910: 0,
        nes_apu: 0,
        gb_dmg: 0,
        okim6258: 0,
        okim6258_flags: 0,
        ay_flags: 0,
        k051649: 0,
        okim6295: 0,
        k053260: 0,
        huc6280: 0,
        ym3812: 0,
        ym3526: 0,
        ymf262: 0,
        pwm: 0,
        upd7759: 0,
        wonderswan: 0,
        rf5c164: 0,
        rf5c68: 0,
        fds: false,
        sn_dual: false,
        sn_t6w28: false,
        second_chip: false,
    }
}

/// A parsed VGM header. The data stay with the caller.
#[derive(Debug, Clone, Copy)]
pub struct Header {
    pub version: u32,
    pub total_ticks: u32,
    pub loop_offset: Option<usize>,
    pub loop_ticks: u32,
    pub data_offset: usize,
    pub gd3_offset: Option<usize>,
    pub clocks: Clocks,
    /// The volume modifier of the whole file with its sign restored: the
    /// factor is 2^(value/32), and 0 means no change.
    pub volume_modifier: i16,
    /// Chip volumes from the extra header (VGM 1.70 and later).
    pub chip_volumes: [ChipVolume; MAX_CHIP_VOLUMES],
    pub chip_volume_count: u8,
}

/// Bit 30 of a 32-bit field.
pub open spec fn bit30(v: int) -> bool {
    v / 0x4000_0000 % 2 == 1
}

/// Bit 31 of a 32-bit field.
pub open spec fn bit31(v: int) -> bool {
    v >= 0x8000_0000
}

/// Whether the file begins with the VGM identification.
pub open spec fn has_magic(d: Seq<u8>) -> bool {
    d.subrange(0, 4) == VGM_MAGIC@
}

/// The version field: 0x150 for 1.50.
pub open spec fn version_of(d: Seq<u8>) -> int {
    le32(d, 0x08)
}

/// Where the command stream starts. The offset field exists since 1.50.
pub open spec fn data_start(d: Seq<u8>) -> int {
    if version_of(d) >= 0x150 {
        0x34 + le32(d, 0x34)
    } else {
        0x40
    }
}

/// Where the header fields end: at the start of the data, and at 0x100 at the
/// latest.
pub open spec fn header_end(d: Seq<u8>) -> int {
    if data_start(d) < 0x100 {
        data_start(d)
    } else {
        0x100
    }
}

/// Where the loop starts, where the file loops.
pub open spec fn loop_start(d: Seq<u8>) -> Option<int> {
    if le32(d, 0x1C) != 0 {
        Some(0x1C + le32(d, 0x1C))
    } else {
        None
    }
}

/// The clock field at `off`, without its two flag bits; 0 where the field
/// lies behind `hdr_end`, the end of the header, or outside the file.
pub open spec fn clock_in(d: Seq<u8>, off: int, hdr_end: int) -> int {
    if off + 4 <= hdr_end && off + 4 <= d.len() {
        le32(d, off) % 0x4000_0000
    } else {
        0
    }
}

/// The clock field at `off` of the header of `d`.
pub open spec fn clock_at(d: Seq<u8>, off: int) -> int {
    clock_in(d, off, header_end(d))
}

/// The header byte at `off`; 0 where it lies behind the end of the header.
pub open spec fn byte_at(d: Seq<u8>, off: int) -> u8 {
    if off < header_end(d) {
        d[off]
    } else {
        0
    }
}

/// Whether the clock field at `off` lies in the header and has bit 30 set.
pub open spec fn dual_at(d: Seq<u8>, off: int) -> bool {
    off + 4 <= header_end(d) && bit30(le32(d, off))
}

/// Whether the file declares a second instance of some chip: bit 30 of its
/// clock field. For the SN76489 bit 31 must be clear, since both bits
/// together mean a T6W28.
pub open spec fn declares_second_chip(d: Seq<u8>) -> bool {
    ||| exists|i: int| 0 <= i < DUAL_FIELDS@.len() && dual_at(d, #[trigger] DUAL_FIELDS@[i] as int)
    ||| dual_at(d, 0x0C) && !bit31(le32(d, 0x0C))
}

/// The clocks that the header declares.
pub open spec fn clocks_of(d: Seq<u8>) -> Clocks {
    Clocks {
        sn76489: clock_at(d, 0x0C) as u32,
        ym2413: clock_at(d, 0x10) as u32,
        ym2612: clock_at(d, 0x2C) as u32,
        ym2203: clock_at(d, 0x44) as u32,
        ym2608: clock_at(d, 0x48) as u32,
        ym2151: clock_at(d, 0x30) as u32,
        sega_pcm: clock_at(d, 0x38) as u32,
        sega_pcm_iface: if version_of(d) >= 0x151 { clock_at(d, 0x3C) as u32 } else { 0 },
        ay8910: clock_at(d, 0x74) as u32,
        nes_apu: clock_at(d, 0x84) as u32,
        gb_dmg: clock_at(d, 0x80) as u32,
        okim6258: clock_at(d, 0x90) as u32,
        okim6258_flags: byte_at(d, 0x94),
        ay_flags: byte_at(d, 0x79),
        k051649: clock_at(d, 0x9C) as u32,
        okim6295: clock_at(d, 0x98) as u32,
        k053260: clock_at(d, 0xAC) as u32,
        huc6280: clock_at(d, 0xA4) as u32,
        ym3812: clock_at(d, 0x50) as u32,
        ym3526: clock_at(d, 0x54) as u32,
        ymf262: clock_at(d, 0x5C) as u32,
        pwm: clock_at(d, 0x70) as u32,
        upd7759: clock_at(d, 0x8C) as u32,
        wonderswan: clock_at(d, 0xC0) as u32,
        rf5c164: clock_at(d, 0x6C) as u32,
        rf5c68: clock_at(d, 0x40) as u32,
        fds: header_end(d) >= 0x88 && bit31(le32(d, 0x84)),
        sn_dual: bit30(le32(d, 0x0C)),
        sn_t6w28: bit31(le32(d, 0x0C)),
        second_chip: declares_second_chip(d),
    }
}

/// The signed value of the volume modifier byte: -0x40 to 0xC0. The byte
/// 0xC1, which would be -0x3F, stands for -0x40.
pub open spec fn signed_modifier(b: u8) -> int {
    if b <= 0xC0 {
        b as int
    } else if b == 0xC1 {
        -0x40
    } else {
        b - 0x100
    }
}

/// `x` as a `usize`; an offset that no `usize` can hold lies behind the end
/// of every buffer, and so does the largest `usize`.
pub open spec fn offset_of(x: int) -> usize {
    if x <= usize::MAX {
        x as usize
    } else {
        usize::MAX
    }
}

/// Why the header of `d` is refused, if it is.
pub open spec fn header_error(d: Seq<u8>) -> Option<Error> {
    if d.len() < 0x40 {
        Some(Error::TooShort)
    } else if !has_magic(d) {
        Some(Error::BadMagic)
    } else if data_start(d) >= d.len() {
        Some(Error::BadOffset)
    } else if loop_start(d) matches Some(o) && o >= d.len() {
        Some(Error::BadOffset)
    } else {
        None
    }
}

impl Header {
    /// The volume table holds as many entries as are counted.
    pub open spec fn wf(self) -> bool {
        self.chip_volume_count <= MAX_CHIP_VOLUMES
    }

    /// The entries of the chip volume table.
    pub open spec fn volumes(self) -> Seq<ChipVolume> {
        self.chip_volumes@.take(self.chip_volume_count as int)
    }

    /// `self` is the header of the file `d`.
    pub open spec fn describes(self, d: Seq<u8>) -> bool {
        &&& self.version == version_of(d)
        &&& self.total_ticks == le32(d, 0x18)
        &&& self.loop_offset == (match loop_start(d) {
            Some(o) => Some(o as usize),
            None => None,
        })
        &&& self.loop_ticks == le32(d, 0x20)
        &&& self.data_offset == data_start(d)
        &&& self.gd3_offset == (if le32(d, 0x14) != 0 {
            Some(offset_of(0x14 + le32(d, 0x14)))
        } else {
            None
        })
        &&& self.clocks == clocks_of(d)
        &&& self.volume_modifier == signed_modifier(byte_at(d, 0x7C))
        &&& self.chip_volume_count == chip_volumes_of(d, header_end(d)).len()
        &&& self.chip_volumes@ == padded(chip_volumes_of(d, header_end(d)))
    }

    /// Reads the header of the file `d`.
    pub fn parse(d: &[u8]) -> (r: Result<Header, Error>)
        ensures
            match r {
                Ok(h) => header_error(d@) is None && h.describes(d@) && h.wf() && h.data_offset
                    < d@.len() && (h.loop_offset matches Some(o) ==> o < d@.len()),
                Err(e) => header_error(d@) == Some(e),
            },
    {
        let len: usize = d.len();
        if len < 0x40 {
            return Err(Error::TooShort);
        }
        if !has_tag(d, 0, VGM_MAGIC) {
            return Err(Error::BadMagic);
        }
        let version: u32 = rd32(d, 0x08)?;
        let data_offset: usize = if version >= 0x150 {
            match (rd32(d, 0x34)? as usize).checked_add(0x34) {
                Some(o) => o,
                None => return Err(Error::BadOffset),
            }
        } else {
            0x40
        };
        if data_offset >= len {
            return Err(Error::BadOffset);
        }
        // The fields are valid up to the start of the data only.
        let hdr_end: usize = if data_offset < 0x100 {
            data_offset
        } else {
            0x100
        };

        let loop_raw: usize = rd32(d, 0x1C)? as usize;
        let loop_offset: Option<usize> = if loop_raw != 0 {
            match loop_raw.checked_add(0x1C) {
                Some(o) => {
                    if o >= len {
                        return Err(Error::BadOffset);
                    }
                    Some(o)
                },
                None => return Err(Error::BadOffset),
            }
        } else {
            None
        };
        let gd3_raw: usize = rd32(d, 0x14)? as usize;
        let gd3_offset: Option<usize> = if gd3_raw != 0 {
            match gd3_raw.checked_add(0x14) {
                Some(o) => Some(o),
                None => Some(usize::MAX),
            }
        } else {
            None
        };

        let clocks = read_clocks(d, version, hdr_end);

        let volume_modifier: i16 = if hdr_end > 0x7C {
            let v: u8 = d[0x7C];
            if v <= 0xC0 {
                v as i16
            } else if v == 0xC1 {
                -0x40
            } else {
                v as i16 - 0x100
            }
        } else {
            0
        };

        let (chip_volumes, chip_volume_count) = parse_chip_volumes(d, hdr_end);

        Ok(
            Header {
                version,
                total_ticks: rd32(d, 0x18)?,
                loop_offset,
                loop_ticks: rd32(d, 0x20)?,
                data_offset,
                gd3_offset,
                clocks,
                volume_modifier,
                chip_volumes,
                chip_volume_count,
            },
        )
    }

    /// The scale of the whole file, in 1/256 (256 means no change).
    ///
    /// In integers: the power of two is split into its whole part, a shift,
    /// and its fraction, a table of 32 values.
    pub fn volume_scale(&self) -> (r: u32)
        ensures
            r == volume_scale_of(self.volume_modifier as int),
    {
        scale_of_modifier(self.volume_modifier)
    }

    /// By how much the file asks to change the volume of a chip, in 1/256.
    ///
    /// `chip` is the chip number of the VGM format, with bit 7 for the paired
    /// part (the SSG of a YM2203 or YM2608). 256 means no change.
    pub fn chip_scale(&self, chip: u8) -> (r: u32)
        requires
            self.wf(),
        ensures
            r == chip_scale_of(self.volumes(), chip),
    {
        scale_of_chip(&self.chip_volumes, self.chip_volume_count as usize, chip)
    }
}

/// Whether the clock field at `off` declares a second instance of its chip.
fn dual_bit(d: &[u8], off: usize, hdr_end: usize) -> (r: bool)
    ensures
        r == (off + 4 <= hdr_end && off + 4 <= d@.len() && bit30(le32(d@, off as int))),
{
    off <= hdr_end && hdr_end - off >= 4 && (rd32_or_zero(d, off) / 0x4000_0000) % 2 == 1
}

/// The clock field at `off`, or 0 where it lies behind the header.
fn clock_field(d: &[u8], off: usize, hdr_end: usize) -> (r: u32)
    ensures
        r == clock_in(d@, off as int, hdr_end as int),
{
    if off <= hdr_end && hdr_end - off >= 4 {
        rd32_or_zero(d, off) % 0x4000_0000
    } else {
        0
    }
}

/// Whether the header declares a second instance of some chip.
fn second_chip(d: &[u8], hdr_end: usize) -> (r: bool)
    requires
        d@.len() >= 0x40,
        hdr_end == header_end(d@),
        hdr_end < d@.len(),
    ensures
        r == declares_second_chip(d@),
{
    let mut i: usize = 0;
    while i < 22
        invariant
            i <= 22,
            hdr_end == header_end(d@),
            hdr_end < d@.len(),
            forall|j: int| 0 <= j < i ==> !dual_at(d@, #[trigger] DUAL_FIELDS@[j] as int),
        decreases 22 - i,
    {
        let off: usize = DUAL_FIELDS[i];
        assert(off <= 0xC0);
        if dual_bit(d, off, hdr_end) {
            assert(dual_at(d@, DUAL_FIELDS@[i as int] as int));
            return true;
        }
        i = i + 1;
    }
    dual_bit(d, 0x0C, hdr_end) && rd32_or_zero(d, 0x0C) < 0x8000_0000
}

/// The clocks that the header declares.
fn read_clocks(d: &[u8], version: u32, hdr_end: usize) -> (c: Clocks)
    requires
        d@.len() >= 0x40,
        version == version_of(d@),
        hdr_end == header_end(d@),
        hdr_end < d@.len(),
    ensures
        c == clocks_of(d@),
{
    let sn: u32 = rd32_or_zero(d, 0x0C);
    Clocks {
        sn76489: clock_field(d, 0x0C, hdr_end),
        ym2413: clock_field(d, 0x10, hdr_end),
        ym2612: clock_field(d, 0x2C, hdr_end),
        ym2203: clock_field(d, 0x44, hdr_end),
        ym2608: clock_field(d, 0x48, hdr_end),
        ym2151: clock_field(d, 0x30, hdr_end),
        sega_pcm: clock_field(d, 0x38, hdr_end),
        sega_pcm_iface: if version >= 0x151 { clock_field(d, 0x3C, hdr_end) } else { 0 },
        ay8910: clock_field(d, 0x74, hdr_end),
        nes_apu: clock_field(d, 0x84, hdr_end),
        gb_dmg: clock_field(d, 0x80, hdr_end),
        okim6258: clock_field(d, 0x90, hdr_end),
        okim6258_flags: if hdr_end > 0x94 { d[0x94] } else { 0 },
        ay_flags: if hdr_end > 0x79 { d[0x79] } else { 0 },
        k051649: clock_field(d, 0x9C, hdr_end),
        okim6295: clock_field(d, 0x98, hdr_end),
        k053260: clock_field(d, 0xAC, hdr_end),
        huc6280: clock_field(d, 0xA4, hdr_end),
        ym3812: clock_field(d, 0x50, hdr_end),
        ym3526: clock_field(d, 0x54, hdr_end),
        ymf262: clock_field(d, 0x5C, hdr_end),
        pwm: clock_field(d, 0x70, hdr_end),
        upd7759: clock_field(d, 0x8C, hdr_end),
        wonderswan: clock_field(d, 0xC0, hdr_end),
        rf5c164: clock_field(d, 0x6C, hdr_end),
        rf5c68: clock_field(d, 0x40, hdr_end),
        // The disk system flag is the top bit of the NES APU field.
        fds: hdr_end >= 0x88 && rd32_or_zero(d, 0x84) >= 0x8000_0000,
        sn_dual: (sn / 0x4000_0000) % 2 == 1,
        sn_t6w28: sn >= 0x8000_0000,
        second_chip: second_chip(d, hdr_end),
    }
}

/// The clocks come from the header alone: bytes at and behind the start of the
/// data (or behind 0x100) do not touch them, so sound data are never taken for
/// a clock.
pub proof fn lemma_clocks_from_header_only(a: Seq<u8>, b: Seq<u8>)
    requires
        header_error(a) is None,
        header_error(b) is None,
        forall|i: int| 0 <= i < header_end(a) ==> a[i] == b[i],
        data_start(a) == data_start(b),
    ensures
        clocks_of(a) == clocks_of(b),
{
    assert(header_end(a) >= 0x34);
    assert(le32(a, 0x08) == le32(b, 0x08));
    assert(forall|off: int|
        0 <= off && off + 4 <= header_end(a) ==> #[trigger] le32(a, off) == le32(b, off));
    assert forall|off: int| 0 <= off implies #[trigger] dual_at(a, off) == dual_at(b, off) by {
        if off + 4 <= header_end(a) {
            assert(le32(a, off) == le32(b, off));
        }
    }
    assert(declares_second_chip(a) == declares_second_chip(b)) by {
        if declares_second_chip(a) {
            if exists|i: int|
                0 <= i < DUAL_FIELDS@.len() && dual_at(a, #[trigger] DUAL_FIELDS@[i] as int) {
                let i = choose|i: int|
                    0 <= i < DUAL_FIELDS@.len() && dual_at(a, #[trigger] DUAL_FIELDS@[i] as int);
                assert(dual_at(b, DUAL_FIELDS@[i] as int));
            }
        }
        if declares_second_chip(b) {
            if exists|i: int|
                0 <= i < DUAL_FIELDS@.len() && dual_at(b, #[trigger] DUAL_FIELDS@[i] as int) {
                let i = choose|i: int|
                    0 <= i < DUAL_FIELDS@.len() && dual_at(b, #[trigger] DUAL_FIELDS@[i] as int);
                assert(dual_at(a, DUAL_FIELDS@[i] as int));
            }
        }
    }
}

/// The flag bits of a clock field never show up in a frequency: every clock is
/// below 2^30, whatever the file holds.
pub proof fn lemma_clocks_carry_no_flags(d: Seq<u8>, off: int)
    requires
        0 <= off,
    ensures
        0 <= clock_at(d, off) < 0x4000_0000,
        off + 4 <= header_end(d) && off + 4 <= d.len() ==> (le32(d, off) - clock_at(d, off))
            % 0x4000_0000 == 0,
{
}

/// Two files that differ only in bits 30 and 31 of one field give the same
/// clock there, wherever the header ends.
pub proof fn lemma_flags_leave_the_field_alone(a: Seq<u8>, b: Seq<u8>, off: int, hdr_end: int)
    requires
        0 <= off,
        differ_in_flags_only(a, b, off),
    ensures
        clock_in(a, off, hdr_end) == clock_in(b, off, hdr_end),
        0 <= clock_in(a, off, hdr_end) <= 0x3FFF_FFFF,
        off + 4 > hdr_end || off + 4 > a.len() ==> clock_in(a, off, hdr_end) == 0,
{
    if off + 4 <= a.len() {
        let x = a[off + 3] as int;
        let y = b[off + 3] as int;
        let low = le32(a, off) - 0x100_0000 * x;
        assert(low == le32(b, off) - 0x100_0000 * y);
        assert(0 <= low < 0x100_0000);
        assert(le32(a, off) % 0x4000_0000 == low + 0x100_0000 * (x % 0x40));
        assert(le32(b, off) % 0x4000_0000 == low + 0x100_0000 * (y % 0x40));
    }
}

/// Two files that differ only in the flag bits of one clock field declare the
/// same clock there. (The version and the data offset are no clocks: they
/// decide where the header ends.)
pub proof fn lemma_flags_leave_the_clock_alone(a: Seq<u8>, b: Seq<u8>, off: int)
    requires
        0x0C <= off,
        off + 3 < 0x34 || 0x37 < off + 3,
        a.len() >= 0x40,
        differ_in_flags_only(a, b, off),
    ensures
        clock_at(a, off) == clock_at(b, off),
{
    assert(le32(a, 0x08) == le32(b, 0x08));
    assert(le32(a, 0x34) == le32(b, 0x34));
    lemma_flags_leave_the_field_alone(a, b, off, header_end(a));
}

/// The files are the same but for bits 30 and 31 of the 32-bit field at `off`,
/// the top two bits of its last byte.
pub open spec fn differ_in_flags_only(a: Seq<u8>, b: Seq<u8>, off: int) -> bool {
    &&& a.len() == b.len()
    &&& forall|i: int| 0 <= i < a.len() && i != off + 3 ==> a[i] == b[i]
    &&& off + 3 < a.len() ==> a[off + 3] % 0x40 == b[off + 3] % 0x40
}

/// Bits 30 and 31 of the SN76489 field together mean a T6W28, which is one
/// chip: alone they declare no second chip. Bit 30 without bit 31 does.
pub proof fn lemma_t6w28_is_one_chip(d: Seq<u8>)
    requires
        header_error(d) is None,
    ensures
        bit30(le32(d, 0x0C)) && bit31(le32(d, 0x0C)) ==> {
            &&& clocks_of(d).sn_dual
            &&& clocks_of(d).sn_t6w28
            &&& clocks_of(d).second_chip <==> exists|i: int|
                0 <= i < DUAL_FIELDS@.len() && dual_at(d, #[trigger] DUAL_FIELDS@[i] as int)
        },
        bit30(le32(d, 0x0C)) && !bit31(le32(d, 0x0C)) ==> clocks_of(d).second_chip,
        clocks_of(d).second_chip ==> clocks_of(d).sn_dual || exists|i: int|
            0 <= i < DUAL_FIELDS@.len() && dual_at(d, #[trigger] DUAL_FIELDS@[i] as int),
{
    assert(header_end(d) >= 0x34);
}

/// The volume modifier of a file lies between -0x40 and 0xC0, and it is 0 for
/// a header that ends before the field.
pub proof fn lemma_modifier_range(d: Seq<u8>)
    ensures
        -0x40 <= signed_modifier(byte_at(d, 0x7C)) <= 0xC0,
        header_end(d) <= 0x7C ==> signed_modifier(byte_at(d, 0x7C)) == 0,
{
}

/// A file has one header: [`Header::describes`] leaves no field open.
pub proof fn lemma_header_is_determined(d: Seq<u8>, a: Header, b: Header)
    requires
        a.describes(d),
        b.describes(d),
    ensures
        a == b,
{
    assert(a.chip_volumes@ == b.chip_volumes@);
    assert(a.chip_volumes =~= b.chip_volumes);
}

/// The volume entries of a parsed header are those of the file's table, in
/// their order.
pub proof fn lemma_volumes_of_file(d: Seq<u8>, h: Header)
    requires
        h.describes(d),
    ensures
        h.volumes() == chip_volumes_of(d, header_end(d)),
{
    lemma_few_volumes(d, header_end(d));
    assert(h.volumes() =~= chip_volumes_of(d, header_end(d)));
}

/// The fields of a header that describe the file, as its writer fills them in.
pub struct FileFields {
    pub version: int,
    pub data_start: int,
    pub loop_start: Option<int>,
    pub total_ticks: int,
    pub loop_ticks: int,
    pub tag: Option<int>,
}

impl FileFields {
    /// The fields stand in the header of `d`. The offsets count from the fields
    /// that hold them, and 0 means that there is no loop or no tag. Before 1.50
    /// the data start at 0x40.
    pub open spec fn stand_in(self, d: Seq<u8>) -> bool {
        &&& d.len() >= 0x40
        &&& d[0] == 0x56 && d[1] == 0x67 && d[2] == 0x6D && d[3] == 0x20
        &&& holds32(d, 0x08, self.version)
        &&& if self.version >= 0x150 {
            holds32(d, 0x34, self.data_start - 0x34)
        } else {
            self.data_start == 0x40
        }
        &&& match self.loop_start {
            Some(o) => o > 0x1C && holds32(d, 0x1C, o - 0x1C),
            None => holds32(d, 0x1C, 0),
        }
        &&& holds32(d, 0x18, self.total_ticks)
        &&& holds32(d, 0x20, self.loop_ticks)
        &&& match self.tag {
            Some(o) => o > 0x14 && holds32(d, 0x14, o - 0x14),
            None => holds32(d, 0x14, 0),
        }
    }
}

/// The fields that a writer filled in come back from [`Header::parse`]. The file
/// is refused only where its data or its loop would start behind its end.
pub proof fn lemma_written_header_comes_back(d: &[u8], r: Result<Header, Error>, w: FileFields)
    requires
        call_ensures(Header::parse, (d,), r),
        w.stand_in(d@),
    ensures
        w.data_start >= d@.len() || (w.loop_start matches Some(o) && o >= d@.len()) ==> r == Err::<
            Header,
            Error,
        >(Error::BadOffset),
        w.data_start < d@.len() && (w.loop_start matches Some(o) ==> o < d@.len()) ==> {
            &&& r matches Ok(h)
            &&& h.version == w.version
            &&& h.data_offset == w.data_start
            &&& h.loop_offset is Some <==> w.loop_start is Some
            &&& w.loop_start matches Some(o) ==> h.loop_offset->0 == o
            &&& h.total_ticks == w.total_ticks
            &&& h.loop_ticks == w.loop_ticks
            &&& h.gd3_offset is Some <==> w.tag is Some
            &&& w.tag matches Some(o) ==> h.gd3_offset->0 == if o <= usize::MAX {
                o
            } else {
                usize::MAX as int
            }
        },
{
    assert(d@.len() == d.len());
    lemma_magic_bytes(d@);
    lemma_field_comes_back(d@, 0x08, w.version);
    lemma_field_comes_back(d@, 0x34, w.data_start - 0x34);
    lemma_field_comes_back(d@, 0x18, w.total_ticks);
    lemma_field_comes_back(d@, 0x20, w.loop_ticks);
    match w.loop_start {
        Some(o) => lemma_field_comes_back(d@, 0x1C, o - 0x1C),
        None => lemma_field_comes_back(d@, 0x1C, 0),
    }
    match w.tag {
        Some(o) => lemma_field_comes_back(d@, 0x14, o - 0x14),
        None => lemma_field_comes_back(d@, 0x14, 0),
    }
}

/// A file of less than 64 bytes is too short, and a longer one that does not
/// begin with "Vgm " is no VGM file. Any other file has its fields filled in
/// somehow.
pub proof fn lemma_foreign_file_is_refused(d: &[u8], r: Result<Header, Error>)
    requires
        call_ensures(Header::parse, (d,), r),
    ensures
        ({
            let magic = d@[0] == 0x56 && d@[1] == 0x67 && d@[2] == 0x6D && d@[3] == 0x20;
            &&& d@.len() < 0x40 ==> r == Err::<Header, Error>(Error::TooShort)
            &&& d@.len() >= 0x40 && !magic ==> r == Err::<Header, Error>(Error::BadMagic)
            &&& d@.len() >= 0x40 && magic ==> exists|w: FileFields| #[trigger] w.stand_in(d@)
        }),
{
    let f = d@;
    if f.len() >= 0x40 {
        lemma_magic_bytes(f);
        let version = le32(f, 0x08);
        let w = FileFields {
            version,
            data_start: if version >= 0x150 { 0x34 + le32(f, 0x34) } else { 0x40 },
            loop_start: if le32(f, 0x1C) != 0 { Some(0x1C + le32(f, 0x1C)) } else { None },
            total_ticks: le32(f, 0x18),
            loop_ticks: le32(f, 0x20),
            tag: if le32(f, 0x14) != 0 { Some(0x14 + le32(f, 0x14)) } else { None },
        };
        lemma_field_comes_back(f, 0x08, version);
        lemma_field_comes_back(f, 0x34, le32(f, 0x34));
        lemma_field_comes_back(f, 0x1C, le32(f, 0x1C));
        lemma_field_comes_back(f, 0x18, le32(f, 0x18));
        lemma_field_comes_back(f, 0x20, le32(f, 0x20));
        lemma_field_comes_back(f, 0x14, le32(f, 0x14));
        if f[0] == 0x56 && f[1] == 0x67 && f[2] == 0x6D && f[3] == 0x20 {
            assert(w.stand_in(f));
        }
    }
}

/// The identification is the four bytes of "Vgm ".
proof fn lemma_magic_bytes(d: Seq<u8>)
    requires
        d.len() >= 4,
    ensures
        has_magic(d) <==> d[0] == 0x56 && d[1] == 0x67 && d[2] == 0x6D && d[3] == 0x20,
{
    let m = VGM_MAGIC@;
    let b = d.subrange(0, 4);
    assert(m.len() == 4 && m[0] == 0x56 && m[1] == 0x67 && m[2] == 0x6D && m[3] == 0x20);
    assert(b[0] == d[0] && b[1] == d[1] && b[2] == d[2] && b[3] == d[3]);
    if d[0] == 0x56 && d[1] == 0x67 && d[2] == 0x6D && d[3] == 0x20 {
        assert(b =~= m);
    }
}

/// The clock that the header field at `off` holds, by the layout of the header.
pub open spec fn named_clock(c: Clocks, off: int) -> Option<u32> {
    if off == 0x0C {
        Some(c.sn76489)
    } else if off == 0x10 {
        Some(c.ym2413)
    } else if off == 0x2C {
        Some(c.ym2612)
    } else if off == 0x30 {
        Some(c.ym2151)
    } else if off == 0x38 {
        Some(c.sega_pcm)
    } else if off == 0x40 {
        Some(c.rf5c68)
    } else if off == 0x44 {
        Some(c.ym2203)
    } else if off == 0x48 {
        Some(c.ym2608)
    } else if off == 0x50 {
        Some(c.ym3812)
    } else if off == 0x54 {
        Some(c.ym3526)
    } else if off == 0x5C {
        Some(c.ymf262)
    } else if off == 0x6C {
        Some(c.rf5c164)
    } else if off == 0x70 {
        Some(c.pwm)
    } else if off == 0x74 {
        Some(c.ay8910)
    } else if off == 0x80 {
        Some(c.gb_dmg)
    } else if off == 0x84 {
        Some(c.nes_apu)
    } else if off == 0x8C {
        Some(c.upd7759)
    } else if off == 0x90 {
        Some(c.okim6258)
    } else if off == 0x98 {
        Some(c.okim6295)
    } else if off == 0x9C {
        Some(c.k051649)
    } else if off == 0xA4 {
        Some(c.huc6280)
    } else if off == 0xAC {
        Some(c.k053260)
    } else if off == 0xC0 {
        Some(c.wonderswan)
    } else {
        None
    }
}

/// Where the fields of a parsed header end: where its data start, and at 0x100
/// at the latest.
pub open spec fn fields_end(h: Header) -> int {
    if h.data_offset < 0x100 {
        h.data_offset as int
    } else {
        0x100
    }
}

/// A clock that a writer filled in comes back from [`Header::parse`], whatever
/// the two flags above it are. A field that begins or ends behind the end of the
/// header declares no clock. The interface register of the SegaPCM is a field of
/// the same form, from 1.51 on.
pub proof fn lemma_written_clock_comes_back(
    d: &[u8],
    h: Header,
    off: int,
    clock: int,
    flags: int,
)
    requires
        call_ensures(Header::parse, (d,), Ok::<Header, Error>(h)),
        0 <= clock < 0x4000_0000,
        0 <= flags < 4,
    ensures
        off + 4 <= fields_end(h) && holds32(d@, off, clock + 0x4000_0000 * flags) ==> (
        named_clock(h.clocks, off) matches Some(c) ==> c == clock),
        off + 4 > fields_end(h) ==> (named_clock(h.clocks, off) matches Some(c) ==> c == 0),
        h.version >= 0x151 && 0x40 <= fields_end(h) && holds32(
            d@,
            0x3C,
            clock + 0x4000_0000 * flags,
        ) ==> h.clocks.sega_pcm_iface == clock,
        h.version < 0x151 || 0x40 > fields_end(h) ==> h.clocks.sega_pcm_iface == 0,
{
    let f = d@;
    let v = clock + 0x4000_0000 * flags;
    assert(fields_end(h) == header_end(f) < f.len());
    lemma_named_clock(f, off);
    assert(v % 0x4000_0000 == clock);
    if holds32(f, off, v) {
        lemma_field_comes_back(f, off, v);
    }
    if holds32(f, 0x3C, v) {
        lemma_field_comes_back(f, 0x3C, v);
    }
}

/// Each clock of a header is that of its field.
proof fn lemma_named_clock(d: Seq<u8>, off: int)
    ensures
        named_clock(clocks_of(d), off) matches Some(c) ==> c == clock_at(d, off) && off >= 0x0C,
{
    assert(forall|o: int| 0 <= #[trigger] clock_at(d, o) < 0x4000_0000);
}

/// Whether bit 30 of the field at `off` declares a second chip of its kind by
/// itself: the clock fields of all chips but the SN76489.
pub open spec fn second_chip_field(off: int) -> bool {
    ||| off == 0x10 || off == 0x2C || off == 0x30 || off == 0x38 || off == 0x40 || off == 0x44
    ||| off == 0x48 || off == 0x50 || off == 0x54 || off == 0x5C || off == 0x6C || off == 0x70
    ||| off == 0x74 || off == 0x80 || off == 0x84 || off == 0x8C || off == 0x90 || off == 0x98
    ||| off == 0x9C || off == 0xA4 || off == 0xAC || off == 0xC0
}

/// The flags come back from [`Header::parse`]. Those above a clock are the top
/// two bits of the last byte of its field: bit 7 is a T6W28 or a disk system,
/// bit 6 a second chip. A T6W28 has both bits and is no second chip.
#[verifier::rlimit(40)]
pub proof fn lemma_written_flags_come_back(d: &[u8], h: Header)
    requires
        call_ensures(Header::parse, (d,), Ok::<Header, Error>(h)),
    ensures
        h.clocks.sn_t6w28 <==> d@[0x0F] >= 0x80,
        h.clocks.sn_dual <==> d@[0x0F] as int / 0x40 % 2 == 1,
        h.clocks.fds <==> 0x88 <= fields_end(h) && d@[0x87] >= 0x80,
        h.clocks.ay_flags == if 0x79 < fields_end(h) { d@[0x79] } else { 0 },
        h.clocks.okim6258_flags == if 0x94 < fields_end(h) { d@[0x94] } else { 0 },
        h.clocks.second_chip <==> (d@[0x0F] as int / 0x40 == 1 || exists|off: int| #[trigger]
            second_chip_field(off) && off + 4 <= fields_end(h) && d@[off + 3] as int / 0x40 % 2
                == 1),
{
    let f = d@;
    let end = fields_end(h);
    assert(end == header_end(f));
    assert forall|off: int| 0 <= off implies (bit30(le32(f, off)) <==> #[trigger] f[off + 3] as int
        / 0x40 % 2 == 1) by {
        lemma_top_bits(f, off);
    }
    lemma_top_bits(f, 0x0C);
    lemma_top_bits(f, 0x84);
    if exists|i: int| 0 <= i < DUAL_FIELDS@.len() && dual_at(f, #[trigger] DUAL_FIELDS@[i] as int) {
        let i = choose|i: int|
            0 <= i < DUAL_FIELDS@.len() && dual_at(f, #[trigger] DUAL_FIELDS@[i] as int);
        let off = DUAL_FIELDS@[i] as int;
        assert(second_chip_field(off));
        assert(f[off + 3] as int / 0x40 % 2 == 1);
    }
    if exists|off: int| #[trigger]
        second_chip_field(off) && off + 4 <= end && f[off + 3] as int / 0x40 % 2 == 1 {
        let off = choose|off: int| #[trigger]
            second_chip_field(off) && off + 4 <= end && f[off + 3] as int / 0x40 % 2 == 1;
        let i = lemma_field_is_listed(off);
        assert(dual_at(f, DUAL_FIELDS@[i] as int));
    }
}

/// Bits 30 and 31 of a field are the top two bits of its last byte.
proof fn lemma_top_bits(d: Seq<u8>, off: int)
    ensures
        bit30(le32(d, off)) <==> d[off + 3] as int / 0x40 % 2 == 1,
        bit31(le32(d, off)) <==> d[off + 3] >= 0x80,
{
    let top = d[off + 3] as int;
    assert(le32(d, off) / 0x4000_0000 == top / 0x40);
}

/// Where a field stands in the list of clock fields.
proof fn lemma_field_is_listed(off: int) -> (i: int)
    requires
        second_chip_field(off),
    ensures
        0 <= i < DUAL_FIELDS@.len(),
        DUAL_FIELDS@[i] == off,
{
    let l = DUAL_FIELDS@;
    assert(l[0] == 0x10 && l[1] == 0x2C && l[2] == 0x30 && l[3] == 0x38 && l[4] == 0x40 && l[5]
        == 0x44 && l[6] == 0x48 && l[7] == 0x50 && l[8] == 0x54 && l[9] == 0x5C && l[10] == 0x6C
        && l[11] == 0x70 && l[12] == 0x74 && l[13] == 0x80 && l[14] == 0x84 && l[15] == 0x8C
        && l[16] == 0x90 && l[17] == 0x98 && l[18] == 0x9C && l[19] == 0xA4 && l[20] == 0xAC
        && l[21] == 0xC0);
    choose|i: int| 0 <= i < l.len() && l[i] == off
}

/// The volume modifier comes back from [`Header::parse`]: the byte at 0x7C holds
/// it modulo 256. Of the modifiers below -0x3E only -0x40 can be written, as
/// 0xC1. A header that ends before the byte has modifier 0.
pub proof fn lemma_written_modifier_comes_back(d: &[u8], h: Header, m: int)
    requires
        call_ensures(Header::parse, (d,), Ok::<Header, Error>(h)),
    ensures
        0x7C < fields_end(h) && -0x3E <= m <= 0xC0 && d@[0x7C] == m % 0x100 ==> h.volume_modifier
            == m,
        0x7C < fields_end(h) && d@[0x7C] == 0xC1 ==> h.volume_modifier == -0x40,
        0x7C >= fields_end(h) ==> h.volume_modifier == 0,
{
    if -0x3E <= m <= 0xC0 && d@[0x7C] == m % 0x100 {
        lemma_modifier_byte(d@[0x7C], m);
    }
    assert(fields_end(h) == header_end(d@));
    assert(h.volume_modifier == signed_modifier(byte_at(d@, 0x7C)));
}

/// A modifier modulo 256 gives the modifier back.
proof fn lemma_modifier_byte(b: u8, m: int)
    requires
        -0x3E <= m <= 0xC0,
        b == m % 0x100,
    ensures
        signed_modifier(b) == m,
{
}

/// A chip volume that a writer filled in comes back from [`Header::parse`]:
/// `extra` is where the extra header stands, `size` what it says of its size,
/// and `table` is where the volume table stands. Up to eight entries are read,
/// as far as the table and the file go.
pub proof fn lemma_written_volumes_come_back(
    d: &[u8],
    h: Header,
    extra: int,
    size: int,
    table: int,
    i: int,
    e: ChipVolume,
)
    requires
        call_ensures(Header::parse, (d,), Ok::<Header, Error>(h)),
        0xC0 <= fields_end(h),
        extra > 0xBC && holds32(d@, 0xBC, extra - 0xBC),
        size >= 12 && holds32(d@, extra, size),
        extra + 8 < table < d@.len() && holds32(d@, extra + 8, table - (extra + 8)),
    ensures
        h.chip_volume_count <= d@[table] && h.chip_volume_count <= 8,
        table + 1 + 4 * h.chip_volume_count <= d@.len(),
        h.chip_volume_count == d@[table] || h.chip_volume_count == 8 || table + 1 + 4 * (
        h.chip_volume_count + 1) > d@.len(),
        h.chip_volumes@.len() == 8,
        0 <= i < h.chip_volume_count && d@[table + 1 + 4 * i] == e.chip && d@[table + 2 + 4 * i]
            as int % 2 == e.instance && d@[table + 3 + 4 * i] == e.raw as int % 0x100 && d@[table
            + 4 + 4 * i] == e.raw as int / 0x100 ==> h.chip_volumes@[i] == e,
        h.chip_volume_count <= i < 8 ==> h.chip_volumes@[i] == (ChipVolume {
            chip: 0,
            instance: 0,
            raw: 0,
        }),
{
    let f = d@;
    lemma_field_comes_back(f, 0xBC, extra - 0xBC);
    lemma_field_comes_back(f, extra, size);
    lemma_field_comes_back(f, extra + 8, table - (extra + 8));
    assert(fields_end(h) == header_end(f));
}

/// A file without a volume table has no chip volumes: its header ends before the
/// field of the extra header, the field is 0 or points out of the file, the
/// extra header is too small for a table or says that there is none, or the
/// table would stand outside the file. All its entries are default ones.
pub proof fn lemma_no_volume_table(
    d: &[u8],
    h: Header,
    extra: int,
    size: int,
    table: int,
    empty: ChipVolume,
)
    requires
        call_ensures(Header::parse, (d,), Ok::<Header, Error>(h)),
        call_ensures(ChipVolume::default, (), empty),
        ({
            ||| fields_end(h) < 0xC0
            ||| holds32(d@, 0xBC, 0)
            ||| extra > 0xBC && holds32(d@, 0xBC, extra - 0xBC) && {
                ||| extra + 4 > d@.len()
                ||| size < 12 && holds32(d@, extra, size)
                ||| extra + 12 > d@.len()
                ||| holds32(d@, extra + 8, 0)
                ||| table >= d@.len() && holds32(d@, extra + 8, table - (extra + 8))
            }
        }),
    ensures
        h.chip_volume_count == 0,
        empty == (ChipVolume { chip: 0, instance: 0, raw: 0 }),
        forall|i: int| 0 <= i < 8 ==> #[trigger] h.chip_volumes@[i] == empty,
{
    let f = d@;
    assert(fields_end(h) == header_end(f));
    if fields_end(h) >= 0xC0 {
        if holds32(f, 0xBC, 0) {
            lemma_field_comes_back(f, 0xBC, 0);
        } else {
            lemma_field_comes_back(f, 0xBC, extra - 0xBC);
            if holds32(f, extra, size) {
                lemma_field_comes_back(f, extra, size);
            }
            if holds32(f, extra + 8, 0) {
                lemma_field_comes_back(f, extra + 8, 0);
            }
            if holds32(f, extra + 8, table - (extra + 8)) {
                lemma_field_comes_back(f, extra + 8, table - (extra + 8));
            }
        }
    }
}

/// A header that is all zero but for the fields of the file declares no chip at
/// all: its clocks are the default ones.
pub proof fn lemma_empty_header_has_default_clocks(d: &[u8], h: Header, c: Clocks)
    requires
        call_ensures(Header::parse, (d,), Ok::<Header, Error>(h)),
        call_ensures(Clocks::default, (), c),
        forall|i: int|
            0x0C <= i < 0x14 || 0x2C <= i < 0x34 || 0x38 <= i < fields_end(h) ==> d@[i] == 0,
    ensures
        h.clocks == c,
        forall|off: int| (#[trigger] named_clock(c, off)) matches Some(x) ==> x == 0,
{
    let f = d@;
    assert(fields_end(h) == header_end(f));
    assert forall|off: int|
        (0x0C <= off <= 0x10 || 0x2C <= off <= 0x30 || 0x38 <= off) && off + 4
            <= header_end(f) implies #[trigger] le32(f, off) == 0 by {}
    assert(forall|i: int|
        0 <= i < DUAL_FIELDS@.len() ==> !dual_at(f, #[trigger] DUAL_FIELDS@[i] as int));
}

} // verus!
