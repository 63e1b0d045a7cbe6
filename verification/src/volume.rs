//! Volumes: the chip volume table of the extra header and the scale factors
//! that a file asks for.

use crate::bytes::{le16, le32_or_zero, rd32_or_zero, u16_at};
use crate::header::Header;
use vstd::arithmetic::div_mod::{lemma_div_denominator, lemma_div_is_ordered};
use vstd::arithmetic::power2::{lemma2_to64, lemma_pow2_pos, lemma_pow2_unfold, pow2};
use vstd::bits::{lemma_u32_shl_is_mul, lemma_u32_shr_is_div};
use vstd::prelude::*;

verus! {

/// How many entries of the chip volume table are kept.
pub const MAX_CHIP_VOLUMES: usize = 8;

/// The scale that leaves a volume as it is: scales are in 1/256.
pub const UNITY: u32 = 256;

/// One entry of the chip volume table.
///
/// `chip` is the chip number of the VGM format; bit 7 means the paired part
/// of a composite chip (the SSG of a YM2203 or YM2608). `raw` is the field as
/// it stands: bit 15 tells a relative volume from an absolute one.
#[derive(Debug, Clone, Copy, PartialEq, Eq, Structural)]
pub struct ChipVolume {
    pub chip: u8,
    pub instance: u8,
    pub raw: u16,
}

impl Default for ChipVolume {
    fn default() -> (v: Self)
        ensures
            v == (ChipVolume { chip: 0, instance: 0, raw: 0 }),
    {
        ChipVolume { chip: 0, instance: 0, raw: 0 }
    }
}

/// Default chip volumes on the scale of libvgm, by chip number. They are
/// needed for absolute entries only: such an entry becomes a correction
/// through its ratio to the default.
pub const CHIP_BASE_VOL: [u16; 32] = [
    0x80, 0x200, 0x100, 0x100, 0x180, 0xB0, 0x100, 0x80, // SN76489..YM2608
    0x80, 0x100, 0x100, 0x100, 0x100, 0x100, 0x100, 0x98, // YM2610..YMZ280B
    0x80, 0xE0, 0x100, 0xC0, 0x100, 0x40, 0x11E, 0x1C0, // RF5C164..OKIM6258
    0x100, 0xA0, 0x100, 0x100, 0x100, 0x100, 0x100, 0x100, // OKIM6295..QSound
];

/// 2^(k/32) in 1/256.
pub const POW2_32: [u32; 32] = [
    256, 262, 267, 273, 279, 285, 292, 298, 304, 311, 318, 325, 332, 339, 347, 354, 362, 370,
    378, 386, 395, 403, 412, 421, 431, 440, 450, 459, 470, 480, 490, 501,
];

/// Where the chip volume table starts, if the file has one.
///
/// The field at 0xBC holds the offset of the extra header. The extra header
/// is its size, the offset of the clock table and the offset of the volume
/// table; each offset counts from the field that holds it.
pub open spec fn volume_table(d: Seq<u8>, hdr_end: int) -> Option<int> {
    let extra = 0xBC + le32_or_zero(d, 0xBC);
    let table = extra + 8 + le32_or_zero(d, extra + 8);
    if {
        &&& hdr_end >= 0xC0
        &&& le32_or_zero(d, 0xBC) != 0
        &&& le32_or_zero(d, extra) >= 12
        &&& le32_or_zero(d, extra + 8) != 0
        &&& table < d.len()
    } {
        Some(table)
    } else {
        None
    }
}

/// Entry `i` of the volume table at `table`: chip, flags, 16-bit volume.
pub open spec fn volume_entry(d: Seq<u8>, table: int, i: int) -> ChipVolume {
    ChipVolume {
        chip: d[table + 1 + 4 * i],
        instance: (d[table + 2 + 4 * i] % 2) as u8,
        raw: le16(d, table + 3 + 4 * i) as u16,
    }
}

/// How many entries of the table at `table` are read: as many as the table
/// announces, but no more than are kept and no more than lie in the buffer.
pub open spec fn volume_entry_count(d: Seq<u8>, table: int) -> int {
    let room = (d.len() - table - 1) / 4;
    let announced = if d[table] < MAX_CHIP_VOLUMES {
        d[table] as int
    } else {
        MAX_CHIP_VOLUMES as int
    };
    if room < announced {
        room
    } else {
        announced
    }
}

/// The chip volumes of a file whose header fields end at `hdr_end`.
pub open spec fn chip_volumes_of(d: Seq<u8>, hdr_end: int) -> Seq<ChipVolume> {
    match volume_table(d, hdr_end) {
        Some(table) => Seq::new(
            volume_entry_count(d, table) as nat,
            |i: int| volume_entry(d, table, i),
        ),
        None => Seq::empty(),
    }
}

/// `vols`, filled up with empty entries.
pub open spec fn padded(vols: Seq<ChipVolume>) -> Seq<ChipVolume> {
    Seq::new(
        MAX_CHIP_VOLUMES as nat,
        |i: int|
            if i < vols.len() {
                vols[i]
            } else {
                ChipVolume { chip: 0, instance: 0, raw: 0 }
            },
    )
}

/// The chip volume table of the extra header (VGM 1.70 and later).
///
/// Every access is checked: the header comes from a memory card, and a
/// damaged file gives an empty or a shorter table.
pub(crate) fn parse_chip_volumes(d: &[u8], hdr_end: usize) -> (r: (
    [ChipVolume; MAX_CHIP_VOLUMES],
    u8,
))
    ensures
        r.1 == chip_volumes_of(d@, hdr_end as int).len(),
        r.1 <= MAX_CHIP_VOLUMES,
        r.0@ == padded(chip_volumes_of(d@, hdr_end as int)),
{
    let mut out: [ChipVolume; MAX_CHIP_VOLUMES] = [ChipVolume { chip: 0, instance: 0, raw: 0 };
        MAX_CHIP_VOLUMES];
    let len: usize = d.len();
    if hdr_end < 0xC0 {
        return (out, 0);
    }
    let rel: usize = rd32_or_zero(d, 0xBC) as usize;
    if rel == 0 {
        return (out, 0);
    }
    let extra: usize = match rel.checked_add(0xBC) {
        Some(o) => o,
        None => return (out, 0),
    };
    if rd32_or_zero(d, extra) < 12 {
        return (out, 0);  // this extra header has no volume table
    }
    let field: usize = match extra.checked_add(8) {
        Some(o) => o,
        None => return (out, 0),
    };
    let vrel: usize = rd32_or_zero(d, field) as usize;
    if vrel == 0 {
        return (out, 0);
    }
    let table: usize = match field.checked_add(vrel) {
        Some(o) => o,
        None => return (out, 0),
    };
    if table >= len {
        return (out, 0);
    }
    let ghost vols = chip_volumes_of(d@, hdr_end as int);
    let n: usize = if (d[table] as usize) < MAX_CHIP_VOLUMES {
        d[table] as usize
    } else {
        MAX_CHIP_VOLUMES
    };
    let mut got: usize = 0;
    while got < n && len - table - 1 >= 4 * got + 4
        invariant
            table < len == d@.len(),
            n == (if d@[table as int] < MAX_CHIP_VOLUMES {
                d@[table as int] as int
            } else {
                MAX_CHIP_VOLUMES as int
            }),
            got <= n <= MAX_CHIP_VOLUMES,
            4 * got <= d@.len() - table - 1,
            out@.len() == MAX_CHIP_VOLUMES,
            forall|i: int|
                0 <= i < got ==> #[trigger] out@[i] == volume_entry(d@, table as int, i),
            forall|i: int|
                got <= i < MAX_CHIP_VOLUMES ==> #[trigger] out@[i] == (ChipVolume {
                    chip: 0,
                    instance: 0,
                    raw: 0,
                }),
        decreases n - got,
    {
        let e: usize = table + 1 + 4 * got;
        out[got] = ChipVolume { chip: d[e], instance: d[e + 1] % 2, raw: u16_at(d, e + 2) };
        got = got + 1;
    }
    assert(out@ =~= padded(vols));
    (out, got as u8)
}

/// The scale, in 1/256, that entry `e` asks for chip `chip`. A relative
/// volume is the scale itself; an absolute one is measured against the
/// chip's default. The SSG of a YM2203 is half as loud as its FM part by
/// default.
pub open spec fn entry_scale(e: ChipVolume, chip: u8) -> int {
    if e.raw >= 0x8000 {
        e.raw - 0x8000
    } else {
        e.raw * 256 / default_volume(chip)
    }
}

/// The default volume of chip number `chip`, whose bit 7 means the paired part.
pub open spec fn default_volume(chip: u8) -> int {
    let number = chip as int % 0x80;
    if chip == 0x86 {
        CHIP_BASE_VOL[6] as int / 2
    } else if number < 32 {
        CHIP_BASE_VOL[number] as int
    } else {
        0x100
    }
}

/// The scale that the entries `vols` ask for the first instance of `chip`:
/// the first entry for it counts, and without one nothing changes.
pub open spec fn chip_scale_of(vols: Seq<ChipVolume>, chip: u8) -> int
    decreases vols.len(),
{
    if vols.len() == 0 {
        UNITY as int
    } else if vols[0].chip == chip && vols[0].instance == 0 {
        entry_scale(vols[0], chip)
    } else {
        chip_scale_of(vols.drop_first(), chip)
    }
}

/// See [`entry_scale`].
fn scale_of_entry(e: ChipVolume, chip: u8) -> (r: u32)
    ensures
        r == entry_scale(e, chip),
{
    if e.raw >= 0x8000 {
        return (e.raw - 0x8000) as u32;
    }
    let number: usize = (chip % 0x80) as usize;
    let mut base: u32 = if number < 32 {
        CHIP_BASE_VOL[number] as u32
    } else {
        0x100
    };
    if chip >= 0x80 && number == 0x06 {
        base = base / 2;
    }
    assert(base > 0);
    e.raw as u32 * 256 / base
}

/// The scale that the first `count` entries of `vols` ask for `chip`.
pub(crate) fn scale_of_chip(
    vols: &[ChipVolume; MAX_CHIP_VOLUMES],
    count: usize,
    chip: u8,
) -> (r: u32)
    requires
        count <= MAX_CHIP_VOLUMES,
    ensures
        r == chip_scale_of(vols@.take(count as int), chip),
{
    let ghost all = vols@.take(count as int);
    let mut i: usize = 0;
    assert(all.skip(0) =~= all);
    while i < count
        invariant
            i <= count <= MAX_CHIP_VOLUMES,
            all == vols@.take(count as int),
            chip_scale_of(all.skip(i as int), chip) == chip_scale_of(all, chip),
        decreases count - i,
    {
        let e: ChipVolume = vols[i];
        assert(all.skip(i as int)[0] == e);
        if e.chip == chip && e.instance == 0 {
            return scale_of_entry(e, chip);
        }
        assert(all.skip(i as int).drop_first() =~= all.skip(i + 1));
        i = i + 1;
    }
    UNITY
}

/// The scale, in 1/256, of volume modifier `v`: 2^(v/32), as a whole power of
/// two (at most 8 binary places either way) times a table value for the rest.
pub open spec fn volume_scale_of(v: int) -> int {
    let whole = v / 32;
    let frac = POW2_32[v % 32] as int;
    if whole >= 0 {
        frac * pow2(at_most_8(whole))
    } else {
        frac / (pow2(at_most_8(-whole)) as int)
    }
}

/// `n`, but at most 8.
pub open spec fn at_most_8(n: int) -> nat {
    if n < 8 {
        n as nat
    } else {
        8
    }
}

/// See [`volume_scale_of`].
pub(crate) fn scale_of_modifier(v: i16) -> (r: u32)
    ensures
        r == volume_scale_of(v as int),
{
    // Counted from -0x8000, so that the quotient rounds down for negative
    // modifiers too.
    let w: u32 = (v as i32 + 0x8000) as u32;
    let frac: u32 = POW2_32[(w % 32) as usize];
    let whole: i32 = (w / 32) as i32 - 0x400;
    proof {
        lemma2_to64();
    }
    assert(frac <= 501);
    if whole >= 0 {
        let k: u32 = if whole < 8 {
            whole as u32
        } else {
            8
        };
        proof {
            assert(frac * pow2(k as nat) <= u32::MAX) by (nonlinear_arith)
                requires
                    frac <= 501,
                    pow2(k as nat) <= 256,
            ;
            lemma_u32_shl_is_mul(frac, k);
        }
        frac << k
    } else {
        let k: u32 = if -whole < 8 {
            (-whole) as u32
        } else {
            8
        };
        proof {
            lemma_u32_shr_is_div(frac, k);
        }
        frac >> k
    }
}

/// `x` to the 32nd power.
#[verifier::inline]
pub open spec fn power32(x: int) -> int {
    square(square(square(square(square(x)))))
}

/// `x` squared.
#[verifier::inline]
pub open spec fn square(x: int) -> int {
    x * x
}

/// The table is right to the last place: entry `k` is 256 * 2^(k/32), rounded
/// to the nearest whole number. (Both sides are doubled and raised to the
/// 32nd power, which takes the fraction out of the exponent.)
pub proof fn lemma_table_is_power_of_two(k: int)
    requires
        0 <= k < 32,
    ensures
        power32(2 * POW2_32[k] - 1) < pow2(k as nat) * power32(512) < power32(2 * POW2_32[k] + 1),
{
    lemma2_to64();
    assert(power32(511) < 1 * power32(512) < power32(513)) by (nonlinear_arith);
    assert(power32(523) < 2 * power32(512) < power32(525)) by (nonlinear_arith);
    assert(power32(533) < 4 * power32(512) < power32(535)) by (nonlinear_arith);
    assert(power32(545) < 8 * power32(512) < power32(547)) by (nonlinear_arith);
    assert(power32(557) < 16 * power32(512) < power32(559)) by (nonlinear_arith);
    assert(power32(569) < 32 * power32(512) < power32(571)) by (nonlinear_arith);
    assert(power32(583) < 64 * power32(512) < power32(585)) by (nonlinear_arith);
    assert(power32(595) < 128 * power32(512) < power32(597)) by (nonlinear_arith);
    assert(power32(607) < 256 * power32(512) < power32(609)) by (nonlinear_arith);
    assert(power32(621) < 512 * power32(512) < power32(623)) by (nonlinear_arith);
    assert(power32(635) < 1024 * power32(512) < power32(637)) by (nonlinear_arith);
    assert(power32(649) < 2048 * power32(512) < power32(651)) by (nonlinear_arith);
    assert(power32(663) < 4096 * power32(512) < power32(665)) by (nonlinear_arith);
    assert(power32(677) < 8192 * power32(512) < power32(679)) by (nonlinear_arith);
    assert(power32(693) < 16384 * power32(512) < power32(695)) by (nonlinear_arith);
    assert(power32(707) < 32768 * power32(512) < power32(709)) by (nonlinear_arith);
    assert(power32(723) < 65536 * power32(512) < power32(725)) by (nonlinear_arith);
    assert(power32(739) < 131072 * power32(512) < power32(741)) by (nonlinear_arith);
    assert(power32(755) < 262144 * power32(512) < power32(757)) by (nonlinear_arith);
    assert(power32(771) < 524288 * power32(512) < power32(773)) by (nonlinear_arith);
    assert(power32(789) < 1048576 * power32(512) < power32(791)) by (nonlinear_arith);
    assert(power32(805) < 2097152 * power32(512) < power32(807)) by (nonlinear_arith);
    assert(power32(823) < 4194304 * power32(512) < power32(825)) by (nonlinear_arith);
    assert(power32(841) < 8388608 * power32(512) < power32(843)) by (nonlinear_arith);
    assert(power32(861) < 16777216 * power32(512) < power32(863)) by (nonlinear_arith);
    assert(power32(879) < 33554432 * power32(512) < power32(881)) by (nonlinear_arith);
    assert(power32(899) < 67108864 * power32(512) < power32(901)) by (nonlinear_arith);
    assert(power32(917) < 134217728 * power32(512) < power32(919)) by (nonlinear_arith);
    assert(power32(939) < 268435456 * power32(512) < power32(941)) by (nonlinear_arith);
    assert(power32(959) < 536870912 * power32(512) < power32(961)) by (nonlinear_arith);
    assert(power32(979) < 1073741824 * power32(512) < power32(981)) by (nonlinear_arith);
    assert(power32(1001) < 2147483648 * power32(512) < power32(1003)) by (nonlinear_arith);
}

/// Adding 32 to a modifier doubles the scale, until the shift of 8 places is
/// used up.
pub proof fn lemma_scale_doubles(v: int)
    requires
        0 <= v < 256,
    ensures
        volume_scale_of(v + 32) == 2 * volume_scale_of(v),
{
    let whole = v / 32;
    let frac = POW2_32[v % 32] as int;
    let p = pow2(whole as nat) as int;
    assert((v + 32) / 32 == whole + 1 && (v + 32) % 32 == v % 32);
    lemma_pow2_unfold((whole + 1) as nat);
    assert(frac * (2 * p) == 2 * (frac * p)) by (nonlinear_arith);
}

/// Taking 32 from a modifier halves the scale, rounding down, until the shift
/// of 8 places is used up.
pub proof fn lemma_scale_halves(v: int)
    requires
        -224 <= v < 288,
    ensures
        volume_scale_of(v - 32) == volume_scale_of(v) / 2,
{
    let whole = v / 32;
    let frac = POW2_32[v % 32] as int;
    assert((v - 32) / 32 == whole - 1 && (v - 32) % 32 == v % 32);
    lemma2_to64();
    if whole >= 1 {
        lemma_scale_doubles(v - 32);
    } else if whole < 0 {
        let p = pow2((-whole) as nat) as int;
        lemma_pow2_pos((-whole) as nat);
        lemma_pow2_unfold((1 - whole) as nat);
        lemma_div_denominator(frac, p, 2);
    } else {
        assert(frac * 1 == frac);
    }
}

/// The scale of `v` is at least 1 and at most that of `v + 1`.
proof fn lemma_scale_step(v: int)
    requires
        v < 287,
    ensures
        1 <= volume_scale_of(v) <= volume_scale_of(v + 1),
{
    lemma2_to64();
    let whole = v / 32;
    let k = v % 32;
    let frac = POW2_32[k] as int;
    let p = pow2(at_most_8(if whole >= 0 { whole } else { -whole })) as int;
    assert(1 <= p <= 256);
    assert(256 <= frac <= 501);
    if whole >= 0 {
        assert(frac * p >= 1) by (nonlinear_arith)
            requires
                frac >= 256,
                p >= 1,
        ;
    } else {
        lemma_div_is_ordered(p, frac, p);
        assert(p / p == 1) by (nonlinear_arith)
            requires
                p >= 1,
        ;
    }
    if k < 31 {
        let next = POW2_32[k + 1] as int;
        assert((v + 1) / 32 == whole && (v + 1) % 32 == k + 1);
        assert(frac <= next);
        if whole >= 0 {
            assert(frac * p <= next * p) by (nonlinear_arith)
                requires
                    frac <= next,
                    p >= 1,
            ;
        } else {
            lemma_div_is_ordered(frac, next, p);
        }
    } else {
        assert((v + 1) / 32 == whole + 1 && (v + 1) % 32 == 0);
        assert(frac == 501 && POW2_32[0] == 256);
        if whole >= 0 {
            lemma_pow2_unfold((whole + 1) as nat);
            assert(501 * p <= 256 * (2 * p));
        } else if -8 <= whole < -1 {
            let q = pow2((-whole - 1) as nat) as int;
            lemma_pow2_pos((-whole - 1) as nat);
            lemma_pow2_unfold((-whole) as nat);
            lemma_div_denominator(frac, 2, q);
            lemma_div_is_ordered(250, 256, q);
            assert(volume_scale_of(v) == 250int / q);
        } else if whole == -1 {
            assert(501int / p == 250) by (nonlinear_arith)
                requires
                    p == 2,
            ;
            assert(volume_scale_of(v) == 250);
            assert(256 * pow2(0) == 256);
        } else {
            assert(501int / p == 1 && 256int / p == 1) by (nonlinear_arith)
                requires
                    p == 256,
            ;
            assert(volume_scale_of(v) == 1);
            assert(volume_scale_of(v + 1) == 1);
        }
    }
}

/// A modifier of 0 changes nothing, no modifier silences the file, and a larger
/// modifier never makes it quieter. (From 288 on the shift is used up, and the
/// table starts again.)
pub proof fn lemma_scale_grows(v: int, w: int)
    requires
        v <= w < 288,
    ensures
        volume_scale_of(0) == UNITY,
        1 <= volume_scale_of(v) <= volume_scale_of(w),
    decreases w - v,
{
    lemma2_to64();
    if v < w {
        lemma_scale_step(v);
        lemma_scale_grows(v + 1, w);
    } else {
        lemma_scale_step(v - 1);
    }
}

/// At most [`MAX_CHIP_VOLUMES`] entries are kept.
pub proof fn lemma_few_volumes(d: Seq<u8>, hdr_end: int)
    ensures
        chip_volumes_of(d, hdr_end).len() <= MAX_CHIP_VOLUMES,
{
}

/// The first entry for a chip counts, whatever the entries before it (for
/// other chips or for second instances) and behind it say.
pub proof fn lemma_first_entry_counts(vols: Seq<ChipVolume>, chip: u8, i: int)
    requires
        0 <= i < vols.len(),
        vols[i].chip == chip && vols[i].instance == 0,
        forall|j: int| 0 <= j < i ==> !(#[trigger] vols[j].chip == chip && vols[j].instance == 0),
    ensures
        chip_scale_of(vols, chip) == entry_scale(vols[i], chip),
    decreases i,
{
    if i > 0 {
        let rest = vols.drop_first();
        assert(!(vols[0].chip == chip && vols[0].instance == 0));
        assert forall|j: int| 0 <= j < i - 1 implies !(#[trigger] rest[j].chip == chip
            && rest[j].instance == 0) by {
            assert(rest[j] == vols[j + 1]);
        }
        lemma_first_entry_counts(rest, chip, i - 1);
    }
}

/// A chip without an entry of its own keeps its volume.
pub proof fn lemma_other_chips_are_untouched(vols: Seq<ChipVolume>, chip: u8)
    requires
        forall|j: int|
            0 <= j < vols.len() ==> !(#[trigger] vols[j].chip == chip && vols[j].instance == 0),
    ensures
        chip_scale_of(vols, chip) == UNITY,
    decreases vols.len(),
{
    if vols.len() > 0 {
        let rest = vols.drop_first();
        assert(!(vols[0].chip == chip && vols[0].instance == 0));
        assert forall|j: int| 0 <= j < rest.len() implies !(#[trigger] rest[j].chip == chip
            && rest[j].instance == 0) by {
            assert(rest[j] == vols[j + 1]);
        }
        lemma_other_chips_are_untouched(rest, chip);
    }
}

/// An absolute volume equal to the default of the chip changes nothing, and so
/// does a relative volume of one.
pub proof fn lemma_neutral_entries(e: ChipVolume, chip: u8)
    ensures
        default_volume(chip) > 0,
        e.raw == default_volume(chip) ==> entry_scale(e, chip) == UNITY,
        e.raw == 0x8000 + UNITY ==> entry_scale(e, chip) == UNITY,
{
    let base = default_volume(chip);
    assert(0 < base <= 0x200);
    assert(base * 256 / base == 256) by (nonlinear_arith)
        requires
            base > 0,
    ;
}

/// The default volume of a chip by its name: 0x100 but for those listed. The SSG
/// of a YM2203 is the one paired part with a default of its own.
pub open spec fn volume_by_name(chip: u8) -> int {
    let number = chip as int % 0x80;
    if number == 0x00 {
        0x80  // SN76489
    } else if number == 0x01 {
        0x200  // YM2413
    } else if number == 0x04 {
        0x180  // SegaPCM
    } else if number == 0x05 {
        0xB0  // RF5C68
    } else if chip == 0x86 {
        0x80  // SSG of a YM2203
    } else if number == 0x07 || number == 0x08 {
        0x80  // YM2608, YM2610
    } else if number == 0x0F {
        0x98  // YMZ280B
    } else if number == 0x10 {
        0x80  // RF5C164
    } else if number == 0x11 {
        0xE0  // PWM
    } else if number == 0x13 {
        0xC0  // Game Boy
    } else if number == 0x15 {
        0x40  // MultiPCM
    } else if number == 0x16 {
        0x11E  // uPD7759
    } else if number == 0x17 {
        0x1C0  // OKIM6258
    } else if number == 0x19 {
        0xA0  // K051649
    } else {
        0x100
    }
}

/// What [`Header::chip_scale`] makes of the first entry for the first instance
/// of a chip, entry `i`. A relative volume, with the top bit set, is the scale
/// itself, louder or quieter. Of an absolute volume the scale is its ratio to
/// the default volume, in 1/256 and rounded down.
pub proof fn lemma_entry_sets_the_scale(h: &Header, chip: u8, r: u32, i: int)
    requires
        h.wf(),
        call_ensures(Header::chip_scale, (h, chip), r),
        0 <= i < h.chip_volume_count,
        h.chip_volumes@[i].chip == chip && h.chip_volumes@[i].instance == 0,
        forall|j: int|
            0 <= j < i ==> (#[trigger] h.chip_volumes@[j]).chip != chip
                || h.chip_volumes@[j].instance != 0,
    ensures
        ({
            let raw = h.chip_volumes@[i].raw as int;
            let base = volume_by_name(chip);
            &&& raw >= 0x8000 ==> r == raw - 0x8000
            &&& raw < 0x8000 ==> r * base <= raw * 256 < (r + 1) * base
        }),
{
    let vols = h.volumes();
    let raw = h.chip_volumes@[i].raw as int;
    let base = volume_by_name(chip);
    assert(vols[i] == h.chip_volumes@[i]);
    assert forall|j: int| 0 <= j < i implies !(#[trigger] vols[j].chip == chip && vols[j].instance
        == 0) by {
        assert(vols[j] == h.chip_volumes@[j]);
    }
    lemma_first_entry_counts(vols, chip, i);
    lemma_default_by_name(chip);
    if raw < 0x8000 {
        assert(r == raw * 256 / base);
        assert(r * base <= raw * 256 < (r + 1) * base) by (nonlinear_arith)
            requires
                base > 0,
                r == raw * 256 / base,
        ;
    }
}

/// The table of default volumes holds what the chips' names say.
proof fn lemma_default_by_name(chip: u8)
    ensures
        default_volume(chip) == volume_by_name(chip),
        volume_by_name(chip) > 0,
{
    let number = chip as int % 0x80;
    let t = CHIP_BASE_VOL@;
    assert(t[0] == 0x80 && t[1] == 0x200 && t[2] == 0x100 && t[3] == 0x100 && t[4] == 0x180
        && t[5] == 0xB0 && t[6] == 0x100 && t[7] == 0x80);
    assert(t[8] == 0x80 && t[9] == 0x100 && t[10] == 0x100 && t[11] == 0x100 && t[12] == 0x100
        && t[13] == 0x100 && t[14] == 0x100 && t[15] == 0x98);
    assert(t[16] == 0x80 && t[17] == 0xE0 && t[18] == 0x100 && t[19] == 0xC0 && t[20] == 0x100
        && t[21] == 0x40 && t[22] == 0x11E && t[23] == 0x1C0);
    assert(t[24] == 0x100 && t[25] == 0xA0 && t[26] == 0x100 && t[27] == 0x100 && t[28] == 0x100
        && t[29] == 0x100 && t[30] == 0x100 && t[31] == 0x100);
}

/// Without an entry for its first instance a chip keeps its volume: what
/// [`Header::chip_scale`] gives is the neutral scale.
pub proof fn lemma_no_entry_keeps_the_scale(h: &Header, chip: u8, r: u32)
    requires
        h.wf(),
        call_ensures(Header::chip_scale, (h, chip), r),
        forall|j: int|
            0 <= j < h.chip_volume_count ==> (#[trigger] h.chip_volumes@[j]).chip != chip
                || h.chip_volumes@[j].instance != 0,
    ensures
        r == 256,
{
    let vols = h.volumes();
    assert forall|j: int| 0 <= j < vols.len() implies !(#[trigger] vols[j].chip == chip
        && vols[j].instance == 0) by {
        assert(vols[j] == h.chip_volumes@[j]);
    }
    lemma_other_chips_are_untouched(vols, chip);
}

/// For the modifiers 0 to 31 [`Header::volume_scale`] gives 256 * 2^(v/32),
/// rounded to the nearest whole number. (Both sides are doubled and raised to
/// the 32nd power.)
pub proof fn lemma_volume_scale_is_power_of_two(h: &Header, r: u32)
    requires
        call_ensures(Header::volume_scale, (h,), r),
        0 <= h.volume_modifier < 32,
    ensures
        nearest_to_power(r as int, h.volume_modifier as nat),
{
    let v = h.volume_modifier as int;
    lemma_table_is_nearest(v);
    lemma_first_octave(v);
}

/// `s` is the whole number nearest to 256 * 2^(v/32).
pub open spec fn nearest_to_power(s: int, v: nat) -> bool {
    power32(2 * s - 1) < pow2(v) * power32(512) < power32(2 * s + 1)
}

proof fn lemma_table_is_nearest(k: int)
    requires
        0 <= k < 32,
    ensures
        nearest_to_power(POW2_32[k] as int, k as nat),
{
    lemma_table_is_power_of_two(k);
}

/// For the modifiers 0 to 31 the scale is a table value.
proof fn lemma_first_octave(v: int)
    requires
        0 <= v < 32,
    ensures
        volume_scale_of(v) == POW2_32[v],
{
    lemma2_to64();
    assert(v / 32 == 0 && v % 32 == v);
    assert(POW2_32[v] * pow2(0) == POW2_32[v]);
}

/// Every step of 32 up doubles what [`Header::volume_scale`] gives, and every
/// step of 32 down halves it, rounding down once for all steps together. Steps
/// beyond the eighth change nothing.
pub proof fn lemma_volume_scale_by_octaves(a: &Header, b: &Header, ra: u32, rb: u32, n: nat)
    requires
        call_ensures(Header::volume_scale, (a,), ra),
        call_ensures(Header::volume_scale, (b,), rb),
        0 <= a.volume_modifier < 32,
    ensures
        ({
            let p = pow2(if n < 8 { n } else { 8 }) as int;
            &&& b.volume_modifier == a.volume_modifier + 32 * n ==> rb == ra * p
            &&& b.volume_modifier == a.volume_modifier - 32 * n ==> rb == ra as int / p
        }),
{
    let v = a.volume_modifier as int;
    lemma_first_octave(v);
    lemma2_to64();
    assert((v + 32 * n) / 32 == n && (v + 32 * n) % 32 == v);
    assert((v - 32 * n) / 32 == -n && (v - 32 * n) % 32 == v);
    if n == 0 {
        assert(ra as int / 1 == ra);
    }
}

} // verus!
