use vgm_core::{ChipVolume, Clocks, Error, Header, MAX_CHIP_VOLUMES, TICK_RATE, VGM_MAGIC};

fn put32(v: &mut [u8], off: usize, x: u32) {
    v[off..off + 4].copy_from_slice(&x.to_le_bytes());
}

/// A file of `len` bytes whose data start at `data`.
fn file(len: usize, version: u32, data: usize) -> Vec<u8> {
    let mut v = vec![0u8; len];
    v[0..4].copy_from_slice(VGM_MAGIC);
    put32(&mut v, 0x08, version);
    put32(&mut v, 0x34, (data - 0x34) as u32);
    v
}

fn error(d: &[u8]) -> Option<Error> {
    Header::parse(d).err()
}

#[test]
fn refused_headers() {
    let v = file(0x81, 0x151, 0x80);
    assert_eq!(error(&v), None);
    assert_eq!(error(&v[..0x3F]), Some(Error::TooShort));
    assert_eq!(error(&v[..0x80]), Some(Error::BadOffset));
    for i in 0..4 {
        let mut w = v.clone();
        w[i] ^= 1;
        assert_eq!(error(&w), Some(Error::BadMagic));
    }
    let mut w = v.clone();
    put32(&mut w, 0x34, u32::MAX);
    assert_eq!(error(&w), Some(Error::BadOffset));
    let mut w = v.clone();
    put32(&mut w, 0x1C, 0x81 - 0x1C);
    assert_eq!(error(&w), Some(Error::BadOffset));
    put32(&mut w, 0x1C, u32::MAX);
    assert_eq!(error(&w), Some(Error::BadOffset));
    put32(&mut w, 0x1C, 0x80 - 0x1C);
    assert_eq!(Header::parse(&w).unwrap().loop_offset, Some(0x80));
}

#[test]
fn old_versions_have_a_fixed_data_offset() {
    let mut v = file(0x41, 0x101, 0x80);
    let h = Header::parse(&v).unwrap();
    assert_eq!((h.version, h.data_offset), (0x101, 0x40));
    v.pop();
    assert_eq!(error(&v), Some(Error::BadOffset));
}

#[test]
fn times_and_tag_offset() {
    let mut v = file(0x81, 0x150, 0x80);
    put32(&mut v, 0x18, 44_100);
    put32(&mut v, 0x20, 22_050);
    let h = Header::parse(&v).unwrap();
    assert_eq!((h.total_ticks / TICK_RATE, h.loop_ticks), (1, 22_050));
    assert_eq!(h.gd3_offset, None);
    assert_eq!(h.loop_offset, None);
    // the tag offset is not checked here
    put32(&mut v, 0x14, 0x1000);
    assert_eq!(Header::parse(&v).unwrap().gd3_offset, Some(0x1014));
    put32(&mut v, 0x14, u32::MAX);
    assert_eq!(Header::parse(&v).unwrap().gd3_offset, Some(0x14 + u32::MAX as usize));
}

#[test]
fn fields_behind_the_header_are_not_read() {
    // a 1.51 header up to 0x40; everything behind it is sound data
    let mut v = file(0x200, 0x151, 0x40);
    for b in v[0x40..].iter_mut() {
        *b = 0xFF;
    }
    let c = Header::parse(&v).unwrap().clocks;
    assert_eq!((c.rf5c68, c.ym2203, c.ay8910, c.huc6280, c.wonderswan), (0, 0, 0, 0, 0));
    assert_eq!((c.ay_flags, c.okim6258_flags), (0, 0));
    assert!(!c.fds && !c.second_chip);
    let h = Header::parse(&v).unwrap();
    assert_eq!((h.volume_modifier, h.chip_volume_count), (0, 0));
}

#[test]
fn every_clock_drops_its_flags() {
    let mut v = file(0x101, 0x171, 0x100);
    for off in (0x0C..0x100).step_by(4) {
        if off != 0x1C && off != 0x34 {
            put32(&mut v, off, 0xC000_0000 + off as u32);
        }
    }
    let c = Header::parse(&v).unwrap().clocks;
    assert_eq!((c.sn76489, c.ym2413, c.ym2612, c.ym2151), (0x0C, 0x10, 0x2C, 0x30));
    assert_eq!((c.sega_pcm, c.sega_pcm_iface, c.rf5c68), (0x38, 0x3C, 0x40));
    assert_eq!((c.ym2203, c.ym2608, c.ym3812, c.ym3526), (0x44, 0x48, 0x50, 0x54));
    assert_eq!((c.ymf262, c.rf5c164, c.pwm, c.ay8910), (0x5C, 0x6C, 0x70, 0x74));
    assert_eq!((c.gb_dmg, c.nes_apu, c.upd7759, c.okim6258), (0x80, 0x84, 0x8C, 0x90));
    assert_eq!((c.okim6295, c.k051649, c.huc6280, c.k053260), (0x98, 0x9C, 0xA4, 0xAC));
    assert_eq!(c.wonderswan, 0xC0);
    assert!(c.fds && c.sn_dual && c.sn_t6w28 && c.second_chip);
}

#[test]
fn each_dual_field_declares_a_second_chip() {
    for off in [
        0x10, 0x2C, 0x30, 0x38, 0x40, 0x44, 0x48, 0x50, 0x54, 0x5C, 0x6C, 0x70, 0x74, 0x80, 0x84,
        0x8C, 0x90, 0x98, 0x9C, 0xA4, 0xAC, 0xC0,
    ] {
        let mut v = file(0x101, 0x171, 0x100);
        assert!(!Header::parse(&v).unwrap().clocks.second_chip);
        put32(&mut v, off, 0x8000_0001);
        assert!(!Header::parse(&v).unwrap().clocks.second_chip);
        put32(&mut v, off, 0x4000_0001);
        assert!(Header::parse(&v).unwrap().clocks.second_chip);
    }
    // a field that is no clock does not count
    for off in [0x18, 0x20, 0x3C, 0x78, 0x7C, 0x94] {
        let mut v = file(0x101, 0x171, 0x100);
        put32(&mut v, off, 0x4000_0001);
        assert!(!Header::parse(&v).unwrap().clocks.second_chip);
    }
}

#[test]
fn a_second_wonderswan_is_declared() {
    let mut v = file(0x100, 0x171, 0x100);
    put32(&mut v, 0xC0, 3_072_000 | 0x4000_0000);
    v.push(0x66);
    let c = Header::parse(&v).unwrap().clocks;
    assert_eq!(c.wonderswan, 3_072_000);
    assert!(c.second_chip);
}

#[test]
fn flags_leave_the_clock_alone() {
    let mut v = file(0x101, 0x171, 0x100);
    for flags in [0u32, 0x4000_0000, 0x8000_0000, 0xC000_0000] {
        put32(&mut v, 0x44, 3_993_600 | flags);
        assert_eq!(Header::parse(&v).unwrap().clocks.ym2203, 3_993_600);
    }
}

#[test]
fn flag_bytes_and_the_interface_register() {
    let mut v = file(0x101, 0x151, 0x100);
    put32(&mut v, 0x3C, 0x00F8_000D);
    v[0x79] = 0x11;
    v[0x94] = 0x22;
    let c = Header::parse(&v).unwrap().clocks;
    assert_eq!((c.sega_pcm_iface, c.ay_flags, c.okim6258_flags), (0x00F8_000D, 0x11, 0x22));
    put32(&mut v, 0x08, 0x150);
    assert_eq!(Header::parse(&v).unwrap().clocks.sega_pcm_iface, 0);
}

#[test]
fn defaults_are_empty() {
    let c = Clocks::default();
    assert_eq!((c.sn76489, c.rf5c68, c.fds, c.second_chip), (0, 0, false, false));
    assert_eq!(ChipVolume::default(), ChipVolume { chip: 0, instance: 0, raw: 0 });
}

/// A file with a volume table of `n` announced entries, of which `entries` are
/// written at the very end of the file.
fn with_volumes(n: u8, entries: &[[u8; 4]]) -> Vec<u8> {
    let mut v = file(0x100, 0x171, 0x100);
    put32(&mut v, 0xBC, 0xC0 - 0xBC);
    put32(&mut v, 0xC0, 12);
    put32(&mut v, 0xC8, 0x100 - 0xC8);
    v.push(n);
    for e in entries {
        v.extend_from_slice(e);
    }
    v
}

#[test]
fn volume_tables_are_bounded() {
    let e = [0x12, 0xFF, 0x00, 0x81];
    let want = ChipVolume { chip: 0x12, instance: 1, raw: 0x8100 };
    // two announced, one there
    let h = Header::parse(&with_volumes(2, &[e])).unwrap();
    assert_eq!(h.chip_volume_count, 1);
    assert_eq!(h.chip_volumes[0], want);
    assert_eq!(h.chip_volumes[1], ChipVolume::default());
    // ten announced, eight kept
    let h = Header::parse(&with_volumes(10, &[e; 10])).unwrap();
    assert_eq!(h.chip_volume_count as usize, MAX_CHIP_VOLUMES);
    assert_eq!(h.chip_volumes, [want; MAX_CHIP_VOLUMES]);
    // one announced, two there
    assert_eq!(Header::parse(&with_volumes(1, &[e; 2])).unwrap().chip_volume_count, 1);
}

#[test]
fn damaged_extra_headers_give_no_volumes() {
    let v = with_volumes(1, &[[1, 0, 2, 0x80]]);
    assert_eq!(Header::parse(&v).unwrap().chip_volume_count, 1);
    for (off, x) in [
        (0xBCusize, 0u32),
        (0xBC, u32::MAX),
        (0xBC, 0x1000),
        (0xC0, 11),
        (0xC8, 0),
        (0xC8, u32::MAX),
    ] {
        let mut w = v.clone();
        put32(&mut w, off, x);
        let h = Header::parse(&w).unwrap();
        assert_eq!(h.chip_volume_count, 0);
        assert_eq!(h.chip_volumes, [ChipVolume::default(); MAX_CHIP_VOLUMES]);
    }
    // a header that ends before the field
    let mut w = v.clone();
    put32(&mut w, 0x34, 0xBF - 0x34);
    assert_eq!(Header::parse(&w).unwrap().chip_volume_count, 0);
}

#[test]
fn chip_scales() {
    let h = Header::parse(&with_volumes(
        7,
        &[
            [0x06, 1, 0x00, 0x81], // second instance: does not count
            [0x06, 0, 0x80, 0x81], // relative 0x180
            [0x06, 0, 0x00, 0x80], // a later entry does not count
            [0x86, 0, 0x80, 0x00], // absolute 0x80, the default of the SSG
            [0x00, 0, 0x00, 0x01], // absolute 0x100 against a default of 0x80
            [0x16, 0, 0x00, 0x01], // absolute 0x100 against a default of 0x11E
            [0x30, 0, 0x00, 0x02], // behind the list of defaults: 0x100
        ],
    ))
    .unwrap();
    assert_eq!(h.chip_scale(0x06), 0x180);
    assert_eq!(h.chip_scale(0x86), 256);
    assert_eq!(h.chip_scale(0x00), 512);
    assert_eq!(h.chip_scale(0x16), 0x100 * 256 / 0x11E);
    assert_eq!(h.chip_scale(0x30), 512);
    assert_eq!(h.chip_scale(0x01), 256);
}

#[test]
fn volume_scales() {
    let mut v = file(0x81, 0x160, 0x80);
    let mut scale = |b: u8| {
        v[0x7C] = b;
        Header::parse(&v).unwrap().volume_scale()
    };
    assert_eq!(scale(0x01), 262);
    assert_eq!(scale(0x1F), 501);
    assert_eq!(scale(0x21), 524);
    assert_eq!(scale(0xC0), 256 << 6);
    assert_eq!(scale(0xC1), 64);
    assert_eq!(scale(0xC2), 267 >> 2);
    assert_eq!(scale(0xFF), 501 >> 1);
    // larger modifiers are never quieter, and 32 more is twice as loud
    for b in 0u8..0xA0 {
        assert!(scale(b) <= scale(b + 1));
        assert_eq!(scale(b + 32), 2 * scale(b));
    }
}

#[test]
fn volume_scale_is_capped() {
    let mut h = Header::parse(&file(0x81, 0x160, 0x80)).unwrap();
    h.volume_modifier = i16::MAX;
    assert_eq!(h.volume_scale(), 501 << 8);
    h.volume_modifier = i16::MIN;
    assert_eq!(h.volume_scale(), 1);
    h.volume_modifier = 288;
    assert_eq!(h.volume_scale(), 256 << 8);
    h.volume_modifier = 287;
    assert_eq!(h.volume_scale(), 501 << 8);
}

/// Table entry `k` is 256 * 2^(k/32), rounded.
#[test]
fn scale_table_is_rounded() {
    let mut h = Header::parse(&file(0x81, 0x160, 0x80)).unwrap();
    for k in 0..32 {
        h.volume_modifier = k;
        let exact = 256.0 * 2f64.powf(k as f64 / 32.0);
        assert_eq!(h.volume_scale(), exact.round() as u32);
    }
}
