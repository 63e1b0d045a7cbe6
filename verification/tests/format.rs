use vgm_core::{Chip, ChipVolume, Event, Header, Reader, VGM_MAGIC};

/// A minimal valid VGM 1.51 file with a YM2151.
fn synth_vgm(body: &[u8], loop_at: Option<usize>) -> Vec<u8> {
    let mut v = vec![0u8; 0x80];
    v[0..4].copy_from_slice(VGM_MAGIC);
    v[0x08..0x0C].copy_from_slice(&0x0151u32.to_le_bytes());
    v[0x30..0x34].copy_from_slice(&4_000_000u32.to_le_bytes());
    v[0x34..0x38].copy_from_slice(&(0x80u32 - 0x34).to_le_bytes());
    if let Some(off) = loop_at {
        v[0x1C..0x20].copy_from_slice(&((0x80 + off - 0x1C) as u32).to_le_bytes());
    }
    v.extend_from_slice(body);
    let eof = (v.len() - 4) as u32;
    v[0x04..0x08].copy_from_slice(&eof.to_le_bytes());
    v
}

#[test]
fn parses_header_and_commands() {
    let body = [
        0x54, 0x28, 0x4A, // YM2151 reg 0x28 = 0x4A
        0x61, 0xDF, 0x02, // wait 735
        0x73,             // wait 4
        0x66,             // end
    ];
    let d = synth_vgm(&body, None);
    let h = Header::parse(&d).unwrap();
    assert_eq!(h.version, 0x151);
    assert_eq!(h.clocks.ym2151, 4_000_000);
    assert_eq!(h.data_offset, 0x80);
    assert!(h.loop_offset.is_none());

    let mut r = Reader::new(&d, h.data_offset);
    assert_eq!(
        r.next_event().unwrap(),
        Event::Write { chip: Chip::Ym2151, port: 0, addr: 0x28, data: 0x4A }
    );
    assert_eq!(r.next_event().unwrap(), Event::Wait { ticks: 735 });
    assert_eq!(r.next_event().unwrap(), Event::Wait { ticks: 4 });
    assert_eq!(r.next_event().unwrap(), Event::End);
}

#[test]
fn parses_scc_write() {
    // 0xD2 pp aa dd: K051649 write (port, register, data)
    let body = [0xD2, 0x01, 0x00, 0xFD, 0x66];
    let d = synth_vgm(&body, None);
    let h = Header::parse(&d).unwrap();
    let mut r = Reader::new(&d, h.data_offset);
    assert_eq!(
        r.next_event().unwrap(),
        Event::Write { chip: Chip::K051649, port: 0x01, addr: 0x00, data: 0xFD }
    );
    assert_eq!(r.next_event().unwrap(), Event::End);
}

#[test]
fn parses_k053260_write() {
    // 0xBA aa dd: K053260 write
    let body = [0xBA, 0x0F, 0x40, 0x66];
    let d = synth_vgm(&body, None);
    let h = Header::parse(&d).unwrap();
    let mut r = Reader::new(&d, h.data_offset);
    assert_eq!(
        r.next_event().unwrap(),
        Event::Write { chip: Chip::K053260, port: 0, addr: 0x0F, data: 0x40 }
    );
}

#[test]
fn parses_opl_writes() {
    // 0x5A (YM3812) and 0x5F (YMF262 port 1): Chip::Opl with the right bank
    let body = [0x5A, 0x20, 0x01, 0x5F, 0xA0, 0x44, 0x66];
    let d = synth_vgm(&body, None);
    let h = Header::parse(&d).unwrap();
    let mut r = Reader::new(&d, h.data_offset);
    assert_eq!(
        r.next_event().unwrap(),
        Event::Write { chip: Chip::Opl, port: 0, addr: 0x20, data: 0x01 }
    );
    assert_eq!(
        r.next_event().unwrap(),
        Event::Write { chip: Chip::Opl, port: 1, addr: 0xA0, data: 0x44 }
    );
    assert_eq!(r.next_event().unwrap(), Event::End);
}

#[test]
fn data_block_and_loop() {
    let body = [
        0x67, 0x66, 0x80, 0x04, 0x00, 0x00, 0x00, 1, 2, 3, 4, // SegaPCM block
        0x54, 0x08, 0x00,
        0x66,
    ];
    let d = synth_vgm(&body, Some(11));
    let h = Header::parse(&d).unwrap();
    assert_eq!(h.loop_offset, Some(0x80 + 11));

    let mut r = Reader::new(&d, h.data_offset);
    match r.next_event().unwrap() {
        Event::DataBlock { kind: 0x80, start, len: 4 } => {
            assert_eq!(&d[start..start + 4], &[1, 2, 3, 4]);
        }
        e => panic!("not a block: {e:?}"),
    }
    assert_eq!(r.pos, h.loop_offset.unwrap());
}

#[test]
fn parses_opn_writes() {
    // 0x55 YM2203, 0x56/0x57 YM2608 port 0/1: Chip::Opn
    let body = [0x55, 0x07, 0x38, 0x56, 0x00, 0xFE, 0x57, 0xB4, 0xC0, 0x66];
    let d = synth_vgm(&body, None);
    let h = Header::parse(&d).unwrap();
    let mut r = Reader::new(&d, h.data_offset);
    assert_eq!(
        r.next_event().unwrap(),
        Event::Write { chip: Chip::Opn, port: 0, addr: 0x07, data: 0x38 }
    );
    assert_eq!(
        r.next_event().unwrap(),
        Event::Write { chip: Chip::Opn, port: 0, addr: 0x00, data: 0xFE }
    );
    assert_eq!(
        r.next_event().unwrap(),
        Event::Write { chip: Chip::Opn, port: 1, addr: 0xB4, data: 0xC0 }
    );
    assert_eq!(r.next_event().unwrap(), Event::End);
}

/// The offsets of the clock fields. A miss by one byte would read a HuC6280
/// clock of 14 kHz in place of 3.58 MHz.
#[test]
fn clock_fields_sit_at_documented_offsets() {
    let mut v = vec![0u8; 0x100];
    v[0..4].copy_from_slice(VGM_MAGIC);
    v[0x08..0x0C].copy_from_slice(&0x0161u32.to_le_bytes());
    // header up to 0x100, so that the fields behind 0x80 lie inside
    v[0x34..0x38].copy_from_slice(&(0x100u32 - 0x34).to_le_bytes());
    let fields: [(usize, u32); 8] = [
        (0x0C, 3_579_545),  // SN76489
        (0x2C, 7_670_453),  // YM2612
        (0x30, 4_000_000),  // YM2151
        (0x44, 3_993_600),  // YM2203
        (0x48, 7_987_200),  // YM2608
        (0x5C, 14_318_180), // YMF262
        (0x9C, 1_789_772),  // K051649
        (0xA4, 3_579_545),  // HuC6280
    ];
    for (off, val) in fields {
        v[off..off + 4].copy_from_slice(&val.to_le_bytes());
    }
    v.push(0x66);
    let eof = (v.len() - 4) as u32;
    v[0x04..0x08].copy_from_slice(&eof.to_le_bytes());

    let c = Header::parse(&v).unwrap().clocks;
    assert_eq!(c.sn76489, 3_579_545);
    assert_eq!(c.ym2612, 7_670_453);
    assert_eq!(c.ym2151, 4_000_000);
    assert_eq!(c.ym2203, 3_993_600);
    assert_eq!(c.ym2608, 7_987_200);
    assert_eq!(c.ymf262, 14_318_180);
    assert_eq!(c.k051649, 1_789_772);
    assert_eq!(c.huc6280, 3_579_545);
}

/// Chips that are not played but must be named: the PWM of a 32X, the uPD7759
/// of a Sega Pico, the WonderSwan. The flag of the Famicom disk system is the
/// top bit of the NES APU field and must be seen although the clock drops it.
#[test]
fn declared_but_silent_chips_are_recognised() {
    let mut v = vec![0u8; 0x100];
    v[0..4].copy_from_slice(VGM_MAGIC);
    v[0x08..0x0C].copy_from_slice(&0x0171u32.to_le_bytes());
    v[0x34..0x38].copy_from_slice(&(0x100u32 - 0x34).to_le_bytes());
    v[0x70..0x74].copy_from_slice(&23_011_360u32.to_le_bytes());
    v[0x8C..0x90].copy_from_slice(&0x800F_4240u32.to_le_bytes());
    v[0xC0..0xC4].copy_from_slice(&3_072_000u32.to_le_bytes());
    v[0x84..0x88].copy_from_slice(&0x801B_4F4Du32.to_le_bytes());
    v.push(0x66);
    let eof = (v.len() - 4) as u32;
    v[0x04..0x08].copy_from_slice(&eof.to_le_bytes());

    let c = Header::parse(&v).unwrap().clocks;
    assert_eq!(c.pwm, 23_011_360);
    assert_eq!(c.upd7759, 1_000_000);
    assert_eq!(c.wonderswan, 3_072_000);
    assert!(c.fds);
    // the APU keeps its true frequency, without the flag
    assert_eq!(c.nes_apu, 1_789_773);
}

/// The Game Gear stereo mask is no PSG write. As PSG data its usual value 0xFF
/// would mean "channel 3, volume, attenuation 15" and mute the noise.
#[test]
fn gg_stereo_is_not_a_psg_write() {
    let body = [0x4F, 0xFF, 0x50, 0x9F, 0x3F, 0x11, 0x66];
    let d = synth_vgm(&body, None);
    let h = Header::parse(&d).unwrap();
    let mut r = Reader::new(&d, h.data_offset);
    assert_eq!(r.next_event().unwrap(), Event::GgStereo { chip2: false, mask: 0xFF });
    // the real PSG write comes next, unharmed
    assert_eq!(
        r.next_event().unwrap(),
        Event::Write { chip: Chip::Sn76489, port: 0, addr: 0, data: 0x9F }
    );
    assert_eq!(r.next_event().unwrap(), Event::GgStereo { chip2: true, mask: 0x11 });
    assert_eq!(r.next_event().unwrap(), Event::End);
}

/// Writes for the second instance of a chip must not reach the first.
#[test]
fn second_chip_writes_do_not_reach_the_first() {
    let body = [
        0xA0, 0x07, 0x38, // AY: register 7 of the first chip
        0xA0, 0x87, 0x38, // AY: the same register of the second chip (bit 7)
        0xA2, 0x28, 0x00, // second YM2612, port 0 (mirror of 0x52)
        0xB4, 0x95, 0x1F, // second NES APU (bit 7 of the register byte)
        0x66,
    ];
    let d = synth_vgm(&body, None);
    let h = Header::parse(&d).unwrap();
    let mut r = Reader::new(&d, h.data_offset);
    assert_eq!(
        r.next_event().unwrap(),
        Event::Write { chip: Chip::Ay8910, port: 0, addr: 0x07, data: 0x38 }
    );
    assert_eq!(r.next_event().unwrap(), Event::SecondChip { cmd: 0xA0 });
    assert_eq!(r.next_event().unwrap(), Event::SecondChip { cmd: 0xA2 });
    assert_eq!(r.next_event().unwrap(), Event::SecondChip { cmd: 0xB4 });
    assert_eq!(r.next_event().unwrap(), Event::End);
}

/// Chip volumes from the extra header, with values as real files have them:
/// YM2203 files ask for an SSG 1.602 times louder than the default.
#[test]
fn chip_volumes_from_extra_header() {
    let mut v = vec![0u8; 0x100];
    v[0..4].copy_from_slice(VGM_MAGIC);
    v[0x08..0x0C].copy_from_slice(&0x0171u32.to_le_bytes());
    v[0x34..0x38].copy_from_slice(&(0x100u32 - 0x34).to_le_bytes());
    v[0x44..0x48].copy_from_slice(&3_993_600u32.to_le_bytes()); // YM2203
    // extra header at 0xC0: size 12, no clocks, volumes at +4
    v[0xBC..0xC0].copy_from_slice(&(0xC0u32 - 0xBC).to_le_bytes());
    v[0xC0..0xC4].copy_from_slice(&12u32.to_le_bytes());
    v[0xC4..0xC8].copy_from_slice(&0u32.to_le_bytes());
    v[0xC8..0xCC].copy_from_slice(&4u32.to_le_bytes());
    // The table lies at 0xC0 + 8 + 4 = 0xCC: one entry, the SSG of a
    // YM2203 (0x86), relative 0x819A
    v[0xCC..0xD1].copy_from_slice(&[1, 0x86, 0x00, 0x9A, 0x81]);
    v.push(0x66);
    let eof = (v.len() - 4) as u32;
    v[0x04..0x08].copy_from_slice(&eof.to_le_bytes());

    let h = Header::parse(&v).unwrap();
    assert_eq!(h.chip_volume_count, 1);
    assert_eq!(h.chip_volumes[0], ChipVolume { chip: 0x86, instance: 0, raw: 0x819A });
    assert_eq!(h.chip_scale(0x86), 0x19A); // 410/256 = 1.602x
    assert_eq!(h.chip_scale(0x06), 256); // the FM part is untouched
    assert_eq!(h.chip_scale(0x12), 256); // and so is another chip
    assert_eq!(h.volume_scale(), 256); // no modifier is set
}

/// The volume modifier of the file: a factor of 2^(v/32), signed, with the
/// special case 0xC1.
#[test]
fn volume_modifier_matches_reference() {
    let mut v = synth_vgm(&[0x66], None);
    let set = |v: &mut Vec<u8>, b: u8| {
        v[0x7C] = b;
        Header::parse(v).unwrap()
    };
    assert_eq!(set(&mut v, 0x00).volume_scale(), 256); // no change
    assert_eq!(set(&mut v, 0x20).volume_scale(), 512); // exactly twice
    assert_eq!(set(&mut v, 0x40).volume_scale(), 1024); // four times
    assert_eq!(set(&mut v, 0xE0).volume_scale(), 128); // -0x20: half
    // 0xC1 is -0x40 and not -0x3F: 2^-2 = 0.25
    assert_eq!(set(&mut v, 0xC1).volume_scale(), 64);
    assert_eq!(set(&mut v, 0x10).volume_modifier, 0x10);
    assert_eq!(set(&mut v, 0xFF).volume_modifier, -1);
}

/// Bit 30 of a clock field declares a second instance. For the SN76489 it
/// means a T6W28 together with bit 31, and that is one chip.
#[test]
fn second_chip_flag_separates_t6w28() {
    let mut v = synth_vgm(&[0x66], None);
    assert!(!Header::parse(&v).unwrap().clocks.second_chip);

    // second YM2612
    v[0x2C..0x30].copy_from_slice(&(7_670_453u32 | 0x4000_0000).to_le_bytes());
    assert!(Header::parse(&v).unwrap().clocks.second_chip);
    v[0x2C..0x30].copy_from_slice(&0u32.to_le_bytes());

    // T6W28 (Neo Geo Pocket): bits 30 and 31 at once are no second chip
    v[0x0C..0x10].copy_from_slice(&(3_072_000u32 | 0xC000_0000).to_le_bytes());
    let c = Header::parse(&v).unwrap().clocks;
    assert!(c.sn_t6w28 && c.sn_dual);
    assert!(!c.second_chip);

    // bit 30 alone is a real second chip
    v[0x0C..0x10].copy_from_slice(&(3_579_545u32 | 0x4000_0000).to_le_bytes());
    assert!(Header::parse(&v).unwrap().clocks.second_chip);
}
