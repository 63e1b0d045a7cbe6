use miniz_oxide::deflate::{compress_to_vec, compress_to_vec_zlib};
use miniz_oxide::inflate::decompress_to_vec;
use vgm_core::gzip::{gzip_body_start, gzip_contents, zlib_contents};
use vgm_core::{decompress, decompress_zlib, Error, Event, Gd3, Header, Reader, GZIP_MAGIC, VGM_MAGIC};

/// A gzip file with the optional fields that `flags` asks for.
fn gzip(data: &[u8], flags: u8) -> Vec<u8> {
    let mut v = vec![GZIP_MAGIC[0], GZIP_MAGIC[1], 8, flags, 0, 0, 0, 0, 0, 3];
    if flags & 4 != 0 {
        v.extend_from_slice(&[3, 0, 0, 7, 0]);
    }
    if flags & 8 != 0 {
        v.extend_from_slice(b"song.vgm\0");
    }
    if flags & 16 != 0 {
        v.extend_from_slice(b"\0");
    }
    if flags & 2 != 0 {
        v.extend_from_slice(&[0, 1]);
    }
    v.extend_from_slice(&compress_to_vec(data, 6));
    v.extend_from_slice(&[0; 8]); // checksum and size
    v
}

#[test]
fn gzip_files_are_unpacked_whatever_their_header_holds() {
    let data: Vec<u8> = (0..5000u32).map(|i| (i * i / 7) as u8).collect();
    for flags in 0..32 {
        let packed = gzip(&data, flags);
        assert_eq!(decompress(&packed), Ok(data.clone()));
    }
    assert_eq!(gzip_body_start(&gzip(&data, 0)), Ok(10));
    assert_eq!(gzip_body_start(&gzip(&data, 0x1E)), Ok(10 + 5 + 9 + 1 + 2));
}

#[test]
fn other_files_are_copied() {
    assert_eq!(decompress(VGM_MAGIC), Ok(VGM_MAGIC.to_vec()));
    assert_eq!(decompress(&[]), Ok(vec![]));
    assert_eq!(decompress(&[0x1f]), Ok(vec![0x1f]));
    assert_eq!(decompress(&[0x1f, 0x8c, 1]), Ok(vec![0x1f, 0x8c, 1]));
}

#[test]
fn damaged_gzip_files_are_refused() {
    let whole = gzip(b"data", 0x1E);
    // cut off anywhere in the header, right behind it, or in the data
    for n in 2..whole.len() - 9 {
        assert_eq!(decompress(&whole[..n]), Err(Error::Gzip));
    }
    for n in [2, 3, 4, 9, 11, 14, 20, 26] {
        assert_eq!(gzip_body_start(&whole[..n]), Err(Error::Gzip));
    }
    // an extra field that claims more than the file holds
    let mut long = whole.clone();
    long[11] = 0xFF;
    assert_eq!(decompress(&long), Err(Error::Gzip));
    // a name without an end
    let mut v = gzip(b"", 0)[..10].to_vec();
    v[3] = 8;
    v.extend_from_slice(b"endless");
    assert_eq!(gzip_body_start(&v), Err(Error::Gzip));
    // data that are no DEFLATE stream
    let mut bad = gzip(b"", 0)[..10].to_vec();
    bad.extend_from_slice(&[0xFF; 8]);
    assert_eq!(decompress(&bad), Err(Error::Gzip));
}

#[test]
fn results_of_inflating_are_passed_on() {
    let good = compress_to_vec(b"abc", 6);
    assert_eq!(gzip_contents(decompress_to_vec(&good)), Ok(b"abc".to_vec()));
    assert_eq!(gzip_contents(decompress_to_vec(&[0xFF])), Err(Error::Gzip));
    assert_eq!(zlib_contents(decompress_to_vec(&good)), Some(b"abc".to_vec()));
    assert_eq!(zlib_contents(decompress_to_vec(&[0xFF])), None);
}

#[test]
fn zlib_streams() {
    let data: Vec<u8> = (0..3000u32).map(|i| (i % 11) as u8).collect();
    let packed = compress_to_vec_zlib(&data, 9);
    assert_eq!(decompress_zlib(&packed), Some(data.clone()));
    assert_eq!(decompress_zlib(&packed[..packed.len() - 5]), None);
    assert_eq!(decompress_zlib(&compress_to_vec(&data, 9)), None);
    assert_eq!(decompress_zlib(&[]), None);
}

/// A GD3 tag behind `pad` bytes.
fn tag(pad: usize, strings: &[&str]) -> Vec<u8> {
    let mut text = Vec::new();
    for s in strings {
        for u in s.encode_utf16() {
            text.extend_from_slice(&u.to_le_bytes());
        }
        text.extend_from_slice(&[0, 0]);
    }
    let mut v = vec![0xEE; pad];
    v.extend_from_slice(b"Gd3 \x00\x01\x00\x00");
    v.extend_from_slice(&(text.len() as u32).to_le_bytes());
    v.extend_from_slice(&text);
    v
}

#[test]
fn tag_strings_come_back() {
    let strings = ["Angel Island", "", "Sonic \u{0433}\u{3042}\u{1F3B5}", "\u{0100}\u{0001}", ""];
    let d = tag(5, &strings);
    let g = Gd3::parse(&d, 5).unwrap();
    for (n, s) in strings.iter().enumerate() {
        assert_eq!(String::from_utf16(&g.string(n)).unwrap(), *s);
    }
    assert_eq!(g.string(5), Vec::<u16>::new());
    assert_eq!(g.string(usize::MAX), Vec::<u16>::new());
}

#[test]
fn tags_are_checked() {
    let d = tag(3, &["a"]);
    assert!(Gd3::parse(&d, 3).is_some());
    assert!(Gd3::parse(&d, 2).is_none());
    assert!(Gd3::parse(&d, d.len()).is_none());
    assert!(Gd3::parse(&d, usize::MAX).is_none());
    assert!(Gd3::parse(&d[..d.len() - 1], 3).is_none());
    assert!(Gd3::parse(&d[..14], 3).is_none());
    let mut long = d.clone();
    long[14] = 0xFF;
    assert!(Gd3::parse(&long, 3).is_none());
}

#[test]
fn a_text_without_an_end_is_read_to_its_last_whole_unit() {
    let mut d = b"Gd3 \x00\x01\x00\x00\x05\x00\x00\x00".to_vec();
    d.extend_from_slice(&[0x41, 0, 0x42, 0, 0x43]);
    let g = Gd3::parse(&d, 0).unwrap();
    assert_eq!(g.string(0), vec![0x41, 0x42]);
    assert_eq!(g.string(1), Vec::<u16>::new());
}

/// A packed file is unpacked and played to its end; its waits add up to the
/// length that the header gives.
#[test]
fn packed_file_plays_to_its_end() {
    let mut v = vec![0u8; 0x80];
    v[0..4].copy_from_slice(VGM_MAGIC);
    v[0x08..0x0C].copy_from_slice(&0x0151u32.to_le_bytes());
    v[0x34..0x38].copy_from_slice(&(0x80u32 - 0x34).to_le_bytes());
    v[0x18..0x1C].copy_from_slice(&(735u32 + 4 + 3 + 882).to_le_bytes());
    v.extend_from_slice(&[0x62, 0x54, 0x28, 0x4A, 0x73, 0x83, 0x63, 0x66]);
    let data = decompress(&gzip(&v, 8)).unwrap();
    let h = Header::parse(&data).unwrap();
    let mut r = Reader::new(&data, h.data_offset);
    let mut ticks = 0u64;
    loop {
        match r.next_event().unwrap() {
            Event::End => break,
            Event::Wait { ticks: t } => ticks += t as u64,
            Event::Ym2612Dac { ticks: t, .. } => ticks += t as u64,
            _ => {}
        }
    }
    assert_eq!(ticks, h.total_ticks as u64);
}
