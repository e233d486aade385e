use beam_patcher::grf::Grf;
use beam_patcher::rgz::{Rgz, RgzEntry};
use beam_patcher::thor::{Thor, ThorEntry};
use beam_patcher::Error;
use std::io::Write;

fn zlib(data: &[u8]) -> Vec<u8> {
    let mut e = flate2::write::ZlibEncoder::new(Vec::new(), flate2::Compression::default());
    e.write_all(data).unwrap();
    e.finish().unwrap()
}

fn gzip(data: &[u8]) -> Vec<u8> {
    let mut e = flate2::write::GzEncoder::new(Vec::new(), flate2::Compression::default());
    e.write_all(data).unwrap();
    e.finish().unwrap()
}

const THOR_MAGIC: &[u8; 24] = b"ASSF (C) 2007 Aeomin DEV";

fn thor_file(payloads: &[u8], table: &[u8], mode: i16) -> Vec<u8> {
    let ctable = zlib(table);
    let mut out = Vec::new();
    out.extend_from_slice(THOR_MAGIC);
    out.push(0);
    out.extend_from_slice(&2u32.to_le_bytes());
    out.extend_from_slice(&mode.to_le_bytes());
    out.push(0);
    out.extend_from_slice(&(ctable.len() as u32).to_le_bytes());
    out.extend_from_slice(&((40 + payloads.len()) as u32).to_le_bytes());
    out.extend_from_slice(payloads);
    out.extend_from_slice(&ctable);
    out
}

#[test]
fn rgz_round_trip_directory_and_file() {
    let mut rgz = Rgz::new();
    rgz.add_directory("data/");
    rgz.add_file("data/x.txt", b"hi");
    let stream = rgz.encode_records().unwrap();
    assert_eq!(*stream.last().unwrap(), b'e');
    let bytes = rgz.to_bytes().unwrap();
    let back = Rgz::from_bytes(&bytes).unwrap();
    assert_eq!(
        back.get_entries(),
        &[
            RgzEntry::Directory { name: "data/".to_string() },
            RgzEntry::File { name: "data/x.txt".to_string(), data: b"hi".to_vec() },
        ]
    );
}

#[test]
fn rgz_stream_layout() {
    let mut rgz = Rgz::new();
    rgz.add_file("ab", &[7, 8, 9]);
    let stream = rgz.encode_records().unwrap();
    assert_eq!(stream, vec![b'f', 3, b'a', b'b', 0, 3, 0, 0, 0, 7, 8, 9, b'e']);
}

#[test]
fn rgz_name_cap_enforced_on_write() {
    let mut ok = Rgz::new();
    ok.add_file(&"a".repeat(254), b"x");
    assert!(ok.to_bytes().is_ok());
    let mut long = Rgz::new();
    long.add_file(&"a".repeat(255), b"x");
    assert_eq!(long.to_bytes(), Err(Error::Custom("Name too long (max 254 bytes)".to_string())));
    let mut dir = Rgz::new();
    dir.add_directory(&"d".repeat(255));
    assert!(matches!(dir.encode_records(), Err(Error::Custom(_))));
}

#[test]
fn rgz_unknown_tag_is_invalid() {
    let bytes = gzip(&[b'x']);
    assert!(matches!(Rgz::from_bytes(&bytes), Err(Error::InvalidRgzFormat)));
}

#[test]
fn rgz_truncated_record_is_eof() {
    let bytes = gzip(&[b'f', 3, b'a', b'b', 0, 9, 0, 0, 0, 1]);
    assert!(matches!(Rgz::from_bytes(&bytes), Err(Error::Io(_))));
    let cut_name = gzip(&[b'd', 5, b'a']);
    assert!(matches!(Rgz::from_bytes(&cut_name), Err(Error::Io(_))));
}

#[test]
fn rgz_bad_gzip_is_decompression_error() {
    assert!(matches!(Rgz::from_bytes(b"not gzip"), Err(Error::Decompression(_))));
}

#[test]
fn rgz_stops_at_end_tag() {
    let bytes = gzip(&[b'd', 2, b'a', 0, b'e', b'x', b'x']);
    let rgz = Rgz::from_bytes(&bytes).unwrap();
    assert_eq!(rgz.entries, vec![RgzEntry::Directory { name: "a".to_string() }]);
}

#[test]
fn rgz_invalid_utf8_name_is_decoded_lossily() {
    let bytes = gzip(&[b'd', 3, 0xff, b'a', 0, b'e']);
    let rgz = Rgz::from_bytes(&bytes).unwrap();
    assert_eq!(rgz.entries, vec![RgzEntry::Directory { name: "\u{fffd}a".to_string() }]);
}

#[test]
fn thor_round_trip() {
    let mut thor = Thor::new();
    thor.add_file("data\\a.txt", b"alpha");
    thor.remove_file("data\\old.txt");
    thor.add_file("data\\b.txt", b"");
    let bytes = thor.to_bytes().unwrap();
    assert_eq!(&bytes[..24], THOR_MAGIC);
    let back = Thor::from_bytes(&bytes).unwrap();
    assert_eq!(back.entries, thor.entries);
}

#[test]
fn thor_tolerates_payload_past_end() {
    let payload = zlib(b"hello");
    let mut table = Vec::new();
    table.push(5);
    table.extend_from_slice(b"a.txt");
    table.push(0);
    table.extend_from_slice(&40u32.to_le_bytes());
    table.extend_from_slice(&(payload.len() as u32).to_le_bytes());
    table.extend_from_slice(&5u32.to_le_bytes());
    table.push(5);
    table.extend_from_slice(b"b.txt");
    table.push(0);
    table.extend_from_slice(&100_000u32.to_le_bytes());
    table.extend_from_slice(&10u32.to_le_bytes());
    table.extend_from_slice(&10u32.to_le_bytes());
    let file = thor_file(&payload, &table, 0x30);
    let thor = Thor::from_bytes(&file).unwrap();
    assert_eq!(
        thor.get_entries(),
        &[
            ThorEntry::Add { filename: "a.txt".to_string(), data: b"hello".to_vec() },
            ThorEntry::Add { filename: "b.txt".to_string(), data: Vec::new() },
        ]
    );
}

#[test]
fn thor_bad_payload_stream_is_empty_add() {
    let mut table = Vec::new();
    table.push(1);
    table.push(b'c');
    table.push(0);
    table.extend_from_slice(&40u32.to_le_bytes());
    table.extend_from_slice(&3u32.to_le_bytes());
    table.extend_from_slice(&3u32.to_le_bytes());
    let file = thor_file(b"zzz", &table, 0x21);
    let thor = Thor::from_bytes(&file).unwrap();
    assert_eq!(thor.entries, vec![ThorEntry::Add { filename: "c".to_string(), data: Vec::new() }]);
}

#[test]
fn thor_unknown_flag_skipped_and_zero_name_ends() {
    let mut table = Vec::new();
    table.push(1);
    table.push(b'x');
    table.push(7);
    table.push(1);
    table.push(b'y');
    table.push(1);
    table.push(0);
    table.push(1);
    table.push(b'z');
    table.push(1);
    let file = thor_file(b"", &table, 0x30);
    let thor = Thor::from_bytes(&file).unwrap();
    assert_eq!(thor.entries, vec![ThorEntry::Remove { filename: "y".to_string() }]);
}

#[test]
fn thor_bad_magic() {
    let mut file = thor_file(b"", &[], 0x30);
    file[0] = b'X';
    assert!(matches!(Thor::from_bytes(&file), Err(Error::InvalidThorHeader)));
    assert!(matches!(Thor::from_bytes(b"ASSF"), Err(Error::InvalidThorHeader)));
}

#[test]
fn thor_unsupported_mode() {
    let file = thor_file(b"", &[], 0x31);
    assert_eq!(Thor::from_bytes(&file).unwrap_err(), Error::UnsupportedThorMode(0x31));
}

#[test]
fn thor_table_out_of_range_is_eof() {
    let mut file = thor_file(b"", &[], 0x30);
    let n = file.len();
    file.truncate(n - 1);
    assert!(matches!(Thor::from_bytes(&file), Err(Error::Io(_))));
}

#[test]
fn thor_truncated_table_record_is_eof() {
    let file = thor_file(b"", &[3, b'a'], 0x30);
    assert!(matches!(Thor::from_bytes(&file), Err(Error::Io(_))));
}

#[test]
fn thor_name_cap_enforced_on_write() {
    let mut ok = Thor::new();
    ok.add_file(&"n".repeat(255), b"x");
    assert!(ok.to_bytes().is_ok());
    let mut long = Thor::new();
    long.add_file("first", b"data");
    long.remove_file(&"n".repeat(256));
    assert_eq!(
        long.to_bytes(),
        Err(Error::Custom("Filename too long (max 255 bytes)".to_string()))
    );
}

#[test]
fn grf_patch_save_open_read() {
    let mut grf = Grf::create_new();
    grf.patch_file(b"data\\a.txt", b"first").unwrap();
    grf.patch_file(b"data\\b.txt", b"second").unwrap();
    grf.patch_file(b"data\\a.txt", b"replaced").unwrap();
    assert!(grf.dirty());
    assert_eq!(grf.file_count(), 2);
    let image = grf.to_bytes().unwrap();
    assert_eq!(&image[..16], b"Master of Magic\0");
    let opened = Grf::from_bytes(&image).unwrap();
    assert!(!opened.dirty());
    assert_eq!(opened.version(), 0x200);
    assert_eq!(opened.read_file(b"data\\a.txt").unwrap(), b"replaced".to_vec());
    assert_eq!(opened.read_file(b"data\\b.txt").unwrap(), b"second".to_vec());
    assert!(matches!(opened.read_file(b"data\\c.txt"), Err(Error::PatchFailed(_))));
}

#[test]
fn grf_empty_round_trip() {
    let grf = Grf::create_new();
    let opened = Grf::from_bytes(&grf.to_bytes().unwrap()).unwrap();
    assert_eq!(opened.file_count(), 0);
}

#[test]
fn grf_rejects_nul_in_name() {
    let mut grf = Grf::create_new();
    assert!(matches!(grf.patch_file(b"a\0b", b"x"), Err(Error::Custom(_))));
    assert_eq!(grf.file_count(), 0);
    assert!(!grf.dirty());
}

#[test]
fn grf_bad_magic_and_version() {
    let image = Grf::create_new().to_bytes().unwrap();
    let mut bad = image.clone();
    bad[0] = b'm';
    assert!(matches!(Grf::from_bytes(&bad), Err(Error::InvalidGrfFormat)));
    let mut old = image.clone();
    old[43] = 0x01;
    assert!(matches!(Grf::from_bytes(&old), Err(Error::InvalidGrfFormat)));
    assert!(matches!(Grf::from_bytes(&image[..20]), Err(Error::InvalidGrfFormat)));
}

#[test]
fn grf_truncated_is_eof() {
    let image = Grf::create_new().to_bytes().unwrap();
    assert!(matches!(Grf::from_bytes(&image[..image.len() - 1]), Err(Error::UnexpectedEof)));
}

#[test]
fn grf_corrupt_table_is_decompression_error() {
    let mut image = Grf::create_new().to_bytes().unwrap();
    let n = image.len();
    image[n - 1] ^= 0xff;
    image[n - 2] ^= 0xff;
    assert!(matches!(Grf::from_bytes(&image), Err(Error::Decompression(_))));
}

#[test]
fn thor_written_layout() {
    let mut thor = Thor::new();
    thor.add_file("a", b"alpha");
    thor.remove_file("gone");
    thor.add_file("bc", b"");
    let bytes = thor.to_bytes().unwrap();
    let pa = zlib(b"alpha");
    let pb = zlib(b"");
    let mut table = Vec::new();
    table.push(1);
    table.push(b'a');
    table.push(0);
    table.extend_from_slice(&40u32.to_le_bytes());
    table.extend_from_slice(&(pa.len() as u32).to_le_bytes());
    table.extend_from_slice(&5u32.to_le_bytes());
    table.push(4);
    table.extend_from_slice(b"gone");
    table.push(1);
    table.push(2);
    table.extend_from_slice(b"bc");
    table.push(0);
    table.extend_from_slice(&((40 + pa.len()) as u32).to_le_bytes());
    table.extend_from_slice(&(pb.len() as u32).to_le_bytes());
    table.extend_from_slice(&0u32.to_le_bytes());
    let ctable = zlib(&table);
    let mut expected = Vec::new();
    expected.extend_from_slice(THOR_MAGIC);
    expected.push(0);
    expected.extend_from_slice(&3u32.to_le_bytes());
    expected.extend_from_slice(&0x30i16.to_le_bytes());
    expected.push(0);
    expected.extend_from_slice(&(ctable.len() as u32).to_le_bytes());
    expected.extend_from_slice(&((40 + pa.len() + pb.len()) as u32).to_le_bytes());
    expected.extend_from_slice(&pa);
    expected.extend_from_slice(&pb);
    expected.extend_from_slice(&ctable);
    assert_eq!(bytes, expected);
}

#[test]
fn grf_header_fields() {
    let mut grf = Grf::create_new();
    grf.patch_file(b"x", b"xyz").unwrap();
    let image = grf.to_bytes().unwrap();
    let body_len = u32::from_le_bytes([image[30], image[31], image[32], image[33]]) as usize;
    assert_eq!(&image[16..30], &[0u8; 14]);
    assert_eq!(&image[34..38], &0u32.to_le_bytes());
    assert_eq!(&image[38..42], &8u32.to_le_bytes());
    assert_eq!(&image[42..46], &0x200u32.to_le_bytes());
    let table_len = 1 + 1 + 17;
    assert_eq!(&image[50 + body_len..54 + body_len], &(table_len as u32).to_le_bytes());
}
