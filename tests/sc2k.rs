use sc2klib::bytes::shift_verbose_split_u16;
use sc2klib::error::SC2KError;
use sc2klib::sc2kfile::{SC2KFile, SC2KFileChunk};
use sc2klib::sc2kmap::{SC2KMap, SC2KMapTile};
use sc2klib::sc2kpict::SC2KPict;
use sc2klib::sc2kstats::SC2KStats;

fn chunk(id: &str, data: Vec<u8>) -> SC2KFileChunk {
    SC2KFileChunk::new(id.to_string(), data)
}

fn be(n: u32) -> [u8; 4] {
    n.to_be_bytes()
}

/// A container with the given chunks (tag, stored payload) and a declared
/// length that matches them.
fn container(chunks: &[(&str, Vec<u8>)]) -> Vec<u8> {
    let mut body = Vec::new();
    for (tag, payload) in chunks {
        body.extend_from_slice(tag.as_bytes());
        body.extend_from_slice(&be(payload.len() as u32));
        body.extend_from_slice(payload);
    }
    let mut out = Vec::new();
    out.extend_from_slice(b"FORM");
    out.extend_from_slice(&be(4 + body.len() as u32));
    out.extend_from_slice(b"SCDH");
    out.extend_from_slice(&body);
    out
}

fn utopia_record() -> Vec<u8> {
    let fields: [u32; 18] = [
        290, 1, 0, 1900, 40971, 2208137, 0, 1, 6, 132415, 352952, 76140, 88812, 53227, 0, 0,
        86680170, 53,
    ];
    let mut d = Vec::new();
    for f in fields {
        d.extend_from_slice(&be(f));
    }
    d
}

fn utopia_bytes() -> Vec<u8> {
    let mut cnam = vec![31u8];
    cnam.extend_from_slice(b"Utopia");
    cnam.resize(32, 0);
    let mut misc = vec![72u8];
    misc.extend_from_slice(&utopia_record());
    container(&[("CNAM", cnam), ("MISC", misc)])
}

#[test]
fn extract_bits_fields() {
    assert_eq!(SC2KMap::extract_bits(0b1001_0101, 0, 4), 0b0101);
    assert_eq!(SC2KMap::extract_bits(0x0081, 7, 1), 1);
    assert_eq!(SC2KMap::extract_bits(0xABCD, 4, 8), 0xBC);
    assert_eq!(SC2KMap::extract_bits(0xFFFF, 0, 16), 0xFFFF);
    assert_eq!(SC2KMap::extract_bits(0x8000, 15, 1), 1);
    assert_eq!(SC2KMap::extract_bits(0x1234, 16, 0), 0);
}

#[test]
fn stats_of_zero_record() {
    let stats = SC2KStats::new(&chunk("MISC", vec![0; 72])).unwrap();
    assert_eq!(stats, SC2KStats::default());
    assert_eq!(stats.header, 0);
    assert_eq!(stats.work_force_percent, 0);
}

#[test]
fn stats_fields_in_order() {
    let stats = SC2KStats::new(&chunk("MISC", utopia_record())).unwrap();
    assert_eq!(stats.header, 290);
    assert_eq!(stats.mode, 1);
    assert_eq!(stats.year_founded, 1900);
    assert_eq!(stats.age, 40971);
    assert_eq!(stats.money, 2208137);
    assert_eq!(stats.level, 1);
    assert_eq!(stats.status, 6);
    assert_eq!(stats.city_value, 132415);
    assert_eq!(stats.garbage, 86680170);
    assert_eq!(stats.work_force_percent, 53);
}

#[test]
fn stats_short_record() {
    assert_eq!(SC2KStats::new(&chunk("MISC", vec![0; 71])), Err(SC2KError::ShortRecord));
    let mut map = SC2KMap::default();
    assert_eq!(map.extract_stats(&chunk("MISC", vec![1; 10])), Err(SC2KError::ShortRecord));
    assert_eq!(map.stats, SC2KStats::default());
}

#[test]
fn stats_json_text() {
    let stats = SC2KStats::new(&chunk("MISC", utopia_record())).unwrap();
    assert_eq!(
        stats.to_json(),
        "\"stats\":{\"mode\":1,\"year_founded\":1900,\"age\":40971,\"money\":2208137,\"bonds\":0,\"level\":1,\"status\":6}"
    );
}

#[test]
fn decompress_literal_and_runs() {
    let out = SC2KFile::decompress_chunk(vec![2, 7, 8, 131, 9, 128, 1, 4]).unwrap();
    assert_eq!(out, vec![7, 8, 9, 9, 9, 9, 4]);
    assert_eq!(SC2KFile::decompress_chunk(vec![]).unwrap(), Vec::<u8>::new());
    assert_eq!(SC2KFile::decompress_chunk(vec![128, 128]).unwrap(), Vec::<u8>::new());
    let long = SC2KFile::decompress_chunk(vec![255, 3]).unwrap();
    assert_eq!(long, vec![3; 128]);
    assert_eq!(SC2KFile::decompress_chunk(vec![0, 129, 6]).unwrap(), vec![6, 6]);
}

#[test]
fn decompress_length_is_sum_of_counts() {
    let input = vec![3, 1, 2, 3, 200, 0, 128, 129, 5, 0];
    let out = SC2KFile::decompress_chunk(input).unwrap();
    assert_eq!(out.len(), 3 + (200 - 127) + 0 + 2 + 0);
}

#[test]
fn decompress_truncated() {
    assert_eq!(SC2KFile::decompress_chunk(vec![3, 1, 2]), Err(SC2KError::TruncatedInput));
    assert_eq!(SC2KFile::decompress_chunk(vec![1, 1, 200]), Err(SC2KError::TruncatedInput));
    assert_eq!(SC2KFile::decompress_chunk(vec![5]), Err(SC2KError::TruncatedInput));
}

#[test]
fn compress_exact_output() {
    let file = SC2KFile::from(String::from("x"), &container(&[])).unwrap();
    let out = file.compress_chunk(&chunk("XZON", vec![5, 5, 5, 7]));
    assert_eq!(out, vec![130, 5, 1, 7]);
    let out = file.compress_chunk(&chunk("XZON", vec![9; 130]));
    assert_eq!(out, vec![254, 9, 130, 9]);
    let out = file.compress_chunk(&chunk("XZON", vec![9; 128]));
    assert_eq!(out, vec![254, 9, 1, 9]);
    let out = file.compress_chunk(&chunk("XZON", vec![1, 2, 3]));
    assert_eq!(out, vec![1, 1, 1, 2, 1, 3]);
    let out = file.compress_chunk(&chunk("XZON", vec![]));
    assert_eq!(out, Vec::<u8>::new());
}

#[test]
fn compress_round_trip() {
    let file = SC2KFile::from(String::from("x"), &container(&[])).unwrap();
    let mut inputs: Vec<Vec<u8>> = vec![
        vec![],
        vec![0],
        vec![1, 2, 3, 4, 5],
        vec![7; 127],
        vec![7; 128],
        vec![7; 129],
        vec![7; 300],
    ];
    let mut mixed = Vec::new();
    for i in 0..1000u32 {
        mixed.push(((i / 7) % 5) as u8);
    }
    inputs.push(mixed);
    for x in inputs {
        let c = file.compress_chunk(&chunk("XTER", x.clone()));
        assert_eq!(SC2KFile::decompress_chunk(c).unwrap(), x);
    }
}

#[test]
fn utopia_name_and_stats() {
    let file = SC2KFile::from(String::from("assets/Utopia.sc2"), &utopia_bytes()).unwrap();
    assert_eq!(file.path, "assets/Utopia.sc2");
    assert_eq!(file.map.name, "Utopia");
    assert_eq!(file.map.stats.mode, 1);
    assert_eq!(file.map.stats.year_founded, 1900);
    assert_eq!(file.map.stats.age, 40971);
    assert_eq!(file.map.stats.money, 2208137);
    assert_eq!(file.map.stats.level, 1);
    assert_eq!(file.map.stats.status, 6);
    assert_eq!(file.file_type, u32::from_be_bytes(*b"FORM"));
    assert_eq!(file.container, u32::from_be_bytes(*b"SCDH"));
    assert_eq!(file.chunks.len(), 2);
    assert_eq!(file.chunks[0].id, "CNAM");
    assert_eq!(file.chunks[1].id, "MISC");
    assert_eq!(file.chunks[1].length, 73);
    assert_eq!(file.chunks[1].data.len(), 72);
}

#[test]
fn utopia_json() {
    let file = SC2KFile::from(String::from("Utopia.sc2"), &utopia_bytes()).unwrap();
    let json = file.to_json();
    assert!(json.starts_with("{\"name\":\"Utopia\""));
    assert!(json.ends_with("}"));
    assert!(json.contains("\"stats\":{\"mode\":1,\"year_founded\":1900,"));
    assert!(json.contains(",\"tiles\":[{\"row\":[{},{},"));
}

#[test]
fn utopia_write_and_read_back() {
    let file = SC2KFile::from(String::from("Utopia.sc2"), &utopia_bytes()).unwrap();
    let bytes = file.encode().unwrap();
    // CNAM is written raw (32 bytes); the record compresses to one literal
    // piece per byte run.
    let again = SC2KFile::from(String::from("copy.sc2"), &bytes).unwrap();
    assert_eq!(again.map.name, "Utopia");
    assert_eq!(again.map.stats, file.map.stats);
    assert_eq!(again.chunks.len(), 2);
    assert_eq!(again.chunks[1].data, file.chunks[1].data);
    assert_eq!(&bytes[0..4], b"FORM");
    assert_eq!(&bytes[8..12], b"SCDH");
    let declared = u32::from_be_bytes([bytes[4], bytes[5], bytes[6], bytes[7]]) as usize;
    assert_eq!(declared + 8, bytes.len());
}

#[test]
fn encode_exact_bytes() {
    let data = container(&[("XZON", vec![131, 2]), ("CNAM", vec![31, b'A', 0])]);
    let file = SC2KFile::from(String::from("z"), &data).unwrap();
    assert_eq!(file.chunks[0].data, vec![2, 2, 2, 2]);
    let out = file.encode().unwrap();
    assert_eq!(out, data);
}

#[test]
fn encode_rejects_bad_tag() {
    let mut file = SC2KFile::from(String::from("z"), &container(&[])).unwrap();
    file.chunks.push(chunk("TOOLONG", vec![1]));
    assert_eq!(file.encode(), Err(SC2KError::Unsupported));
}

#[test]
fn name_escape_terminator_and_trim() {
    let mut map = SC2KMap::default();
    map.extract_name(&chunk("CNAM", vec![31, b' ', b'N', 31, b'e', b'w', b' ', b'\t', 0, b'X']));
    assert_eq!(map.name, "New");
    map.extract_name(&chunk("CNAM", vec![]));
    assert_eq!(map.name, "");
    map.extract_name(&chunk("CNAM", vec![0xE9, b'x']));
    assert_eq!(map.name, "\u{e9}x");
}

#[test]
fn short_grid_leaves_other_tiles() {
    let mut map = SC2KMap::default();
    map.extract_tiles(&chunk("XZON", vec![4, 5, 6]), String::from("XZON")).unwrap();
    assert_eq!(map.tiles[0][0].attributes, vec![(String::from("XZON"), 4)]);
    assert_eq!(map.tiles[0][2].attributes, vec![(String::from("XZON"), 6)]);
    assert!(map.tiles[0][3].attributes.is_empty());
    assert!(map.tiles[127][127].attributes.is_empty());
}

#[test]
fn full_grid_wraps_rows() {
    let mut map = SC2KMap::default();
    let mut data = vec![0u8; 16384 + 10];
    data[128] = 9;
    data[16383] = 3;
    map.extract_tiles(&chunk("XTER", data), String::from("XTER")).unwrap();
    assert_eq!(map.tiles[1][0].attributes, vec![(String::from("XTER"), 9)]);
    assert_eq!(map.tiles[127][127].attributes, vec![(String::from("XTER"), 3)]);
    map.extract_tiles(&chunk("XTER", vec![1]), String::from("XTER")).unwrap();
    assert_eq!(map.tiles[0][0].attributes, vec![(String::from("XTER"), 1)]);
    assert_eq!(map.tiles[1][0].attributes, vec![(String::from("XTER"), 9)]);
}

#[test]
fn altitude_words() {
    let mut map = SC2KMap::default();
    map.extract_tiles_altm(&chunk("ALTM", vec![0x00, 0x81, 0x12, 0x3F])).unwrap();
    assert_eq!(
        map.tiles[0][0].attributes,
        vec![(String::from("ALTM"), 1), (String::from("WATR"), 1)]
    );
    assert_eq!(
        map.tiles[0][1].attributes,
        vec![(String::from("ALTM"), 15), (String::from("WATR"), 0)]
    );
    assert!(map.tiles[0][2].attributes.is_empty());
    assert_eq!(map.extract_tiles_altm(&chunk("ALTM", vec![1, 2, 3])), Err(SC2KError::ShortRecord));
}

#[test]
fn tile_json_text() {
    let mut tile = SC2KMapTile::empty();
    assert_eq!(tile.to_json(), "{},");
    tile.insert(&String::from("ALTM"), 3);
    tile.insert(&String::from("WATR"), 0);
    tile.insert(&String::from("ALTM"), 12);
    assert_eq!(tile.to_json(), "{\"ALTM\":12,\"WATR\":0},");
    let mut zone = SC2KMapTile::empty();
    zone.insert(&String::from("XZON"), 3);
    assert_eq!(zone.to_json(), "{\"XZON\":3},");
}

#[test]
fn picture_header_and_size() {
    let mut pict = SC2KPict::default();
    pict.extract_data(&chunk("PICT", vec![0x80, 0, 0, 0, 0xAA, 0, 65, 1, 2])).unwrap();
    assert_eq!(pict.header, vec![0x80, 0, 0, 0]);
    assert_eq!(pict.x_size, 65);
    assert_eq!(pict.y_size, 258);
    assert!(pict.rows.is_empty());
    assert_eq!(pict.extract_data(&chunk("PICT", vec![0; 8])), Err(SC2KError::ShortRecord));
}

#[test]
fn declared_length_mismatch() {
    let mut data = container(&[("CNAM", vec![31, b'A', 0])]);
    // Declared length one byte longer than the chunks.
    data[7] += 1;
    data.push(0);
    assert_eq!(SC2KFile::from(String::from("a"), &data).err(), Some(SC2KError::TruncatedChunk));
    // Declared length past the end of the bytes.
    let mut data = container(&[("CNAM", vec![31, b'A', 0])]);
    data[6] = 1;
    assert_eq!(SC2KFile::from(String::from("a"), &data).err(), Some(SC2KError::TruncatedChunk));
    // Declared length ending inside a chunk.
    let mut data = container(&[("CNAM", vec![31, b'A', 0])]);
    data[7] -= 1;
    assert_eq!(SC2KFile::from(String::from("a"), &data).err(), Some(SC2KError::TruncatedChunk));
    // Declared length below the four bytes of the marker.
    let mut data = container(&[]);
    data[7] = 0;
    assert_eq!(SC2KFile::from(String::from("a"), &data).err(), Some(SC2KError::TruncatedChunk));
    data[7] = 3;
    assert_eq!(SC2KFile::from(String::from("a"), &data).err(), Some(SC2KError::TruncatedChunk));
    data[7] = 4;
    assert!(SC2KFile::from(String::from("a"), &data).is_ok());
    // Header cut short.
    assert_eq!(SC2KFile::from(String::from("a"), &[0, 1, 2]).err(), Some(SC2KError::TruncatedChunk));
}

#[test]
fn chunk_errors_surface() {
    let data = container(&[("XZON", vec![5, 1])]);
    assert_eq!(SC2KFile::from(String::from("a"), &data).err(), Some(SC2KError::TruncatedInput));
    let data = container(&[("MISC", vec![2, 0, 0])]);
    assert_eq!(SC2KFile::from(String::from("a"), &data).err(), Some(SC2KError::ShortRecord));
}

#[test]
fn unknown_and_duplicate_tags() {
    let data = container(&[
        ("XZON", vec![129, 1]),
        ("XTXT", vec![200, 201]),
        ("XZON", vec![1, 7]),
    ]);
    let file = SC2KFile::from(String::from("a"), &data).unwrap();
    assert_eq!(file.chunks.len(), 2);
    assert_eq!(file.chunks[0].id, "XZON");
    assert_eq!(file.chunks[0].data, vec![7]);
    assert_eq!(file.chunks[1].id, "XTXT");
    assert_eq!(file.chunks[1].data, vec![200, 201]);
    assert_eq!(file.map.tiles[0][0].attributes, vec![(String::from("XZON"), 7)]);
    assert_eq!(file.map.tiles[0][1].attributes, vec![(String::from("XZON"), 1)]);
}

#[test]
fn chunk_new_length() {
    let c = SC2KFileChunk::new(String::from("XBLD"), vec![1, 2, 3]);
    assert_eq!(c.length, 3);
    assert_eq!(c.id, "XBLD");
}

#[test]
fn split_word_bytes() {
    assert_eq!(shift_verbose_split_u16(0x1234), [0x12, 0x34]);
    assert_eq!(shift_verbose_split_u16(0x00FF), [0x00, 0xFF]);
    assert_eq!(shift_verbose_split_u16(0xFF00), [0xFF, 0x00]);
}
