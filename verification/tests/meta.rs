use atlas_codec::error::DecodeError;
use atlas_codec::meta::{
    normalize_separators, parse_metadata, AtlasMetadata, DataFile, Sprite, SPRITE_FIELDS_LEN,
};
use atlas_codec::stream::ByteStream;

fn put_string(out: &mut Vec<u8>, text: &str) {
    let mut len = text.len();
    loop {
        let low = (len & 0x7f) as u8;
        len >>= 7;
        if len == 0 {
            out.push(low);
            break;
        }
        out.push(low | 0x80);
    }
    out.extend_from_slice(text.as_bytes());
}

fn put_u16(out: &mut Vec<u8>, v: u16) {
    out.extend_from_slice(&v.to_le_bytes());
}

fn put_u32(out: &mut Vec<u8>, v: u32) {
    out.extend_from_slice(&v.to_le_bytes());
}

fn put_sprite(out: &mut Vec<u8>, path: &str, fields: [u16; 8]) {
    put_string(out, path);
    for f in fields {
        put_u16(out, f);
    }
}

fn sprite(path: &str, f: [u16; 8]) -> Sprite {
    Sprite {
        path: String::from(path),
        x: f[0],
        y: f[1],
        width: f[2],
        height: f[3],
        offset_x: f[4],
        offset_y: f[5],
        real_width: f[6],
        real_height: f[7],
    }
}

fn sample_index() -> Vec<u8> {
    let mut out = Vec::new();
    put_u32(&mut out, 3);
    put_string(&mut out, "packer v1");
    put_u32(&mut out, 0x8000_0001);
    put_u16(&mut out, 2);
    put_string(&mut out, "Gameplay0");
    put_u16(&mut out, 2);
    put_sprite(&mut out, "characters\\player\\idle00", [1, 2, 3, 4, 5, 6, 7, 8]);
    put_sprite(&mut out, "bg", [0, 0, 65535, 1, 0, 0, 65535, 1]);
    put_string(&mut out, "dir\\Gameplay1");
    put_u16(&mut out, 1);
    put_sprite(&mut out, "", [9, 8, 7, 6, 5, 4, 3, 2]);
    out
}

fn sample_metadata() -> AtlasMetadata {
    AtlasMetadata {
        version: 3,
        description: String::from("packer v1"),
        flags: 0x8000_0001,
        data_files: vec![
            DataFile {
                logical_path: String::from("Gameplay0"),
                sprites: vec![
                    sprite("characters/player/idle00", [1, 2, 3, 4, 5, 6, 7, 8]),
                    sprite("bg", [0, 0, 65535, 1, 0, 0, 65535, 1]),
                ],
            },
            DataFile {
                logical_path: String::from("dir/Gameplay1"),
                sprites: vec![sprite("", [9, 8, 7, 6, 5, 4, 3, 2])],
            },
        ],
    }
}

#[test]
fn normalize_replaces_every_backslash() {
    assert_eq!(normalize_separators("a\\b\\c"), "a/b/c");
    assert_eq!(normalize_separators("\\\\"), "//");
    assert_eq!(normalize_separators("a/b\\c"), "a/b/c");
}

#[test]
fn normalize_keeps_everything_else() {
    assert_eq!(normalize_separators(""), "");
    assert_eq!(normalize_separators("plain.png"), "plain.png");
    assert_eq!(normalize_separators("d\u{e9}j\u{e0}\\\u{4e16}"), "d\u{e9}j\u{e0}/\u{4e16}");
}

#[test]
fn sprite_record_fields_in_order() {
    let mut data = Vec::new();
    put_sprite(&mut data, "a\\b", [10, 20, 30, 40, 50, 60, 70, 80]);
    data.push(0xaa);
    let mut stream = ByteStream::new(&data);
    let got = Sprite::from_reader(&mut stream).unwrap();
    assert_eq!(got.path, "a/b");
    assert_eq!(got.x, 10);
    assert_eq!(got.y, 20);
    assert_eq!(got.width, 30);
    assert_eq!(got.height, 40);
    assert_eq!(got.offset_x, 50);
    assert_eq!(got.offset_y, 60);
    assert_eq!(got.real_width, 70);
    assert_eq!(got.real_height, 80);
    assert_eq!(stream.remaining(), 1);
}

#[test]
fn sprite_fields_are_little_endian() {
    let mut data = vec![1u8, b'p'];
    data.extend_from_slice(&[0x01, 0x02, 0xff, 0xff, 0, 1, 1, 0, 0, 0, 0, 0, 0, 0, 0, 0x80]);
    let mut stream = ByteStream::new(&data);
    let got = Sprite::from_reader(&mut stream).unwrap();
    assert_eq!(got, sprite("p", [0x0201, 0xffff, 0x0100, 0x0001, 0, 0, 0, 0x8000]));
    assert!(stream.is_empty());
}

#[test]
fn sprite_record_cut_anywhere_is_truncated() {
    let mut data = Vec::new();
    put_sprite(&mut data, "abc", [1, 2, 3, 4, 5, 6, 7, 8]);
    assert_eq!(data.len(), 4 + SPRITE_FIELDS_LEN);
    for n in 0..data.len() {
        let mut stream = ByteStream::new(&data[..n]);
        assert_eq!(Sprite::from_reader(&mut stream), Err(DecodeError::Truncated));
        assert_eq!(stream.remaining(), n);
    }
}

#[test]
fn sprite_with_bad_path_is_malformed() {
    let mut data = vec![2u8, 0xc3, 0x28];
    data.extend_from_slice(&[0u8; 16]);
    let mut stream = ByteStream::new(&data);
    assert_eq!(Sprite::from_reader(&mut stream), Err(DecodeError::MalformedText));
    assert_eq!(stream.remaining(), data.len());
}

#[test]
fn data_file_reads_its_sprites_in_order() {
    let mut data = Vec::new();
    put_string(&mut data, "atlas\\one");
    put_u16(&mut data, 3);
    put_sprite(&mut data, "c", [3, 0, 0, 0, 0, 0, 0, 0]);
    put_sprite(&mut data, "a", [1, 0, 0, 0, 0, 0, 0, 0]);
    put_sprite(&mut data, "b", [2, 0, 0, 0, 0, 0, 0, 0]);
    let mut stream = ByteStream::new(&data);
    let got = DataFile::from_reader(&mut stream).unwrap();
    assert_eq!(got.logical_path, "atlas/one");
    let paths: Vec<&str> = got.sprites.iter().map(|s| s.path.as_str()).collect();
    assert_eq!(paths, vec!["c", "a", "b"]);
    let xs: Vec<u16> = got.sprites.iter().map(|s| s.x).collect();
    assert_eq!(xs, vec![3, 1, 2]);
    assert!(stream.is_empty());
}

#[test]
fn data_file_without_sprites() {
    let mut data = Vec::new();
    put_string(&mut data, "empty");
    put_u16(&mut data, 0);
    data.push(1);
    let mut stream = ByteStream::new(&data);
    let got = DataFile::from_reader(&mut stream).unwrap();
    assert_eq!(got, DataFile { logical_path: String::from("empty"), sprites: vec![] });
    assert_eq!(stream.remaining(), 1);
}

#[test]
fn data_file_with_fewer_sprites_than_counted_is_truncated() {
    let mut data = Vec::new();
    put_string(&mut data, "short");
    put_u16(&mut data, 2);
    put_sprite(&mut data, "only", [1, 2, 3, 4, 5, 6, 7, 8]);
    let mut stream = ByteStream::new(&data);
    assert_eq!(DataFile::from_reader(&mut stream), Err(DecodeError::Truncated));
    assert_eq!(stream.remaining(), data.len());
}

#[test]
fn metadata_parses_header_and_tables() {
    let data = sample_index();
    let mut stream = ByteStream::new(&data);
    let got = parse_metadata(&mut stream).unwrap();
    assert_eq!(got, sample_metadata());
    assert!(stream.is_empty());
}

#[test]
fn metadata_keeps_the_header_fields() {
    let data = sample_index();
    let mut stream = ByteStream::new(&data);
    let got = parse_metadata(&mut stream).unwrap();
    assert_eq!(got.version, 3);
    assert_eq!(got.description, "packer v1");
    assert_eq!(got.flags, 0x8000_0001);
    assert_eq!(got.data_files.len(), 2);
    assert_eq!(got.data_files[0].sprites.len(), 2);
    assert_eq!(got.data_files[1].sprites.len(), 1);
}

#[test]
fn metadata_leaves_what_follows_unread() {
    let mut data = sample_index();
    data.extend_from_slice(&[1, 2, 3]);
    let mut stream = ByteStream::new(&data);
    assert_eq!(parse_metadata(&mut stream), Ok(sample_metadata()));
    assert_eq!(stream.remaining(), 3);
}

#[test]
fn metadata_cut_anywhere_is_truncated() {
    let data = sample_index();
    for n in 0..data.len() {
        let mut stream = ByteStream::new(&data[..n]);
        assert_eq!(parse_metadata(&mut stream), Err(DecodeError::Truncated));
        assert_eq!(stream.remaining(), n);
    }
}

#[test]
fn metadata_without_tables() {
    let mut data = Vec::new();
    put_u32(&mut data, 0);
    put_string(&mut data, "");
    put_u32(&mut data, 0);
    put_u16(&mut data, 0);
    let mut stream = ByteStream::new(&data);
    let got = parse_metadata(&mut stream).unwrap();
    assert_eq!(
        got,
        AtlasMetadata { version: 0, description: String::new(), flags: 0, data_files: vec![] }
    );
}

#[test]
fn metadata_description_is_not_normalized() {
    let mut data = Vec::new();
    put_u32(&mut data, 1);
    put_string(&mut data, "a\\b");
    put_u32(&mut data, 2);
    put_u16(&mut data, 0);
    let mut stream = ByteStream::new(&data);
    assert_eq!(parse_metadata(&mut stream).unwrap().description, "a\\b");
}

#[test]
fn metadata_with_bad_text_is_malformed() {
    let mut data = Vec::new();
    put_u32(&mut data, 1);
    data.extend_from_slice(&[1, 0xff]);
    put_u32(&mut data, 2);
    put_u16(&mut data, 0);
    let mut stream = ByteStream::new(&data);
    assert_eq!(parse_metadata(&mut stream), Err(DecodeError::MalformedText));
    assert_eq!(stream.remaining(), data.len());

    let mut data = Vec::new();
    put_u32(&mut data, 1);
    put_string(&mut data, "ok");
    put_u32(&mut data, 2);
    put_u16(&mut data, 1);
    put_string(&mut data, "file");
    put_u16(&mut data, 1);
    data.extend_from_slice(&[2, 0xe2, 0x82]);
    data.extend_from_slice(&[0u8; 16]);
    let mut stream = ByteStream::new(&data);
    assert_eq!(parse_metadata(&mut stream), Err(DecodeError::MalformedText));
}

#[test]
fn metadata_first_failure_is_reported() {
    let mut data = Vec::new();
    put_u32(&mut data, 1);
    put_string(&mut data, "ok");
    put_u32(&mut data, 2);
    put_u16(&mut data, 2);
    put_string(&mut data, "first");
    put_u16(&mut data, 1);
    data.extend_from_slice(&[1, 0xff]);
    data.extend_from_slice(&[0u8; 16]);
    put_string(&mut data, "second");
    let mut stream = ByteStream::new(&data);
    assert_eq!(parse_metadata(&mut stream), Err(DecodeError::MalformedText));
}

#[test]
fn metadata_many_sprites() {
    let mut data = Vec::new();
    put_u32(&mut data, 1);
    put_string(&mut data, "many");
    put_u32(&mut data, 0);
    put_u16(&mut data, 1);
    put_string(&mut data, "big");
    put_u16(&mut data, 300);
    for i in 0..300u16 {
        put_sprite(&mut data, &format!("s\\{}", i), [i, i + 1, 1, 1, 0, 0, 1, 1]);
    }
    let mut stream = ByteStream::new(&data);
    let got = parse_metadata(&mut stream).unwrap();
    assert_eq!(got.data_files[0].sprites.len(), 300);
    assert_eq!(got.data_files[0].sprites[0].path, "s/0");
    assert_eq!(got.data_files[0].sprites[299].path, "s/299");
    assert_eq!(got.data_files[0].sprites[299].x, 299);
    assert_eq!(got.data_files[0].sprites[299].y, 300);
}
