use boosttorrent::bencode::Value;
use boosttorrent::metainfo::{sha1_hash, FileInfo, InfoDict, MetaInfo, SingleFile};

fn bytes(s: &str) -> Vec<u8> {
    Vec::from(s.as_bytes())
}

#[test]
fn test_metainfo_from_value_trivial_invalid() {
    let val = Value::Integer(0);
    let meta = MetaInfo::from_value(&val);
    assert_eq!(None, meta.ok());
}

#[test]
fn test_metainfo_from_value_valid() {
    let piece_hash: Vec<u8> = (0u8..20).collect();
    let info = Value::Dict(vec![
        (bytes("piece length"), Value::Integer(20)),
        (bytes("pieces"), Value::BString(piece_hash)),
        (bytes("length"), Value::Integer(100)),
        (
            bytes("name"),
            Value::BString(Vec::from("test_file.mp3".as_bytes())),
        ),
    ]);

    let val = Value::Dict(vec![
        (bytes("announce"), Value::BString(bytes("http://example.com"))),
        (
            bytes("info"),
            Value::Dict(vec![
                (bytes("piece length"), Value::Integer(20)),
                (bytes("pieces"), Value::BString((0u8..20).collect())),
                (bytes("length"), Value::Integer(100)),
                (
                    bytes("name"),
                    Value::BString(Vec::from("test_file.mp3".as_bytes())),
                ),
            ]),
        ),
        (
            bytes("announce-list"),
            Value::List(vec![
                Value::List(vec![
                    Value::BString(bytes("site1a")),
                    Value::BString(bytes("site2a")),
                ]),
                Value::List(vec![
                    Value::BString(bytes("site1b")),
                    Value::BString(bytes("site2b")),
                ]),
            ]),
        ),
    ]);

    assert_eq!(
        MetaInfo::from_value(&val),
        Ok(MetaInfo {
            info_hash: sha1_hash(info.encode().as_ref()),
            info: InfoDict {
                piece_length: 20,
                pieces: vec!["000102030405060708090a0b0c0d0e0f10111213".to_string()],
                private: false,
                file_info: FileInfo::Single(SingleFile {
                    file_name: "test_file.mp3".to_string(),
                    length: 100,
                    md5sum: None,
                }),
            },
            announce: "http://example.com".to_string(),
            announce_list: Some(vec![
                (0, "site1a".to_string()),
                (0, "site2a".to_string()),
                (1, "site1b".to_string()),
                (1, "site2b".to_string()),
            ]),
            creation_date: None,
            comment: None,
            created_by: None,
            encoding: None,
        })
    );
}

#[test]
fn test_multi_file_torrent() {
    let val = Value::Dict(vec![
        (bytes("name"), Value::BString(bytes("root"))),
        (
            bytes("files"),
            Value::List(vec![
                Value::Dict(vec![
                    (bytes("length"), Value::Integer(7)),
                    (
                        bytes("path"),
                        Value::List(vec![
                            Value::BString(bytes("dir")),
                            Value::BString(bytes("a.txt")),
                        ]),
                    ),
                ]),
                Value::Dict(vec![
                    (bytes("length"), Value::Integer(9)),
                    (bytes("path"), Value::List(vec![Value::BString(bytes("b.txt"))])),
                ]),
            ]),
        ),
    ]);
    let fi = FileInfo::from_value(&val).unwrap();
    match &fi {
        FileInfo::Multi(m) => {
            assert_eq!(m.root_dir_name, "root");
            assert_eq!(m.files.len(), 2);
            assert_eq!(m.files[0].file_name, "dir/a.txt");
            assert_eq!(m.files[0].length, 7);
            assert_eq!(m.files[1].file_name, "b.txt");
            assert_eq!(m.files[1].length, 9);
        }
        _ => panic!("expected a multi-file layout"),
    }
    assert_eq!(fi.size(), 16);
}

#[test]
fn test_pieces_not_multiple_of_20_rejected() {
    let val = Value::Dict(vec![
        (bytes("piece length"), Value::Integer(20)),
        (bytes("pieces"), Value::BString(vec![0, 1, 2, 3])),
        (bytes("length"), Value::Integer(100)),
        (bytes("name"), Value::BString(bytes("x"))),
    ]);
    assert!(InfoDict::from_value(&val).is_err());
}

#[test]
fn test_info_hash_determinism() {
    let mut torrent = bytes("d8:announce5:a url4:infod6:lengthi20e4:name9:file name12:piece lengthi100e6:pieces40:");
    let mut raw: Vec<u8> = (0u8..40).collect();
    torrent.append(&mut raw);
    torrent.push(b'e');
    torrent.push(b'e');

    let parse = |b: &[u8]| {
        let v = Value::decode(b).unwrap();
        MetaInfo::from_value(&v).unwrap()
    };
    let m1 = parse(&torrent);
    let m2 = parse(&torrent);
    assert_eq!(m1.info_hash, m2.info_hash);

    // perturbing a byte outside the info range leaves the hash alone
    let mut outside = torrent.clone();
    let announce_pos = "d8:announce".len();
    assert_eq!(outside[announce_pos], b'5');
    outside[announce_pos + 2] = b'b'; // "a url" -> "b url"
    let m3 = parse(&outside);
    assert_eq!(m1.info_hash, m3.info_hash);
    assert_ne!(m1.announce, m3.announce);

    // perturbing a byte inside the info range changes the hash
    let mut inside = torrent.clone();
    let len = inside.len();
    inside[len - 3] ^= 0xff; // one of the raw piece-hash bytes
    let m4 = parse(&inside);
    assert_ne!(m1.info_hash, m4.info_hash);
}

#[test]
fn test_end_to_end_scenario() {
    let mut torrent = bytes("d8:announce5:a url4:infod6:lengthi20e4:name9:file name12:piece lengthi100e6:pieces40:");
    let info_start = bytes("d8:announce5:a url4:info").len();
    let mut raw: Vec<u8> = (0u8..40).collect();
    torrent.append(&mut raw);
    torrent.push(b'e');
    let info_end = torrent.len();
    torrent.push(b'e');

    let v = Value::decode(&torrent).unwrap();
    let m = MetaInfo::from_value(&v).unwrap();
    assert_eq!(m.announce, "a url");
    assert_eq!(m.info.piece_length, 100);
    assert_eq!(
        m.info.file_info,
        FileInfo::Single(SingleFile {
            file_name: "file name".to_string(),
            length: 20,
            md5sum: None,
        })
    );
    // the info-hash is the SHA-1 of the exact bytes of the inner info dict
    let expected = sha1_hash(&torrent[info_start..info_end]);
    assert_eq!(m.info_hash, expected);
}

#[test]
fn test_parse_bytes_entry_point() {
    assert!(matches!(
        MetaInfo::parse(b"xx"),
        Err(boosttorrent::metainfo::TorrentParseError::DecodeError(_))
    ));
    assert!(matches!(
        MetaInfo::parse(b"i5e"),
        Err(boosttorrent::metainfo::TorrentParseError::FormatError(_))
    ));

    let mut torrent = bytes("d8:announce5:a url4:infod6:lengthi20e4:name9:file name12:piece lengthi100e6:pieces40:");
    let mut raw: Vec<u8> = (0u8..40).collect();
    torrent.append(&mut raw);
    torrent.push(b'e');
    torrent.push(b'e');
    let m = MetaInfo::parse(&torrent).unwrap();
    assert_eq!(m.announce, "a url");
    assert_eq!(m.info.piece_length, 100);
}

#[test]
fn test_bstring_utf8_decoding() {
    // not UTF-8: the text reading is refused
    let bad = Value::BString(vec![0xff, 0xfe]);
    assert_eq!(bad.bstring_utf8(), None);
    // a two-byte encoding decodes to one character
    let accented = Value::BString(vec![0xc3, 0xa9]);
    assert_eq!(accented.bstring_utf8(), Some("\u{e9}".to_string()));
    // only byte strings read as text
    assert_eq!(Value::Integer(3).bstring_utf8(), None);
}
