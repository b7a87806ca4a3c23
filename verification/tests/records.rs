use carbide::generations::{File, Generation, Script};

fn s(x: &str) -> String {
    String::from(x)
}

#[test]
fn round_trip_preserves_every_field() {
    let g = Generation {
        id: 42,
        creation_datetime: -12345,
        files: vec![
            File {
                path: s("/etc/app/config"),
                content: Some(s("line one\nline two")),
            },
            File {
                path: s("/etc/app/old"),
                content: None,
            },
        ],
        scripts: vec![
            Script {
                install: vec![s("install a"), s("install b")],
                update: vec![s("update a")],
                uninstall: vec![],
            },
            Script {
                install: vec![],
                update: vec![],
                uninstall: vec![s("uninstall")],
            },
        ],
    };
    assert_eq!(Generation::decode(&g.encode()).unwrap(), g);
}

#[test]
fn round_trip_preserves_negative_id() {
    let g = Generation {
        id: -1,
        creation_datetime: 0,
        files: vec![],
        scripts: vec![],
    };
    assert_eq!(Generation::decode(&g.encode()).unwrap(), g);
}

#[test]
fn round_trip_preserves_unicode_content() {
    let g = Generation {
        id: 7,
        creation_datetime: 3,
        files: vec![File {
            path: s("/tmp/α"),
            content: Some(s("naïve — ünïcödé ✓")),
        }],
        scripts: vec![],
    };
    assert_eq!(Generation::decode(&g.encode()).unwrap(), g);
}

#[test]
fn empty_generation_encodes_to_fixed_header() {
    let g = Generation {
        id: 0,
        creation_datetime: 0,
        files: vec![],
        scripts: vec![],
    };
    // 4 id bytes, 8 timestamp bytes, 8 file-count bytes, 8 script-count
    // bytes, every field zero.
    assert_eq!(g.encode(), vec![0u8; 28]);
}

#[test]
fn encode_lays_out_little_endian_fields() {
    let g = Generation {
        id: 258,
        creation_datetime: 5,
        files: vec![File {
            path: s("ab"),
            content: None,
        }],
        scripts: vec![],
    };
    let mut expected: Vec<u8> = vec![];
    expected.extend_from_slice(&[2, 1, 0, 0]); // id 258
    expected.extend_from_slice(&[5, 0, 0, 0, 0, 0, 0, 0]); // timestamp
    expected.extend_from_slice(&[1, 0, 0, 0, 0, 0, 0, 0]); // one file
    expected.extend_from_slice(&[2, 0, 0, 0, 0, 0, 0, 0]); // path length
    expected.extend_from_slice(b"ab");
    expected.push(0); // content absent
    expected.extend_from_slice(&[0, 0, 0, 0, 0, 0, 0, 0]); // no scripts
    assert_eq!(g.encode(), expected);
}

#[test]
fn decode_rejects_truncated_records() {
    let g = Generation {
        id: 1,
        creation_datetime: 2,
        files: vec![File {
            path: s("p"),
            content: Some(s("c")),
        }],
        scripts: vec![],
    };
    let mut record = g.encode();
    record.pop();
    assert_eq!(Generation::decode(&record), None);
    assert_eq!(Generation::decode(&[]), None);
}

#[test]
fn decode_rejects_invalid_content_tag() {
    let g = Generation {
        id: 1,
        creation_datetime: 2,
        files: vec![File {
            path: s("p"),
            content: None,
        }],
        scripts: vec![],
    };
    let mut record = g.encode();
    // The content tag of the single file sits right before the trailing
    // script count.
    let tag_index = record.len() - 9;
    assert_eq!(record[tag_index], 0);
    record[tag_index] = 9;
    assert_eq!(Generation::decode(&record), None);
}

#[test]
fn decode_rejects_bytes_that_are_not_utf8() {
    let g = Generation {
        id: 1,
        creation_datetime: 2,
        files: vec![File {
            path: s("ab"),
            content: None,
        }],
        scripts: vec![],
    };
    let mut record = g.encode();
    // The two path bytes sit right after the id, timestamp, file count and
    // path length fields.
    let path_index = 4 + 8 + 8 + 8;
    assert_eq!(&record[path_index..path_index + 2], b"ab");
    record[path_index] = 0xff;
    record[path_index + 1] = 0xfe;
    assert_eq!(Generation::decode(&record), None);
}

#[test]
fn decode_ignores_trailing_bytes() {
    let g = Generation {
        id: 3,
        creation_datetime: 4,
        files: vec![],
        scripts: vec![],
    };
    let mut record = g.encode();
    record.push(0xaa);
    assert_eq!(Generation::decode(&record).unwrap(), g);
}
