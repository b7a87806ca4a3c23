use carbide::generations::{File, Generation, Script};
use carbide::store::{
    generation_file_name, parse_generation_file_name, ParsedName, StoreEntry, StoreError,
};

fn s(x: &str) -> String {
    String::from(x)
}

fn sample_generation(id: i32) -> Generation {
    Generation {
        id,
        creation_datetime: 1_700_000_000_000,
        files: vec![File {
            path: s("/etc/neovim"),
            content: Some(s("Hello World")),
        }],
        scripts: vec![Script {
            install: vec![s("sudo apt-get install neovim")],
            update: vec![],
            uninstall: vec![s("sudo apt-get uninstall neovim")],
        }],
    }
}

fn entry(name: &str, g: &Generation) -> StoreEntry {
    StoreEntry {
        name: s(name),
        data: g.encode(),
    }
}

#[test]
fn generation_read_write() {
    let generation = sample_generation(1);
    let record = generation.encode();
    assert_eq!(generation, Generation::decode(&record).unwrap());
}

#[test]
fn read_generations() {
    let generation_0 = Generation {
        id: 0,
        creation_datetime: 5,
        files: vec![],
        scripts: vec![Script {
            install: vec![s("sudo apt-get install neovim")],
            update: vec![],
            uninstall: vec![s("sudo apt-get uninstall neovim")],
        }],
    };
    let generation_1 = sample_generation(1);

    let entries = vec![
        entry("carbide-0", &generation_0),
        entry("carbide-1", &generation_1),
    ];

    assert_eq!(
        carbide::store::read_generations(&entries).unwrap(),
        vec![generation_0, generation_1]
    )
}

#[test]
fn read_generations_sorts_and_ignores_foreign_names() {
    let entries = vec![
        entry("carbide-4", &sample_generation(4)),
        StoreEntry {
            name: s("notes.txt"),
            data: vec![1, 2, 3],
        },
        entry("carbide-2", &sample_generation(2)),
    ];
    assert_eq!(
        carbide::store::read_generations(&entries).unwrap(),
        vec![sample_generation(2), sample_generation(4)]
    )
}

#[test]
fn read_last_generation() {
    let generation_0 = Generation {
        id: 0,
        creation_datetime: 5,
        files: vec![],
        scripts: vec![],
    };
    let generation_1 = sample_generation(1);

    let entries = vec![
        entry("carbide-0", &generation_0),
        entry("carbide-1", &generation_1),
    ];

    assert_eq!(carbide::store::read_last_generation(&entries).unwrap(), generation_1)
}

#[test]
fn read_last_generation_skips_gaps() {
    let entries = vec![
        entry("carbide-0", &sample_generation(0)),
        entry("carbide-2", &sample_generation(2)),
        entry("carbide-5", &sample_generation(5)),
    ];
    assert_eq!(carbide::store::read_last_generation(&entries).unwrap(), sample_generation(5));
}

#[test]
fn read_last_generation_empty_store_is_not_found() {
    let entries: Vec<StoreEntry> = vec![];
    assert_eq!(carbide::store::read_last_generation(&entries), Err(StoreError::NotFound));
}

#[test]
fn read_last_generation_ignores_foreign_names() {
    let entries = vec![
        StoreEntry {
            name: s("README"),
            data: vec![0, 1],
        },
        entry("carbide-3", &sample_generation(3)),
        StoreEntry {
            name: s("carbide-x"),
            data: vec![9],
        },
    ];
    assert_eq!(carbide::store::read_last_generation(&entries).unwrap(), sample_generation(3));
}

#[test]
fn read_last_generation_rejects_oversized_id() {
    let entries = vec![
        entry("carbide-0", &sample_generation(0)),
        StoreEntry {
            name: s("carbide-99999999999"),
            data: vec![],
        },
    ];
    assert_eq!(carbide::store::read_last_generation(&entries), Err(StoreError::InvalidId));
}

#[test]
fn read_last_generation_corrupt_record_is_codec_error() {
    let entries = vec![StoreEntry {
        name: s("carbide-0"),
        data: vec![0xff, 0xff],
    }];
    assert_eq!(carbide::store::read_last_generation(&entries), Err(StoreError::Codec));
}

#[test]
fn read_generations_corrupt_record_is_codec_error() {
    let entries = vec![StoreEntry {
        name: s("carbide-0"),
        data: vec![0xff, 0xff],
    }];
    assert_eq!(carbide::store::read_generations(&entries), Err(StoreError::Codec));
}

#[test]
fn read_generations_of_empty_store_is_empty() {
    let entries: Vec<StoreEntry> = vec![];
    assert_eq!(carbide::store::read_generations(&entries).unwrap(), vec![]);
}

#[test]
fn file_names_follow_the_record_grammar() {
    assert_eq!(generation_file_name(0), "carbide-0");
    assert_eq!(generation_file_name(12345), "carbide-12345");
    assert_eq!(generation_file_name(i32::MAX), "carbide-2147483647");
}

#[test]
fn parse_file_names() {
    assert_eq!(
        parse_generation_file_name("carbide-0"),
        ParsedName::GenerationId(0)
    );
    assert_eq!(
        parse_generation_file_name("carbide-007"),
        ParsedName::GenerationId(7)
    );
    assert_eq!(
        parse_generation_file_name("carbide-2147483647"),
        ParsedName::GenerationId(i32::MAX)
    );
    assert_eq!(
        parse_generation_file_name("carbide-2147483648"),
        ParsedName::IdOutOfRange
    );
    assert_eq!(
        parse_generation_file_name("carbide-"),
        ParsedName::NotAGeneration
    );
    assert_eq!(
        parse_generation_file_name("carbide-12x"),
        ParsedName::NotAGeneration
    );
    assert_eq!(
        parse_generation_file_name("xcarbide-1"),
        ParsedName::NotAGeneration
    );
    assert_eq!(
        parse_generation_file_name("carbide"),
        ParsedName::NotAGeneration
    );
}
