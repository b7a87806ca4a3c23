use carbide::config::{Action, Config, File as ConfigFile, Script as ConfigScript};
use carbide::generations::{BuildError, File, Generation, Script};

fn s(x: &str) -> String {
    String::from(x)
}

#[test]
fn generation_from_lua_config() {
    let config = Config {
        actions: vec![
            Action::Script(ConfigScript {
                install: vec![s("sudo apt-get install carbide")],
                update: vec![],
                uninstall: vec![s("sudo apt-get uninstall carbide")],
            }),
            Action::File(ConfigFile::SetFile {
                path: s("/file_set"),
                content: s("print(\"Hello World\")"),
            }),
            Action::File(ConfigFile::AppendFile {
                path: s("/file_append"),
                content: s("print(\"Hello World\")"),
            }),
            Action::File(ConfigFile::AppendFile {
                path: s("/file_append"),
                content: s("print(\"Hello World 2\")"),
            }),
            Action::File(ConfigFile::DeleteFile {
                path: s("/file_delete"),
            }),
        ],
    };

    let creation_datetime = 1_700_000_000_000i64;
    let generation = Generation::from_lua_config(&config, 0, creation_datetime).unwrap();

    assert_eq!(
        generation,
        Generation {
            id: 0,
            creation_datetime,
            files: vec![
                File {
                    path: s("/file_set"),
                    content: Some(s("print(\"Hello World\")")),
                },
                File {
                    path: s("/file_append"),
                    content: Some(s("print(\"Hello World\")\nprint(\"Hello World 2\")")),
                },
                File {
                    path: s("/file_delete"),
                    content: None,
                },
            ],
            scripts: vec![Script {
                install: vec![s("sudo apt-get install carbide")],
                update: vec![],
                uninstall: vec![s("sudo apt-get uninstall carbide")],
            }],
        }
    )
}

#[test]
fn builder_rejects_duplicate_set() {
    let config = Config {
        actions: vec![
            Action::File(ConfigFile::SetFile {
                path: s("/etc/app"),
                content: s("a"),
            }),
            Action::File(ConfigFile::SetFile {
                path: s("/etc/app"),
                content: s("b"),
            }),
        ],
    };
    assert_eq!(
        Generation::from_lua_config(&config, 0, 0),
        Err(BuildError::DuplicatePath(s("/etc/app")))
    );
}

#[test]
fn builder_rejects_set_then_delete() {
    let config = Config {
        actions: vec![
            Action::File(ConfigFile::SetFile {
                path: s("/etc/app"),
                content: s("a"),
            }),
            Action::File(ConfigFile::DeleteFile { path: s("/etc/app") }),
        ],
    };
    assert_eq!(
        Generation::from_lua_config(&config, 0, 0),
        Err(BuildError::DuplicatePath(s("/etc/app")))
    );
}

#[test]
fn builder_accumulates_appends() {
    let config = Config {
        actions: vec![
            Action::File(ConfigFile::AppendFile {
                path: s("p"),
                content: s("a"),
            }),
            Action::File(ConfigFile::AppendFile {
                path: s("p"),
                content: s("b"),
            }),
        ],
    };
    let generation = Generation::from_lua_config(&config, 3, 7).unwrap();
    assert_eq!(
        generation.files,
        vec![File {
            path: s("p"),
            content: Some(s("a\nb")),
        }]
    );
}

#[test]
fn builder_append_after_delete_restores_content() {
    let config = Config {
        actions: vec![
            Action::File(ConfigFile::DeleteFile { path: s("p") }),
            Action::File(ConfigFile::AppendFile {
                path: s("p"),
                content: s("text"),
            }),
        ],
    };
    let generation = Generation::from_lua_config(&config, 0, 0).unwrap();
    assert_eq!(
        generation.files,
        vec![File {
            path: s("p"),
            content: Some(s("text")),
        }]
    );
}

#[test]
fn builder_set_then_append_joins_with_newline() {
    let config = Config {
        actions: vec![
            Action::File(ConfigFile::SetFile {
                path: s("p"),
                content: s("head"),
            }),
            Action::File(ConfigFile::AppendFile {
                path: s("p"),
                content: s("tail"),
            }),
        ],
    };
    let generation = Generation::from_lua_config(&config, 0, 0).unwrap();
    assert_eq!(
        generation.files,
        vec![File {
            path: s("p"),
            content: Some(s("head\ntail")),
        }]
    );
}

#[test]
fn new_generation_precedes_id_zero() {
    let generation = Generation::new();
    assert_eq!(generation.id, -1);
    assert!(generation.files.is_empty());
    assert!(generation.scripts.is_empty());
}
