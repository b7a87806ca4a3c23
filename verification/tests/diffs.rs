use carbide::difference::{differ_generations, Action, Difference, File};
use carbide::generations::{File as GenFile, Generation, Script};

fn s(x: &str) -> String {
    String::from(x)
}

fn file(path: &str, content: Option<&str>) -> GenFile {
    GenFile {
        path: s(path),
        content: content.map(String::from),
    }
}

#[test]
fn differ_generations_files() {
    let initial_generation = Generation {
        id: 0,
        creation_datetime: 1,
        files: vec![
            file("set_and_", Some("Hello World")),
            file("set_and_delete", Some("Hello World")),
            file("set_and_update", Some("Initial Content")),
        ],
        scripts: vec![],
    };

    let final_generation = Generation {
        id: 1,
        creation_datetime: 2,
        files: vec![
            file("set_and_delete", None),
            file("set_and_update", Some("Final Content")),
            file("_and_create", Some("New Content")),
        ],
        scripts: vec![],
    };

    assert_eq!(
        differ_generations(&initial_generation, &final_generation),
        Difference {
            actions: vec![
                Action::File(File::Delete {
                    path: s("set_and_delete"),
                }),
                Action::File(File::Update {
                    path: s("set_and_update"),
                    content: s("Final Content"),
                }),
                Action::File(File::Create {
                    path: s("_and_create"),
                    content: s("New Content"),
                }),
                Action::File(File::Delete {
                    path: s("set_and_"),
                }),
            ]
        }
    )
}

#[test]
fn differ_generations_scripts() {
    let initial_generation = Generation {
        id: 0,
        creation_datetime: 1,
        files: vec![],
        scripts: vec![
            Script {
                install: vec![s("sudo apt-get install ffmpeg")],
                update: vec![s("sudo apt-get update ffmpeg")],
                uninstall: vec![s("sudo apt-get uninstall ffmpeg")],
            },
            Script {
                install: vec![s("sudo apt-get install docker")],
                update: vec![s("sudo apt-get update docker")],
                uninstall: vec![s("sudo apt-get uninstall docker")],
            },
        ],
    };

    let final_generation = Generation {
        id: 1,
        creation_datetime: 2,
        files: vec![],
        scripts: vec![Script {
            install: vec![s("sudo apt-get install ffmpeg_2")],
            update: vec![s("sudo apt-get update ffmpeg")],
            uninstall: vec![s("sudo apt-get uninstall ffmpeg")],
        }],
    };

    assert_eq!(
        differ_generations(&initial_generation, &final_generation),
        Difference {
            actions: vec![
                Action::Script(vec![s("sudo apt-get uninstall ffmpeg")]),
                Action::Script(vec![s("sudo apt-get uninstall docker")]),
                Action::Script(vec![s("sudo apt-get install ffmpeg_2")]),
            ]
        }
    )
}

#[test]
fn diff_create_update_delete_scenario() {
    let old = Generation {
        id: 0,
        creation_datetime: 0,
        files: vec![
            file("A", Some("x")),
            file("B", Some("y")),
            file("C", Some("z")),
        ],
        scripts: vec![],
    };
    let new = Generation {
        id: 1,
        creation_datetime: 0,
        files: vec![
            file("B", Some("y")),
            file("C", Some("z2")),
            file("D", Some("w")),
        ],
        scripts: vec![],
    };
    assert_eq!(
        differ_generations(&old, &new),
        Difference {
            actions: vec![
                Action::File(File::Update {
                    path: s("C"),
                    content: s("z2"),
                }),
                Action::File(File::Create {
                    path: s("D"),
                    content: s("w"),
                }),
                Action::File(File::Delete { path: s("A") }),
            ]
        }
    );
}

#[test]
fn diff_script_replace_scenario() {
    let old = Generation {
        id: 0,
        creation_datetime: 0,
        files: vec![],
        scripts: vec![Script {
            install: vec![s("I1")],
            update: vec![],
            uninstall: vec![s("U1")],
        }],
    };
    let new = Generation {
        id: 1,
        creation_datetime: 0,
        files: vec![],
        scripts: vec![Script {
            install: vec![s("I2")],
            update: vec![],
            uninstall: vec![s("U2")],
        }],
    };
    assert_eq!(
        differ_generations(&old, &new),
        Difference {
            actions: vec![Action::Script(vec![s("U1")]), Action::Script(vec![s("I2")])]
        }
    );
}

#[test]
fn diff_script_unchanged_scenario() {
    let old = Generation {
        id: 0,
        creation_datetime: 0,
        files: vec![],
        scripts: vec![Script {
            install: vec![s("I1")],
            update: vec![s("old update")],
            uninstall: vec![s("old uninstall")],
        }],
    };
    let new = Generation {
        id: 1,
        creation_datetime: 0,
        files: vec![],
        scripts: vec![Script {
            install: vec![s("I1")],
            update: vec![s("new update")],
            uninstall: vec![s("new uninstall")],
        }],
    };
    assert_eq!(differ_generations(&old, &new), Difference { actions: vec![] });
}

#[test]
fn diff_of_generation_with_itself_is_empty() {
    let g = Generation {
        id: 4,
        creation_datetime: 9,
        files: vec![file("A", Some("x")), file("B", None)],
        scripts: vec![Script {
            install: vec![s("I")],
            update: vec![s("P")],
            uninstall: vec![s("U")],
        }],
    };
    assert_eq!(differ_generations(&g, &g), Difference { actions: vec![] });
}

#[test]
fn diff_emits_delete_for_newly_declared_absent_path() {
    let old = Generation {
        id: 0,
        creation_datetime: 0,
        files: vec![],
        scripts: vec![],
    };
    let new = Generation {
        id: 1,
        creation_datetime: 0,
        files: vec![file("gone", None)],
        scripts: vec![],
    };
    assert_eq!(
        differ_generations(&old, &new),
        Difference {
            actions: vec![Action::File(File::Delete { path: s("gone") })]
        }
    );
}
