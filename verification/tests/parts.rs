use gleam_project::model::{Input, ModuleOrigin};
use gleam_project::path::FilePath;
use gleam_project::source::{collect_source, is_gleam_path, DirEntry};
use gleam_project::text::{join, split};
use std::path::Path;

fn path(text: &str) -> FilePath {
    FilePath::new(text)
}

#[test]
fn origins_have_directories() {
    assert_eq!("src", ModuleOrigin::Src.dir_name());
    assert_eq!("src", ModuleOrigin::Dependency.dir_name());
    assert_eq!("test", ModuleOrigin::Test.dir_name());
}

#[test]
fn split_and_join_undo_each_other() {
    for (text, pieces) in vec![
        ("", vec![""]),
        ("one", vec!["one"]),
        ("one/two/three", vec!["one", "two", "three"]),
        ("/one//two/", vec!["", "one", "", "two", ""]),
        ("\u{e9}/\u{1f600}", vec!["\u{e9}", "\u{1f600}"]),
    ] {
        let split_text = split(text, '/');
        assert_eq!(pieces, split_text);
        assert_eq!(text, join(&split_text, "/"));
    }
    assert_eq!("", join(&Vec::new(), "@"));
}

/// The texts of paths, with separators and dots in every place.
fn path_texts() -> Vec<String> {
    let mut texts: Vec<String> = vec![
        "/src/one.gleam",
        "/src/a//b/c.gleam",
        "/src/a/./b/c.gleam",
        "/src//one.gleam/",
        "/src/./one.gleam/.",
        "a/b.tar.gz",
        "/a/.hidden",
        "/src/...gleam",
        "/src/..gleam",
        "noext",
        "a.",
        "/a/b.c/d",
        "\u{e9}/\u{1f600}.gleam",
    ]
    .into_iter()
    .map(|text| text.to_string())
    .collect();
    let pieces = vec!["", "/", ".", "..", "a", "b.c"];
    for one in pieces.iter() {
        for two in pieces.iter() {
            for three in pieces.iter() {
                for four in pieces.iter() {
                    texts.push(format!("{}{}{}{}", one, two, three, four));
                }
            }
        }
    }
    texts
}

#[test]
fn paths_behave_as_those_of_std() {
    for text in path_texts().iter() {
        let std_path = Path::new(text);
        let own = path(text);
        assert_eq!(Some(text.clone()), own.to_str());
        assert_eq!(
            std_path.parent().map(|p| p.to_str().unwrap().to_string()),
            own.parent().map(|p| p.to_str().unwrap()),
            "parent of {:?}",
            text
        );
        assert_eq!(
            std_path
                .file_stem()
                .map(|s| s.to_str().unwrap().as_bytes().to_vec()),
            own.file_stem(),
            "stem of {:?}",
            text
        );
        let components: Vec<Vec<u8>> = std_path
            .components()
            .map(|c| c.as_os_str().to_str().unwrap().as_bytes().to_vec())
            .collect();
        assert_eq!(components, own.components(), "components of {:?}", text);
        let mut extended = std_path.to_path_buf();
        extended.set_extension("md");
        assert_eq!(
            extended.to_str().unwrap(),
            own.replace_extension("md").to_str().unwrap(),
            "extension of {:?}",
            text
        );
        for name in vec!["x", "", ".", "..", "y.z", "/", "/root", "a/b"] {
            assert_eq!(
                std_path.join(name).to_str().unwrap(),
                own.join(&path(name)).to_str().unwrap(),
                "{:?} joined to {:?}",
                name,
                text
            );
        }
    }
}

#[test]
fn prefixes_are_stripped_as_by_std() {
    let bases = vec![
        "", "/", ".", "..", "./", "//", "/.", "a", "/a", "a/", "./a", "a//b.c", "/a/.", "b.c",
        "/src", "/src/", "/src/a", "x",
    ];
    for text in path_texts().iter() {
        for base in bases.iter() {
            assert_eq!(
                Path::new(text)
                    .strip_prefix(base)
                    .ok()
                    .map(|p| p.to_str().unwrap().to_string()),
                path(text)
                    .strip_prefix(&path(base))
                    .map(|p| p.to_str().unwrap()),
                "{:?} after {:?}",
                text,
                base
            );
            assert_eq!(
                Path::new(text) == Path::new(base),
                path(text) == path(base),
                "{:?} and {:?}",
                text,
                base
            );
        }
    }
}

#[test]
fn paths_need_not_be_text() {
    let bytes = vec![b'/', 0xff, b'/', b'a', b'.', 0xfe];
    let own = FilePath { bytes };
    assert_eq!(None, own.to_str());
    assert_eq!(Some(vec![b'a']), own.file_stem());
    assert_eq!(Some(vec![b'/', 0xff]), own.parent().map(|p| p.bytes));
    assert_eq!(
        Some(vec![b'a', b'.', 0xfe]),
        own.strip_prefix(&FilePath {
            bytes: vec![b'/', 0xff]
        })
        .map(|p| p.bytes)
    );
    assert_eq!(
        vec![b'/', 0xff, b'/', b'a', b'.', b'm', b'd'],
        own.replace_extension("md").bytes
    );
}

#[test]
fn join_all_goes_down_the_names() {
    let names = vec!["one".to_string(), "two".to_string()];
    assert_eq!(path("/gen/one/two"), path("/gen").join_all(&names));
    assert_eq!(path("/gen"), path("/gen").join_all(&Vec::new()));
}

fn module_name(base: FilePath, file: FilePath) -> Option<String> {
    let input = Input {
        source_base_path: base,
        path: file,
        src: "".to_string(),
        origin: ModuleOrigin::Src,
    };
    input.module_name()
}

#[test]
fn modules_are_named_after_their_paths() {
    for (base, file, name) in vec![
        ("/src", "/src/one.gleam", "one"),
        ("/src", "/src/one/two.gleam", "one/two"),
        ("/a/src", "/a/src/x/y/z.gleam", "x/y/z"),
        ("src", "src/one.two.gleam", "one.two"),
        ("/src", "/src/../one.gleam", "../one"),
        ("/src", "/src/a/..gleam", "a/."),
        ("/src", "/src/a//b/c.gleam", "a//b/c"),
        ("/src", "/src/a/./b/c.gleam", "a/./b/c"),
        ("/src", "/src//a//c.gleam/", "a/c"),
        ("/", "/one.gleam", "one"),
        ("", "/one.gleam", "/one"),
        ("", "./one.gleam", "./one"),
    ] {
        let std_name = Path::new(file)
            .strip_prefix(base)
            .unwrap()
            .parent()
            .unwrap()
            .join(Path::new(file).file_stem().unwrap());
        assert_eq!(name, std_name.to_str().unwrap());
        assert_eq!(
            Some(name.to_string()),
            module_name(path(base), path(file))
        );
    }
}

#[test]
fn some_sources_have_no_name() {
    assert_eq!(None, module_name(path("/src"), path("/other/one.gleam")));
    assert_eq!(None, module_name(path("/src"), path("/src")));
    assert_eq!(None, module_name(path("/src"), path("/src/..")));
    let file = FilePath {
        bytes: vec![b's', b'/', 0xff, b'.', b'g'],
    };
    assert_eq!(None, module_name(path("s"), file));
}

#[test]
fn only_the_name_of_a_module_need_be_text() {
    let base = FilePath {
        bytes: vec![b'/', 0xff],
    };
    let file = FilePath {
        bytes: vec![b'/', 0xff, b'/', b'o', b'n', b'e', b'.', 0xfe],
    };
    assert_eq!(Some("one".to_string()), module_name(base, file));
}

#[test]
fn gleam_paths_are_recognised() {
    for text in vec![
        "one.gleam",
        "one/two.gleam",
        "a_b/_/c.gleam",
        "gleam.gleam",
    ] {
        assert!(is_gleam_path(text), "{}", text);
    }
    for text in vec![
        "",
        ".gleam",
        "one",
        "one.erl",
        "/one.gleam",
        "one//two.gleam",
        "One.gleam",
        "one1.gleam",
        "one.gleam.gleam",
        "one/.gleam",
        "one.gleam/",
        "one.gleam\n",
        "\none.gleam",
        "onegleam",
        "\u{e9}.gleam",
    ] {
        assert!(!is_gleam_path(text), "{:?}", text);
    }
}

#[test]
fn sources_are_collected_in_order() {
    let entry = |text: &str, is_file: bool| DirEntry {
        is_file,
        path: path(text),
    };
    let entries = vec![
        entry("/p/src", false),
        entry("/p/src/one.gleam", true),
        entry("/p/src/README.md", true),
        entry("/p/src/dir.gleam", false),
        DirEntry {
            is_file: true,
            path: FilePath {
                bytes: [b"/p/src/".to_vec(), vec![0xff], b".gleam".to_vec()].concat(),
            },
        },
        entry("/elsewhere", false),
        entry("/p/src/nested/two.gleam", true),
    ];
    let mut srcs = vec![Input {
        source_base_path: path("/q"),
        path: path("/q/zero.gleam"),
        src: "zero".to_string(),
        origin: ModuleOrigin::Dependency,
    }];
    collect_source(
        &path("/p/src"),
        ModuleOrigin::Test,
        &entries,
        |file: &FilePath| (file.clone(), file.to_str().unwrap()),
        &mut srcs,
    );
    assert_eq!(3, srcs.len());
    assert_eq!("zero", srcs[0].src);
    for (input, (text, name)) in srcs[1..].iter().zip(vec![
        ("/p/src/one.gleam", "one"),
        ("/p/src/nested/two.gleam", "nested/two"),
    ]) {
        assert_eq!(path("/p/src"), input.source_base_path);
        assert_eq!(path(text), input.path);
        assert_eq!(text, input.src);
        assert_eq!(ModuleOrigin::Test, input.origin);
        assert_eq!(Some(name.to_string()), input.module_name());
        assert!(is_gleam_path(&format!("{}.gleam", name)));
    }
}

#[test]
fn only_sources_are_opened() {
    let entry = |text: &str, is_file: bool| DirEntry {
        is_file,
        path: path(text),
    };
    let entries = vec![
        entry("/src", false),
        entry("/src/notes.txt", true),
        entry("/src/one.gleam", true),
        entry("/src/Two.gleam", true),
        entry("/src/three.gleam", false),
        DirEntry {
            is_file: true,
            path: FilePath {
                bytes: vec![b'/', b's', b'r', b'c', b'/', 0xff],
            },
        },
    ];
    let mut srcs = Vec::new();
    collect_source(
        &path("/src"),
        ModuleOrigin::Src,
        &entries,
        |file: &FilePath| {
            assert_eq!(path("/src/one.gleam"), *file);
            (file.clone(), "contents".to_string())
        },
        &mut srcs,
    );
    assert_eq!(1, srcs.len());
    assert_eq!(path("/src/one.gleam"), srcs[0].path);
    assert_eq!("contents", srcs[0].src);
}
