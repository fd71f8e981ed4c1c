use gleam_project::error::{Error, Meta};
use gleam_project::model::{
    Compiled, Input, ModuleInfo, ModuleOrigin, OutputFile, ParsedModule, RenderDocs, TypedModule,
};
use gleam_project::path::FilePath;
use gleam_project::project::compile;

struct Case {
    input: Vec<Input>,
    expected: Result<Vec<Output>, Error<String, String>>,
}

#[derive(Debug, PartialEq)]
struct Output {
    name: Vec<String>,
    files: Vec<OutputFile>,
    origin: ModuleOrigin,
}

/// The path with this text.
fn path(text: &str) -> FilePath {
    FilePath::new(text)
}

/// Finds the imports of a source: the word after each `import`.
fn parse(src: &String) -> Result<ParsedModule<String>, String> {
    let mut dependencies = Vec::new();
    let mut at = 0;
    while let Some(found) = src[at..].find("import ") {
        let start = at + found + "import ".len();
        let end = src[start..]
            .find(|c: char| !(c.is_ascii_lowercase() || c == '_' || c == '/'))
            .map_or(src.len(), |length| start + length);
        dependencies.push((src[start..end].to_string(), Meta { start, end }));
        at = end;
    }
    if src.contains("syntax error") {
        return Err("unexpected token".to_string());
    }
    Ok(ParsedModule {
        dependencies,
        module: src.clone(),
    })
}

/// A typed module is its name and its source. Its type information is the names of
/// the modules that it was inferred after.
fn infer(
    name: &Vec<String>,
    module: String,
    infos: &Vec<ModuleInfo<Vec<String>>>,
) -> Result<TypedModule<(Vec<String>, String), Vec<String>>, String> {
    if module.contains("type error") {
        return Err(format!("in {}", name.join("/")));
    }
    Ok(TypedModule {
        type_info: infos.iter().map(|info| info.name.clone()).collect(),
        module: (name.clone(), module),
    })
}

/// The Erlang code of the functions of a source.
fn erlang_functions(src: &str) -> &'static str {
    match src {
        "import one pub fn unbox(x) { let one.Box(i) = x i }" => {
            "-export([unbox/1]).\n\nunbox(X) ->\n    {box, I} = X,\n    I.\n"
        }
        "import one pub fn box(x) { one.Box(x) }" => {
            "-export([box/1]).\n\nbox(X) ->\n    {box, X}.\n"
        }
        "import one pub fn box() { one.Box }" => "-export([box/0]).\n\nbox() ->\n    box.\n",
        "pub fn go() { 1 }" | "pub external type Thing pub fn go() { 1 }" => {
            "-export([go/0]).\n\ngo() ->\n    1.\n"
        }
        "import one as thingy       pub fn call() { thingy.go() }" => {
            "-export([call/0]).\n\ncall() ->\n    one:go().\n"
        }
        "import nested/one\npub fn go(x) { let one.Box(y) = x y }"
        | "import nested/one as thingy\npub fn go(x) { let thingy.Box(y) = x y }" => {
            "-export([go/1]).\n\ngo(X) ->\n    {box, Y} = X,\n    Y.\n"
        }
        "import nested/one
                        pub fn go() { one.go() }
                        pub external fn thing() -> one.Thing = \"thing\" \"new\"" => {
            "-export([go/0, thing/0]).\n\ngo() ->\n    nested@one:go().\n\nthing() ->\n    thing:new().\n"
        }
        "import one
                        fn make() { one.Point(1, 4) }
                        fn x(p) { let one.Point(x, _) = p x }" => {
            "make() ->\n    {1, 4}.\n\nx(P) ->\n    {X, _} = P,\n    X.\n"
        }
        "import one
                        fn make() { one.Empty }" => "make() ->\n    {}.\n",
        "pub fn id(x) { x } pub struct Empty {}" => "-export([id/1]).\n\nid(X) ->\n    X.\n",
        "import one.{Empty, id} fn make() { id(Empty) }" => "make() ->\n    one:id({}).\n",
        _ => "\n",
    }
}

/// The Erlang code of a typed module.
fn generate(module: (Vec<String>, String)) -> String {
    let (name, src) = module;
    format!(
        "-module({}).\n-compile(no_auto_import).\n\n{}",
        name.join("@"),
        erlang_functions(&src)
    )
}

fn compile_sources(
    input: Vec<Input>,
    render_docs: RenderDocs,
) -> Result<Vec<Compiled<Vec<String>>>, Error<String, String>> {
    compile(input, render_docs, parse, infer, generate)
}

#[test]
fn compile_test() {
    let cases = vec![
        Case {
            input: vec![],
            expected: Ok(vec![]),
        },
        Case {
            input: vec![
                Input {
                    origin: ModuleOrigin::Src,
                    source_base_path: path("/src"),
                    path: path("/src/one.gleam"),
                    src: "".to_string(),
                },
                Input {
                    origin: ModuleOrigin::Src,
                    source_base_path: path("/src"),
                    path: path("/src/two.gleam"),
                    src: "".to_string(),
                },
            ],
            expected: Ok(vec![
                Output {
                    origin: ModuleOrigin::Src,
                    name: vec!["two".to_string()],
                    files: vec![OutputFile {
                        path: path("/gen/src/two.erl"),
                        contents: "-module(two).\n-compile(no_auto_import).\n\n\n".to_string(),
                    }],
                },
                Output {
                    origin: ModuleOrigin::Src,
                    name: vec!["one".to_string()],
                    files: vec![OutputFile {
                        path: path("/gen/src/one.erl"),
                        contents: "-module(one).\n-compile(no_auto_import).\n\n\n".to_string(),
                    }],
                },
            ]),
        },
        Case {
            input: vec![Input {
                origin: ModuleOrigin::Test,
                source_base_path: path("/test"),
                path: path("/test/one.gleam"),
                src: "".to_string(),
            }],
            expected: Ok(vec![Output {
                origin: ModuleOrigin::Test,
                name: vec!["one".to_string()],
                files: vec![OutputFile {
                    path: path("/gen/test/one.erl"),
                    contents: "-module(one).\n-compile(no_auto_import).\n\n\n".to_string(),
                }],
            }]),
        },
        Case {
            input: vec![
                Input {
                    origin: ModuleOrigin::Test,
                    source_base_path: path("/test"),
                    path: path("/test/two.gleam"),
                    src: "".to_string(),
                },
                Input {
                    origin: ModuleOrigin::Src,
                    source_base_path: path("/src"),
                    path: path("/src/one.gleam"),
                    src: "import two".to_string(),
                },
            ],
            expected: Err(Error::SrcImportingTest {
                path: path("/src/one.gleam"),
                src: "import two".to_string(),
                meta: Meta { start: 7, end: 10 },
                src_module: "one".to_string(),
                test_module: "two".to_string(),
            }),
        },
        Case {
            input: vec![
                Input {
                    origin: ModuleOrigin::Src,
                    path: path("/src/one.gleam"),
                    source_base_path: path("/src"),
                    src: "import two".to_string(),
                },
                Input {
                    origin: ModuleOrigin::Src,
                    path: path("/src/two.gleam"),
                    source_base_path: path("/src"),
                    src: "".to_string(),
                },
            ],
            expected: Ok(vec![
                Output {
                    origin: ModuleOrigin::Src,
                    name: vec!["two".to_string()],
                    files: vec![OutputFile {
                        path: path("/gen/src/two.erl"),
                        contents: "-module(two).\n-compile(no_auto_import).\n\n\n".to_string(),
                    }],
                },
                Output {
                    origin: ModuleOrigin::Src,
                    name: vec!["one".to_string()],
                    files: vec![OutputFile {
                        path: path("/gen/src/one.erl"),
                        contents: "-module(one).\n-compile(no_auto_import).\n\n\n".to_string(),
                    }],
                },
            ]),
        },
        Case {
            input: vec![
                Input {
                    origin: ModuleOrigin::Src,
                    path: path("/src/one.gleam"),
                    source_base_path: path("/src"),
                    src: "".to_string(),
                },
                Input {
                    origin: ModuleOrigin::Src,
                    path: path("/src/two.gleam"),
                    source_base_path: path("/src"),
                    src: "import one".to_string(),
                },
            ],
            expected: Ok(vec![
                Output {
                    origin: ModuleOrigin::Src,
                    name: vec!["one".to_string()],
                    files: vec![OutputFile {
                        path: path("/gen/src/one.erl"),
                        contents: "-module(one).\n-compile(no_auto_import).\n\n\n".to_string(),
                    }],
                },
                Output {
                    origin: ModuleOrigin::Src,
                    name: vec!["two".to_string()],
                    files: vec![OutputFile {
                        path: path("/gen/src/two.erl"),
                        contents: "-module(two).\n-compile(no_auto_import).\n\n\n".to_string(),
                    }],
                },
            ]),
        },
        Case {
            input: vec![
                Input {
                    origin: ModuleOrigin::Src,
                    path: path("/src/one.gleam"),
                    source_base_path: path("/src"),
                    src: "pub enum Box { Box(Int) }".to_string(),
                },
                Input {
                    origin: ModuleOrigin::Src,
                    path: path("/src/two.gleam"),
                    source_base_path: path("/src"),
                    src: "import one pub fn unbox(x) { let one.Box(i) = x i }".to_string(),
                },
            ],
            expected: Ok(vec![
                Output {
                    origin: ModuleOrigin::Src,
                    name: vec!["one".to_string()],
                    files: vec![OutputFile {
                        path: path("/gen/src/one.erl"),
                        contents: "-module(one).\n-compile(no_auto_import).\n\n\n".to_string(),
                    }],
                },
                Output {
                    origin: ModuleOrigin::Src,
                    name: vec!["two".to_string()],
                    files: vec![OutputFile {
                        path: path("/gen/src/two.erl"),
                        contents:
                            "-module(two).\n-compile(no_auto_import).\n\n-export([unbox/1]).\n
unbox(X) ->\n    {box, I} = X,\n    I.\n"
                                .to_string(),
                    }],
                },
            ]),
        },
        Case {
            input: vec![
                Input {
                    origin: ModuleOrigin::Dependency,
                    path: path("/src/one.gleam"),
                    source_base_path: path("/src"),
                    src: "pub enum Box { Box(Int) }".to_string(),
                },
                Input {
                    origin: ModuleOrigin::Dependency,
                    path: path("/src/two.gleam"),
                    source_base_path: path("/src"),
                    src: "import one pub fn box(x) { one.Box(x) }".to_string(),
                },
            ],
            expected: Ok(vec![
                Output {
                    origin: ModuleOrigin::Dependency,
                    name: vec!["one".to_string()],
                    files: vec![OutputFile {
                        path: path("/gen/src/one.erl"),
                        contents: "-module(one).\n-compile(no_auto_import).\n\n\n".to_string(),
                    }],
                },
                Output {
                    origin: ModuleOrigin::Dependency,
                    name: vec!["two".to_string()],
                    files: vec![OutputFile {
                        path: path("/gen/src/two.erl"),
                        contents: "-module(two).\n-compile(no_auto_import).\n\n-export([box/1]).\n
box(X) ->\n    {box, X}.\n"
                            .to_string(),
                    }],
                },
            ]),
        },
        Case {
            input: vec![Input {
                origin: ModuleOrigin::Src,
                path: path("/src/one/two.gleam"),
                source_base_path: path("/src"),
                src: "pub enum Box { Box }".to_string(),
            }],
            expected: Ok(vec![Output {
                origin: ModuleOrigin::Src,
                name: vec!["one".to_string(), "two".to_string()],
                files: vec![OutputFile {
                    path: path("/gen/src/one@two.erl"),
                    contents: "-module(one@two).\n-compile(no_auto_import).\n\n\n".to_string(),
                }],
            }]),
        },
        Case {
            input: vec![
                Input {
                    origin: ModuleOrigin::Src,
                    path: path("/src/one.gleam"),
                    source_base_path: path("/src"),
                    src: "pub enum Box { Box }".to_string(),
                },
                Input {
                    origin: ModuleOrigin::Src,
                    path: path("/src/two.gleam"),
                    source_base_path: path("/src"),
                    src: "import one pub fn box() { one.Box }".to_string(),
                },
            ],
            expected: Ok(vec![
                Output {
                    origin: ModuleOrigin::Src,
                    name: vec!["one".to_string()],
                    files: vec![OutputFile {
                        path: path("/gen/src/one.erl"),
                        contents: "-module(one).\n-compile(no_auto_import).\n\n\n".to_string(),
                    }],
                },
                Output {
                    origin: ModuleOrigin::Src,
                    name: vec!["two".to_string()],
                    files: vec![OutputFile {
                        path: path("/gen/src/two.erl"),
                        contents: "-module(two).\n-compile(no_auto_import).\n\n-export([box/0]).\n
box() ->\n    box.\n"
                            .to_string(),
                    }],
                },
            ]),
        },
        Case {
            input: vec![
                Input {
                    origin: ModuleOrigin::Src,
                    path: path("/src/one.gleam"),
                    source_base_path: path("/src"),
                    src: "pub fn go() { 1 }".to_string(),
                },
                Input {
                    origin: ModuleOrigin::Src,
                    path: path("/src/two.gleam"),
                    source_base_path: path("/src"),
                    src: "import one as thingy       pub fn call() { thingy.go() }".to_string(),
                },
            ],
            expected: Ok(vec![
                Output {
                    origin: ModuleOrigin::Src,
                    name: vec!["one".to_string()],
                    files: vec![OutputFile {
                        path: path("/gen/src/one.erl"),
                        contents: "-module(one).\n-compile(no_auto_import).\n\n-export([go/0]).\n
go() ->
    1.\n"
                            .to_string(),
                    }],
                },
                Output {
                    origin: ModuleOrigin::Src,
                    name: vec!["two".to_string()],
                    files: vec![OutputFile {
                        path: path("/gen/src/two.erl"),
                        contents: "-module(two).\n-compile(no_auto_import).\n\n-export([call/0]).\n
call() ->
    one:go().\n"
                            .to_string(),
                    }],
                },
            ]),
        },
        Case {
            input: vec![
                Input {
                    origin: ModuleOrigin::Src,
                    path: path("/src/nested/one.gleam"),
                    source_base_path: path("/src"),
                    src: "pub enum Box { Box(Int) }".to_string(),
                },
                Input {
                    origin: ModuleOrigin::Src,
                    path: path("/src/two.gleam"),
                    source_base_path: path("/src"),
                    src: "import nested/one\npub fn go(x) { let one.Box(y) = x y }".to_string(),
                },
            ],
            expected: Ok(vec![
                Output {
                    origin: ModuleOrigin::Src,
                    name: vec!["nested".to_string(), "one".to_string()],
                    files: vec![OutputFile {
                        path: path("/gen/src/nested@one.erl"),
                        contents: "-module(nested@one).\n-compile(no_auto_import).\n\n\n"
                            .to_string(),
                    }],
                },
                Output {
                    origin: ModuleOrigin::Src,
                    name: vec!["two".to_string()],
                    files: vec![OutputFile {
                        path: path("/gen/src/two.erl"),
                        contents: "-module(two).\n-compile(no_auto_import).\n\n-export([go/1]).
\ngo(X) ->\n    {box, Y} = X,\n    Y.\n"
                            .to_string(),
                    }],
                },
            ]),
        },
        Case {
            input: vec![
                Input {
                    origin: ModuleOrigin::Src,
                    path: path("/src/nested/one.gleam"),
                    source_base_path: path("/src"),
                    src: "pub enum Box { Box(Int) }".to_string(),
                },
                Input {
                    origin: ModuleOrigin::Src,
                    path: path("/src/two.gleam"),
                    source_base_path: path("/src"),
                    src: "import nested/one as thingy\npub fn go(x) { let thingy.Box(y) = x y }"
                        .to_string(),
                },
            ],
            expected: Ok(vec![
                Output {
                    origin: ModuleOrigin::Src,
                    name: vec!["nested".to_string(), "one".to_string()],
                    files: vec![OutputFile {
                        path: path("/gen/src/nested@one.erl"),
                        contents: "-module(nested@one).\n-compile(no_auto_import).\n\n\n"
                            .to_string(),
                    }],
                },
                Output {
                    origin: ModuleOrigin::Src,
                    name: vec!["two".to_string()],
                    files: vec![OutputFile {
                        path: path("/gen/src/two.erl"),
                        contents: "-module(two).\n-compile(no_auto_import).\n\n-export([go/1]).
\ngo(X) ->\n    {box, Y} = X,\n    Y.\n"
                            .to_string(),
                    }],
                },
            ]),
        },
        Case {
            input: vec![
                Input {
                    origin: ModuleOrigin::Src,
                    path: path("/src/nested/one.gleam"),
                    source_base_path: path("/src"),
                    src: "pub external type Thing pub fn go() { 1 }".to_string(),
                },
                Input {
                    origin: ModuleOrigin::Src,
                    path: path("/src/two.gleam"),
                    source_base_path: path("/src"),
                    src: "import nested/one
                        pub fn go() { one.go() }
                        pub external fn thing() -> one.Thing = \"thing\" \"new\""
                        .to_string(),
                },
            ],
            expected: Ok(vec![
                Output {
                    origin: ModuleOrigin::Src,
                    name: vec!["nested".to_string(), "one".to_string()],
                    files: vec![OutputFile {
                        path: path("/gen/src/nested@one.erl"),
                        contents:
                            "-module(nested@one).\n-compile(no_auto_import).\n\n-export([go/0]).\n
go() ->\n    1.\n"
                                .to_string(),
                    }],
                },
                Output {
                    origin: ModuleOrigin::Src,
                    name: vec!["two".to_string()],
                    files: vec![OutputFile {
                        path: path("/gen/src/two.erl"),
                        contents:
                            "-module(two).\n-compile(no_auto_import).\n\n-export([go/0, thing/0]).\n
go() ->\n    nested@one:go().\n
thing() ->\n    thing:new().\n"
                                .to_string(),
                    }],
                },
            ]),
        },
        Case {
            input: vec![
                Input {
                    origin: ModuleOrigin::Src,
                    path: path("/src/one.gleam"),
                    source_base_path: path("/src"),
                    src: "".to_string(),
                },
                Input {
                    origin: ModuleOrigin::Src,
                    path: path("/other/src/one.gleam"),
                    source_base_path: path("/other/src"),
                    src: "".to_string(),
                },
            ],
            expected: Err(Error::DuplicateModule {
                module: "one".to_string(),
                first: path("/src/one.gleam"),
                second: path("/other/src/one.gleam"),
            }),
        },
        Case {
            input: vec![
                Input {
                    origin: ModuleOrigin::Src,
                    path: path("/src/one.gleam"),
                    source_base_path: path("/src"),
                    src: "pub struct Point { x: Int y: Int }".to_string(),
                },
                Input {
                    origin: ModuleOrigin::Src,
                    path: path("/src/two.gleam"),
                    source_base_path: path("/src"),
                    src: "import one
                        fn make() { one.Point(1, 4) }
                        fn x(p) { let one.Point(x, _) = p x }"
                        .to_string(),
                },
            ],
            expected: Ok(vec![
                Output {
                    origin: ModuleOrigin::Src,
                    name: vec!["one".to_string()],
                    files: vec![OutputFile {
                        path: path("/gen/src/one.erl"),
                        contents: "-module(one).\n-compile(no_auto_import).\n\n\n".to_string(),
                    }],
                },
                Output {
                    origin: ModuleOrigin::Src,
                    name: vec!["two".to_string()],
                    files: vec![OutputFile {
                        path: path("/gen/src/two.erl"),
                        contents: "-module(two).\n-compile(no_auto_import).\n
make() ->\n    {1, 4}.\n
x(P) ->\n    {X, _} = P,\n    X.\n"
                            .to_string(),
                    }],
                },
            ]),
        },
        Case {
            input: vec![
                Input {
                    origin: ModuleOrigin::Src,
                    path: path("/src/one.gleam"),
                    source_base_path: path("/src"),
                    src: "pub struct Empty {}".to_string(),
                },
                Input {
                    origin: ModuleOrigin::Src,
                    path: path("/src/two.gleam"),
                    source_base_path: path("/src"),
                    src: "import one
                        fn make() { one.Empty }"
                        .to_string(),
                },
            ],
            expected: Ok(vec![
                Output {
                    origin: ModuleOrigin::Src,
                    name: vec!["one".to_string()],
                    files: vec![OutputFile {
                        path: path("/gen/src/one.erl"),
                        contents: "-module(one).\n-compile(no_auto_import).\n\n\n".to_string(),
                    }],
                },
                Output {
                    origin: ModuleOrigin::Src,
                    name: vec!["two".to_string()],
                    files: vec![OutputFile {
                        path: path("/gen/src/two.erl"),
                        contents:
                            "-module(two).\n-compile(no_auto_import).\n\nmake() ->\n    {}.\n"
                                .to_string(),
                    }],
                },
            ]),
        },
        Case {
            input: vec![
                Input {
                    origin: ModuleOrigin::Src,
                    path: path("/src/one.gleam"),
                    source_base_path: path("/src"),
                    src: "pub fn id(x) { x } pub struct Empty {}".to_string(),
                },
                Input {
                    origin: ModuleOrigin::Src,
                    path: path("/src/two.gleam"),
                    source_base_path: path("/src"),
                    src: "import one.{Empty, id} fn make() { id(Empty) }".to_string(),
                },
            ],
            expected: Ok(vec![
                Output {
                    origin: ModuleOrigin::Src,
                    name: vec!["one".to_string()],
                    files: vec![OutputFile {
                        path: path("/gen/src/one.erl"),
                        contents: "-module(one).\n-compile(no_auto_import).\n\n-export([id/1]).\n
id(X) ->\n    X.\n"
                            .to_string(),
                    }],
                },
                Output {
                    origin: ModuleOrigin::Src,
                    name: vec!["two".to_string()],
                    files: vec![OutputFile {
                        path: path("/gen/src/two.erl"),
                        contents: "-module(two).\n-compile(no_auto_import).\n
make() ->\n    one:id({}).\n"
                            .to_string(),
                    }],
                },
            ]),
        },
    ];

    for Case { input, expected } in cases.into_iter() {
        let output = compile_sources(input, RenderDocs::False).map(|mods| {
            mods.into_iter()
                .map(|compiled| Output {
                    name: compiled.name,
                    files: compiled.files,
                    origin: compiled.origin,
                })
                .collect::<Vec<_>>()
        });
        assert_eq!(expected, output);
    }
}

#[test]
fn module_docs_generation_test() {
    // src modules get docs
    let input = vec![Input {
        origin: ModuleOrigin::Src,
        path: path("/src/one/two/three.gleam"),
        source_base_path: path("/src"),
        src: "pub fn id(x) { x }".to_string(),
    }];
    let output = compile_sources(input, RenderDocs::True).expect("should compile");
    assert_eq!(2, output[0].files.len());
    assert_eq!(
        path("/gen/docs/one/two/three.md"),
        output[0].files[1].path
    );

    // test modules do not get docs
    let input = vec![Input {
        origin: ModuleOrigin::Test,
        path: path("/src/one/two/three.gleam"),
        source_base_path: path("/src"),
        src: "pub fn id(x) { x }".to_string(),
    }];
    let output = compile_sources(input, RenderDocs::True).expect("should compile");
    assert_eq!(1, output[0].files.len());

    // dependency modules do not get docs
    let input = vec![Input {
        origin: ModuleOrigin::Dependency,
        path: path("/src/one/two/three.gleam"),
        source_base_path: path("/src"),
        src: "pub fn id(x) { x }".to_string(),
    }];
    let output = compile_sources(input, RenderDocs::True).expect("should compile");
    assert_eq!(1, output[0].files.len());
}

fn input(text: &str, src: &str, origin: ModuleOrigin) -> Input {
    Input {
        origin,
        source_base_path: path("/src"),
        path: path(text),
        src: src.to_string(),
    }
}

fn names(compiled: &Vec<Compiled<Vec<String>>>) -> Vec<String> {
    compiled
        .iter()
        .map(|module| module.name.join("/"))
        .collect()
}

#[test]
fn modules_are_built_after_their_imports() {
    let compiled = compile_sources(
        vec![
            input("/src/top.gleam", "import mid import low", ModuleOrigin::Src),
            input("/src/mid.gleam", "import low", ModuleOrigin::Src),
            input("/src/low.gleam", "", ModuleOrigin::Src),
            input("/src/other.gleam", "import mid", ModuleOrigin::Test),
        ],
        RenderDocs::False,
    )
    .unwrap();
    let order = names(&compiled);
    assert_eq!(4, order.len());
    let at = |name: &str| order.iter().position(|other| other == name).unwrap();
    assert!(at("low") < at("mid"));
    assert!(at("mid") < at("top"));
    assert!(at("mid") < at("other"));
    // Each was inferred with the types of all modules before it.
    for (k, module) in compiled.iter().enumerate() {
        assert_eq!(order[..k].to_vec(), module.type_info);
    }
}

#[test]
fn independent_modules_keep_the_order_of_the_sort() {
    let compiled = compile_sources(
        vec![
            input("/src/a.gleam", "", ModuleOrigin::Src),
            input("/src/b.gleam", "", ModuleOrigin::Src),
            input("/src/c.gleam", "", ModuleOrigin::Src),
        ],
        RenderDocs::False,
    )
    .unwrap();
    assert_eq!(vec!["c", "b", "a"], names(&compiled));
}

#[test]
fn compiling_again_gives_the_same() {
    let inputs = || {
        vec![
            input("/src/a.gleam", "import c", ModuleOrigin::Src),
            input("/src/b.gleam", "", ModuleOrigin::Test),
            input("/src/c.gleam", "", ModuleOrigin::Src),
        ]
    };
    assert_eq!(
        compile_sources(inputs(), RenderDocs::True),
        compile_sources(inputs(), RenderDocs::True)
    );
}

#[test]
fn a_cycle_of_imports_is_an_error() {
    let result = compile_sources(
        vec![
            input("/src/one.gleam", "import two", ModuleOrigin::Src),
            input("/src/two.gleam", "import three", ModuleOrigin::Src),
            input("/src/three.gleam", "import one", ModuleOrigin::Src),
        ],
        RenderDocs::False,
    );
    assert_eq!(Err(Error::DependencyCycle), result);
}

#[test]
fn importing_itself_is_a_cycle() {
    let result = compile_sources(
        vec![input("/src/one.gleam", "import one", ModuleOrigin::Src)],
        RenderDocs::False,
    );
    assert_eq!(Err(Error::DependencyCycle), result);
}

#[test]
fn importing_twice_is_no_cycle() {
    let compiled = compile_sources(
        vec![
            input("/src/one.gleam", "import two import two", ModuleOrigin::Src),
            input("/src/two.gleam", "", ModuleOrigin::Src),
        ],
        RenderDocs::False,
    )
    .unwrap();
    assert_eq!(vec!["two", "one"], names(&compiled));
}

#[test]
fn an_unknown_import_is_an_error() {
    let result = compile_sources(
        vec![
            input("/src/one.gleam", "", ModuleOrigin::Src),
            input(
                "/src/two.gleam",
                "import one import missing/thing",
                ModuleOrigin::Src,
            ),
        ],
        RenderDocs::False,
    );
    assert_eq!(
        Err(Error::UnknownImport {
            module: "two".to_string(),
            import: "missing/thing".to_string(),
            src: "import one import missing/thing".to_string(),
            path: path("/src/two.gleam"),
            modules: vec!["one".to_string(), "two".to_string()],
            meta: Meta { start: 18, end: 31 },
        }),
        result
    );
}

#[test]
fn an_import_error_comes_before_a_cycle() {
    let result = compile_sources(
        vec![
            input("/src/one.gleam", "import one", ModuleOrigin::Src),
            input("/src/two.gleam", "import three", ModuleOrigin::Src),
        ],
        RenderDocs::False,
    );
    assert!(matches!(result, Err(Error::UnknownImport { .. })));
}

#[test]
fn tests_and_dependencies_may_import_tests() {
    for origin in vec![ModuleOrigin::Test, ModuleOrigin::Dependency] {
        let compiled = compile_sources(
            vec![
                input("/src/two.gleam", "", ModuleOrigin::Test),
                input("/src/one.gleam", "import two", origin),
            ],
            RenderDocs::False,
        )
        .unwrap();
        assert_eq!(vec!["two", "one"], names(&compiled));
    }
}

#[test]
fn a_parse_error_is_reported() {
    let result = compile_sources(
        vec![
            input("/src/one.gleam", "", ModuleOrigin::Src),
            input("/src/two.gleam", "syntax error", ModuleOrigin::Src),
        ],
        RenderDocs::False,
    );
    assert_eq!(
        Err(Error::Parse {
            path: path("/src/two.gleam"),
            src: "syntax error".to_string(),
            error: "unexpected token".to_string(),
        }),
        result
    );
}

#[test]
fn a_parse_error_comes_before_the_duplicate() {
    let result = compile_sources(
        vec![
            input("/src/one.gleam", "", ModuleOrigin::Src),
            input("/src/one.gleam", "syntax error", ModuleOrigin::Test),
        ],
        RenderDocs::False,
    );
    assert!(matches!(result, Err(Error::Parse { .. })));
}

#[test]
fn a_type_error_is_reported_for_the_first_module_that_fails() {
    let result = compile_sources(
        vec![
            input(
                "/src/one.gleam",
                "import two // type error",
                ModuleOrigin::Src,
            ),
            input("/src/two.gleam", "// type error", ModuleOrigin::Src),
        ],
        RenderDocs::False,
    );
    assert_eq!(
        Err(Error::Type {
            path: path("/src/two.gleam"),
            src: "// type error".to_string(),
            error: "in two".to_string(),
        }),
        result
    );
}

#[test]
fn files_of_different_modules_differ() {
    let compiled = compile_sources(
        vec![
            input("/src/a/b.gleam", "", ModuleOrigin::Src),
            input("/src/a_b.gleam", "", ModuleOrigin::Src),
            input("/src/a.gleam", "", ModuleOrigin::Test),
        ],
        RenderDocs::True,
    )
    .unwrap();
    let paths: Vec<String> = compiled
        .iter()
        .map(|module| module.files[0].path.to_str().unwrap())
        .collect();
    assert_eq!(
        vec!["/gen/test/a.erl", "/gen/src/a_b.erl", "/gen/src/a@b.erl"],
        paths
    );
    assert_eq!(1, compiled[0].files.len());
    assert_eq!("hey look some docs", compiled[1].files[1].contents);
    assert_eq!(path("/gen/docs/a/b.md"), compiled[2].files[1].path);
}

#[test]
fn docs_lose_what_follows_the_last_dot_of_a_name() {
    let compiled = compile_sources(
        vec![input("/src/one.two.gleam", "", ModuleOrigin::Src)],
        RenderDocs::True,
    )
    .unwrap();
    assert_eq!(vec!["one.two".to_string()], compiled[0].name);
    assert_eq!(path("/gen/src/one.two.erl"), compiled[0].files[0].path);
    assert_eq!(path("/gen/docs/one.md"), compiled[0].files[1].path);
}

#[test]
fn inputs_after_the_first_error_are_not_looked_at() {
    let result = compile_sources(
        vec![
            input("/src/one.gleam", "syntax error", ModuleOrigin::Src),
            input("/elsewhere/two.gleam", "", ModuleOrigin::Src),
        ],
        RenderDocs::False,
    );
    assert!(matches!(result, Err(Error::Parse { .. })));
}

/// A source right below the root.
fn root_input(text: &str, src: &str, origin: ModuleOrigin) -> Input {
    Input {
        origin,
        source_base_path: path("/"),
        path: path(text),
        src: src.to_string(),
    }
}

#[test]
fn errors_below_the_root_are_reported() {
    assert_eq!(
        Err(Error::UnknownImport {
            module: "one".to_string(),
            import: "two".to_string(),
            src: "import two".to_string(),
            path: path("/one.gleam"),
            modules: vec!["one".to_string()],
            meta: Meta { start: 7, end: 10 },
        }),
        compile_sources(
            vec![root_input("/one.gleam", "import two", ModuleOrigin::Src)],
            RenderDocs::False,
        )
    );
    assert_eq!(
        Err(Error::DependencyCycle),
        compile_sources(
            vec![root_input("/one.gleam", "import one", ModuleOrigin::Src)],
            RenderDocs::False,
        )
    );
    assert_eq!(
        Err(Error::DuplicateModule {
            module: "one".to_string(),
            first: path("/one.gleam"),
            second: path("/one.erl"),
        }),
        compile_sources(
            vec![
                root_input("/one.gleam", "", ModuleOrigin::Src),
                root_input("/one.erl", "", ModuleOrigin::Src),
            ],
            RenderDocs::False,
        )
    );
    assert_eq!(
        Err(Error::SrcImportingTest {
            path: path("/one.gleam"),
            src: "import two".to_string(),
            meta: Meta { start: 7, end: 10 },
            src_module: "one".to_string(),
            test_module: "two".to_string(),
        }),
        compile_sources(
            vec![
                root_input("/one.gleam", "import two", ModuleOrigin::Src),
                root_input("/two.gleam", "", ModuleOrigin::Test),
            ],
            RenderDocs::False,
        )
    );
    assert_eq!(
        Err(Error::Type {
            path: path("/one.gleam"),
            src: "// type error".to_string(),
            error: "in one".to_string(),
        }),
        compile_sources(
            vec![root_input("/one.gleam", "// type error", ModuleOrigin::Src)],
            RenderDocs::False,
        )
    );
}

#[test]
fn separators_and_dots_inside_a_path_stay_in_the_name() {
    for (file, name, erl, docs) in vec![
        (
            "/src/a//b/c.gleam",
            vec!["a", "", "b", "c"],
            "/gen/src/a@@b@c.erl",
            "/gen/docs/a/b/c.md",
        ),
        (
            "/src/a/./b/c.gleam",
            vec!["a", ".", "b", "c"],
            "/gen/src/a@.@b@c.erl",
            "/gen/docs/a/./b/c.md",
        ),
        (
            "/src//a//c.gleam",
            vec!["a", "c"],
            "/gen/src/a@c.erl",
            "/gen/docs/a/c.md",
        ),
    ] {
        let compiled =
            compile_sources(vec![input(file, "", ModuleOrigin::Src)], RenderDocs::True).unwrap();
        assert_eq!(name, compiled[0].name);
        assert_eq!(Some(erl.to_string()), compiled[0].files[0].path.to_str());
        assert_eq!(Some(docs.to_string()), compiled[0].files[1].path.to_str());
    }
}

#[test]
fn base_paths_need_not_be_text() {
    let base = vec![b'/', 0xff, b'/', b's'];
    let compiled = compile_sources(
        vec![Input {
            origin: ModuleOrigin::Src,
            source_base_path: FilePath {
                bytes: base.clone(),
            },
            path: FilePath {
                bytes: [base, b"/one.gleam".to_vec()].concat(),
            },
            src: "".to_string(),
        }],
        RenderDocs::False,
    )
    .unwrap();
    assert_eq!(
        [vec![b'/', 0xff], b"/gen/src/one.erl".to_vec()].concat(),
        compiled[0].files[0].path.bytes
    );
}

#[test]
fn sources_after_the_first_error_are_not_parsed() {
    let result = compile(
        vec![
            input("/src/one.gleam", "syntax error", ModuleOrigin::Src),
            input("/src/two.gleam", "never parsed", ModuleOrigin::Src),
        ],
        RenderDocs::False,
        |src: &String| {
            assert_ne!("never parsed", src);
            parse(src)
        },
        infer,
        generate,
    );
    assert!(matches!(result, Err(Error::Parse { .. })));
}

#[test]
fn modules_after_the_first_error_are_not_inferred() {
    let result = compile(
        vec![
            input("/src/one.gleam", "// type error", ModuleOrigin::Src),
            input("/src/two.gleam", "import one", ModuleOrigin::Src),
        ],
        RenderDocs::False,
        parse,
        |name: &Vec<String>, module: String, infos: &Vec<ModuleInfo<Vec<String>>>| {
            assert_eq!(&vec!["one".to_string()], name);
            infer(name, module, infos)
        },
        |module: (Vec<String>, String)| -> String { panic!("{:?} is not well typed", module) },
    );
    assert!(matches!(result, Err(Error::Type { .. })));
}
