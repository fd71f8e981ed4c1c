//! What can go wrong while a project is compiled.

use crate::path::{FilePath, PathView};
use crate::text::texts;
use vstd::prelude::*;

verus! {

/// A range of positions in a source text.
#[derive(Debug, PartialEq, Eq, Clone, Copy, Structural)]
pub struct Meta {
    pub start: usize,
    pub end: usize,
}

/// Why a project could not be compiled. `P` is the error of the parser and `E`
/// that of type inference.
#[allow(inconsistent_fields)]
#[derive(Debug, PartialEq)]
pub enum Error<P, E> {
    /// A source could not be parsed.
    Parse { path: FilePath, src: String, error: P },
    /// Two sources make up a module of the same name.
    DuplicateModule { module: String, first: FilePath, second: FilePath },
    /// A module imports one that is not there. `modules` are those that are.
    UnknownImport {
        module: String,
        import: String,
        src: String,
        path: FilePath,
        modules: Vec<String>,
        meta: Meta,
    },
    /// A module of the application imports one of its tests.
    SrcImportingTest {
        path: FilePath,
        src: String,
        meta: Meta,
        src_module: String,
        test_module: String,
    },
    /// Some modules import each other in a circle.
    DependencyCycle,
    /// A module is not well typed.
    Type { path: FilePath, src: String, error: E },
}

/// What an [`Error`] stands for.
#[allow(inconsistent_fields)]
pub enum ErrorView<P, E> {
    Parse { path: PathView, src: Seq<char>, error: P },
    DuplicateModule { module: Seq<char>, first: PathView, second: PathView },
    UnknownImport {
        module: Seq<char>,
        import: Seq<char>,
        src: Seq<char>,
        path: PathView,
        modules: Seq<Seq<char>>,
        meta: Meta,
    },
    SrcImportingTest {
        path: PathView,
        src: Seq<char>,
        meta: Meta,
        src_module: Seq<char>,
        test_module: Seq<char>,
    },
    DependencyCycle,
    Type { path: PathView, src: Seq<char>, error: E },
}

impl<P, E> View for Error<P, E> {
    type V = ErrorView<P, E>;

    open spec fn view(&self) -> ErrorView<P, E> {
        match *self {
            Error::Parse { path, src, error } => ErrorView::Parse {
                path: path@,
                src: src@,
                error,
            },
            Error::DuplicateModule { module, first, second } => ErrorView::DuplicateModule {
                module: module@,
                first: first@,
                second: second@,
            },
            Error::UnknownImport { module, import, src, path, modules, meta } => {
                ErrorView::UnknownImport {
                    module: module@,
                    import: import@,
                    src: src@,
                    path: path@,
                    modules: texts(modules@),
                    meta,
                }
            },
            Error::SrcImportingTest { path, src, meta, src_module, test_module } => {
                ErrorView::SrcImportingTest {
                    path: path@,
                    src: src@,
                    meta,
                    src_module: src_module@,
                    test_module: test_module@,
                }
            },
            Error::DependencyCycle => ErrorView::DependencyCycle,
            Error::Type { path, src, error } => ErrorView::Type { path: path@, src: src@, error },
        }
    }
}

} // verus!
