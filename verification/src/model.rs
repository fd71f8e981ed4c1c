//! What goes into a project's compilation and what comes out of it.

use crate::error::Meta;
use crate::path::{FilePath, PathView};
use crate::text::{split_on, texts};
use vstd::prelude::*;
use vstd::utf8::*;

verus! {

/// Where a module comes from: the application, its tests, or a package that it
/// depends on.
#[derive(Debug, PartialEq, Eq, Clone, Copy, Structural)]
pub enum ModuleOrigin {
    Src,
    Test,
    Dependency,
}

impl ModuleOrigin {
    /// The name of the directory that holds modules of this origin.
    pub open spec fn spec_dir_name(self) -> Seq<char> {
        match self {
            ModuleOrigin::Src | ModuleOrigin::Dependency => "src"@,
            ModuleOrigin::Test => "test"@,
        }
    }

    /// The name of the directory that holds modules of this origin.
    pub fn dir_name(&self) -> (name: &'static str)
        ensures
            name@ == self.spec_dir_name(),
    {
        match self {
            ModuleOrigin::Src | ModuleOrigin::Dependency => "src",
            ModuleOrigin::Test => "test",
        }
    }
}

/// Whether documentation is rendered.
#[derive(Debug, PartialEq, Eq, Clone, Copy, Structural)]
pub enum RenderDocs {
    True,
    False,
}

/// The source of one module.
#[derive(Debug, PartialEq)]
pub struct Input {
    pub source_base_path: FilePath,
    pub path: FilePath,
    pub src: String,
    pub origin: ModuleOrigin,
}

/// What an [`Input`] stands for.
#[verifier::ext_equal]
pub struct InputView {
    pub source_base_path: PathView,
    pub path: PathView,
    pub src: Seq<char>,
    pub origin: ModuleOrigin,
}

impl View for Input {
    type V = InputView;

    open spec fn view(&self) -> InputView {
        InputView {
            source_base_path: self.source_base_path@,
            path: self.path@,
            src: self.src@,
            origin: self.origin,
        }
    }
}

impl InputView {
    /// Where the source is below its base path, without its extension.
    pub open spec fn name_path(self) -> PathView {
        let rest = self.path.strip_prefix(self.source_base_path)->0;
        rest.parent()->0.join(PathView { bytes: self.path.file_stem()->0 })
    }

    /// The source has a name: it is a file below its base path, and what its module is
    /// named after is valid text.
    pub open spec fn wf(self) -> bool {
        &&& self.path.strip_prefix(self.source_base_path) matches Some(rest)
        &&& rest.parent() is Some
        &&& self.path.file_stem() is Some
        &&& valid_utf8(self.name_path().bytes)
    }

    /// The name of the module: where the source is below its base path, without its
    /// extension.
    pub open spec fn module_name(self) -> Seq<char> {
        decode_utf8(self.name_path().bytes)
    }
}

impl Input {
    /// The name of the module: where the source is below its base path, without its
    /// extension. It has none where the source is no file below its base path, or where
    /// the name would not be valid text.
    pub fn module_name(&self) -> (result: Option<String>)
        ensures
            match result {
                Some(name) => self@.wf() && name@ == self@.module_name(),
                None => !self@.wf(),
            },
    {
        match self.path.strip_prefix(&self.source_base_path) {
            None => None,
            Some(rest) => match (rest.parent(), self.path.file_stem()) {
                (Some(directory), Some(stem)) => directory.join(&FilePath { bytes: stem }).to_str(),
                _ => None,
            },
        }
    }
}

/// What each of `srcs` stands for.
pub open spec fn input_views(srcs: Seq<Input>) -> Seq<InputView> {
    srcs.map_values(|input: Input| input@)
}

/// The names of the modules that `inputs` make up.
pub open spec fn input_names(inputs: Seq<InputView>) -> Seq<Seq<char>> {
    inputs.map_values(|input: InputView| input.module_name())
}

/// A module as the parser returns it: the names of the modules that it imports,
/// each with its place in the source, and its syntax tree.
#[derive(Debug, PartialEq)]
pub struct ParsedModule<M> {
    pub dependencies: Vec<(String, Meta)>,
    pub module: M,
}

/// A module as type inference returns it: the types that it offers to modules
/// that import it, and its typed syntax tree.
#[derive(Debug, PartialEq)]
pub struct TypedModule<A, T> {
    pub type_info: T,
    pub module: A,
}

/// The types that the module `name` offers to modules that import it.
#[derive(Debug, PartialEq)]
pub struct ModuleInfo<T> {
    pub name: String,
    pub type_info: T,
}

/// A file to be written.
#[derive(Debug, PartialEq)]
pub struct OutputFile {
    pub contents: String,
    pub path: FilePath,
}

/// What an [`OutputFile`] stands for.
#[verifier::ext_equal]
pub struct OutputFileView {
    pub contents: Seq<char>,
    pub path: PathView,
}

impl View for OutputFile {
    type V = OutputFileView;

    open spec fn view(&self) -> OutputFileView {
        OutputFileView { contents: self.contents@, path: self.path@ }
    }
}

/// A compiled module.
#[derive(Debug, PartialEq)]
pub struct Compiled<T> {
    pub name: Vec<String>,
    pub origin: ModuleOrigin,
    pub files: Vec<OutputFile>,
    pub type_info: T,
}

/// What a [`Compiled`] stands for.
#[verifier::ext_equal]
pub struct CompiledView<T> {
    pub name: Seq<Seq<char>>,
    pub origin: ModuleOrigin,
    pub files: Seq<OutputFileView>,
    pub type_info: T,
}

impl<T> View for Compiled<T> {
    type V = CompiledView<T>;

    open spec fn view(&self) -> CompiledView<T> {
        CompiledView {
            name: texts(self.name@),
            origin: self.origin,
            files: self.files@.map_values(|file: OutputFile| file@),
            type_info: self.type_info,
        }
    }
}

/// A module of a project: a source and what the parser returned for it.
#[derive(Debug, PartialEq)]
pub struct Module<M> {
    pub name: String,
    pub source_base_path: FilePath,
    pub path: FilePath,
    pub src: String,
    pub origin: ModuleOrigin,
    pub dependencies: Vec<(String, Meta)>,
    pub module: M,
}

/// What a [`Module`] stands for.
#[verifier::ext_equal]
pub struct ModuleView<M> {
    pub name: Seq<char>,
    pub source_base_path: PathView,
    pub path: PathView,
    pub src: Seq<char>,
    pub origin: ModuleOrigin,
    pub dependencies: Seq<(Seq<char>, Meta)>,
    pub module: M,
}

/// The imported names, with their places in the source.
pub open spec fn imported(dependencies: Seq<(String, Meta)>) -> Seq<(Seq<char>, Meta)> {
    dependencies.map_values(|dependency: (String, Meta)| (dependency.0@, dependency.1))
}

impl<M> View for Module<M> {
    type V = ModuleView<M>;

    open spec fn view(&self) -> ModuleView<M> {
        ModuleView {
            name: self.name@,
            source_base_path: self.source_base_path@,
            path: self.path@,
            src: self.src@,
            origin: self.origin,
            dependencies: imported(self.dependencies@),
            module: self.module,
        }
    }
}

/// What each of `modules` stands for.
pub open spec fn module_views<M>(modules: Seq<Module<M>>) -> Seq<ModuleView<M>> {
    modules.map_values(|module: Module<M>| module@)
}

impl<M> ModuleView<M> {
    /// The module that `parsed` makes of `input`.
    pub open spec fn new(input: InputView, parsed: ParsedModule<M>) -> ModuleView<M> {
        ModuleView {
            name: input.module_name(),
            source_base_path: input.source_base_path,
            path: input.path,
            src: input.src,
            origin: input.origin,
            dependencies: imported(parsed.dependencies@),
            module: parsed.module,
        }
    }

    /// The segments of the module's name.
    pub open spec fn segments(self) -> Seq<Seq<char>> {
        split_on(self.name, '/')
    }
}

} // verus!
