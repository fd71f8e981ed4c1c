//! Compiling the modules of a project.

use crate::error::{Error, ErrorView};
use crate::graph::{has_cycle, indices, is_topological_order, toposort_order};
use crate::model::{
    input_names, input_views, module_views, Compiled, CompiledView, Input, InputView, Module,
    ModuleInfo, ModuleOrigin, ModuleView, OutputFile, OutputFileView, ParsedModule, RenderDocs,
    TypedModule,
};
use crate::path::{text_path, FilePath, PathView};
use crate::registry::{edges, first_import_error, imports, names, Import, Registry};
use crate::text::{join, joined, split, texts};
use vstd::prelude::*;
use vstd::string::*;

verus! {

/// The directory of what is generated for the sources below `source_base_path`.
pub open spec fn gen_dir(source_base_path: PathView) -> PathView {
    source_base_path.parent()->0.join(text_path("gen"@))
}

/// The file that a module's Erlang code is written to.
pub open spec fn erl_path(
    source_base_path: PathView,
    origin: ModuleOrigin,
    segments: Seq<Seq<char>>,
) -> PathView {
    gen_dir(source_base_path).join(text_path(origin.spec_dir_name())).join(
        text_path(joined(segments, "@"@) + ".erl"@),
    )
}

/// The file that a module's documentation is written to.
pub open spec fn docs_path(source_base_path: PathView, segments: Seq<Seq<char>>) -> PathView {
    gen_dir(source_base_path).join(text_path("docs"@)).join_all(segments).replace_extension("md"@)
}

/// The files of a module whose Erlang code is `code`: the code itself and, for a
/// module of the application where documentation is rendered, its documentation.
pub open spec fn output_files(
    source_base_path: PathView,
    origin: ModuleOrigin,
    segments: Seq<Seq<char>>,
    code: Seq<char>,
    render_docs: RenderDocs,
) -> Seq<OutputFileView> {
    let erl = OutputFileView {
        contents: code,
        path: erl_path(source_base_path, origin, segments),
    };
    if origin == ModuleOrigin::Src && render_docs == RenderDocs::True {
        seq![
            erl,
            OutputFileView {
                contents: "hey look some docs"@,
                path: docs_path(source_base_path, segments),
            },
        ]
    } else {
        seq![erl]
    }
}

/// Lays out the files of a module.
pub fn module_files(
    source_base_path: &FilePath,
    origin: ModuleOrigin,
    name: &Vec<String>,
    code: String,
    render_docs: RenderDocs,
) -> (files: Vec<OutputFile>)
    requires
        source_base_path@.parent() is Some,
    ensures
        files@.map_values(|file: OutputFile| file@) == output_files(
            source_base_path@,
            origin,
            texts(name@),
            code@,
            render_docs,
        ),
{
    let gen_dir = source_base_path.parent().unwrap().join(&FilePath::new("gen"));
    let mut file_name = join(name, "@");
    file_name.append(".erl");
    let path = gen_dir.join(&FilePath::new(origin.dir_name())).join(
        &FilePath::new(file_name.as_str()),
    );
    let mut files: Vec<OutputFile> = Vec::new();
    files.push(OutputFile { contents: code, path });
    if origin == ModuleOrigin::Src && render_docs == RenderDocs::True {
        let path = gen_dir.join(&FilePath::new("docs")).join_all(name).replace_extension("md");
        files.push(OutputFile { contents: "hey look some docs".to_owned(), path });
    }
    assert(files@.map_values(|file: OutputFile| file@) =~= output_files(
        source_base_path@,
        origin,
        texts(name@),
        code@,
        render_docs,
    ));
    files
}

/// What is known of the first `count` modules when the next one is inferred: the
/// name of each and the types that it offers.
pub open spec fn known_types<M, A, T, E>(
    modules: Seq<ModuleView<M>>,
    order: Seq<nat>,
    typed: Seq<Result<TypedModule<A, T>, E>>,
    count: int,
) -> Seq<(Seq<char>, T)> {
    Seq::new(
        count as nat,
        |k: int| (modules[order[k] as int].name, typed[k]->Ok_0.type_info),
    )
}

/// The entries of `infos`, as names and types.
pub open spec fn entries<T>(infos: Seq<ModuleInfo<T>>) -> Seq<(Seq<char>, T)> {
    infos.map_values(|info: ModuleInfo<T>| (info.name@, info.type_info))
}

/// Given the name and the syntax tree of a module and the types of the modules
/// before it, `infer` may return `outcome`.
pub open spec fn may_infer<M, A, T, E, Infer>(
    infer: Infer,
    segments: Seq<Seq<char>>,
    module: M,
    known: Seq<(Seq<char>, T)>,
    outcome: Result<TypedModule<A, T>, E>,
) -> bool where Infer: Fn(&Vec<String>, M, &Vec<ModuleInfo<T>>) -> Result<TypedModule<A, T>, E> {
    exists|name: Vec<String>, infos: Vec<ModuleInfo<T>>|
        #![trigger texts(name@), entries(infos@)]
        {
            &&& texts(name@) == segments
            &&& entries(infos@) == known
            &&& call_ensures(infer, (&name, module, &infos), outcome)
        }
}

/// The modules are inferred one by one in the order `order`, each with the types
/// of those before it, up to the first that fails; `typed` is what came back for
/// each. For those that do not fail, `codes` is the Erlang code that came back.
pub open spec fn is_build<M, A, T, E, Infer, Generate>(
    infer: Infer,
    generate: Generate,
    modules: Seq<ModuleView<M>>,
    order: Seq<nat>,
    typed: Seq<Result<TypedModule<A, T>, E>>,
    codes: Seq<String>,
) -> bool where
    Infer: Fn(&Vec<String>, M, &Vec<ModuleInfo<T>>) -> Result<TypedModule<A, T>, E>,
    Generate: Fn(A) -> String,
 {
    &&& typed.len() <= order.len()
    &&& forall|k: int|
        0 <= k < typed.len() ==> may_infer(
            infer,
            modules[order[k] as int].segments(),
            modules[order[k] as int].module,
            known_types(modules, order, typed, k),
            #[trigger] typed[k],
        )
    &&& forall|k: int| 0 <= k < typed.len() - 1 ==> #[trigger] typed[k] is Ok
    &&& typed.len() < order.len() ==> typed.len() > 0 && typed.last() is Err
    &&& codes.len() == if typed.len() > 0 && typed.last() is Err {
        typed.len() - 1
    } else {
        typed.len() as int
    }
    &&& forall|k: int|
        0 <= k < codes.len() ==> call_ensures(
            generate,
            (typed[k]->Ok_0.module,),
            #[trigger] codes[k],
        )
}

/// The first modules in the order `order` are inferred one by one, each with the types
/// of those before it, and none of them fails; `typed` is what came back for each.
pub open spec fn is_inferred<M, A, T, E, Infer>(
    infer: Infer,
    modules: Seq<ModuleView<M>>,
    order: Seq<nat>,
    typed: Seq<Result<TypedModule<A, T>, E>>,
) -> bool where Infer: Fn(&Vec<String>, M, &Vec<ModuleInfo<T>>) -> Result<TypedModule<A, T>, E> {
    &&& typed.len() <= order.len()
    &&& forall|k: int|
        0 <= k < typed.len() ==> (#[trigger] typed[k]) is Ok && may_infer(
            infer,
            modules[order[k] as int].segments(),
            modules[order[k] as int].module,
            known_types(modules, order, typed, k),
            typed[k],
        )
}

/// Inference can be asked about a module, given its name and its syntax tree and the
/// types of the modules before it.
pub open spec fn can_infer<M, A, T, E, Infer>(
    infer: Infer,
    segments: Seq<Seq<char>>,
    module: M,
    known: Seq<(Seq<char>, T)>,
) -> bool where Infer: Fn(&Vec<String>, M, &Vec<ModuleInfo<T>>) -> Result<TypedModule<A, T>, E> {
    forall|name: Vec<String>, infos: Vec<ModuleInfo<T>>|
        #![trigger texts(name@), entries(infos@)]
        texts(name@) == segments && entries(infos@) == known ==> call_requires(
            infer,
            (&name, module, &infos),
        )
}

/// The modules can be built in the order `order`, up to the first that fails: each can
/// be inferred when those before it were, and for each that was inferred, code can be
/// generated and its base path lies in some directory.
pub open spec fn can_build<M, A, T, E, Infer, Generate>(
    infer: Infer,
    generate: Generate,
    modules: Seq<ModuleView<M>>,
    order: Seq<nat>,
) -> bool where
    Infer: Fn(&Vec<String>, M, &Vec<ModuleInfo<T>>) -> Result<TypedModule<A, T>, E>,
    Generate: Fn(A) -> String,
 {
    forall|typed: Seq<Result<TypedModule<A, T>, E>>| #[trigger]
        is_inferred(infer, modules, order, typed) ==> {
            let count = typed.len() as int;
            &&& count < order.len() ==> can_infer(
                infer,
                modules[order[count] as int].segments(),
                modules[order[count] as int].module,
                known_types(modules, order, typed, count),
            )
            &&& count > 0 ==> {
                &&& modules[order[count - 1] as int].source_base_path.parent() is Some
                &&& call_requires(generate, (typed[count - 1]->Ok_0.module,))
            }
        }
}

/// The compiled module that is made of `module`, its types and its Erlang code.
pub open spec fn compiled_module<M, T>(
    module: ModuleView<M>,
    type_info: T,
    code: Seq<char>,
    render_docs: RenderDocs,
) -> CompiledView<T> {
    CompiledView {
        name: module.segments(),
        origin: module.origin,
        files: output_files(
            module.source_base_path,
            module.origin,
            module.segments(),
            code,
            render_docs,
        ),
        type_info,
    }
}

/// What building the modules comes to: all of them compiled, in the order
/// `order`, or the type error of the first that fails.
pub open spec fn build_outcome<M, A, T, P, E>(
    modules: Seq<ModuleView<M>>,
    order: Seq<nat>,
    typed: Seq<Result<TypedModule<A, T>, E>>,
    codes: Seq<String>,
    render_docs: RenderDocs,
) -> Result<Seq<CompiledView<T>>, ErrorView<P, E>> {
    if typed.len() > 0 && typed.last() is Err {
        let module = modules[order[typed.len() - 1] as int];
        Err(
            ErrorView::Type {
                path: module.path,
                src: module.src,
                error: typed.last()->Err_0,
            },
        )
    } else {
        Ok(
            Seq::new(
                order.len(),
                |k: int|
                    compiled_module(
                        modules[order[k] as int],
                        typed[k]->Ok_0.type_info,
                        codes[k]@,
                        render_docs,
                    ),
            ),
        )
    }
}

/// What a result of a compilation stands for.
pub open spec fn result_view<T, P, E>(result: Result<Vec<Compiled<T>>, Error<P, E>>) -> Result<
    Seq<CompiledView<T>>,
    ErrorView<P, E>,
> {
    match result {
        Ok(compiled) => Ok(compiled@.map_values(|module: Compiled<T>| module@)),
        Err(error) => Err(error@),
    }
}

/// Infers, generates and lays out the modules, in the order `order`. Each is
/// inferred with the types of those before it.
pub fn build_modules<M, A, T, P, E, Infer, Generate>(
    modules: Vec<Module<M>>,
    order: &Vec<usize>,
    render_docs: RenderDocs,
    infer: Infer,
    generate: Generate,
) -> (result: Result<Vec<Compiled<T>>, Error<P, E>>) where
    Infer: Fn(&Vec<String>, M, &Vec<ModuleInfo<T>>) -> Result<TypedModule<A, T>, E>,
    Generate: Fn(A) -> String,

    requires
        order@.no_duplicates(),
        forall|k: int| 0 <= k < order@.len() ==> #[trigger] order@[k] < modules@.len(),
        can_build::<M, A, T, E, Infer, Generate>(
            infer,
            generate,
            module_views(modules@),
            indices(order@),
        ),
    ensures
        exists|typed: Seq<Result<TypedModule<A, T>, E>>, codes: Seq<String>|
            {
                &&& #[trigger] is_build(
                    infer,
                    generate,
                    module_views(modules@),
                    indices(order@),
                    typed,
                    codes,
                )
                &&& result_view(result) == build_outcome::<M, A, T, P, E>(
                    module_views(modules@),
                    indices(order@),
                    typed,
                    codes,
                    render_docs,
                )
            },
{
    let ghost views = module_views(modules@);
    let ghost steps = indices(order@);
    let ghost all = modules@;
    let mut pending: Vec<Option<Module<M>>> = Vec::new();
    for module in iter: modules
        invariant
            iter.seq() == all,
            pending@.len() == iter.index(),
            forall|i: int| 0 <= i < pending@.len() ==> #[trigger] pending@[i] == Some(all[i]),
    {
        pending.push(Some(module));
    }
    let mut infos: Vec<ModuleInfo<T>> = Vec::new();
    let mut outs: Vec<(Vec<String>, ModuleOrigin, Vec<OutputFile>)> = Vec::new();
    let ghost mut typed: Seq<Result<TypedModule<A, T>, E>> = Seq::empty();
    let ghost mut codes: Seq<String> = Seq::empty();
    for k in 0..order.len()
        invariant
            all == modules@,
            views == module_views(all),
            steps == indices(order@),
            order@.no_duplicates(),
            forall|j: int| 0 <= j < order@.len() ==> #[trigger] order@[j] < all.len(),
            can_build::<M, A, T, E, Infer, Generate>(infer, generate, views, steps),
            pending@.len() == all.len(),
            forall|j: int|
                k <= j < order@.len() ==> pending@[#[trigger] order@[j] as int] == Some(
                    all[order@[j] as int],
                ),
            typed.len() == k,
            codes.len() == k,
            outs@.len() == k,
            entries(infos@) == known_types(views, steps, typed, k as int),
            forall|j: int|
                0 <= j < outs@.len() ==> {
                    let module = views[steps[j] as int];
                    let (name, origin, files) = #[trigger] outs@[j];
                    &&& texts(name@) == module.segments()
                    &&& origin == module.origin
                    &&& files@.map_values(|file: OutputFile| file@) == output_files(
                        module.source_base_path,
                        module.origin,
                        module.segments(),
                        codes[j]@,
                        render_docs,
                    )
                },
            is_inferred(infer, views, steps, typed),
            forall|j: int|
                0 <= j < codes.len() ==> call_ensures(
                    generate,
                    (typed[j]->Ok_0.module,),
                    #[trigger] codes[j],
                ),
    {
        let index: usize = order[k];
        let module = pending[index].take().unwrap();
        let name = split(module.name.as_str(), '/');
        let ghost known = entries(infos@);
        assert(views[steps[k as int] as int] == module@);
        let inferred = infer(&name, module.module, &infos);
        assert(may_infer(infer, texts(name@), module.module, known, inferred));
        let ghost before = typed;
        proof {
            typed = typed.push(inferred);
            assert forall|j: int| 0 <= j < typed.len() implies may_infer(
                infer,
                views[steps[j] as int].segments(),
                views[steps[j] as int].module,
                known_types(views, steps, typed, j),
                #[trigger] typed[j],
            ) by {
                assert(known_types(views, steps, typed, j) =~= known_types(views, steps, before, j));
                if j < k {
                    assert(typed[j] == before[j]);
                }
            }
        }
        match inferred {
            Err(error) => {
                assert(is_build(infer, generate, views, steps, typed, codes));
                return Err(Error::Type { path: module.path, src: module.src, error });
            },
            Ok(typed_module) => {
                assert(is_inferred(infer, views, steps, typed));
                let code = generate(typed_module.module);
                proof {
                    codes = codes.push(code);
                }
                let files = module_files(
                    &module.source_base_path,
                    module.origin,
                    &name,
                    code,
                    render_docs,
                );
                infos.push(ModuleInfo { name: module.name, type_info: typed_module.type_info });
                outs.push((name, module.origin, files));
                assert(entries(infos@) =~= known.push((module@.name, typed_module.type_info)));
                assert(entries(infos@) =~= known_types(views, steps, typed, k + 1));
            },
        }
    }
    assert(is_build(infer, generate, views, steps, typed, codes));
    let ghost outcome = build_outcome::<M, A, T, P, E>(views, steps, typed, codes, render_docs)->Ok_0;
    let ghost known = entries(infos@);
    let ghost all_outs = outs@;
    let mut type_infos: Vec<T> = Vec::new();
    let ghost count = infos@.len();
    while infos.len() > 0
        invariant
            known.len() == count,
            infos@.len() <= count,
            entries(infos@) == known.take(infos@.len() as int),
            type_infos@.len() == count - infos@.len(),
            forall|j: int|
                0 <= j < type_infos@.len() ==> #[trigger] type_infos@[j] == known[count - 1 - j].1,
        decreases infos@.len(),
    {
        let ghost left = infos@;
        let info = infos.pop().unwrap();
        assert(entries(left).last() == (info.name@, info.type_info));
        assert(entries(infos@) =~= known.take(infos@.len() as int));
        type_infos.push(info.type_info);
    }
    let mut compiled: Vec<Compiled<T>> = Vec::new();
    for out in iter: outs
        invariant
            iter.seq() == all_outs,
            all_outs.len() == count,
            outcome.len() == count,
            known.len() == count,
            type_infos@.len() == count - iter.index(),
            forall|j: int|
                0 <= j < type_infos@.len() ==> #[trigger] type_infos@[j] == known[count - 1 - j].1,
            compiled@.len() == iter.index(),
            forall|j: int| 0 <= j < compiled@.len() ==> (#[trigger] compiled@[j])@ == outcome[j],
            forall|j: int|
                0 <= j < count ==> {
                    let (name, origin, files) = #[trigger] all_outs[j];
                    &&& texts(name@) == outcome[j].name
                    &&& origin == outcome[j].origin
                    &&& files@.map_values(|file: OutputFile| file@) == outcome[j].files
                    &&& known[j].1 == outcome[j].type_info
                },
    {
        let type_info = type_infos.pop().unwrap();
        let (name, origin, files) = out;
        let ghost at = compiled@.len();
        let module = Compiled { name, origin, files, type_info };
        assert(out == all_outs[at as int]);
        assert(module@ =~= outcome[at as int]);
        compiled.push(module);
    }
    assert(compiled@.map_values(|module: Compiled<T>| module@) =~= outcome);
    Ok(compiled)
}

/// What is wrong with the input at `at`, where nothing is wrong with those before
/// it: its source cannot be parsed, or one of those before it makes up a module of
/// the same name.
pub open spec fn load_error<M, P, E>(
    inputs: Seq<InputView>,
    parsed: Seq<Result<ParsedModule<M>, P>>,
    at: int,
) -> Option<ErrorView<P, E>> {
    let input = inputs[at];
    let before = input_names(inputs.take(at));
    match parsed[at] {
        Err(error) => Some(ErrorView::Parse { path: input.path, src: input.src, error }),
        Ok(_) => if before.contains(input.module_name()) {
            Some(
                ErrorView::DuplicateModule {
                    module: input.module_name(),
                    first: inputs[before.index_of(input.module_name())].path,
                    second: input.path,
                },
            )
        } else {
            None
        },
    }
}

/// The modules that the inputs and what the parser returned for them make up.
pub open spec fn loaded<M, P>(
    inputs: Seq<InputView>,
    parsed: Seq<Result<ParsedModule<M>, P>>,
) -> Seq<ModuleView<M>> {
    Seq::new(parsed.len(), |i: int| ModuleView::new(inputs[i], parsed[i]->Ok_0))
}

/// What is wrong with the last of the inputs that were parsed.
pub open spec fn last_load_error<M, P, E>(
    inputs: Seq<InputView>,
    parsed: Seq<Result<ParsedModule<M>, P>>,
) -> Option<ErrorView<P, E>> {
    if parsed.len() == 0 {
        None
    } else {
        load_error(inputs, parsed, parsed.len() - 1)
    }
}

/// The first sources are parsed one by one and nothing is wrong with any of their
/// inputs; `parsed` is what came back for each.
pub open spec fn is_clean_load<M, P, E, Parse>(
    parse: Parse,
    srcs: Seq<Input>,
    parsed: Seq<Result<ParsedModule<M>, P>>,
) -> bool where Parse: Fn(&String) -> Result<ParsedModule<M>, P> {
    &&& parsed.len() <= srcs.len()
    &&& forall|i: int|
        0 <= i < parsed.len() ==> call_ensures(parse, (&srcs[i].src,), #[trigger] parsed[i])
    &&& forall|i: int|
        0 <= i < parsed.len() ==> (#[trigger] load_error::<M, P, E>(
            input_views(srcs),
            parsed,
            i,
        )) is None
}

/// The inputs can be loaded, up to the first that something is wrong with: each that is
/// reached makes up a module that can be named, and its source can be parsed, whatever
/// the parser returned for those before it.
pub open spec fn can_load<M, P, E, Parse>(parse: Parse, srcs: Seq<Input>) -> bool where
    Parse: Fn(&String) -> Result<ParsedModule<M>, P>,
 {
    forall|parsed: Seq<Result<ParsedModule<M>, P>>| #[trigger]
        is_clean_load::<M, P, E, Parse>(parse, srcs, parsed) && parsed.len() < srcs.len() ==> {
            &&& srcs[parsed.len() as int]@.wf()
            &&& call_requires(parse, (&srcs[parsed.len() as int].src,))
        }
}

/// The sources are parsed one by one, up to the first input that something is
/// wrong with; `parsed` is what came back for each.
pub open spec fn is_load<M, P, E, Parse>(
    parse: Parse,
    srcs: Seq<Input>,
    parsed: Seq<Result<ParsedModule<M>, P>>,
) -> bool where Parse: Fn(&String) -> Result<ParsedModule<M>, P> {
    &&& parsed.len() <= srcs.len()
    &&& forall|i: int|
        0 <= i < parsed.len() ==> call_ensures(parse, (&srcs[i].src,), #[trigger] parsed[i])
    &&& forall|i: int|
        0 <= i < parsed.len() - 1 ==> (#[trigger] load_error::<M, P, E>(
            input_views(srcs),
            parsed,
            i,
        )) is None
    &&& parsed.len() < srcs.len() ==> last_load_error::<M, P, E>(input_views(srcs), parsed) is Some
}

/// Parses the sources and registers the modules that they make up.
pub fn load<M, P, E, Parse>(srcs: Vec<Input>, parse: Parse) -> (result: Result<
    Registry<M>,
    Error<P, E>,
>) where Parse: Fn(&String) -> Result<ParsedModule<M>, P>
    requires
        can_load::<M, P, E, Parse>(parse, srcs@),
    ensures
        exists|parsed: Seq<Result<ParsedModule<M>, P>>|
            {
                &&& #[trigger] is_load::<M, P, E, Parse>(parse, srcs@, parsed)
                &&& match result {
                    Ok(registry) => {
                        &&& last_load_error::<M, P, E>(input_views(srcs@), parsed) is None
                        &&& registry.wf()
                        &&& registry@ == loaded(input_views(srcs@), parsed)
                        &&& registry.linked() == Seq::<(nat, nat)>::empty()
                    },
                    Err(error) => last_load_error::<M, P, E>(input_views(srcs@), parsed) == Some(
                        error@,
                    ),
                }
            },
{
    let ghost all = srcs@;
    let ghost inputs = input_views(all);
    let mut registry: Registry<M> = Registry::new();
    let ghost mut parsed: Seq<Result<ParsedModule<M>, P>> = Seq::empty();
    assert(registry@ =~= loaded(inputs, parsed));
    for input in iter: srcs
        invariant
            iter.seq() == all,
            all == srcs@,
            inputs == input_views(all),
            can_load::<M, P, E, Parse>(parse, all),
                parsed.len() == iter.index(),
            is_clean_load::<M, P, E, Parse>(parse, all, parsed),
            registry.wf(),
            registry@ == loaded(inputs, parsed),
            registry.linked() == Seq::<(nat, nat)>::empty(),
    {
        let ghost at = parsed.len() as int;
        let ghost before = parsed;
        assert(input == all[at]);
        assert(inputs[at] == input@);
        let outcome = parse(&input.src);
        proof {
            parsed = parsed.push(outcome);
            assert forall|i: int| 0 <= i < at implies (#[trigger] load_error::<M, P, E>(
                inputs,
                parsed,
                i,
            )) is None by {
                assert(load_error::<M, P, E>(inputs, before, i) is None);
            }
            assert(names(registry@) =~= input_names(inputs.take(at)));
        }
        match outcome {
            Err(error) => {
                assert(is_load::<M, P, E, Parse>(parse, all, parsed));
                return Err(Error::Parse { path: input.path, src: input.src, error });
            },
            Ok(module) => {
                match registry.add::<P, E>(input, module) {
                    Err(error) => {
                        assert(is_load::<M, P, E, Parse>(parse, all, parsed));
                        return Err(error);
                    },
                    Ok(_) => {
                        assert(registry@ =~= loaded(inputs, parsed));
                    },
                }
            },
        }
    }
    assert(is_load::<M, P, E, Parse>(parse, all, parsed));
    Ok(registry)
}

/// The order in which `modules` are compiled, or why there is none: something is
/// wrong with an import, or modules import each other in a circle.
pub open spec fn plan_outcome<M, P, E>(modules: Seq<ModuleView<M>>) -> Result<
    Seq<nat>,
    ErrorView<P, E>,
> {
    match first_import_error::<M, P, E>(modules, imports(modules)) {
        Some(error) => Err(error),
        None => match toposort_order(modules.len(), edges(modules)) {
            Some(order) => Ok(order),
            None => Err(ErrorView::DependencyCycle),
        },
    }
}

/// The outcome `outcome` is right about the imports of `modules`: the order has
/// every module after those that it imports, and a cycle is only reported where
/// there is one.
pub open spec fn is_sound_plan<M, P, E>(
    modules: Seq<ModuleView<M>>,
    outcome: Result<Seq<nat>, ErrorView<P, E>>,
) -> bool {
    match outcome {
        Ok(order) => is_topological_order(modules.len(), edges(modules), order),
        Err(error) => error is DependencyCycle ==> has_cycle(edges(modules)),
    }
}

/// Finds an order in which to compile the modules.
pub fn plan<M, P, E>(registry: &mut Registry<M>) -> (result: Result<Vec<usize>, Error<P, E>>)
    requires
        old(registry).wf(),
        old(registry).linked() == Seq::<(nat, nat)>::empty(),
    ensures
        final(registry).wf(),
        final(registry)@ == old(registry)@,
        is_sound_plan(old(registry)@, plan_outcome::<M, P, E>(old(registry)@)),
        match result {
            Ok(order) => plan_outcome::<M, P, E>(old(registry)@) == Ok::<_, ErrorView<P, E>>(
                indices(order@),
            ),
            Err(error) => plan_outcome::<M, P, E>(old(registry)@) == Err::<Seq<nat>, _>(error@),
        },
{
    match registry.link::<P, E>() {
        Err(error) => {
            proof {
                lemma_import_error_is_no_cycle::<M, P, E>(registry@, imports(registry@));
            }
            Err(error)
        },
        Ok(_) => registry.order::<P, E>(),
    }
}

/// What is wrong with a single import is never a cycle.
proof fn lemma_import_error_is_no_cycle<M, P, E>(modules: Seq<ModuleView<M>>, list: Seq<Import>)
    ensures
        first_import_error::<M, P, E>(modules, list) != Some(ErrorView::<P, E>::DependencyCycle),
    decreases list.len(),
{
    if list.len() > 0 {
        lemma_import_error_is_no_cycle::<M, P, E>(modules, list.drop_last());
    }
}

/// The sources may be parsed, with the outcomes `parsed`, and their modules may be built
/// in the order `order`: nothing is wrong with any source or import, and every module
/// comes after those that it imports.
pub open spec fn may_build<M, P, E, Parse>(
    parse: Parse,
    srcs: Seq<Input>,
    parsed: Seq<Result<ParsedModule<M>, P>>,
    order: Seq<nat>,
) -> bool where Parse: Fn(&String) -> Result<ParsedModule<M>, P> {
    let modules = loaded(input_views(srcs), parsed);
    &&& is_clean_load::<M, P, E, Parse>(parse, srcs, parsed)
    &&& parsed.len() == srcs.len()
    &&& first_import_error::<M, P, E>(modules, imports(modules)) is None
    &&& is_topological_order(modules.len(), edges(modules), order)
}

/// The modules of the sources can be built, whatever the parser returns and in whichever
/// order they may be built.
pub open spec fn can_build_loaded<M, A, T, P, E, Parse, Infer, Generate>(
    parse: Parse,
    infer: Infer,
    generate: Generate,
    srcs: Seq<Input>,
) -> bool where
    Parse: Fn(&String) -> Result<ParsedModule<M>, P>,
    Infer: Fn(&Vec<String>, M, &Vec<ModuleInfo<T>>) -> Result<TypedModule<A, T>, E>,
    Generate: Fn(A) -> String,
 {
    forall|parsed: Seq<Result<ParsedModule<M>, P>>, order: Seq<nat>| #[trigger]
        may_build::<M, P, E, Parse>(parse, srcs, parsed, order) ==> can_build::<
            M,
            A,
            T,
            E,
            Infer,
            Generate,
        >(infer, generate, loaded(input_views(srcs), parsed), order)
}

/// A compilation: the sources are parsed and registered, their order is found and
/// they are built in that order, up to the first error. `parsed`, `typed` and
/// `codes` are what the parser, type inference and code generation returned.
pub open spec fn is_run<M, A, T, P, E, Parse, Infer, Generate>(
    parse: Parse,
    infer: Infer,
    generate: Generate,
    srcs: Seq<Input>,
    parsed: Seq<Result<ParsedModule<M>, P>>,
    typed: Seq<Result<TypedModule<A, T>, E>>,
    codes: Seq<String>,
) -> bool where
    Parse: Fn(&String) -> Result<ParsedModule<M>, P>,
    Infer: Fn(&Vec<String>, M, &Vec<ModuleInfo<T>>) -> Result<TypedModule<A, T>, E>,
    Generate: Fn(A) -> String,
 {
    let modules = loaded(input_views(srcs), parsed);
    &&& is_load::<M, P, E, Parse>(parse, srcs, parsed)
    &&& if last_load_error::<M, P, E>(input_views(srcs), parsed) is Some {
        typed.len() == 0 && codes.len() == 0
    } else {
        &&& is_sound_plan(modules, plan_outcome::<M, P, E>(modules))
        &&& match plan_outcome::<M, P, E>(modules) {
            Err(_) => typed.len() == 0 && codes.len() == 0,
            Ok(order) => is_build(infer, generate, modules, order, typed, codes),
        }
    }
}

/// What a compilation comes to, given what the parser, type inference and code
/// generation returned.
pub open spec fn outcome<M, A, T, P, E>(
    inputs: Seq<InputView>,
    render_docs: RenderDocs,
    parsed: Seq<Result<ParsedModule<M>, P>>,
    typed: Seq<Result<TypedModule<A, T>, E>>,
    codes: Seq<String>,
) -> Result<Seq<CompiledView<T>>, ErrorView<P, E>> {
    match last_load_error::<M, P, E>(inputs, parsed) {
        Some(error) => Err(error),
        None => match plan_outcome::<M, P, E>(loaded(inputs, parsed)) {
            Err(error) => Err(error),
            Ok(order) => build_outcome(loaded(inputs, parsed), order, typed, codes, render_docs),
        },
    }
}

/// Compiles the modules of a project. `parse` parses a source; `infer` infers the
/// types of a module, given its name, its syntax tree and the types of the modules
/// that were compiled before it; `generate` generates its Erlang code. After the first
/// error nothing more is parsed, inferred or generated.
pub fn compile<M, A, T, P, E, Parse, Infer, Generate>(
    srcs: Vec<Input>,
    render_docs: RenderDocs,
    parse: Parse,
    infer: Infer,
    generate: Generate,
) -> (result: Result<Vec<Compiled<T>>, Error<P, E>>) where
    Parse: Fn(&String) -> Result<ParsedModule<M>, P>,
    Infer: Fn(&Vec<String>, M, &Vec<ModuleInfo<T>>) -> Result<TypedModule<A, T>, E>,
    Generate: Fn(A) -> String,

    requires
        can_load::<M, P, E, Parse>(parse, srcs@),
        can_build_loaded::<M, A, T, P, E, Parse, Infer, Generate>(parse, infer, generate, srcs@),
    ensures
        exists|
            parsed: Seq<Result<ParsedModule<M>, P>>,
            typed: Seq<Result<TypedModule<A, T>, E>>,
            codes: Seq<String>,
        |
            {
                &&& #[trigger] is_run(parse, infer, generate, srcs@, parsed, typed, codes)
                &&& result_view(result) == outcome(
                    input_views(srcs@),
                    render_docs,
                    parsed,
                    typed,
                    codes,
                )
            },
{
    let ghost all = srcs@;
    let ghost inputs = input_views(all);
    let ghost no_types: Seq<Result<TypedModule<A, T>, E>> = Seq::empty();
    let ghost no_codes: Seq<String> = Seq::empty();
    let loading = load::<M, P, E, Parse>(srcs, parse);
    let ghost parsed = choose|parsed: Seq<Result<ParsedModule<M>, P>>|
        {
            &&& #[trigger] is_load::<M, P, E, Parse>(parse, all, parsed)
            &&& match loading {
                Ok(registry) => {
                    &&& last_load_error::<M, P, E>(inputs, parsed) is None
                    &&& registry.wf()
                    &&& registry@ == loaded(inputs, parsed)
                    &&& registry.linked() == Seq::<(nat, nat)>::empty()
                },
                Err(error) => last_load_error::<M, P, E>(inputs, parsed) == Some(error@),
            }
        };
    match loading {
        Err(error) => {
            assert(is_run(parse, infer, generate, all, parsed, no_types, no_codes));
            Err(error)
        },
        Ok(registry) => {
            let mut registry = registry;
            match plan::<M, P, E>(&mut registry) {
                Err(error) => {
                    assert(is_run(parse, infer, generate, all, parsed, no_types, no_codes));
                    Err(error)
                },
                Ok(order) => {
                    let modules = registry.into_modules();
                    proof {
                        assert(may_build::<M, P, E, Parse>(parse, all, parsed, indices(order@)));
                        assert(indices(order@).no_duplicates());
                        assert forall|k: int| 0 <= k < order@.len() implies #[trigger] order@[k]
                            < modules@.len() by {
                            assert(indices(order@)[k] < modules@.len());
                        }
                        assert forall|i: int, j: int|
                            0 <= i < order@.len() && 0 <= j < order@.len() && i != j implies order@[i]
                            != order@[j] by {
                            assert(indices(order@)[i] != indices(order@)[j]);
                        }
                    }
                    let result = build_modules::<M, A, T, P, E, Infer, Generate>(
                        modules,
                        &order,
                        render_docs,
                        infer,
                        generate,
                    );
                    proof {
                        let (typed, codes) = choose|
                            typed: Seq<Result<TypedModule<A, T>, E>>,
                            codes: Seq<String>,
                        |
                            {
                                &&& #[trigger] is_build(
                                    infer,
                                    generate,
                                    module_views(modules@),
                                    indices(order@),
                                    typed,
                                    codes,
                                )
                                &&& result_view(result) == build_outcome::<M, A, T, P, E>(
                                    module_views(modules@),
                                    indices(order@),
                                    typed,
                                    codes,
                                    render_docs,
                                )
                            };
                        assert(is_run(parse, infer, generate, all, parsed, typed, codes));
                    }
                    result
                },
            }
        },
    }
}

} // verus!
