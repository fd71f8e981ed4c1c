//! What every call of `compile` returns, said of its arguments and its result alone.

use crate::error::Error;
use crate::graph::{has_cycle, is_cycle, is_topological_order, lemma_order_holds_every_node};
use crate::laws::{
    law_names_are_distinct, lemma_first_import_error, lemma_import_is_listed, lemma_no_import_error,
    lemma_position, run_modules,
};
use crate::layout_laws::{gap, law_erl_path_is_next_to_the_base};
use crate::model::{
    input_names, input_views, Compiled, Input, ModuleInfo, ModuleOrigin, ModuleView, OutputFile,
    ParsedModule, RenderDocs, TypedModule,
};
use crate::path::FilePath;
use crate::project::{
    can_build, can_infer, can_load, compile, compiled_module, docs_path, entries, is_build,
    is_clean_load, is_inferred, is_load, is_run, known_types, last_load_error, load_error, loaded,
    may_build, may_infer, outcome, plan_outcome, result_view,
};
use crate::registry::{
    edges, first_import_error, import_edge, import_error, imports, module_imports, names, position,
};
use crate::text::{joined, lemma_split_then_join, split_on, texts};
use vstd::prelude::*;
use vstd::utf8::*;

verus! {

/// What the front end answered in a compilation: what the parser returned for each input,
/// in which order the inputs were inferred, and for each step of that order the name and
/// the table of types that inference was given, what it returned, and the code that was
/// generated.
pub struct Answers<M, A, T> {
    pub parsed: Seq<ParsedModule<M>>,
    pub order: Seq<int>,
    pub names: Seq<Vec<String>>,
    pub tables: Seq<Vec<ModuleInfo<T>>>,
    pub typed: Seq<TypedModule<A, T>>,
    pub codes: Seq<String>,
}

/// The segments of a name.
pub open spec fn segments_of(name: Vec<String>) -> Seq<Seq<char>> {
    name@.map_values(|segment: String| segment@)
}

/// The segments spell the name `name`: none of them holds a `/`, and with a `/` between
/// them they are the name.
pub open spec fn spells(segments: Seq<Seq<char>>, name: Seq<char>) -> bool {
    &&& segments.len() > 0
    &&& forall|s: int| 0 <= s < segments.len() ==> !(#[trigger] segments[s]).contains('/')
    &&& joined(segments, seq!['/']) == name
}

/// No two of the first `count` inputs make up a module of the same name.
pub open spec fn names_differ(srcs: Seq<Input>, count: int) -> bool {
    forall|i: int, j: int|
        #![trigger srcs[i], srcs[j]]
        0 <= i < j < count ==> srcs[i]@.module_name() != srcs[j]@.module_name()
}

/// The input `j` is what the import `at` of the input `i` stands for, and the input `i` may
/// import it: no input of the application imports a test.
pub open spec fn resolves<M>(
    srcs: Seq<Input>,
    parsed: Seq<ParsedModule<M>>,
    i: int,
    at: int,
    j: int,
) -> bool {
    &&& 0 <= j < srcs.len()
    &&& srcs[j]@.module_name() == parsed[i].dependencies@[at].0@
    &&& !(srcs[i].origin == ModuleOrigin::Src && srcs[j].origin == ModuleOrigin::Test)
}

/// The import `at` of the input `i` resolves.
pub open spec fn import_resolves<M>(
    srcs: Seq<Input>,
    parsed: Seq<ParsedModule<M>>,
    i: int,
    at: int,
) -> bool {
    exists|j: int| resolves(srcs, parsed, i, at, j)
}

/// Every import of an input resolves.
pub open spec fn imports_resolve<M>(srcs: Seq<Input>, parsed: Seq<ParsedModule<M>>) -> bool {
    forall|i: int, at: int|
        0 <= i < srcs.len() && 0 <= at < parsed[i].dependencies@.len()
            ==> #[trigger] import_resolves(srcs, parsed, i, at)
}

/// From the place `s` the walk goes on to an input that imports the one it stands at.
pub open spec fn goes_on<M>(
    srcs: Seq<Input>,
    parsed: Seq<ParsedModule<M>>,
    walk: Seq<int>,
    s: int,
) -> bool {
    exists|at: int|
        0 <= at < parsed[walk[s + 1]].dependencies@.len() && (
        #[trigger] parsed[walk[s + 1]].dependencies@[at]).0@ == srcs[walk[s]]@.module_name()
}

/// The walk goes from input to input, at every step to one that imports the input it
/// stands at, and comes back to where it began.
pub open spec fn is_circle<M>(
    srcs: Seq<Input>,
    parsed: Seq<ParsedModule<M>>,
    walk: Seq<int>,
) -> bool {
    &&& walk.len() >= 2
    &&& walk[0] == walk[walk.len() - 1]
    &&& forall|s: int| 0 <= s < walk.len() ==> 0 <= #[trigger] walk[s] < srcs.len()
    &&& forall|s: int| 0 <= s < walk.len() - 1 ==> #[trigger] goes_on(srcs, parsed, walk, s)
}

/// Before step `k` there is one for the module that the import `at` of its input names.
pub open spec fn import_comes_first<M>(
    srcs: Seq<Input>,
    parsed: Seq<ParsedModule<M>>,
    order: Seq<int>,
    k: int,
    at: int,
) -> bool {
    exists|j: int|
        0 <= j < k && srcs[#[trigger] order[j]]@.module_name()
            == parsed[order[k]].dependencies@[at].0@
}

/// The order runs through all inputs, each once, and each comes after those that it
/// imports.
pub open spec fn imports_come_first<M>(
    srcs: Seq<Input>,
    parsed: Seq<ParsedModule<M>>,
    order: Seq<int>,
) -> bool {
    &&& order.len() == srcs.len()
    &&& order.no_duplicates()
    &&& forall|k: int| 0 <= k < order.len() ==> 0 <= #[trigger] order[k] < srcs.len()
    &&& forall|k: int, at: int|
        0 <= k < order.len() && 0 <= at < parsed[order[k]].dependencies@.len()
            ==> #[trigger] import_comes_first(srcs, parsed, order, k, at)
}

/// Every source was parsed, and `parsed` is what came back.
pub open spec fn all_parsed<M, P, Parse>(
    parse: Parse,
    srcs: Seq<Input>,
    parsed: Seq<ParsedModule<M>>,
) -> bool where Parse: Fn(&String) -> Result<ParsedModule<M>, P> {
    &&& parsed.len() == srcs.len()
    &&& forall|i: int|
        0 <= i < srcs.len() ==> call_ensures(
            parse,
            (&srcs[i].src,),
            Ok::<ParsedModule<M>, P>(#[trigger] parsed[i]),
        )
}

/// At step `k` inference was given the name of the input, and a table with one entry for
/// each step before: the name of the module and the types that inference returned for it.
pub open spec fn is_asked_at<M, A, T>(
    srcs: Seq<Input>,
    answers: Answers<M, A, T>,
    k: int,
) -> bool {
    let table = answers.tables[k]@;
    &&& spells(segments_of(answers.names[k]), srcs[answers.order[k]]@.module_name())
    &&& table.len() == k
    &&& forall|j: int|
        0 <= j < k ==> (#[trigger] table[j]).name@ == srcs[answers.order[j]]@.module_name()
            && table[j].type_info == answers.typed[j].type_info
}

/// Inference was asked about the input of step `k` and returned the typed module of that
/// step.
pub open spec fn was_inferred_at<M, A, T, E, Infer>(
    infer: Infer,
    srcs: Seq<Input>,
    answers: Answers<M, A, T>,
    k: int,
) -> bool where Infer: Fn(&Vec<String>, M, &Vec<ModuleInfo<T>>) -> Result<TypedModule<A, T>, E> {
    &&& is_asked_at(srcs, answers, k)
    &&& call_ensures(
        infer,
        (&answers.names[k], answers.parsed[answers.order[k]].module, &answers.tables[k]),
        Ok::<TypedModule<A, T>, E>(answers.typed[k]),
    )
}

/// The compiled module `compiled` is the one of the input `input`: it has the input's name
/// and origin and the types that inference returned. Its first file holds the code that was
/// generated, whatever else is written, and lies in `gen/src` or `gen/test` next to the base
/// path. There is a second file exactly for a module of the application where documentation
/// is rendered.
pub open spec fn is_written<T>(
    input: Input,
    render_docs: RenderDocs,
    type_info: T,
    code: String,
    compiled: Compiled<T>,
) -> bool {
    let segments = segments_of(compiled.name);
    let directory = (input.source_base_path@.parent()->0).bytes;
    let place = if input.origin == ModuleOrigin::Test {
        "gen/test/"@
    } else {
        "gen/src/"@
    };
    let files = compiled.files@;
    &&& spells(segments, input@.module_name())
    &&& compiled.origin == input.origin
    &&& compiled.type_info == type_info
    &&& files.len() == if input.origin == ModuleOrigin::Src && render_docs == RenderDocs::True {
        2int
    } else {
        1
    }
    &&& files[0].contents@ == code@
    &&& files[0].path.bytes@ == directory + gap(directory) + encode_utf8(
        place + joined(segments, seq!['@']) + ".erl"@,
    )
    &&& files.len() == 2 ==> {
        &&& files[1].contents@ == "hey look some docs"@
        &&& files[1].path.bytes@ == docs_path(input.source_base_path@, segments).bytes
    }
}

/// The answers of the front end that a call of `compile` rests on.
proof fn lemma_run<M, A, T, P, E, Parse, Infer, Generate>(
    srcs: Vec<Input>,
    render_docs: RenderDocs,
    parse: Parse,
    infer: Infer,
    generate: Generate,
    result: Result<Vec<Compiled<T>>, Error<P, E>>,
) -> (run: (
    Seq<Result<ParsedModule<M>, P>>,
    Seq<Result<TypedModule<A, T>, E>>,
    Seq<String>,
)) where
    Parse: Fn(&String) -> Result<ParsedModule<M>, P>,
    Infer: Fn(&Vec<String>, M, &Vec<ModuleInfo<T>>) -> Result<TypedModule<A, T>, E>,
    Generate: Fn(A) -> String,

    requires
        call_ensures(
            compile::<M, A, T, P, E, Parse, Infer, Generate>,
            (srcs, render_docs, parse, infer, generate),
            result,
        ),
    ensures
        is_run(parse, infer, generate, srcs@, run.0, run.1, run.2),
        result_view(result) == outcome::<M, A, T, P, E>(
            input_views(srcs@),
            render_docs,
            run.0,
            run.1,
            run.2,
        ),
{
    choose|
        parsed: Seq<Result<ParsedModule<M>, P>>,
        typed: Seq<Result<TypedModule<A, T>, E>>,
        codes: Seq<String>,
    |
        {
            &&& #[trigger] is_run(parse, infer, generate, srcs@, parsed, typed, codes)
            &&& result_view(result) == outcome::<M, A, T, P, E>(
                input_views(srcs@),
                render_docs,
                parsed,
                typed,
                codes,
            )
        }
}

/// What the parser returned, where it returned no error.
spec fn unwrapped<M, P>(parsed: Seq<Result<ParsedModule<M>, P>>) -> Seq<ParsedModule<M>> {
    parsed.map_values(|answer: Result<ParsedModule<M>, P>| answer->Ok_0)
}

/// Where nothing is wrong with the inputs, all were parsed and their names differ.
proof fn lemma_parsed<M, P, E, Parse>(
    parse: Parse,
    srcs: Seq<Input>,
    parsed: Seq<Result<ParsedModule<M>, P>>,
) where Parse: Fn(&String) -> Result<ParsedModule<M>, P>
    requires
        is_load::<M, P, E, Parse>(parse, srcs, parsed),
        last_load_error::<M, P, E>(input_views(srcs), parsed) is None,
    ensures
        all_parsed::<M, P, Parse>(parse, srcs, unwrapped(parsed)),
        names_differ(srcs, srcs.len() as int),
        forall|i: int| 0 <= i < parsed.len() ==> (#[trigger] parsed[i]) is Ok,
{
    let modules = run_modules(srcs, parsed);
    law_names_are_distinct::<M, P, E, Parse>(parse, srcs, parsed);
    assert forall|i: int| 0 <= i < parsed.len() implies (#[trigger] parsed[i]) is Ok by {
        assert(load_error::<M, P, E>(input_views(srcs), parsed, i) is None);
    }
    assert forall|i: int| 0 <= i < srcs.len() implies call_ensures(
        parse,
        (&srcs[i].src,),
        Ok::<ParsedModule<M>, P>(#[trigger] unwrapped(parsed)[i]),
    ) by {
        assert(call_ensures(parse, (&srcs[i].src,), parsed[i]));
    }
    assert forall|i: int, j: int|
        #![trigger srcs[i], srcs[j]]
        0 <= i < j < srcs.len() implies srcs[i]@.module_name() != srcs[j]@.module_name() by {
        assert(names(modules)[i] == srcs[i]@.module_name());
        assert(names(modules)[j] == srcs[j]@.module_name());
    }
}

/// What the import `at` of the module `i` is, in the list of imports of that module.
proof fn lemma_own_import<M, P>(
    srcs: Seq<Input>,
    parsed: Seq<Result<ParsedModule<M>, P>>,
    i: int,
    at: int,
)
    requires
        parsed.len() == srcs.len(),
        0 <= i < srcs.len(),
        0 <= at < unwrapped(parsed)[i].dependencies@.len(),
    ensures
        run_modules(srcs, parsed)[i].dependencies.len() == unwrapped(parsed)[i].dependencies@.len(),
        run_modules(srcs, parsed)[i].dependencies[at].0 == unwrapped(
            parsed,
        )[i].dependencies@[at].0@,
        module_imports(run_modules(srcs, parsed)[i], i as nat)[at].name == unwrapped(
            parsed,
        )[i].dependencies@[at].0@,
        module_imports(run_modules(srcs, parsed)[i], i as nat)[at].meta == unwrapped(
            parsed,
        )[i].dependencies@[at].1,
        module_imports(run_modules(srcs, parsed)[i], i as nat)[at].importer == i,
{
}

/// Nothing is wrong with an import exactly where it resolves.
proof fn lemma_import_resolves<M, P, E>(
    srcs: Seq<Input>,
    parsed: Seq<Result<ParsedModule<M>, P>>,
    i: int,
    at: int,
)
    requires
        parsed.len() == srcs.len(),
        names_differ(srcs, srcs.len() as int),
        0 <= i < srcs.len(),
        0 <= at < unwrapped(parsed)[i].dependencies@.len(),
    ensures
        import_error::<M, P, E>(
            run_modules(srcs, parsed),
            module_imports(run_modules(srcs, parsed)[i], i as nat)[at],
        ) is None <==> import_resolves(srcs, unwrapped(parsed), i, at),
{
    let modules = run_modules(srcs, parsed);
    let import = module_imports(modules[i], i as nat)[at];
    lemma_own_import(srcs, parsed, i, at);
    assert(modules[i].origin == srcs[i].origin);
    if names(modules).contains(import.name) {
        lemma_position(modules, import.name);
        let found = position(modules, import.name) as int;
        assert(modules[found].name == srcs[found]@.module_name());
        assert(modules[found].origin == srcs[found].origin);
        if import_error::<M, P, E>(modules, import) is None {
            assert(resolves(srcs, unwrapped(parsed), i, at, found));
        }
        if exists|j: int| resolves(srcs, unwrapped(parsed), i, at, j) {
            let j = choose|j: int| resolves(srcs, unwrapped(parsed), i, at, j);
            if j < found {
                assert(srcs[j]@.module_name() != srcs[found]@.module_name());
            } else if found < j {
                assert(srcs[found]@.module_name() != srcs[j]@.module_name());
            }
        }
    } else if exists|j: int| resolves(srcs, unwrapped(parsed), i, at, j) {
        let j = choose|j: int| resolves(srcs, unwrapped(parsed), i, at, j);
        assert(names(modules)[j] == srcs[j]@.module_name());
    }
}

/// Where nothing is wrong with the imports, they all resolve.
proof fn lemma_all_resolve<M, P, E>(srcs: Seq<Input>, parsed: Seq<Result<ParsedModule<M>, P>>)
    requires
        parsed.len() == srcs.len(),
        names_differ(srcs, srcs.len() as int),
        first_import_error::<M, P, E>(
            run_modules(srcs, parsed),
            imports(run_modules(srcs, parsed)),
        ) is None,
    ensures
        imports_resolve(srcs, unwrapped(parsed)),
{
    let modules = run_modules(srcs, parsed);
    assert forall|i: int, at: int|
        0 <= i < srcs.len() && 0 <= at < unwrapped(
            parsed,
        )[i].dependencies@.len() implies #[trigger] import_resolves(
        srcs,
        unwrapped(parsed),
        i,
        at,
    ) by {
        let e = lemma_import_is_listed(modules, i, at);
        lemma_no_import_error::<M, P, E>(modules, imports(modules), e);
        lemma_import_resolves::<M, P, E>(srcs, parsed, i, at);
    }
}

/// A topological order of the modules has every input after those that it imports.
proof fn lemma_imports_come_first<M, P, E>(
    srcs: Seq<Input>,
    parsed: Seq<Result<ParsedModule<M>, P>>,
    order: Seq<nat>,
)
    requires
        parsed.len() == srcs.len(),
        names_differ(srcs, srcs.len() as int),
        first_import_error::<M, P, E>(
            run_modules(srcs, parsed),
            imports(run_modules(srcs, parsed)),
        ) is None,
        is_topological_order(srcs.len(), edges(run_modules(srcs, parsed)), order),
    ensures
        imports_come_first(
            srcs,
            unwrapped(parsed),
            order.map_values(|node: nat| node as int),
        ),
{
    let modules = run_modules(srcs, parsed);
    let steps = order.map_values(|node: nat| node as int);
    lemma_order_holds_every_node(srcs.len(), order);
    assert forall|k: int, at: int|
        0 <= k < steps.len() && 0 <= at < unwrapped(
            parsed,
        )[steps[k]].dependencies@.len() implies #[trigger] import_comes_first(
        srcs,
        unwrapped(parsed),
        steps,
        k,
        at,
    ) by {
        let i = steps[k];
        let e = lemma_import_is_listed(modules, i, at);
        let import = imports(modules)[e];
        lemma_own_import(srcs, parsed, i, at);
        lemma_no_import_error::<M, P, E>(modules, imports(modules), e);
        lemma_position(modules, import.name);
        let source = position(modules, import.name);
        assert(order.contains(source));
        let j = choose|j: int| 0 <= j < order.len() && order[j] == source;
        assert(edges(modules)[e] == import_edge(modules, import));
        assert(edges(modules)[e] == (order[j], order[k]));
        assert(modules[source as int].name == srcs[source as int]@.module_name());
        assert(steps[j] == source as int);
    }
}

/// The segments of a name spell it.
proof fn lemma_spells(name: Seq<char>)
    ensures
        spells(split_on(name, '/'), name),
{
    lemma_split_then_join(name, '/');
}

/// What inference was given when it returned `answer`.
spec fn asked<M, A, T, E, Infer>(
    infer: Infer,
    segments: Seq<Seq<char>>,
    module: M,
    known: Seq<(Seq<char>, T)>,
    answer: Result<TypedModule<A, T>, E>,
) -> (Vec<String>, Vec<ModuleInfo<T>>) where
    Infer: Fn(&Vec<String>, M, &Vec<ModuleInfo<T>>) -> Result<TypedModule<A, T>, E>,
 {
    choose|name: Vec<String>, infos: Vec<ModuleInfo<T>>|
        #![trigger texts(name@), entries(infos@)]
        {
            &&& texts(name@) == segments
            &&& entries(infos@) == known
            &&& call_ensures(infer, (&name, module, &infos), answer)
        }
}

/// The answers that a build rests on.
spec fn build_answers<M, A, T, P, E, Infer>(
    infer: Infer,
    srcs: Seq<Input>,
    parsed: Seq<Result<ParsedModule<M>, P>>,
    order: Seq<nat>,
    typed: Seq<Result<TypedModule<A, T>, E>>,
    codes: Seq<String>,
) -> Answers<M, A, T> where
    Infer: Fn(&Vec<String>, M, &Vec<ModuleInfo<T>>) -> Result<TypedModule<A, T>, E>,
 {
    let modules = run_modules(srcs, parsed);
    let questions = Seq::new(
        typed.len(),
        |k: int|
            asked(
                infer,
                modules[order[k] as int].segments(),
                modules[order[k] as int].module,
                known_types(modules, order, typed, k),
                typed[k],
            ),
    );
    Answers {
        parsed: unwrapped(parsed),
        order: order.map_values(|node: nat| node as int),
        names: questions.map_values(|question: (Vec<String>, Vec<ModuleInfo<T>>)| question.0),
        tables: questions.map_values(|question: (Vec<String>, Vec<ModuleInfo<T>>)| question.1),
        typed: typed.map_values(|answer: Result<TypedModule<A, T>, E>| answer->Ok_0),
        codes,
    }
}

/// At every step of a build, inference was asked about the input of that step and given
/// the types of the steps before.
proof fn lemma_asked<M, A, T, P, E, Infer, Generate>(
    infer: Infer,
    generate: Generate,
    srcs: Seq<Input>,
    parsed: Seq<Result<ParsedModule<M>, P>>,
    order: Seq<nat>,
    typed: Seq<Result<TypedModule<A, T>, E>>,
    codes: Seq<String>,
    k: int,
) where
    Infer: Fn(&Vec<String>, M, &Vec<ModuleInfo<T>>) -> Result<TypedModule<A, T>, E>,
    Generate: Fn(A) -> String,

    requires
        parsed.len() == srcs.len(),
        is_build(infer, generate, run_modules(srcs, parsed), order, typed, codes),
        forall|j: int| 0 <= j < order.len() ==> #[trigger] order[j] < srcs.len(),
        0 <= k < typed.len(),
    ensures
        is_asked_at(srcs, build_answers(infer, srcs, parsed, order, typed, codes), k),
        ({
            let answers = build_answers(infer, srcs, parsed, order, typed, codes);
            call_ensures(
                infer,
                (&answers.names[k], answers.parsed[answers.order[k]].module, &answers.tables[k]),
                typed[k],
            )
        }),
{
    let modules = run_modules(srcs, parsed);
    let answers = build_answers(infer, srcs, parsed, order, typed, codes);
    let i = order[k] as int;
    let known = known_types(modules, order, typed, k);
    assert(may_infer(infer, modules[i].segments(), modules[i].module, known, typed[k]));
    let question = asked(infer, modules[i].segments(), modules[i].module, known, typed[k]);
    assert(answers.names[k] == question.0);
    assert(answers.tables[k] == question.1);
    assert(segments_of(answers.names[k]) =~= texts(answers.names[k]@));
    assert(modules[i].name == srcs[i]@.module_name());
    lemma_spells(modules[i].name);
    let table = answers.tables[k]@;
    assert(entries(table).len() == table.len());
    assert forall|j: int| 0 <= j < k implies (#[trigger] table[j]).name@
        == srcs[answers.order[j]]@.module_name() && table[j].type_info
        == answers.typed[j].type_info by {
        assert(entries(table)[j] == known[j]);
        assert(order[j] < srcs.len());
        assert(modules[order[j] as int].name == srcs[order[j] as int]@.module_name());
    }
}

/// A compilation that succeeds: every source was parsed without an error, no two modules
/// share a name, every import resolves, each input was inferred and compiled once, after
/// those that it imports, and inference was given for each of them its name and its types.
/// What was compiled is written as it was generated.
#[verifier::rlimit(60)]
#[verifier::spinoff_prover]
pub proof fn law_what_success_means<M, A, T, P, E, Parse, Infer, Generate>(
    srcs: Vec<Input>,
    render_docs: RenderDocs,
    parse: Parse,
    infer: Infer,
    generate: Generate,
    compiled: Vec<Compiled<T>>,
) -> (answers: Answers<M, A, T>) where
    Parse: Fn(&String) -> Result<ParsedModule<M>, P>,
    Infer: Fn(&Vec<String>, M, &Vec<ModuleInfo<T>>) -> Result<TypedModule<A, T>, E>,
    Generate: Fn(A) -> String,

    requires
        call_ensures(
            compile::<M, A, T, P, E, Parse, Infer, Generate>,
            (srcs, render_docs, parse, infer, generate),
            Ok::<Vec<Compiled<T>>, Error<P, E>>(compiled),
        ),
    ensures
        all_parsed::<M, P, Parse>(parse, srcs@, answers.parsed),
        names_differ(srcs@, srcs@.len() as int),
        imports_resolve(srcs@, answers.parsed),
        imports_come_first(srcs@, answers.parsed, answers.order),
        forall|k: int|
            0 <= k < srcs@.len() ==> #[trigger] was_inferred_at::<M, A, T, E, Infer>(
                infer,
                srcs@,
                answers,
                k,
            ),
        compiled@.len() == srcs@.len(),
        forall|k: int|
            #![trigger compiled@[k]]
            0 <= k < compiled@.len() ==> call_ensures(
                generate,
                (answers.typed[k].module,),
                answers.codes[k],
            ) && is_written(
                srcs@[answers.order[k]],
                render_docs,
                answers.typed[k].type_info,
                answers.codes[k],
                compiled@[k],
            ),
{
    let result = Ok::<Vec<Compiled<T>>, Error<P, E>>(compiled);
    let (parsed, typed, codes) = lemma_run(srcs, render_docs, parse, infer, generate, result);
    let modules = run_modules(srcs@, parsed);
    lemma_parsed::<M, P, E, Parse>(parse, srcs@, parsed);
    let order = plan_outcome::<M, P, E>(modules)->Ok_0;
    lemma_all_resolve::<M, P, E>(srcs@, parsed);
    lemma_imports_come_first::<M, P, E>(srcs@, parsed, order);
    let answers = build_answers(infer, srcs@, parsed, order, typed, codes);
    assert forall|k: int| 0 <= k < srcs@.len() implies #[trigger] was_inferred_at::<
        M,
        A,
        T,
        E,
        Infer,
    >(infer, srcs@, answers, k) by {
        lemma_asked(infer, generate, srcs@, parsed, order, typed, codes, k);
        assert(typed[k] is Ok);
    }
    let views = compiled@.map_values(|module: Compiled<T>| module@);
    assert(views.len() == compiled@.len());
    assert forall|k: int| #![trigger compiled@[k]] 0 <= k < compiled@.len() implies call_ensures(
        generate,
        (answers.typed[k].module,),
        answers.codes[k],
    ) && is_written(
        srcs@[answers.order[k]],
        render_docs,
        answers.typed[k].type_info,
        answers.codes[k],
        compiled@[k],
    ) by {
        let i = order[k] as int;
        assert(typed[k] is Ok);
        assert(views[k] == compiled@[k]@);
        assert(call_ensures(generate, (typed[k]->Ok_0.module,), codes[k]));
        assert(compiled@[k]@ == compiled_module(
            modules[i],
            typed[k]->Ok_0.type_info,
            codes[k]@,
            render_docs,
        ));
        assert(i < srcs@.len());
        lemma_written(
            srcs@[i],
            modules[i],
            render_docs,
            typed[k]->Ok_0.type_info,
            codes[k],
            compiled@[k],
        );
    }
    answers
}

/// What is made of a module is written as it was generated.
proof fn lemma_written<M, T>(
    input: Input,
    module: ModuleView<M>,
    render_docs: RenderDocs,
    type_info: T,
    code: String,
    compiled: Compiled<T>,
)
    requires
        module.name == input@.module_name(),
        module.origin == input.origin,
        module.source_base_path == input.source_base_path@,
        compiled@ == compiled_module(module, type_info, code@, render_docs),
    ensures
        is_written(input, render_docs, type_info, code, compiled),
{
    let segments = segments_of(compiled.name);
    assert(segments =~= texts(compiled.name@));
    lemma_spells(module.name);
    let files = compiled.files@;
    let views = files.map_values(|file: OutputFile| file@);
    assert(views.len() == files.len());
    assert(views[0] == files[0]@);
    law_erl_path_is_next_to_the_base(module.source_base_path, module.origin, segments);
    if files.len() == 2 {
        assert(views[1] == files[1]@);
    }
}

/// A compilation fails with an error about a source, or after all sources were found in
/// order. `parsed` is what the parser returned, up to the first input that something is
/// wrong with. It is a parse error where the parser returned an error, and the module is
/// a duplicate where an input before it makes up one of the same name.
#[verifier::rlimit(60)]
#[verifier::spinoff_prover]
pub proof fn law_what_failing_to_load_means<M, A, T, P, E, Parse, Infer, Generate>(
    srcs: Vec<Input>,
    render_docs: RenderDocs,
    parse: Parse,
    infer: Infer,
    generate: Generate,
    error: Error<P, E>,
) -> (parsed: Seq<Result<ParsedModule<M>, P>>) where
    Parse: Fn(&String) -> Result<ParsedModule<M>, P>,
    Infer: Fn(&Vec<String>, M, &Vec<ModuleInfo<T>>) -> Result<TypedModule<A, T>, E>,
    Generate: Fn(A) -> String,

    requires
        call_ensures(
            compile::<M, A, T, P, E, Parse, Infer, Generate>,
            (srcs, render_docs, parse, infer, generate),
            Err::<Vec<Compiled<T>>, Error<P, E>>(error),
        ),
    ensures
        0 < parsed.len() <= srcs@.len(),
        forall|i: int|
            0 <= i < parsed.len() ==> call_ensures(parse, (&srcs@[i].src,), #[trigger] parsed[i]),
        forall|i: int| 0 <= i < parsed.len() - 1 ==> (#[trigger] parsed[i]) is Ok,
        names_differ(srcs@, parsed.len() - 1),
        match error {
            Error::Parse { path, src, error } => {
                let input = srcs@[parsed.len() - 1];
                &&& parsed[parsed.len() - 1] == Err::<ParsedModule<M>, P>(error)
                &&& path.bytes@ == input.path.bytes@
                &&& src@ == input.src@
            },
            Error::DuplicateModule { module, first, second } => {
                let input = srcs@[parsed.len() - 1];
                &&& parsed[parsed.len() - 1] is Ok
                &&& module@ == input@.module_name()
                &&& second.bytes@ == input.path.bytes@
                &&& exists|i: int|
                    0 <= i < parsed.len() - 1 && (#[trigger] srcs@[i])@.module_name()
                        == input@.module_name() && first.bytes@ == srcs@[i].path.bytes@
            },
            _ => {
                &&& parsed.len() == srcs@.len()
                &&& parsed[parsed.len() - 1] is Ok
                &&& names_differ(srcs@, srcs@.len() as int)
            },
        },
{
    let result = Err::<Vec<Compiled<T>>, Error<P, E>>(error);
    let (parsed, typed, codes) = lemma_run(srcs, render_docs, parse, infer, generate, result);
    let inputs = input_views(srcs@);
    let last = parsed.len() - 1;
    if srcs@.len() == 0 {
        lemma_nothing_cannot_fail::<M, P, E>(srcs@, parsed);
    }
    if last_load_error::<M, P, E>(inputs, parsed) is None {
        lemma_parsed::<M, P, E, Parse>(parse, srcs@, parsed);
        lemma_later_errors::<M, A, T, P, E>(srcs@, render_docs, parsed, typed, codes);
    } else {
        assert forall|i: int| 0 <= i < last implies (#[trigger] parsed[i]) is Ok by {
            assert(load_error::<M, P, E>(inputs, parsed, i) is None);
        }
        assert forall|i: int, j: int|
            #![trigger srcs@[i], srcs@[j]]
            0 <= i < j < last implies srcs@[i]@.module_name() != srcs@[j]@.module_name() by {
            assert(load_error::<M, P, E>(inputs, parsed, j) is None);
            let before = input_names(inputs.take(j));
            assert(before[i] == srcs@[i]@.module_name());
            assert(inputs[j] == srcs@[j]@);
        }
        assert(inputs[last] == srcs@[last]@);
        if parsed[last] is Ok {
            let before = input_names(inputs.take(last));
            let name = srcs@[last]@.module_name();
            let i = before.index_of(name);
            assert(before.contains(name));
            assert(before[i] == name);
            assert(before[i] == srcs@[i]@.module_name());
            assert(inputs[i] == srcs@[i]@);
        }
    }
    parsed
}

/// Without inputs nothing fails.
proof fn lemma_nothing_cannot_fail<M, P, E>(
    srcs: Seq<Input>,
    parsed: Seq<Result<ParsedModule<M>, P>>,
)
    requires
        srcs.len() == 0,
        parsed.len() == 0,
    ensures
        first_import_error::<M, P, E>(
            run_modules(srcs, parsed),
            imports(run_modules(srcs, parsed)),
        ) is None,
        !has_cycle(edges(run_modules(srcs, parsed))),
{
    let modules = run_modules(srcs, parsed);
    assert(imports(modules).len() == 0);
    assert(edges(modules).len() == 0);
    assert forall|walk: Seq<nat>| !is_cycle(edges(modules), walk) by {
        if is_cycle(edges(modules), walk) {
            assert(edges(modules).contains((walk[0], walk[1])));
        }
    }
}

/// After the sources were found in order, no error is about a source alone.
proof fn lemma_later_errors<M, A, T, P, E>(
    srcs: Seq<Input>,
    render_docs: RenderDocs,
    parsed: Seq<Result<ParsedModule<M>, P>>,
    typed: Seq<Result<TypedModule<A, T>, E>>,
    codes: Seq<String>,
)
    requires
        last_load_error::<M, P, E>(input_views(srcs), parsed) is None,
    ensures
        outcome::<M, A, T, P, E>(input_views(srcs), render_docs, parsed, typed, codes) matches Err(
            error,
        ) ==> !(error is Parse) && !(error is DuplicateModule),
{
    let modules = run_modules(srcs, parsed);
    if first_import_error::<M, P, E>(modules, imports(modules)) is Some {
        let e = lemma_first_import_error::<M, P, E>(modules, imports(modules));
    }
}

/// The imports of the modules before one come before those of the module.
proof fn lemma_imports_before<M>(modules: Seq<ModuleView<M>>, i: int, j: int)
    requires
        0 <= i < j <= modules.len(),
    ensures
        imports(modules.take(i)).len() + modules[i].dependencies.len() <= imports(
            modules.take(j),
        ).len(),
    decreases j,
{
    let less = modules.take(j);
    assert(less.drop_last() =~= modules.take(j - 1));
    assert(less.last() == modules[j - 1]);
    if i < j - 1 {
        lemma_imports_before(modules, i, j - 1);
    }
}

/// The import `at` of the module `i` stands behind the imports of the modules before it
/// and its own imports before `at`.
proof fn lemma_place_of_import<M>(modules: Seq<ModuleView<M>>, i: int, at: int)
    requires
        0 <= i < modules.len(),
        0 <= at < modules[i].dependencies.len(),
    ensures
        imports(modules.take(i)).len() + at < imports(modules).len(),
        imports(modules)[imports(modules.take(i)).len() + at] == module_imports(
            modules[i],
            i as nat,
        )[at],
    decreases modules.len(),
{
    let less = modules.drop_last();
    if i == modules.len() - 1 {
        assert(modules.take(i) =~= less);
    } else {
        lemma_place_of_import(less, i, at);
        assert(less.take(i) =~= modules.take(i));
    }
}

/// Every listed import stands in one place only.
proof fn lemma_import_of_place<M>(modules: Seq<ModuleView<M>>, e: int) -> (place: (int, int))
    requires
        0 <= e < imports(modules).len(),
    ensures
        0 <= place.0 < modules.len(),
        0 <= place.1 < modules[place.0].dependencies.len(),
        e == imports(modules.take(place.0)).len() + place.1,
        imports(modules)[e] == module_imports(modules[place.0], place.0 as nat)[place.1],
    decreases modules.len(),
{
    let less = modules.drop_last();
    if e < imports(less).len() {
        let place = lemma_import_of_place(less, e);
        assert(less.take(place.0) =~= modules.take(place.0));
        place
    } else {
        assert(modules.take(modules.len() - 1) =~= less);
        (modules.len() - 1, e - imports(less).len())
    }
}

/// A compilation that fails because of an import: every source was parsed without an error
/// and no two modules share a name. The import does not resolve, and all before it do,
/// input by input. It is unknown where no module has its name; otherwise the importing
/// module is one of the application and the imported one is a test.
#[verifier::rlimit(60)]
#[verifier::spinoff_prover]
pub proof fn law_what_a_bad_import_means<M, A, T, P, E, Parse, Infer, Generate>(
    srcs: Vec<Input>,
    render_docs: RenderDocs,
    parse: Parse,
    infer: Infer,
    generate: Generate,
    error: Error<P, E>,
) -> (found: (Seq<ParsedModule<M>>, int, int)) where
    Parse: Fn(&String) -> Result<ParsedModule<M>, P>,
    Infer: Fn(&Vec<String>, M, &Vec<ModuleInfo<T>>) -> Result<TypedModule<A, T>, E>,
    Generate: Fn(A) -> String,

    requires
        call_ensures(
            compile::<M, A, T, P, E, Parse, Infer, Generate>,
            (srcs, render_docs, parse, infer, generate),
            Err::<Vec<Compiled<T>>, Error<P, E>>(error),
        ),
        error is UnknownImport || error is SrcImportingTest,
    ensures
        all_parsed::<M, P, Parse>(parse, srcs@, found.0),
        names_differ(srcs@, srcs@.len() as int),
        0 <= found.1 < srcs@.len(),
        0 <= found.2 < found.0[found.1].dependencies@.len(),
        !import_resolves(srcs@, found.0, found.1, found.2),
        forall|i: int, at: int|
            0 <= i < srcs@.len() && 0 <= at < found.0[i].dependencies@.len() && (i < found.1 || (i
                == found.1 && at < found.2)) ==> #[trigger] import_resolves(
                srcs@,
                found.0,
                i,
                at,
            ),
        match error {
            Error::UnknownImport { module, import, src, path, modules, meta } => {
                let input = srcs@[found.1];
                let dependency = found.0[found.1].dependencies@[found.2];
                &&& module@ == input@.module_name()
                &&& import@ == dependency.0@
                &&& src@ == input.src@
                &&& path.bytes@ == input.path.bytes@
                &&& meta == dependency.1
                &&& modules@.len() == srcs@.len()
                &&& forall|j: int|
                    0 <= j < srcs@.len() ==> (#[trigger] srcs@[j])@.module_name() != dependency.0@
                        && modules@[j]@ == srcs@[j]@.module_name()
            },
            Error::SrcImportingTest { path, src, meta, src_module, test_module } => {
                let input = srcs@[found.1];
                let dependency = found.0[found.1].dependencies@[found.2];
                &&& path.bytes@ == input.path.bytes@
                &&& src@ == input.src@
                &&& meta == dependency.1
                &&& src_module@ == input@.module_name()
                &&& test_module@ == dependency.0@
                &&& input.origin == ModuleOrigin::Src
                &&& exists|j: int|
                    0 <= j < srcs@.len() && (#[trigger] srcs@[j])@.module_name() == dependency.0@
                        && srcs@[j].origin == ModuleOrigin::Test
            },
            _ => true,
        },
{
    let result = Err::<Vec<Compiled<T>>, Error<P, E>>(error);
    let (parsed, typed, codes) = lemma_run(srcs, render_docs, parse, infer, generate, result);
    let modules = run_modules(srcs@, parsed);
    let list = imports(modules);
    assert(last_load_error::<M, P, E>(input_views(srcs@), parsed) is None);
    lemma_parsed::<M, P, E, Parse>(parse, srcs@, parsed);
    assert(first_import_error::<M, P, E>(modules, list) is Some);
    let e = lemma_first_import_error::<M, P, E>(modules, list);
    let (i, at) = lemma_import_of_place(modules, e);
    assert(unwrapped(parsed)[i].dependencies@.len() == modules[i].dependencies.len());
    lemma_own_import(srcs@, parsed, i, at);
    lemma_import_resolves::<M, P, E>(srcs@, parsed, i, at);
    assert forall|i2: int, at2: int|
        0 <= i2 < srcs@.len() && 0 <= at2 < unwrapped(parsed)[i2].dependencies@.len() && (i2 < i
            || (i2 == i && at2 < at)) implies #[trigger] import_resolves(
        srcs@,
        unwrapped(parsed),
        i2,
        at2,
    ) by {
        lemma_own_import(srcs@, parsed, i2, at2);
        lemma_place_of_import(modules, i2, at2);
        if i2 < i {
            lemma_imports_before(modules, i2, i);
        }
        let e2 = imports(modules.take(i2)).len() + at2;
        assert(e2 < e);
        assert(import_error::<M, P, E>(modules, list[e2 as int]) is None);
        lemma_import_resolves::<M, P, E>(srcs@, parsed, i2, at2);
    }
    let import = module_imports(modules[i], i as nat)[at];
    assert(modules[i].name == srcs@[i]@.module_name());
    match error {
        Error::UnknownImport { module, import: imported, src, path, modules: known, meta } => {
            assert(texts(known@) == names(modules));
            assert(texts(known@).len() == known@.len());
            assert forall|j: int| 0 <= j < srcs@.len() implies (
            #[trigger] srcs@[j])@.module_name() != import.name && known@[j]@
                == srcs@[j]@.module_name() by {
                assert(names(modules)[j] == srcs@[j]@.module_name());
                assert(texts(known@)[j] == known@[j]@);
            }
        },
        _ => {
            lemma_position(modules, import.name);
            let j = position(modules, import.name) as int;
            assert(modules[j].name == srcs@[j]@.module_name());
            assert(modules[j].origin == srcs@[j].origin);
        },
    }
    (unwrapped(parsed), i, at)
}

/// An edge leads from one module to another exactly where the other imports the one.
pub proof fn law_edges_are_the_imports<M>(modules: Seq<ModuleView<M>>, a: nat, b: nat)
    requires
        forall|i: int, j: int|
            #![trigger modules[i], modules[j]]
            0 <= i < j < modules.len() ==> modules[i].name != modules[j].name,
        forall|i: int, at: int|
            #![trigger modules[i].dependencies[at]]
            0 <= i < modules.len() && 0 <= at < modules[i].dependencies.len() ==> exists|j: int|
                0 <= j < modules.len() && (#[trigger] modules[j]).name
                    == modules[i].dependencies[at].0,
    ensures
        edges(modules).contains((a, b)) <==> {
            &&& a < modules.len()
            &&& b < modules.len()
            &&& exists|at: int|
                0 <= at < modules[b as int].dependencies.len() && (
                #[trigger] modules[b as int].dependencies[at]).0 == modules[a as int].name
        },
{
    if edges(modules).contains((a, b)) {
        let e = choose|e: int| 0 <= e < edges(modules).len() && edges(modules)[e] == (a, b);
        let import = imports(modules)[e];
        assert(edges(modules)[e] == import_edge(modules, import));
        let (i, at) = lemma_import_of_place(modules, e);
        let dependency = modules[i].dependencies[at];
        let j = choose|j: int|
            0 <= j < modules.len() && (#[trigger] modules[j]).name == dependency.0;
        assert(names(modules)[j] == import.name);
        lemma_position(modules, import.name);
        assert(modules[b as int].dependencies[at].0 == modules[a as int].name);
    }
    if a < modules.len() && b < modules.len() && exists|at: int|
        0 <= at < modules[b as int].dependencies.len() && (
        #[trigger] modules[b as int].dependencies[at]).0 == modules[a as int].name {
        let at = choose|at: int|
            0 <= at < modules[b as int].dependencies.len() && (
            #[trigger] modules[b as int].dependencies[at]).0 == modules[a as int].name;
        lemma_place_of_import(modules, b as int, at);
        let e = imports(modules.take(b as int)).len() + at;
        let import = imports(modules)[e];
        assert(names(modules)[a as int] == import.name);
        lemma_position(modules, import.name);
        let found = position(modules, import.name) as int;
        if found < a {
            assert(modules[found].name != modules[a as int].name);
        } else if a < found {
            assert(modules[a as int].name != modules[found].name);
        }
        assert(edges(modules)[e] == import_edge(modules, import));
        assert(edges(modules)[e] == (a, b));
    }
}

/// A compilation that fails because of a cycle: every source was parsed without an error,
/// no two modules share a name, every import resolves, and there is a walk from input to
/// input, at every step to one that imports the one before, that comes back to where it
/// began.
#[verifier::rlimit(60)]
#[verifier::spinoff_prover]
pub proof fn law_what_a_cycle_means<M, A, T, P, E, Parse, Infer, Generate>(
    srcs: Vec<Input>,
    render_docs: RenderDocs,
    parse: Parse,
    infer: Infer,
    generate: Generate,
) -> (found: (Seq<ParsedModule<M>>, Seq<int>)) where
    Parse: Fn(&String) -> Result<ParsedModule<M>, P>,
    Infer: Fn(&Vec<String>, M, &Vec<ModuleInfo<T>>) -> Result<TypedModule<A, T>, E>,
    Generate: Fn(A) -> String,

    requires
        call_ensures(
            compile::<M, A, T, P, E, Parse, Infer, Generate>,
            (srcs, render_docs, parse, infer, generate),
            Err::<Vec<Compiled<T>>, Error<P, E>>(Error::DependencyCycle),
        ),
    ensures
        all_parsed::<M, P, Parse>(parse, srcs@, found.0),
        names_differ(srcs@, srcs@.len() as int),
        imports_resolve(srcs@, found.0),
        is_circle(srcs@, found.0, found.1),
{
    let result = Err::<Vec<Compiled<T>>, Error<P, E>>(Error::DependencyCycle);
    let (parsed, typed, codes) = lemma_run(srcs, render_docs, parse, infer, generate, result);
    let modules = run_modules(srcs@, parsed);
    assert(last_load_error::<M, P, E>(input_views(srcs@), parsed) is None);
    lemma_parsed::<M, P, E, Parse>(parse, srcs@, parsed);
    if first_import_error::<M, P, E>(modules, imports(modules)) is Some {
        let e = lemma_first_import_error::<M, P, E>(modules, imports(modules));
    }
    lemma_all_resolve::<M, P, E>(srcs@, parsed);
    assert(has_cycle(edges(modules)));
    let nodes = choose|nodes: Seq<nat>| is_cycle(edges(modules), nodes);
    lemma_circle::<M, P, E>(srcs@, parsed, nodes);
    (unwrapped(parsed), nodes.map_values(|node: nat| node as int))
}

/// A cycle of edges is a circle of imports.
proof fn lemma_circle<M, P, E>(
    srcs: Seq<Input>,
    parsed: Seq<Result<ParsedModule<M>, P>>,
    nodes: Seq<nat>,
)
    requires
        parsed.len() == srcs.len(),
        first_import_error::<M, P, E>(
            run_modules(srcs, parsed),
            imports(run_modules(srcs, parsed)),
        ) is None,
        is_cycle(edges(run_modules(srcs, parsed)), nodes),
    ensures
        is_circle(srcs, unwrapped(parsed), nodes.map_values(|node: nat| node as int)),
{
    let walk = nodes.map_values(|node: nat| node as int);
    assert forall|s: int| 0 <= s < walk.len() - 1 implies #[trigger] goes_on(
        srcs,
        unwrapped(parsed),
        walk,
        s,
    ) by {
        lemma_circle_step::<M, P, E>(srcs, parsed, nodes, s);
    }
    assert forall|s: int| 0 <= s < walk.len() implies 0 <= #[trigger] walk[s] < srcs.len() by {
        if s < walk.len() - 1 {
            lemma_circle_step::<M, P, E>(srcs, parsed, nodes, s);
        } else {
            lemma_circle_step::<M, P, E>(srcs, parsed, nodes, 0);
            assert(nodes.first() == nodes.last());
        }
    }
    assert(walk[0] == walk[walk.len() - 1]);
}

/// A step of a cycle of edges is an import.
proof fn lemma_circle_step<M, P, E>(
    srcs: Seq<Input>,
    parsed: Seq<Result<ParsedModule<M>, P>>,
    nodes: Seq<nat>,
    s: int,
)
    requires
        parsed.len() == srcs.len(),
        first_import_error::<M, P, E>(
            run_modules(srcs, parsed),
            imports(run_modules(srcs, parsed)),
        ) is None,
        is_cycle(edges(run_modules(srcs, parsed)), nodes),
        0 <= s < nodes.len() - 1,
    ensures
        nodes[s] < srcs.len(),
        goes_on(srcs, unwrapped(parsed), nodes.map_values(|node: nat| node as int), s),
{
    let modules = run_modules(srcs, parsed);
    let walk = nodes.map_values(|node: nat| node as int);
    let plain = unwrapped(parsed);
    let edge = (nodes[s], nodes[s + 1]);
    assert(edges(modules).contains(edge));
    let e = choose|e: int| 0 <= e < edges(modules).len() && edges(modules)[e] == edge;
    let import = imports(modules)[e];
    assert(edges(modules)[e] == import_edge(modules, import));
    let (i, at) = lemma_import_of_place(modules, e);
    assert(plain[i].dependencies@.len() == modules[i].dependencies.len());
    lemma_own_import(srcs, parsed, i, at);
    lemma_no_import_error::<M, P, E>(modules, imports(modules), e);
    lemma_position(modules, import.name);
    assert(walk[s + 1] == i);
    assert(modules[walk[s]].name == srcs[walk[s]]@.module_name());
    assert(plain[walk[s + 1]].dependencies@[at].0@ == srcs[walk[s]]@.module_name());
}

/// Where every input comes after those that it imports, no walk along imports comes back
/// to where it began.
pub proof fn law_no_circle_where_imports_come_first<M>(
    srcs: Seq<Input>,
    parsed: Seq<ParsedModule<M>>,
    order: Seq<int>,
    walk: Seq<int>,
)
    requires
        names_differ(srcs, srcs.len() as int),
        imports_come_first(srcs, parsed, order),
    ensures
        !is_circle(srcs, parsed, walk),
{
    if is_circle(srcs, parsed, walk) {
        lemma_walk_goes_on(srcs, parsed, order, walk, walk.len() - 1);
    }
}

/// A walk along imports goes to ever later steps of the order.
proof fn lemma_walk_goes_on<M>(
    srcs: Seq<Input>,
    parsed: Seq<ParsedModule<M>>,
    order: Seq<int>,
    walk: Seq<int>,
    s: int,
)
    requires
        names_differ(srcs, srcs.len() as int),
        imports_come_first(srcs, parsed, order),
        is_circle(srcs, parsed, walk),
        0 <= s < walk.len(),
    ensures
        order.contains(walk[s]),
        s > 0 ==> order.index_of(walk[0]) < order.index_of(walk[s]),
    decreases s,
{
    lemma_order_is_full(order, srcs.len());
    assert(0 <= walk[s] < srcs.len());
    if s > 0 {
        lemma_walk_goes_on(srcs, parsed, order, walk, s - 1);
        let before = walk[s - 1];
        let after = walk[(s - 1) + 1];
        let k = order.index_of(after);
        assert(order.contains(after));
        assert(goes_on(srcs, parsed, walk, s - 1));
        let at = choose|at: int|
            0 <= at < parsed[walk[(s - 1) + 1]].dependencies@.len() && (
            #[trigger] parsed[walk[(s - 1) + 1]].dependencies@[at]).0@
                == srcs[walk[s - 1]]@.module_name();
        assert(import_comes_first(srcs, parsed, order, k, at));
        let j = choose|j: int|
            0 <= j < k && srcs[#[trigger] order[j]]@.module_name()
                == parsed[order[k]].dependencies@[at].0@;
        let found = order[j];
        assert(0 <= found < srcs.len());
        if found < before {
            assert(srcs[found]@.module_name() != srcs[before]@.module_name());
        } else if before < found {
            assert(srcs[before]@.module_name() != srcs[found]@.module_name());
        }
        assert(order.contains(before));
        let own = order.index_of(before);
        assert(order[own] == before);
        assert(own == j);
    }
}

/// An order of as many different numbers below `count` holds each of them.
proof fn lemma_order_is_full(order: Seq<int>, count: nat)
    requires
        order.len() == count,
        order.no_duplicates(),
        forall|k: int| 0 <= k < order.len() ==> 0 <= #[trigger] order[k] < count,
    ensures
        forall|i: int| 0 <= i < count ==> order.contains(i),
{
    let nodes = order.map_values(|i: int| i as nat);
    assert(nodes.no_duplicates());
    lemma_order_holds_every_node(count, nodes);
    assert forall|i: int| 0 <= i < count implies order.contains(i) by {
        assert(nodes.contains(i as nat));
        let k = choose|k: int| 0 <= k < nodes.len() && nodes[k] == i as nat;
        assert(order[k] == i);
    }
}

/// A compilation that fails because of types: every source was parsed without an error, no
/// two modules share a name, every import resolves, and the inputs were inferred in an
/// order in which each comes after those that it imports, each with the names and the types
/// of those before it, until inference returned the error. The error is about the input of
/// that step.
#[verifier::rlimit(60)]
#[verifier::spinoff_prover]
pub proof fn law_what_a_type_error_means<M, A, T, P, E, Parse, Infer, Generate>(
    srcs: Vec<Input>,
    render_docs: RenderDocs,
    parse: Parse,
    infer: Infer,
    generate: Generate,
    path: FilePath,
    src: String,
    error: E,
) -> (found: (Answers<M, A, T>, int)) where
    Parse: Fn(&String) -> Result<ParsedModule<M>, P>,
    Infer: Fn(&Vec<String>, M, &Vec<ModuleInfo<T>>) -> Result<TypedModule<A, T>, E>,
    Generate: Fn(A) -> String,

    requires
        call_ensures(
            compile::<M, A, T, P, E, Parse, Infer, Generate>,
            (srcs, render_docs, parse, infer, generate),
            Err::<Vec<Compiled<T>>, Error<P, E>>((Error::Type { path, src, error })),
        ),
    ensures
        all_parsed::<M, P, Parse>(parse, srcs@, found.0.parsed),
        names_differ(srcs@, srcs@.len() as int),
        imports_resolve(srcs@, found.0.parsed),
        imports_come_first(srcs@, found.0.parsed, found.0.order),
        0 <= found.1 < srcs@.len(),
        forall|k: int|
            0 <= k < found.1 ==> #[trigger] was_inferred_at::<M, A, T, E, Infer>(
                infer,
                srcs@,
                found.0,
                k,
            ),
        is_asked_at(srcs@, found.0, found.1),
        call_ensures(
            infer,
            (
                &found.0.names[found.1],
                found.0.parsed[found.0.order[found.1]].module,
                &found.0.tables[found.1],
            ),
            Err::<TypedModule<A, T>, E>(error),
        ),
        path.bytes@ == srcs@[found.0.order[found.1]].path.bytes@,
        src@ == srcs@[found.0.order[found.1]].src@,
{
    let result = Err::<Vec<Compiled<T>>, Error<P, E>>(Error::Type { path, src, error });
    let (parsed, typed, codes) = lemma_run(srcs, render_docs, parse, infer, generate, result);
    let modules = run_modules(srcs@, parsed);
    assert(last_load_error::<M, P, E>(input_views(srcs@), parsed) is None);
    lemma_parsed::<M, P, E, Parse>(parse, srcs@, parsed);
    if first_import_error::<M, P, E>(modules, imports(modules)) is Some {
        let e = lemma_first_import_error::<M, P, E>(modules, imports(modules));
    }
    let order = plan_outcome::<M, P, E>(modules)->Ok_0;
    lemma_all_resolve::<M, P, E>(srcs@, parsed);
    lemma_imports_come_first::<M, P, E>(srcs@, parsed, order);
    let answers = build_answers(infer, srcs@, parsed, order, typed, codes);
    let last = typed.len() - 1;
    assert forall|k: int| 0 <= k < last implies #[trigger] was_inferred_at::<M, A, T, E, Infer>(
        infer,
        srcs@,
        answers,
        k,
    ) by {
        lemma_asked(infer, generate, srcs@, parsed, order, typed, codes, k);
        assert(typed[k] is Ok);
    }
    lemma_asked(infer, generate, srcs@, parsed, order, typed, codes, last);
    assert(order[last] < srcs@.len());
    (answers, last)
}

/// When a module is inferred, the table that inference is given holds an entry for each of
/// its imports: one with the imported name and with the types that inference returned for
/// the module of that name.
pub proof fn law_the_table_holds_every_import<M, A, T>(
    srcs: Seq<Input>,
    answers: Answers<M, A, T>,
    k: int,
    at: int,
) -> (j: int)
    requires
        imports_come_first(srcs, answers.parsed, answers.order),
        is_asked_at(srcs, answers, k),
        0 <= k < answers.order.len(),
        0 <= at < answers.parsed[answers.order[k]].dependencies@.len(),
    ensures
        0 <= j < answers.tables[k]@.len(),
        answers.tables[k]@[j].name@ == answers.parsed[answers.order[k]].dependencies@[at].0@,
        answers.tables[k]@[j].name@ == srcs[answers.order[j]]@.module_name(),
        answers.tables[k]@[j].type_info == answers.typed[j].type_info,
{
    assert(import_comes_first(srcs, answers.parsed, answers.order, k, at));
    let j = choose|j: int|
        0 <= j < k && srcs[#[trigger] answers.order[j]]@.module_name()
            == answers.parsed[answers.order[k]].dependencies@[at].0@;
    assert(answers.tables[k]@[j].name@ == srcs[answers.order[j]]@.module_name());
    j
}

/// Where the parser finds every source in order, no two modules share a name, every import
/// resolves and none of them are in a circle, and inference finds every module well typed,
/// the compilation succeeds.
#[verifier::rlimit(60)]
#[verifier::spinoff_prover]
pub proof fn law_nothing_wrong_compiles<M, A, T, P, E, Parse, Infer, Generate>(
    srcs: Vec<Input>,
    render_docs: RenderDocs,
    parse: Parse,
    infer: Infer,
    generate: Generate,
    result: Result<Vec<Compiled<T>>, Error<P, E>>,
) where
    Parse: Fn(&String) -> Result<ParsedModule<M>, P>,
    Infer: Fn(&Vec<String>, M, &Vec<ModuleInfo<T>>) -> Result<TypedModule<A, T>, E>,
    Generate: Fn(A) -> String,

    requires
        call_ensures(
            compile::<M, A, T, P, E, Parse, Infer, Generate>,
            (srcs, render_docs, parse, infer, generate),
            result,
        ),
        forall|i: int, answer: Result<ParsedModule<M>, P>|
            0 <= i < srcs@.len() && #[trigger] call_ensures(parse, (&srcs@[i].src,), answer)
                ==> answer is Ok,
        names_differ(srcs@, srcs@.len() as int),
        forall|parsed: Seq<ParsedModule<M>>| #[trigger]
            all_parsed::<M, P, Parse>(parse, srcs@, parsed) ==> imports_resolve(srcs@, parsed),
        forall|parsed: Seq<ParsedModule<M>>, walk: Seq<int>|
            all_parsed::<M, P, Parse>(parse, srcs@, parsed) ==> !#[trigger] is_circle(
                srcs@,
                parsed,
                walk,
            ),
        forall|
            name: Vec<String>,
            module: M,
            infos: Vec<ModuleInfo<T>>,
            answer: Result<TypedModule<A, T>, E>,
        | #[trigger]
            call_ensures(infer, (&name, module, &infos), answer) ==> answer is Ok,
    ensures
        result is Ok,
{
    if let Err(error) = result {
        match error {
            Error::Parse { .. } => {
                let parsed = law_what_failing_to_load_means(
                    srcs,
                    render_docs,
                    parse,
                    infer,
                    generate,
                    error,
                );
                let last = parsed.len() - 1;
                assert(call_ensures(parse, (&srcs@[last].src,), parsed[last]));
            },
            Error::DuplicateModule { module, first, second } => {
                let parsed = law_what_failing_to_load_means(
                    srcs,
                    render_docs,
                    parse,
                    infer,
                    generate,
                    error,
                );
                let last = parsed.len() - 1;
                let i = choose|i: int|
                    0 <= i < last && (#[trigger] srcs@[i])@.module_name()
                        == srcs@[last]@.module_name() && first.bytes@ == srcs@[i].path.bytes@;
                assert(srcs@[i]@.module_name() != srcs@[last]@.module_name());
            },
            Error::DependencyCycle => {
                let (parsed, walk) = law_what_a_cycle_means::<
                    M,
                    A,
                    T,
                    P,
                    E,
                    Parse,
                    Infer,
                    Generate,
                >(srcs, render_docs, parse, infer, generate);
            },
            Error::Type { path, src, error } => {
                let (answers, k) = law_what_a_type_error_means::<
                    M,
                    A,
                    T,
                    P,
                    E,
                    Parse,
                    Infer,
                    Generate,
                >(srcs, render_docs, parse, infer, generate, path, src, error);
                assert(call_ensures(
                    infer,
                    (
                        &answers.names[k],
                        answers.parsed[answers.order[k]].module,
                        &answers.tables[k],
                    ),
                    Err::<TypedModule<A, T>, E>(error),
                ));
            },
            _ => {
                let (parsed, i, at) = law_what_a_bad_import_means(
                    srcs,
                    render_docs,
                    parse,
                    infer,
                    generate,
                    error,
                );
                assert(import_resolves(srcs@, parsed, i, at));
            },
        }
    }
}

/// Any inputs can be compiled whose modules can be named and whose base paths lie in some
/// directory.
pub proof fn law_ordinary_inputs_can_be_compiled<M, A, T, P, E, Parse, Infer, Generate>(
    srcs: Vec<Input>,
    render_docs: RenderDocs,
    parse: Parse,
    infer: Infer,
    generate: Generate,
) where
    Parse: Fn(&String) -> Result<ParsedModule<M>, P>,
    Infer: Fn(&Vec<String>, M, &Vec<ModuleInfo<T>>) -> Result<TypedModule<A, T>, E>,
    Generate: Fn(A) -> String,

    requires
        forall|i: int|
            #![trigger srcs@[i]]
            0 <= i < srcs@.len() ==> srcs@[i]@.wf() && call_requires(parse, (&srcs@[i].src,))
                && srcs@[i].source_base_path@.parent() is Some,
        forall|name: Vec<String>, module: M, infos: Vec<ModuleInfo<T>>|
            call_requires(infer, (&name, module, &infos)),
        forall|module: A| call_requires(generate, (module,)),
    ensures
        call_requires(
            compile::<M, A, T, P, E, Parse, Infer, Generate>,
            (srcs, render_docs, parse, infer, generate),
        ),
{
    assert(can_load::<M, P, E, Parse>(parse, srcs@));
    assert forall|parsed: Seq<Result<ParsedModule<M>, P>>, order: Seq<nat>| #[trigger]
        may_build::<M, P, E, Parse>(parse, srcs@, parsed, order) implies can_build::<
        M,
        A,
        T,
        E,
        Infer,
        Generate,
    >(infer, generate, loaded(input_views(srcs@), parsed), order) by {
        let modules = loaded(input_views(srcs@), parsed);
        assert forall|typed: Seq<Result<TypedModule<A, T>, E>>| #[trigger]
            is_inferred(infer, modules, order, typed) implies {
            let count = typed.len() as int;
            &&& count < order.len() ==> can_infer(
                infer,
                modules[order[count] as int].segments(),
                modules[order[count] as int].module,
                known_types(modules, order, typed, count),
            )
            &&& count > 0 ==> {
                &&& modules[order[count - 1] as int].source_base_path.parent() is Some
                &&& call_requires(generate, (typed[count - 1]->Ok_0.module,))
            }
        } by {
            if typed.len() > 0 {
                let i = order[typed.len() - 1] as int;
                assert(i < srcs@.len());
                assert(modules[i].source_base_path == srcs@[i].source_base_path@);
            }
        }
    }
}

/// Nothing is asked of the inputs after one whose source cannot be parsed, or that makes up
/// a module of the same name as one before it.
pub proof fn law_inputs_after_an_error_do_not_matter<
    M,
    A,
    T,
    P,
    E,
    Parse,
    Infer,
    Generate,
>(
    srcs: Vec<Input>,
    render_docs: RenderDocs,
    parse: Parse,
    infer: Infer,
    generate: Generate,
    last: int,
) where
    Parse: Fn(&String) -> Result<ParsedModule<M>, P>,
    Infer: Fn(&Vec<String>, M, &Vec<ModuleInfo<T>>) -> Result<TypedModule<A, T>, E>,
    Generate: Fn(A) -> String,

    requires
        0 <= last < srcs@.len(),
        forall|i: int|
            #![trigger srcs@[i]]
            0 <= i <= last ==> srcs@[i]@.wf() && call_requires(parse, (&srcs@[i].src,)),
        (forall|answer: Result<ParsedModule<M>, P>| #[trigger]
            call_ensures(parse, (&srcs@[last].src,), answer) ==> answer is Err) || !names_differ(
            srcs@,
            last + 1,
        ),
    ensures
        call_requires(
            compile::<M, A, T, P, E, Parse, Infer, Generate>,
            (srcs, render_docs, parse, infer, generate),
        ),
{
    let inputs = input_views(srcs@);
    assert forall|parsed: Seq<Result<ParsedModule<M>, P>>| #[trigger]
        is_clean_load::<M, P, E, Parse>(parse, srcs@, parsed) implies parsed.len() <= last by {
        if parsed.len() > last {
            assert(load_error::<M, P, E>(inputs, parsed, last) is None);
            assert(call_ensures(parse, (&srcs@[last].src,), parsed[last]));
            assert forall|i: int, j: int|
                #![trigger srcs@[i], srcs@[j]]
                0 <= i < j < last + 1 implies srcs@[i]@.module_name() != srcs@[j]@.module_name() by {
                assert(load_error::<M, P, E>(inputs, parsed, j) is None);
                let before = input_names(inputs.take(j));
                assert(before[i] == srcs@[i]@.module_name());
                assert(inputs[j] == srcs@[j]@);
            }
            assert(names_differ(srcs@, last + 1));
        }
    }
    assert(can_load::<M, P, E, Parse>(parse, srcs@));
}

/// Where modules may be built, every import resolves and comes first.
proof fn lemma_may_build<M, P, E, Parse>(
    parse: Parse,
    srcs: Seq<Input>,
    parsed: Seq<Result<ParsedModule<M>, P>>,
    order: Seq<nat>,
) where Parse: Fn(&String) -> Result<ParsedModule<M>, P>
    requires
        may_build::<M, P, E, Parse>(parse, srcs, parsed, order),
    ensures
        all_parsed::<M, P, Parse>(parse, srcs, unwrapped(parsed)),
        names_differ(srcs, srcs.len() as int),
        imports_resolve(srcs, unwrapped(parsed)),
        imports_come_first(srcs, unwrapped(parsed), order.map_values(|node: nat| node as int)),
{
    if srcs.len() > 0 {
        assert(load_error::<M, P, E>(input_views(srcs), parsed, srcs.len() - 1) is None);
    }
    assert(last_load_error::<M, P, E>(input_views(srcs), parsed) is None);
    assert(is_load::<M, P, E, Parse>(parse, srcs, parsed));
    lemma_parsed::<M, P, E, Parse>(parse, srcs, parsed);
    lemma_all_resolve::<M, P, E>(srcs, parsed);
    lemma_imports_come_first::<M, P, E>(srcs, parsed, order);
}

/// Nothing is asked of the base paths, of inference or of code generation where some import
/// does not resolve or the imports are in a circle.
pub proof fn law_bases_do_not_matter_where_imports_are_bad<
    M,
    A,
    T,
    P,
    E,
    Parse,
    Infer,
    Generate,
>(
    srcs: Vec<Input>,
    render_docs: RenderDocs,
    parse: Parse,
    infer: Infer,
    generate: Generate,
) where
    Parse: Fn(&String) -> Result<ParsedModule<M>, P>,
    Infer: Fn(&Vec<String>, M, &Vec<ModuleInfo<T>>) -> Result<TypedModule<A, T>, E>,
    Generate: Fn(A) -> String,

    requires
        forall|i: int|
            #![trigger srcs@[i]]
            0 <= i < srcs@.len() ==> srcs@[i]@.wf() && call_requires(parse, (&srcs@[i].src,)),
        forall|parsed: Seq<ParsedModule<M>>| #[trigger]
            all_parsed::<M, P, Parse>(parse, srcs@, parsed) ==> !imports_resolve(srcs@, parsed) || (
            exists|walk: Seq<int>| is_circle(srcs@, parsed, walk)),
    ensures
        call_requires(
            compile::<M, A, T, P, E, Parse, Infer, Generate>,
            (srcs, render_docs, parse, infer, generate),
        ),
{
    assert(can_load::<M, P, E, Parse>(parse, srcs@));
    assert forall|parsed: Seq<Result<ParsedModule<M>, P>>, order: Seq<nat>| #[trigger]
        may_build::<M, P, E, Parse>(parse, srcs@, parsed, order) implies false by {
        lemma_may_build::<M, P, E, Parse>(parse, srcs@, parsed, order);
        let plain = unwrapped(parsed);
        let steps = order.map_values(|node: nat| node as int);
        let walk = choose|walk: Seq<int>| is_circle(srcs@, plain, walk);
        law_no_circle_where_imports_come_first(srcs@, plain, steps, walk);
    }
}

/// The base path of an input need not lie in a directory where inference never finds the
/// input well typed.
#[verifier::rlimit(60)]
#[verifier::spinoff_prover]
pub proof fn law_bases_do_not_matter_where_inference_fails<
    M,
    A,
    T,
    P,
    E,
    Parse,
    Infer,
    Generate,
>(
    srcs: Vec<Input>,
    render_docs: RenderDocs,
    parse: Parse,
    infer: Infer,
    generate: Generate,
) where
    Parse: Fn(&String) -> Result<ParsedModule<M>, P>,
    Infer: Fn(&Vec<String>, M, &Vec<ModuleInfo<T>>) -> Result<TypedModule<A, T>, E>,
    Generate: Fn(A) -> String,

    requires
        forall|i: int|
            #![trigger srcs@[i]]
            0 <= i < srcs@.len() ==> srcs@[i]@.wf() && call_requires(parse, (&srcs@[i].src,)),
        forall|name: Vec<String>, module: M, infos: Vec<ModuleInfo<T>>|
            call_requires(infer, (&name, module, &infos)),
        forall|module: A| call_requires(generate, (module,)),
        forall|
            i: int,
            parsed: ParsedModule<M>,
            name: Vec<String>,
            infos: Vec<ModuleInfo<T>>,
            typed: TypedModule<A, T>,
        |
            0 <= i < srcs@.len() && #[trigger] call_ensures(
                parse,
                (&srcs@[i].src,),
                Ok::<ParsedModule<M>, P>(parsed),
            ) && #[trigger] call_ensures(
                infer,
                (&name, parsed.module, &infos),
                Ok::<TypedModule<A, T>, E>(typed),
            ) ==> srcs@[i].source_base_path@.parent() is Some,
    ensures
        call_requires(
            compile::<M, A, T, P, E, Parse, Infer, Generate>,
            (srcs, render_docs, parse, infer, generate),
        ),
{
    assert(can_load::<M, P, E, Parse>(parse, srcs@));
    assert forall|parsed: Seq<Result<ParsedModule<M>, P>>, order: Seq<nat>| #[trigger]
        may_build::<M, P, E, Parse>(parse, srcs@, parsed, order) implies can_build::<
        M,
        A,
        T,
        E,
        Infer,
        Generate,
    >(infer, generate, loaded(input_views(srcs@), parsed), order) by {
        let modules = loaded(input_views(srcs@), parsed);
        let plain = unwrapped(parsed);
        lemma_may_build::<M, P, E, Parse>(parse, srcs@, parsed, order);
        assert forall|typed: Seq<Result<TypedModule<A, T>, E>>| #[trigger]
            is_inferred(infer, modules, order, typed) implies {
            let count = typed.len() as int;
            &&& count < order.len() ==> can_infer(
                infer,
                modules[order[count] as int].segments(),
                modules[order[count] as int].module,
                known_types(modules, order, typed, count),
            )
            &&& count > 0 ==> {
                &&& modules[order[count - 1] as int].source_base_path.parent() is Some
                &&& call_requires(generate, (typed[count - 1]->Ok_0.module,))
            }
        } by {
            if typed.len() > 0 {
                let k = typed.len() - 1;
                let i = order[k] as int;
                let known = known_types(modules, order, typed, k);
                assert(i < srcs@.len());
                assert(typed[k] is Ok);
                assert(may_infer(infer, modules[i].segments(), modules[i].module, known, typed[k]));
                let (name, infos) = asked(
                    infer,
                    modules[i].segments(),
                    modules[i].module,
                    known,
                    typed[k],
                );
                assert(call_ensures(infer, (&name, modules[i].module, &infos), typed[k]));
                assert(call_ensures(
                    parse,
                    (&srcs@[i].src,),
                    Ok::<ParsedModule<M>, P>(plain[i]),
                ));
                assert(plain[i].module == modules[i].module);
                assert(call_ensures(
                    infer,
                    (&name, plain[i].module, &infos),
                    Ok::<TypedModule<A, T>, E>(typed[k]->Ok_0),
                ));
                assert(modules[i].source_base_path == srcs@[i].source_base_path@);
            }
        }
    }
}

} // verus!
