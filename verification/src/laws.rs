//! What holds of every compilation.

use crate::error::ErrorView;
use crate::graph::{
    has_cycle, is_cycle, lemma_order_holds_every_node, lemma_ordered_graph_has_no_cycle,
};
use crate::model::{
    input_names, input_views, CompiledView, Input, InputView, ModuleInfo, ModuleOrigin, ModuleView,
    ParsedModule, RenderDocs, TypedModule,
};
use crate::path::{
    dot, dot_dot, drop_trailing, is_name, last_dot, law_joined_name_is_the_last_step,
    law_path_is_its_front_and_body, lemma_drop_trailing, lemma_last_name_of_end, lemma_skip_names,
    lemma_stem, stem, text_path, FilePath, PathView, DOT, SEPARATOR,
};
use crate::project::{
    build_outcome, docs_path, erl_path, gen_dir, is_build, is_load, is_run, is_sound_plan,
    known_types, last_load_error, load_error, loaded, may_infer, outcome, plan_outcome,
};
use crate::registry::{
    edges, first_import_error, import_edge, import_error, imports, module_imports, names, position,
    Import,
};
use crate::source::{
    are_segments, gleam_path, is_gleam_path_text, is_name_char, is_opened, is_segment, source_entries,
    source_inputs, DirEntry,
};
use crate::text::{
    encoded, joined, lemma_encoded_is_as_long, lemma_encoded_without, lemma_encoding_differs,
    lemma_join_then_split, lemma_joined_encoded, lemma_joined_without, lemma_split_encoded,
    lemma_split_then_join, split_on,
};
use vstd::prelude::*;
use vstd::utf8::*;

verus! {

/// The segments of a module's name, joined by `/`, are its name.
pub proof fn law_name_is_its_segments_joined<M>(module: ModuleView<M>)
    ensures
        module.segments().len() >= 1,
        joined(module.segments(), seq!['/']) == module.name,
{
    lemma_split_then_join(module.name, '/');
}

/// What a name is put after when it is joined to the path `directory`: the pieces
/// between separators, without the empty one behind a separator at the very end.
pub open spec fn directory_pieces(directory: PathView) -> Seq<Seq<u8>> {
    let pieces = split_on(directory.bytes, SEPARATOR);
    if directory.bytes.len() == 0 || directory.bytes.last() == SEPARATOR {
        pieces.drop_last()
    } else {
        pieces
    }
}

/// Joining a name to a directory puts it behind the pieces of the directory.
proof fn lemma_join_is_joined(directory: PathView, name: Seq<u8>)
    requires
        name.len() > 0,
        !name.contains(SEPARATOR),
    ensures
        directory.join(PathView { bytes: name }).bytes == joined(
            directory_pieces(directory).push(name),
            seq![SEPARATOR],
        ),
        forall|i: int|
            0 <= i < directory_pieces(directory).push(name).len() ==> !(
            #[trigger] directory_pieces(directory).push(name)[i]).contains(SEPARATOR),
{
    let bytes = directory.bytes;
    let pieces = split_on(bytes, SEPARATOR);
    let front = directory_pieces(directory);
    let separator = seq![SEPARATOR];
    lemma_split_then_join(bytes, SEPARATOR);
    assert(name[0] != SEPARATOR);
    assert(front.push(name).drop_last() =~= front);
    if bytes.len() == 0 {
        assert(bytes + name =~= name);
    } else if bytes.last() == SEPARATOR {
        lemma_split_then_join(bytes.drop_last(), SEPARATOR);
        assert(front =~= split_on(bytes.drop_last(), SEPARATOR));
        assert(bytes + name =~= joined(front, separator) + (separator + name));
    } else {
        assert(bytes.push(SEPARATOR) + name =~= joined(front, separator) + (separator + name));
    }
    assert forall|i: int| 0 <= i < front.push(name).len() implies !(
    #[trigger] front.push(name)[i]).contains(SEPARATOR) by {
        if i < front.len() {
            assert(front.push(name)[i] == pieces[i]);
        }
    }
}

/// The last step of a path without its extension is not empty and holds no separator.
pub proof fn lemma_file_stem(path: PathView)
    requires
        path.file_stem() is Some,
    ensures
        path.file_stem()->0.len() > 0,
        !path.file_stem()->0.contains(SEPARATOR),
{
    let name = path.trimmed().last();
    law_path_is_its_front_and_body(path);
    lemma_drop_trailing(path.body());
    assert(name == path.body()[path.trimmed().len() - 1]);
    lemma_stem(name);
}

/// The segments of a module's name are the pieces of the directory that its source lies
/// in, seen from the base path, and then the name of its file without its extension.
pub proof fn law_segments_follow_the_path(input: InputView)
    requires
        input.wf(),
    ensures
        encoded(split_on(input.module_name(), '/')) == directory_pieces(
            (input.path.strip_prefix(input.source_base_path)->0).parent()->0,
        ).push(input.path.file_stem()->0),
{
    let directory = (input.path.strip_prefix(input.source_base_path)->0).parent()->0;
    let name = input.path.file_stem()->0;
    lemma_file_stem(input.path);
    lemma_join_is_joined(directory, name);
    lemma_join_then_split(directory_pieces(directory).push(name), SEPARATOR);
    decode_utf8_encode_utf8(input.name_path().bytes);
    lemma_split_encoded(input.module_name(), '/');
}

/// What is left of a path, where it begins with a name, ends in the same name as the
/// path, and nothing follows that name.
proof fn lemma_rest_ends_like_the_path(path: PathView, base: PathView)
    requires
        path.strip_prefix(base) matches Some(rest) && rest.bytes.len() > 0 && rest.bytes[0]
            != SEPARATOR && rest.bytes[0] != DOT,
    ensures
        ({
            let rest = path.strip_prefix(base)->0;
            &&& rest.lead() == 0
            &&& rest.body() == split_on(rest.bytes, SEPARATOR)
            &&& rest.trimmed() == rest.body()
            &&& path.trimmed().len() > 0
            &&& path.trimmed().last() == rest.body().last()
        }),
{
    let rest = path.strip_prefix(base)->0;
    let count = base.components().len();
    let separator = seq![SEPARATOR];
    law_path_is_its_front_and_body(path);
    let from = if count == 0 {
        if path.lead() == 1 {
            assert(rest.bytes[0] == path.front()[0]);
        }
        assert(path.body().skip(0) =~= path.body());
        assert(rest.bytes =~= joined(path.trimmed(), separator));
        0
    } else {
        lemma_skip_names(path.body(), (count - path.lead()) as nat)
    };
    let end = path.body().skip(from);
    let pieces = drop_trailing(end);
    assert(rest.bytes == joined(pieces, separator));
    assert(pieces.len() > 0);
    lemma_last_name_of_end(path.body(), from);
    lemma_drop_trailing(end);
    assert forall|i: int| 0 <= i < pieces.len() implies !(#[trigger] pieces[i]).contains(
        SEPARATOR,
    ) by {
        assert(pieces[i] == path.body()[i + from]);
    }
    lemma_join_then_split(pieces, SEPARATOR);
    assert(rest.bytes.skip(0) =~= rest.bytes);
    assert(rest.body() == pieces);
}

/// A segment is ASCII text that holds neither `/` nor `.`, and its encoding is a step of
/// a path.
proof fn lemma_segment(segment: Seq<char>)
    requires
        is_segment(segment),
    ensures
        is_ascii_chars(segment),
        !segment.contains('/'),
        encode_utf8(segment).len() == segment.len(),
        is_name(encode_utf8(segment)),
        encode_utf8(segment)[0] != SEPARATOR,
        encode_utf8(segment)[0] != DOT,
        !encode_utf8(segment).contains(SEPARATOR),
        !encode_utf8(segment).contains(DOT),
{
    assert forall|i: int| 0 <= i < segment.len() implies '\0' <= #[trigger] segment[i]
        <= '\u{7f}' by {
        assert(is_name_char(segment[i]));
    }
    is_ascii_chars_encode_utf8(segment);
    let bytes = encode_utf8(segment);
    assert forall|i: int| 0 <= i < bytes.len() implies #[trigger] bytes[i] != DOT && bytes[i]
        != SEPARATOR && segment[i] != '/' by {
        assert(is_name_char(segment[i]));
        assert(segment[i] as u8 == bytes[i]);
    }
    assert(bytes[0] != DOT);
    assert(dot()[0] == DOT);
}

/// A name with `.gleam` behind it is the name of a source, and without its extension
/// it is that name again.
proof fn lemma_gleam_stem(segment: Seq<char>)
    requires
        is_segment(segment),
    ensures
        stem(encode_utf8(segment + ".gleam"@)) == encode_utf8(segment),
        is_name(encode_utf8(segment + ".gleam"@)),
        encode_utf8(segment + ".gleam"@) != dot_dot(),
        !(segment + ".gleam"@).contains('/'),
{
    reveal_strlit(".gleam");
    let name = segment + ".gleam"@;
    let bytes = encode_utf8(name);
    let count = segment.len() as int;
    lemma_segment(segment);
    assert forall|i: int| 0 <= i < name.len() implies '\0' <= #[trigger] name[i] <= '\u{7f}' by {
        if i < count {
            assert(name[i] == segment[i]);
        }
    }
    is_ascii_chars_encode_utf8(name);
    is_ascii_chars_encode_utf8(segment);
    assert(bytes.take(count) =~= encode_utf8(segment)) by {
        assert forall|i: int| 0 <= i < count implies #[trigger] bytes[i] == encode_utf8(
            segment,
        )[i] by {
            assert(name[i] == segment[i]);
        }
    }
    assert(name[count] == '.' && bytes[count] == DOT);
    assert(name[count + 1] == 'g' && bytes[count + 1] != DOT);
    assert(name[count + 2] == 'l' && bytes[count + 2] != DOT);
    assert(name[count + 3] == 'e' && bytes[count + 3] != DOT);
    assert(name[count + 4] == 'a' && bytes[count + 4] != DOT);
    assert(name[count + 5] == 'm' && bytes[count + 5] != DOT);
    assert(last_dot(bytes) == count) by {
        reveal_with_fuel(last_dot, 6);
    }
    if name.contains('/') {
        let i = choose|i: int| 0 <= i < name.len() && name[i] == '/';
        if i < count {
            assert(segment[i] == '/');
        }
    }
}

/// A file whose path below the directory of the sources is that of a module's
/// source makes an input that can be compiled, and the module's name is that path
/// without its extension.
pub proof fn law_sources_can_be_compiled(input: InputView)
    requires
        input.path.strip_prefix(input.source_base_path) matches Some(rest) && valid_utf8(
            rest.bytes,
        ) && is_gleam_path_text(decode_utf8(rest.bytes)),
    ensures
        input.wf(),
        are_segments(split_on(input.module_name(), '/')),
        decode_utf8((input.path.strip_prefix(input.source_base_path)->0).bytes) == gleam_path(
            split_on(input.module_name(), '/'),
        ),
        decode_utf8((input.path.strip_prefix(input.source_base_path)->0).bytes)
            == input.module_name() + ".gleam"@,
{
    let rest = input.path.strip_prefix(input.source_base_path)->0;
    let text = decode_utf8(rest.bytes);
    let segments = choose|segments: Seq<Seq<char>>|
        are_segments(segments) && text == #[trigger] gleam_path(segments);
    let separator = seq![SEPARATOR];
    let last = segments.last() + ".gleam"@;
    let pieces = segments.drop_last().push(last);
    let steps = encoded(segments);
    decode_utf8_encode_utf8(rest.bytes);
    assert(segments.last() == segments[segments.len() - 1]);
    lemma_gleam_stem(segments.last());
    assert(pieces.drop_last() =~= segments.drop_last());
    assert(joined(pieces, seq!['/']) =~= text);
    assert forall|i: int| 0 <= i < segments.len() implies !(#[trigger] segments[i]).contains('/')
        && is_name(steps[i]) && steps[i][0] != SEPARATOR && steps[i][0] != DOT by {
        lemma_segment(segments[i]);
    }
    assert forall|i: int| 0 <= i < pieces.len() implies !(#[trigger] pieces[i]).contains('/') by {
        if i < segments.len() - 1 {
            assert(pieces[i] == segments[i]);
        }
    }
    lemma_join_then_split(pieces, '/');
    lemma_split_encoded(text, '/');
    let parts = split_on(rest.bytes, SEPARATOR);
    assert(parts == encoded(pieces));
    lemma_split_then_join(rest.bytes, SEPARATOR);
    let file = encode_utf8(last);
    let directory = parts.drop_last();
    assert(parts.last() == file);
    assert(directory =~= steps.drop_last());
    assert(rest.bytes.len() > 0 && rest.bytes[0] != SEPARATOR && rest.bytes[0] != DOT) by {
        lemma_joined_begins_like_its_first_piece(parts, separator);
        if segments.len() == 1 {
            assert(parts[0] == file);
            lemma_stem(file);
            assert(steps[0] == stem(file));
        } else {
            assert(parts[0] == steps[0]);
        }
    }
    lemma_rest_ends_like_the_path(input.path, input.source_base_path);
    assert(input.path.file_stem() == Some(encode_utf8(segments.last())));
    let parent = rest.parent()->0;
    assert(directory.len() > 0 ==> directory.last() == steps[segments.len() - 2]);
    assert(drop_trailing(directory) == directory);
    assert(parent.bytes =~= joined(directory, separator));
    lemma_file_stem(input.path);
    lemma_join_is_joined(parent, steps.last());
    assert(directory_pieces(parent) =~= directory) by {
        if directory.len() > 0 {
            assert forall|i: int| 0 <= i < directory.len() implies !(
            #[trigger] directory[i]).contains(SEPARATOR) by {
                assert(directory[i] == parts[i]);
            }
            lemma_join_then_split(directory, SEPARATOR);
            lemma_joined_ends_like_its_last_piece(directory, separator);
            assert(directory.last()[directory.last().len() - 1] == directory.last().last());
        } else {
            assert(split_on(parent.bytes, SEPARATOR) =~= seq![Seq::<u8>::empty()]);
        }
    }
    assert(directory.push(steps.last()) =~= steps);
    lemma_joined_encoded(segments, '/');
    let name = joined(segments, seq!['/']);
    assert(input.name_path().bytes == encode_utf8(name));
    encode_utf8_valid_utf8(name);
    encode_utf8_decode_utf8(name);
    lemma_join_then_split(segments, '/');
}

/// Joined pieces begin with the first of them.
proof fn lemma_joined_begins_like_its_first_piece(pieces: Seq<Seq<u8>>, separator: Seq<u8>)
    requires
        pieces.len() > 0,
        pieces[0].len() > 0,
    ensures
        joined(pieces, separator).len() > 0,
        joined(pieces, separator)[0] == pieces[0][0],
    decreases pieces.len(),
{
    if pieces.len() > 1 {
        lemma_joined_begins_like_its_first_piece(pieces.drop_last(), separator);
    }
}

/// Joined pieces end with the last of them.
proof fn lemma_joined_ends_like_its_last_piece(pieces: Seq<Seq<u8>>, separator: Seq<u8>)
    requires
        pieces.len() > 0,
        pieces.last().len() > 0,
    ensures
        joined(pieces, separator).len() > 0,
        joined(pieces, separator).last() == pieces.last().last(),
{
}

/// Where opening a source does not change its path, the inputs that are made of the
/// sources below a directory can be compiled.
pub proof fn law_collected_inputs_can_be_compiled<Open>(
    open: Open,
    src_dir: PathView,
    origin: ModuleOrigin,
    entries: Seq<DirEntry>,
    opened: Seq<(FilePath, String)>,
    k: int,
) where Open: Fn(&FilePath) -> (FilePath, String)
    requires
        is_opened(open, src_dir, entries, opened),
        0 <= k < opened.len(),
        opened[k].0@ == source_entries(src_dir, entries)[k].path@,
    ensures
        source_inputs(src_dir, origin, opened)[k].wf(),
        are_segments(split_on(source_inputs(src_dir, origin, opened)[k].module_name(), '/')),
{
    let is_source = |entry: DirEntry| entry.is_source(src_dir);
    entries.lemma_filter_pred(is_source, k);
    law_sources_can_be_compiled(source_inputs(src_dir, origin, opened)[k]);
}

/// The import at position `at` of the module `i` is one of all imports.
pub proof fn lemma_import_is_listed<M>(modules: Seq<ModuleView<M>>, i: int, at: int) -> (e: int)
    requires
        0 <= i < modules.len(),
        0 <= at < modules[i].dependencies.len(),
    ensures
        0 <= e < imports(modules).len(),
        imports(modules)[e] == module_imports(modules[i], i as nat)[at],
    decreases modules.len(),
{
    let before = imports(modules.drop_last());
    if i == modules.len() - 1 {
        before.len() + at
    } else {
        let e = lemma_import_is_listed(modules.drop_last(), i, at);
        assert(imports(modules)[e] == before[e]);
        e
    }
}

/// Every listed import stands in one of the modules.
proof fn lemma_importers_are_modules<M>(modules: Seq<ModuleView<M>>, e: int)
    requires
        0 <= e < imports(modules).len(),
    ensures
        imports(modules)[e].importer < modules.len(),
    decreases modules.len(),
{
    if modules.len() > 0 && e < imports(modules.drop_last()).len() {
        lemma_importers_are_modules(modules.drop_last(), e);
    }
}

/// Where nothing is wrong with the imports of a list, nothing is wrong with any.
pub proof fn lemma_no_import_error<M, P, E>(modules: Seq<ModuleView<M>>, list: Seq<Import>, e: int)
    requires
        first_import_error::<M, P, E>(modules, list) is None,
        0 <= e < list.len(),
    ensures
        import_error::<M, P, E>(modules, list[e]) is None,
    decreases list.len(),
{
    if e < list.len() - 1 {
        lemma_no_import_error::<M, P, E>(modules, list.drop_last(), e);
    }
}

/// The module that a name stands for has that name.
pub proof fn lemma_position<M>(modules: Seq<ModuleView<M>>, name: Seq<char>)
    requires
        names(modules).contains(name),
    ensures
        position(modules, name) < modules.len(),
        modules[position(modules, name) as int].name == name,
{
    let i = names(modules).index_of(name);
    assert(names(modules)[i] == name);
}

/// Where nothing is wrong with the imports, every edge joins two of the modules.
proof fn lemma_edges_join_modules<M, P, E>(modules: Seq<ModuleView<M>>)
    requires
        first_import_error::<M, P, E>(modules, imports(modules)) is None,
    ensures
        forall|e: int|
            0 <= e < edges(modules).len() ==> (#[trigger] edges(modules)[e]).0 < modules.len()
                && edges(modules)[e].1 < modules.len(),
{
    assert forall|e: int| 0 <= e < edges(modules).len() implies (#[trigger] edges(modules)[e]).0
        < modules.len() && edges(modules)[e].1 < modules.len() by {
        let import = imports(modules)[e];
        lemma_no_import_error::<M, P, E>(modules, imports(modules), e);
        lemma_importers_are_modules(modules, e);
        lemma_position(modules, import.name);
        assert(edges(modules)[e] == import_edge(modules, import));
    }
}

/// Where the imports of all modules are in order, a cycle is reported exactly
/// where the modules import each other in a circle.
pub proof fn law_cycle_is_reported_exactly_where_there_is_one<M, P, E>(modules: Seq<ModuleView<M>>)
    requires
        first_import_error::<M, P, E>(modules, imports(modules)) is None,
        is_sound_plan(modules, plan_outcome::<M, P, E>(modules)),
    ensures
        plan_outcome::<M, P, E>(modules) == Err::<Seq<nat>, _>(ErrorView::<P, E>::DependencyCycle)
            <==> has_cycle(edges(modules)),
{
    match plan_outcome::<M, P, E>(modules) {
        Ok(order) => {
            lemma_edges_join_modules::<M, P, E>(modules);
            lemma_ordered_graph_has_no_cycle(modules.len(), edges(modules), order);
        },
        Err(_) => {},
    }
}

/// A module that imports itself is a circle of imports.
pub proof fn law_importing_itself_is_a_cycle<M>(modules: Seq<ModuleView<M>>, i: int, at: int)
    requires
        names(modules).no_duplicates(),
        0 <= i < modules.len(),
        0 <= at < modules[i].dependencies.len(),
        modules[i].dependencies[at].0 == modules[i].name,
    ensures
        has_cycle(edges(modules)),
{
    let e = lemma_import_is_listed(modules, i, at);
    let import = imports(modules)[e];
    assert(names(modules)[i] == import.name);
    lemma_position(modules, import.name);
    assert(names(modules)[position(modules, import.name) as int] == import.name);
    assert(edges(modules)[e] == import_edge(modules, import));
    assert(edges(modules)[e] == (i as nat, i as nat));
    let walk = seq![i as nat, i as nat];
    assert(edges(modules).contains((walk[0], walk[1])));
    assert(is_cycle(edges(modules), walk));
}

/// The modules of a compilation whose inputs are all in order.
pub open spec fn run_modules<M, P>(
    srcs: Seq<Input>,
    parsed: Seq<Result<ParsedModule<M>, P>>,
) -> Seq<ModuleView<M>> {
    loaded(input_views(srcs), parsed)
}

/// The order in which the modules of a compilation are built.
pub open spec fn run_order<M, P, E>(
    srcs: Seq<Input>,
    parsed: Seq<Result<ParsedModule<M>, P>>,
) -> Seq<nat> {
    plan_outcome::<M, P, E>(run_modules(srcs, parsed))->Ok_0
}

/// No two modules of a compilation that got past its sources share a name.
pub proof fn law_names_are_distinct<M, P, E, Parse>(
    parse: Parse,
    srcs: Seq<Input>,
    parsed: Seq<Result<ParsedModule<M>, P>>,
) where Parse: Fn(&String) -> Result<ParsedModule<M>, P>
    requires
        is_load::<M, P, E, Parse>(parse, srcs, parsed),
        last_load_error::<M, P, E>(input_views(srcs), parsed) is None,
    ensures
        parsed.len() == srcs.len(),
        names(run_modules(srcs, parsed)).no_duplicates(),
        names(run_modules(srcs, parsed)) == input_names(input_views(srcs)),
{
    let inputs = input_views(srcs);
    let modules = run_modules(srcs, parsed);
    assert(names(modules) =~= input_names(inputs));
    assert forall|i: int, j: int| 0 <= i < j < modules.len() implies names(modules)[i] != names(
        modules,
    )[j] by {
        assert(load_error::<M, P, E>(inputs, parsed, j) is None);
        let before = input_names(inputs.take(j));
        if names(modules)[i] == names(modules)[j] {
            assert(before[i] == inputs[j].module_name());
        }
    }
}

/// What a compilation that succeeds comes to: the modules that it compiled.
pub open spec fn run_compiled<M, A, T, P, E>(
    srcs: Seq<Input>,
    render_docs: RenderDocs,
    parsed: Seq<Result<ParsedModule<M>, P>>,
    typed: Seq<Result<TypedModule<A, T>, E>>,
    codes: Seq<String>,
) -> Seq<CompiledView<T>> {
    outcome::<M, A, T, P, E>(input_views(srcs), render_docs, parsed, typed, codes)->Ok_0
}

/// A compilation that succeeds compiles every input once: there are as many
/// compiled modules as inputs, no two of them share a name, and for each input
/// there is one with its name and its origin.
pub proof fn law_every_input_is_compiled_once<M, A, T, P, E, Parse, Infer, Generate>(
    parse: Parse,
    infer: Infer,
    generate: Generate,
    srcs: Seq<Input>,
    render_docs: RenderDocs,
    parsed: Seq<Result<ParsedModule<M>, P>>,
    typed: Seq<Result<TypedModule<A, T>, E>>,
    codes: Seq<String>,
) where
    Parse: Fn(&String) -> Result<ParsedModule<M>, P>,
    Infer: Fn(&Vec<String>, M, &Vec<ModuleInfo<T>>) -> Result<TypedModule<A, T>, E>,
    Generate: Fn(A) -> String,

    requires
        is_run(parse, infer, generate, srcs, parsed, typed, codes),
        outcome::<M, A, T, P, E>(input_views(srcs), render_docs, parsed, typed, codes) is Ok,
    ensures
        ({
            let compiled = run_compiled::<M, A, T, P, E>(srcs, render_docs, parsed, typed, codes);
            &&& compiled.len() == srcs.len()
            &&& forall|j: int, k: int|
                0 <= j < k < compiled.len() ==> (#[trigger] compiled[j]).name != (
                #[trigger] compiled[k]).name
            &&& forall|i: int|
                0 <= i < srcs.len() ==> exists|k: int|
                    0 <= k < compiled.len() && (#[trigger] compiled[k]).name == split_on(
                        (#[trigger] srcs[i])@.module_name(),
                        '/',
                    ) && compiled[k].origin == srcs[i].origin
        }),
{
    let modules = run_modules(srcs, parsed);
    let order = run_order::<M, P, E>(srcs, parsed);
    let compiled = run_compiled::<M, A, T, P, E>(srcs, render_docs, parsed, typed, codes);
    law_names_are_distinct::<M, P, E, Parse>(parse, srcs, parsed);
    lemma_order_holds_every_node(modules.len(), order);
    assert forall|j: int, k: int| 0 <= j < k < compiled.len() implies (
    #[trigger] compiled[j]).name != (#[trigger] compiled[k]).name by {
        law_name_is_its_segments_joined(modules[order[j] as int]);
        law_name_is_its_segments_joined(modules[order[k] as int]);
        assert(order[j] != order[k]);
        assert(names(modules)[order[j] as int] != names(modules)[order[k] as int]);
    }
    assert forall|i: int| 0 <= i < srcs.len() implies exists|k: int|
        0 <= k < compiled.len() && (#[trigger] compiled[k]).name == split_on(
            (#[trigger] srcs[i])@.module_name(),
            '/',
        ) && compiled[k].origin == srcs[i].origin by {
        assert(order.contains(i as nat));
        let k = choose|k: int| 0 <= k < order.len() && order[k] == i as nat;
        assert(compiled[k].name == modules[i].segments());
    }
}

/// A module that is built comes after each module that it imports: for every
/// import of the module that is `order[k]` there is an earlier step whose module
/// has the imported name.
pub proof fn law_imports_are_built_first<M, P, E>(
    srcs: Seq<Input>,
    parsed: Seq<Result<ParsedModule<M>, P>>,
    k: int,
    at: int,
) -> (j: int)
    requires
        is_sound_plan(
            run_modules(srcs, parsed),
            plan_outcome::<M, P, E>(run_modules(srcs, parsed)),
        ),
        plan_outcome::<M, P, E>(run_modules(srcs, parsed)) is Ok,
        0 <= k < run_order::<M, P, E>(srcs, parsed).len(),
        0 <= at < run_modules(srcs, parsed)[run_order::<M, P, E>(
            srcs,
            parsed,
        )[k] as int].dependencies.len(),
    ensures
        0 <= j < k,
        ({
            let modules = run_modules(srcs, parsed);
            let order = run_order::<M, P, E>(srcs, parsed);
            modules[order[j] as int].name == modules[order[k] as int].dependencies[at].0
        }),
{
    let modules = run_modules(srcs, parsed);
    let order = run_order::<M, P, E>(srcs, parsed);
    let i = order[k] as int;
    let e = lemma_import_is_listed(modules, i, at);
    let import = imports(modules)[e];
    lemma_no_import_error::<M, P, E>(modules, imports(modules), e);
    lemma_position(modules, import.name);
    lemma_order_holds_every_node(modules.len(), order);
    let source = position(modules, import.name);
    assert(order.contains(source));
    let j = choose|j: int| 0 <= j < order.len() && order[j] == source;
    assert(edges(modules)[e] == import_edge(modules, import));
    assert(edges(modules)[e] == (order[j], order[k]));
    j
}

/// In what a successful compilation returns, every module comes after each module
/// that it imports.
pub proof fn law_compiled_modules_follow_their_imports<M, A, T, P, E, Parse, Infer, Generate>(
    parse: Parse,
    infer: Infer,
    generate: Generate,
    srcs: Seq<Input>,
    render_docs: RenderDocs,
    parsed: Seq<Result<ParsedModule<M>, P>>,
    typed: Seq<Result<TypedModule<A, T>, E>>,
    codes: Seq<String>,
    i: int,
    at: int,
) where
    Parse: Fn(&String) -> Result<ParsedModule<M>, P>,
    Infer: Fn(&Vec<String>, M, &Vec<ModuleInfo<T>>) -> Result<TypedModule<A, T>, E>,
    Generate: Fn(A) -> String,

    requires
        is_run(parse, infer, generate, srcs, parsed, typed, codes),
        outcome::<M, A, T, P, E>(input_views(srcs), render_docs, parsed, typed, codes) is Ok,
        0 <= i < srcs.len(),
        0 <= at < (parsed[i]->Ok_0).dependencies@.len(),
    ensures
        ({
            let compiled = run_compiled::<M, A, T, P, E>(srcs, render_docs, parsed, typed, codes);
            exists|j: int, k: int|
                0 <= j < k < compiled.len() && (#[trigger] compiled[k]).name == split_on(
                    srcs[i]@.module_name(),
                    '/',
                ) && (#[trigger] compiled[j]).name == split_on(
                    (parsed[i]->Ok_0).dependencies@[at].0@,
                    '/',
                )
        }),
{
    let modules = run_modules(srcs, parsed);
    let order = run_order::<M, P, E>(srcs, parsed);
    let compiled = run_compiled::<M, A, T, P, E>(srcs, render_docs, parsed, typed, codes);
    law_names_are_distinct::<M, P, E, Parse>(parse, srcs, parsed);
    lemma_order_holds_every_node(modules.len(), order);
    assert(order.contains(i as nat));
    let k = choose|k: int| 0 <= k < order.len() && order[k] == i as nat;
    let j = law_imports_are_built_first::<M, P, E>(srcs, parsed, k, at);
    assert(compiled[k].name == modules[i].segments());
    assert(compiled[j].name == modules[order[j] as int].segments());
}

/// When a module is inferred, the types of every module that it imports are known.
pub proof fn law_inference_knows_the_imports<M, A, T, P, E, Parse, Infer, Generate>(
    parse: Parse,
    infer: Infer,
    generate: Generate,
    srcs: Seq<Input>,
    parsed: Seq<Result<ParsedModule<M>, P>>,
    typed: Seq<Result<TypedModule<A, T>, E>>,
    codes: Seq<String>,
    k: int,
    at: int,
) where
    Parse: Fn(&String) -> Result<ParsedModule<M>, P>,
    Infer: Fn(&Vec<String>, M, &Vec<ModuleInfo<T>>) -> Result<TypedModule<A, T>, E>,
    Generate: Fn(A) -> String,

    requires
        is_run(parse, infer, generate, srcs, parsed, typed, codes),
        last_load_error::<M, P, E>(input_views(srcs), parsed) is None,
        plan_outcome::<M, P, E>(run_modules(srcs, parsed)) is Ok,
        0 <= k < typed.len(),
        0 <= at < run_modules(srcs, parsed)[run_order::<M, P, E>(
            srcs,
            parsed,
        )[k] as int].dependencies.len(),
    ensures
        ({
            let modules = run_modules(srcs, parsed);
            let order = run_order::<M, P, E>(srcs, parsed);
            let known = known_types(modules, order, typed, k);
            exists|j: int|
                0 <= j < k && (#[trigger] known[j]).0 == modules[order[k] as int].dependencies[at].0
                    && typed[j] is Ok && known[j].1 == (typed[j]->Ok_0).type_info
        }),
{
    let modules = run_modules(srcs, parsed);
    let order = run_order::<M, P, E>(srcs, parsed);
    let known = known_types(modules, order, typed, k);
    let j = law_imports_are_built_first::<M, P, E>(srcs, parsed, k, at);
    assert(known[j].0 == modules[order[k] as int].dependencies[at].0);
    assert(typed[j] is Ok);
}

/// In a compilation that got past its imports, every imported name is that of an
/// input, and what a module of the application imports is none of its tests.
pub proof fn law_src_never_imports_test<M, P, E, Parse>(
    parse: Parse,
    srcs: Seq<Input>,
    parsed: Seq<Result<ParsedModule<M>, P>>,
    i: int,
    at: int,
) where Parse: Fn(&String) -> Result<ParsedModule<M>, P>
    requires
        is_load::<M, P, E, Parse>(parse, srcs, parsed),
        last_load_error::<M, P, E>(input_views(srcs), parsed) is None,
        plan_outcome::<M, P, E>(run_modules(srcs, parsed)) is Ok,
        0 <= i < srcs.len(),
        0 <= at < (parsed[i]->Ok_0).dependencies@.len(),
    ensures
        exists|j: int|
            0 <= j < srcs.len() && (#[trigger] srcs[j])@.module_name() == (
            parsed[i]->Ok_0).dependencies@[at].0@ && (srcs[i].origin == ModuleOrigin::Src
                ==> srcs[j].origin != ModuleOrigin::Test),
{
    let modules = run_modules(srcs, parsed);
    law_names_are_distinct::<M, P, E, Parse>(parse, srcs, parsed);
    let e = lemma_import_is_listed(modules, i, at);
    let import = imports(modules)[e];
    lemma_no_import_error::<M, P, E>(modules, imports(modules), e);
    lemma_position(modules, import.name);
    let j = position(modules, import.name) as int;
    assert(modules[j].origin == srcs[j].origin);
    assert(srcs[j]@.module_name() == modules[j].name);
}

/// Every listed import is one of a module's, and the imports before it in the module are
/// listed right before it.
pub proof fn lemma_listed_import<M>(modules: Seq<ModuleView<M>>, e: int) -> (place: (int, int))
    requires
        0 <= e < imports(modules).len(),
    ensures
        0 <= place.0 < modules.len(),
        0 <= place.1 < modules[place.0].dependencies.len(),
        place.1 <= e,
        forall|at: int|
            0 <= at <= place.1 ==> imports(modules)[e - place.1 + at] == (#[trigger] module_imports(
                modules[place.0],
                place.0 as nat,
            )[at]),
    decreases modules.len(),
{
    let before = imports(modules.drop_last());
    if e < before.len() {
        let place = lemma_listed_import(modules.drop_last(), e);
        assert forall|at: int| 0 <= at <= place.1 implies imports(modules)[e - place.1 + at] == (
        #[trigger] module_imports(modules[place.0], place.0 as nat)[at]) by {
            assert(imports(modules)[e - place.1 + at] == before[e - place.1 + at]);
        }
        place
    } else {
        (modules.len() - 1, e - before.len())
    }
}

/// What is wrong with a list of imports is wrong with one of them, and nothing is wrong
/// with those before it.
pub proof fn lemma_first_import_error<M, P, E>(modules: Seq<ModuleView<M>>, list: Seq<Import>) -> (e:
    int)
    requires
        first_import_error::<M, P, E>(modules, list) is Some,
    ensures
        0 <= e < list.len(),
        import_error::<M, P, E>(modules, list[e]) == first_import_error::<M, P, E>(modules, list),
        forall|f: int|
            0 <= f < e ==> (#[trigger] import_error::<M, P, E>(modules, list[f])) is None,
    decreases list.len(),
{
    let less = list.drop_last();
    if first_import_error::<M, P, E>(modules, less) is Some {
        let e = lemma_first_import_error::<M, P, E>(modules, less);
        assert forall|f: int| 0 <= f < e implies (#[trigger] import_error::<M, P, E>(
            modules,
            list[f],
        )) is None by {
            assert(import_error::<M, P, E>(modules, less[f]) is None);
        }
        e
    } else {
        assert forall|f: int| 0 <= f < list.len() - 1 implies (#[trigger] import_error::<M, P, E>(
            modules,
            list[f],
        )) is None by {
            lemma_no_import_error::<M, P, E>(modules, less, f);
            assert(less[f] == list[f]);
        }
        list.len() - 1
    }
}

/// The name that the import at `at` of the input `i` imports.
pub open spec fn imported_name<M, P>(
    parsed: Seq<Result<ParsedModule<M>, P>>,
    i: int,
    at: int,
) -> Seq<char> {
    (parsed[i]->Ok_0).dependencies@[at].0@
}

/// The import at `at` of the input `i` imports a module that no input makes up.
pub open spec fn imports_unknown<M, P>(
    srcs: Seq<Input>,
    parsed: Seq<Result<ParsedModule<M>, P>>,
    i: int,
    at: int,
) -> bool {
    &&& 0 <= i < srcs.len()
    &&& 0 <= at < (parsed[i]->Ok_0).dependencies@.len()
    &&& !input_names(input_views(srcs)).contains(imported_name(parsed, i, at))
}

/// No input of the application imports one of the tests.
pub open spec fn no_src_imports_test<M, P>(
    srcs: Seq<Input>,
    parsed: Seq<Result<ParsedModule<M>, P>>,
) -> bool {
    forall|i: int, at: int, j: int|
        #![trigger imported_name(parsed, i, at), srcs[j]]
        0 <= i < srcs.len() && 0 <= at < (parsed[i]->Ok_0).dependencies@.len() && 0 <= j
            < srcs.len() && srcs[j]@.module_name() == imported_name(parsed, i, at)
            && srcs[i].origin == ModuleOrigin::Src ==> srcs[j].origin != ModuleOrigin::Test
}

/// The error for the import at `at` of the input `i`, where it is unknown.
pub open spec fn unknown_import<M, P, E>(
    srcs: Seq<Input>,
    parsed: Seq<Result<ParsedModule<M>, P>>,
    i: int,
    at: int,
) -> ErrorView<P, E> {
    ErrorView::UnknownImport {
        module: srcs[i]@.module_name(),
        import: imported_name(parsed, i, at),
        src: srcs[i].src@,
        path: srcs[i].path@,
        modules: input_names(input_views(srcs)),
        meta: (parsed[i]->Ok_0).dependencies@[at].1,
    }
}

/// Where nothing is wrong with the sources and no module of the application imports a
/// test, an unknown import is reported exactly where there is one, also where modules
/// import each other in a circle. The report is about the first unknown import of an
/// input and lists the names of all modules.
pub proof fn law_unknown_imports_are_reported<M, A, T, P, E, Parse, Infer, Generate>(
    parse: Parse,
    infer: Infer,
    generate: Generate,
    srcs: Seq<Input>,
    render_docs: RenderDocs,
    parsed: Seq<Result<ParsedModule<M>, P>>,
    typed: Seq<Result<TypedModule<A, T>, E>>,
    codes: Seq<String>,
) where
    Parse: Fn(&String) -> Result<ParsedModule<M>, P>,
    Infer: Fn(&Vec<String>, M, &Vec<ModuleInfo<T>>) -> Result<TypedModule<A, T>, E>,
    Generate: Fn(A) -> String,

    requires
        is_run(parse, infer, generate, srcs, parsed, typed, codes),
        last_load_error::<M, P, E>(input_views(srcs), parsed) is None,
        no_src_imports_test(srcs, parsed),
    ensures
        ({
            let result = outcome::<M, A, T, P, E>(
                input_views(srcs),
                render_docs,
                parsed,
                typed,
                codes,
            );
            &&& (result is Err && result->Err_0 is UnknownImport) <==> (exists|i: int, at: int|
                imports_unknown(srcs, parsed, i, at))
            &&& result is Err && result->Err_0 is UnknownImport ==> exists|i: int, at: int|
                {
                    &&& #[trigger] imports_unknown(srcs, parsed, i, at)
                    &&& forall|first: int|
                        0 <= first < at ==> !#[trigger] imports_unknown(srcs, parsed, i, first)
                    &&& result->Err_0 == unknown_import::<M, P, E>(srcs, parsed, i, at)
                }
        }),
{
    let result = outcome::<M, A, T, P, E>(input_views(srcs), render_docs, parsed, typed, codes);
    let modules = run_modules(srcs, parsed);
    let list = imports(modules);
    law_names_are_distinct::<M, P, E, Parse>(parse, srcs, parsed);
    if first_import_error::<M, P, E>(modules, list) is Some {
        let e = lemma_first_import_error::<M, P, E>(modules, list);
        let (i, at) = lemma_listed_import(modules, e);
        let own = module_imports(modules[i], i as nat);
        assert(list[e] == own[at]);
        assert(own[at].name == imported_name(parsed, i, at));
        if names(modules).contains(own[at].name) {
            lemma_position(modules, own[at].name);
            let j = position(modules, own[at].name) as int;
            assert(modules[j].name == srcs[j]@.module_name());
            assert(srcs[j].origin == modules[j].origin);
        }
        assert(imports_unknown(srcs, parsed, i, at));
        assert forall|first: int| 0 <= first < at implies !#[trigger] imports_unknown(
            srcs,
            parsed,
            i,
            first,
        ) by {
            assert(list[e - at + first] == own[first]);
            assert(import_error::<M, P, E>(modules, list[e - at + first]) is None);
            assert(own[first].name == imported_name(parsed, i, first));
        }
        assert(result->Err_0 == unknown_import::<M, P, E>(srcs, parsed, i, at));
    } else {
        assert forall|i: int, at: int| !imports_unknown(srcs, parsed, i, at) by {
            if imports_unknown(srcs, parsed, i, at) {
                let e = lemma_import_is_listed(modules, i, at);
                lemma_no_import_error::<M, P, E>(modules, list, e);
                assert(module_imports(modules[i], i as nat)[at].name == imported_name(
                    parsed,
                    i,
                    at,
                ));
            }
        }
    }
}

/// Only modules of the application get documentation, and only where it is
/// rendered: such a module has two files, any other has one.
pub proof fn law_only_src_modules_get_docs<M, A, T, P, E, Parse, Infer, Generate>(
    parse: Parse,
    infer: Infer,
    generate: Generate,
    srcs: Seq<Input>,
    render_docs: RenderDocs,
    parsed: Seq<Result<ParsedModule<M>, P>>,
    typed: Seq<Result<TypedModule<A, T>, E>>,
    codes: Seq<String>,
    k: int,
) where
    Parse: Fn(&String) -> Result<ParsedModule<M>, P>,
    Infer: Fn(&Vec<String>, M, &Vec<ModuleInfo<T>>) -> Result<TypedModule<A, T>, E>,
    Generate: Fn(A) -> String,

    requires
        is_run(parse, infer, generate, srcs, parsed, typed, codes),
        outcome::<M, A, T, P, E>(input_views(srcs), render_docs, parsed, typed, codes) is Ok,
        0 <= k < run_compiled::<M, A, T, P, E>(srcs, render_docs, parsed, typed, codes).len(),
    ensures
        ({
            let module = run_compiled::<M, A, T, P, E>(srcs, render_docs, parsed, typed, codes)[k];
            module.files.len() == if module.origin == ModuleOrigin::Src && render_docs
                == RenderDocs::True {
                2int
            } else {
                1
            }
        }),
{
}

/// The name of a module's Erlang file is a step of a path.
proof fn lemma_erl_name(segments: Seq<Seq<char>>)
    requires
        forall|i: int| 0 <= i < segments.len() ==> !(#[trigger] segments[i]).contains('/'),
    ensures
        ({
            let name = encode_utf8(joined(segments, "@"@) + ".erl"@);
            is_name(name) && !name.contains(SEPARATOR) && name != dot_dot()
        }),
{
    reveal_strlit("@");
    reveal_strlit(".erl");
    assert("@"@ =~= seq!['@']);
    lemma_joined_without(segments, '@', '/');
    lemma_erl_name_without_slash(segments);
    let text = joined(segments, "@"@) + ".erl"@;
    let name = encode_utf8(text);
    lemma_encoded_without(text, '/');
    lemma_encoded_is_as_long(text);
    assert(name.len() >= 4);
    assert(dot().len() == 1 && dot_dot().len() == 2);
}

/// The Erlang file of a module lies in the directory of its origin, inside the directory
/// of what is generated, and is called after the segments of its name.
pub proof fn law_erl_files_lie_in_gen(
    base: PathView,
    origin: ModuleOrigin,
    segments: Seq<Seq<char>>,
)
    requires
        forall|i: int| 0 <= i < segments.len() ==> !(#[trigger] segments[i]).contains('/'),
    ensures
        erl_path(base, origin, segments).file_name() == Some(
            encode_utf8(joined(segments, "@"@) + ".erl"@),
        ),
        erl_path(base, origin, segments).parent() == Some(
            gen_dir(base).join(text_path(origin.spec_dir_name())),
        ),
{
    let place = gen_dir(base).join(text_path(origin.spec_dir_name()));
    reveal_strlit("src");
    reveal_strlit("test");
    lemma_gen_dir(base, origin.spec_dir_name());
    lemma_erl_name(segments);
    law_joined_name_is_the_last_step(place, encode_utf8(joined(segments, "@"@) + ".erl"@));
    law_path_is_its_front_and_body(place);
}

/// Where something is generated, there is a name at the end of the path.
proof fn lemma_gen_dir(base: PathView, directory: Seq<char>)
    requires
        is_segment(directory),
    ensures
        gen_dir(base).bytes.len() > 0,
        gen_dir(base).bytes.last() != SEPARATOR,
        gen_dir(base).join(text_path(directory)).bytes.len() > 0,
        gen_dir(base).join(text_path(directory)).bytes.last() != SEPARATOR,
        gen_dir(base).join(text_path(directory)).trimmed() == gen_dir(base).join(
            text_path(directory),
        ).body(),
{
    reveal_strlit("gen");
    lemma_segment("gen"@);
    lemma_segment(directory);
    let name = encode_utf8(directory);
    assert(gen_dir(base).bytes.last() == encode_utf8("gen"@).last());
    assert(name.last() == name[name.len() - 1]);
    law_joined_name_is_the_last_step(gen_dir(base), name);
    assert(gen_dir(base).join(PathView { bytes: name }).bytes.last() == name.last());
}

/// A name without a `.` is all stem.
proof fn lemma_stem_without_dot(name: Seq<u8>)
    requires
        !name.contains(DOT),
    ensures
        last_dot(name) == -1,
        stem(name) == name,
    decreases name.len(),
{
    if name.len() > 0 {
        assert(name[name.len() - 1] != DOT);
        assert(!name.drop_last().contains(DOT)) by {
            if name.drop_last().contains(DOT) {
                let i = choose|i: int| 0 <= i < name.len() - 1 && name.drop_last()[i] == DOT;
                assert(name[i] == DOT);
            }
        }
        lemma_stem_without_dot(name.drop_last());
    }
}

/// Going down along segments from a path that ends in a name comes to such a path.
proof fn lemma_join_all_ends_in_a_name(path: PathView, segments: Seq<Seq<char>>)
    requires
        path.bytes.len() > 0,
        path.bytes.last() != SEPARATOR,
        forall|i: int| 0 <= i < segments.len() ==> is_segment(#[trigger] segments[i]),
    ensures
        path.join_all(segments).bytes.len() > 0,
        path.join_all(segments).bytes.last() != SEPARATOR,
    decreases segments.len(),
{
    if segments.len() > 0 {
        let last = segments[segments.len() - 1];
        let name = encode_utf8(last);
        lemma_join_all_ends_in_a_name(path, segments.drop_last());
        lemma_segment(last);
        assert(name.last() == name[name.len() - 1]);
        assert(path.join_all(segments).bytes.last() == name.last());
    }
}

/// The documentation of a module lies in `docs`, inside the directory of what is
/// generated, where the segments of the module's name lead, with `.md` behind the last
/// of them.
pub proof fn law_docs_follow_the_name(base: PathView, segments: Seq<Seq<char>>)
    requires
        are_segments(segments),
    ensures
        docs_path(base, segments) == gen_dir(base).join(text_path("docs"@)).join_all(
            segments.drop_last(),
        ).join(text_path(segments.last() + ".md"@)),
{
    reveal_strlit("docs");
    reveal_strlit("md");
    reveal_strlit(".md");
    let last = segments[segments.len() - 1];
    let name = encode_utf8(last);
    let docs = gen_dir(base).join(text_path("docs"@));
    let directory = docs.join_all(segments.drop_last());
    let path = directory.join(PathView { bytes: name });
    let separator = seq![SEPARATOR];
    lemma_gen_dir(base, "docs"@);
    lemma_join_all_ends_in_a_name(docs, segments.drop_last());
    lemma_segment(last);
    law_joined_name_is_the_last_step(directory, name);
    assert(path == docs.join_all(segments));
    assert(dot_dot()[0] == DOT);
    lemma_stem_without_dot(name);
    let file = name.push(DOT) + encode_utf8("md"@);
    assert(file =~= encode_utf8(last + ".md"@)) by {
        let text = last + ".md"@;
        assert(is_ascii_chars("md"@));
        assert(is_ascii_chars(".md"@));
        assert forall|i: int| 0 <= i < text.len() implies '\0' <= #[trigger] text[i]
            <= '\u{7f}' by {
            if i < last.len() {
                assert(text[i] == last[i]);
            } else {
                assert(text[i] == ".md"@[i - last.len()]);
            }
        }
        is_ascii_chars_encode_utf8(text);
        is_ascii_chars_encode_utf8(last);
        is_ascii_chars_encode_utf8("md"@);
        assert forall|i: int| 0 <= i < file.len() implies #[trigger] file[i] == encode_utf8(
            text,
        )[i] by {
            assert(text[i] as u8 == encode_utf8(text)[i]);
            if i < last.len() {
                assert(text[i] == last[i]);
            } else if i > last.len() {
                assert("md"@[i - last.len() - 1] == text[i]);
            } else {
                assert(text[i] == '.');
            }
        }
    }
    let body = directory.body();
    assert(path.body().drop_last() =~= body);
    assert(body.push(file).drop_last() =~= body);
    law_path_is_its_front_and_body(directory);
    assert(docs_path(base, segments).bytes =~= directory.front() + joined(
        body.push(file),
        separator,
    ));
    assert(directory.front() + joined(body.push(file), separator) =~= directory.bytes.push(
        SEPARATOR,
    ) + file);
    assert(file[0] == name[0]);
}

/// The Erlang files of modules with different names have different names, where no
/// segment of the modules' names holds an `@`.
pub proof fn law_erl_files_differ(
    base: PathView,
    origin: ModuleOrigin,
    segments: Seq<Seq<char>>,
    other_base: PathView,
    other_origin: ModuleOrigin,
    other_segments: Seq<Seq<char>>,
)
    requires
        segments.len() >= 1,
        other_segments.len() >= 1,
        segments != other_segments,
        forall|i: int|
            0 <= i < segments.len() ==> !(#[trigger] segments[i]).contains('@')
                && !segments[i].contains('/'),
        forall|i: int|
            0 <= i < other_segments.len() ==> !(#[trigger] other_segments[i]).contains('@')
                && !other_segments[i].contains('/'),
    ensures
        erl_path(base, origin, segments).file_name() != erl_path(
            other_base,
            other_origin,
            other_segments,
        ).file_name(),
{
    reveal_strlit("@");
    assert("@"@ =~= seq!['@']);
    let name = joined(segments, "@"@);
    let other_name = joined(other_segments, "@"@);
    lemma_join_then_split(segments, '@');
    lemma_join_then_split(other_segments, '@');
    assert(name != other_name);
    assert((name + ".erl"@).take(name.len() as int) =~= name);
    assert((other_name + ".erl"@).take(other_name.len() as int) =~= other_name);
    assert(name + ".erl"@ != other_name + ".erl"@) by {
        if name + ".erl"@ == other_name + ".erl"@ {
            assert(name.len() == other_name.len());
        }
    }
    lemma_encoding_differs(name + ".erl"@, other_name + ".erl"@);
    law_erl_files_lie_in_gen(base, origin, segments);
    law_erl_files_lie_in_gen(other_base, other_origin, other_segments);
}

/// The name of a module's Erlang file holds no `/`.
proof fn lemma_erl_name_without_slash(segments: Seq<Seq<char>>)
    requires
        !joined(segments, seq!['@']).contains('/'),
    ensures
        !(joined(segments, "@"@) + ".erl"@).contains('/'),
{
    reveal_strlit("@");
    reveal_strlit(".erl");
    assert("@"@ =~= seq!['@']);
    let name = joined(segments, "@"@);
    let file = name + ".erl"@;
    if file.contains('/') {
        let i = choose|i: int| 0 <= i < file.len() && file[i] == '/';
        if i < name.len() {
            assert(name[i] == '/');
        }
    }
}

/// The front end answers every question in one way only: for a source there is one
/// outcome of parsing it, for a module and the types that are known there is one
/// outcome of inference, and for a typed module there is one code.
pub open spec fn answers_in_one_way<M, A, T, P, E, Parse, Infer, Generate>(
    parse: Parse,
    infer: Infer,
    generate: Generate,
) -> bool where
    Parse: Fn(&String) -> Result<ParsedModule<M>, P>,
    Infer: Fn(&Vec<String>, M, &Vec<ModuleInfo<T>>) -> Result<TypedModule<A, T>, E>,
    Generate: Fn(A) -> String,
 {
    &&& forall|src: &String, one: Result<ParsedModule<M>, P>, other: Result<ParsedModule<M>, P>|
        #[trigger] call_ensures(parse, (src,), one) && #[trigger] call_ensures(
            parse,
            (src,),
            other,
        ) ==> one == other
    &&& forall|
        segments: Seq<Seq<char>>,
        module: M,
        known: Seq<(Seq<char>, T)>,
        one: Result<TypedModule<A, T>, E>,
        other: Result<TypedModule<A, T>, E>,
    |
        #[trigger] may_infer(infer, segments, module, known, one) && #[trigger] may_infer(
            infer,
            segments,
            module,
            known,
            other,
        ) ==> one == other
    &&& forall|module: A, one: String, other: String|
        #[trigger] call_ensures(generate, (module,), one) && #[trigger] call_ensures(
            generate,
            (module,),
            other,
        ) ==> one@ == other@
}

/// Two builds of the same modules get the same answers, as far as both go.
proof fn lemma_builds_agree<M, A, T, P, E, Parse, Infer, Generate>(
    parse: Parse,
    infer: Infer,
    generate: Generate,
    modules: Seq<ModuleView<M>>,
    order: Seq<nat>,
    typed: Seq<Result<TypedModule<A, T>, E>>,
    codes: Seq<String>,
    other_typed: Seq<Result<TypedModule<A, T>, E>>,
    other_codes: Seq<String>,
    count: int,
) where
    Parse: Fn(&String) -> Result<ParsedModule<M>, P>,
    Infer: Fn(&Vec<String>, M, &Vec<ModuleInfo<T>>) -> Result<TypedModule<A, T>, E>,
    Generate: Fn(A) -> String,

    requires
        answers_in_one_way(parse, infer, generate),
        is_build(infer, generate, modules, order, typed, codes),
        is_build(infer, generate, modules, order, other_typed, other_codes),
        0 <= count <= typed.len(),
        count <= other_typed.len(),
    ensures
        typed.take(count) == other_typed.take(count),
    decreases count,
{
    if count > 0 {
        let k = count - 1;
        lemma_builds_agree(
            parse,
            infer,
            generate,
            modules,
            order,
            typed,
            codes,
            other_typed,
            other_codes,
            k,
        );
        assert forall|i: int| 0 <= i < k implies typed[i] == other_typed[i] by {
            assert(typed.take(k)[i] == other_typed.take(k)[i]);
        }
        assert(known_types(modules, order, typed, k) =~= known_types(modules, order, other_typed, k));
        assert(typed[k] == other_typed[k]);
        assert(typed.take(count) =~= other_typed.take(count));
    }
}

/// The inputs and the answers of the front end determine what a compilation comes
/// to: where the front end answers every question in one way only, any two
/// compilations of the same inputs come to the same.
pub proof fn law_outcome_is_determined<M, A, T, P, E, Parse, Infer, Generate>(
    parse: Parse,
    infer: Infer,
    generate: Generate,
    srcs: Seq<Input>,
    render_docs: RenderDocs,
    parsed: Seq<Result<ParsedModule<M>, P>>,
    typed: Seq<Result<TypedModule<A, T>, E>>,
    codes: Seq<String>,
    other_parsed: Seq<Result<ParsedModule<M>, P>>,
    other_typed: Seq<Result<TypedModule<A, T>, E>>,
    other_codes: Seq<String>,
) where
    Parse: Fn(&String) -> Result<ParsedModule<M>, P>,
    Infer: Fn(&Vec<String>, M, &Vec<ModuleInfo<T>>) -> Result<TypedModule<A, T>, E>,
    Generate: Fn(A) -> String,

    requires
        answers_in_one_way(parse, infer, generate),
        is_run(parse, infer, generate, srcs, parsed, typed, codes),
        is_run(parse, infer, generate, srcs, other_parsed, other_typed, other_codes),
    ensures
        outcome::<M, A, T, P, E>(input_views(srcs), render_docs, parsed, typed, codes) == outcome::<
            M,
            A,
            T,
            P,
            E,
        >(input_views(srcs), render_docs, other_parsed, other_typed, other_codes),
{
    let inputs = input_views(srcs);
    lemma_loads_agree::<M, P, E, Parse>(parse, srcs, parsed, other_parsed);
    lemma_loads_agree::<M, P, E, Parse>(parse, srcs, other_parsed, parsed);
    assert(parsed =~= other_parsed);
    if last_load_error::<M, P, E>(inputs, parsed) is None {
        let modules = run_modules(srcs, parsed);
        if let Ok(order) = plan_outcome::<M, P, E>(modules) {
            let both = if typed.len() <= other_typed.len() {
                typed.len() as int
            } else {
                other_typed.len() as int
            };
            lemma_builds_agree(
                parse,
                infer,
                generate,
                modules,
                order,
                typed,
                codes,
                other_typed,
                other_codes,
                both,
            );
            assert forall|i: int| 0 <= i < both implies typed[i] == other_typed[i] by {
                assert(typed.take(both)[i] == other_typed.take(both)[i]);
            }
            assert(typed =~= other_typed);
            assert forall|k: int| 0 <= k < codes.len() implies (#[trigger] codes[k])@
                == other_codes[k]@ by {
                assert(call_ensures(generate, ((typed[k]->Ok_0).module,), codes[k]));
                assert(call_ensures(generate, ((typed[k]->Ok_0).module,), other_codes[k]));
            }
            assert(build_outcome::<M, A, T, P, E>(modules, order, typed, codes, render_docs)
                =~~= build_outcome::<M, A, T, P, E>(
                modules,
                order,
                other_typed,
                other_codes,
                render_docs,
            )) by {
                if !(typed.len() > 0 && typed.last() is Err) {
                    assert(build_outcome::<M, A, T, P, E>(
                        modules,
                        order,
                        typed,
                        codes,
                        render_docs,
                    )->Ok_0 =~= build_outcome::<M, A, T, P, E>(
                        modules,
                        order,
                        other_typed,
                        other_codes,
                        render_docs,
                    )->Ok_0);
                }
            }
        }
    }
}

/// Two loads of the same inputs get the same answers, and the second goes as far as
/// the first.
proof fn lemma_loads_agree<M, P, E, Parse>(
    parse: Parse,
    srcs: Seq<Input>,
    parsed: Seq<Result<ParsedModule<M>, P>>,
    other_parsed: Seq<Result<ParsedModule<M>, P>>,
) where Parse: Fn(&String) -> Result<ParsedModule<M>, P>
    requires
        forall|src: &String, one: Result<ParsedModule<M>, P>, other: Result<ParsedModule<M>, P>|
            #[trigger] call_ensures(parse, (src,), one) && #[trigger] call_ensures(
                parse,
                (src,),
                other,
            ) ==> one == other,
        is_load::<M, P, E, Parse>(parse, srcs, parsed),
        is_load::<M, P, E, Parse>(parse, srcs, other_parsed),
    ensures
        parsed.len() <= other_parsed.len(),
        forall|i: int| 0 <= i < parsed.len() ==> #[trigger] parsed[i] == other_parsed[i],
{
    let inputs = input_views(srcs);
    assert forall|i: int| 0 <= i < parsed.len() && i < other_parsed.len() implies parsed[i]
        == other_parsed[i] by {
        assert(call_ensures(parse, (&srcs[i].src,), parsed[i]));
        assert(call_ensures(parse, (&srcs[i].src,), other_parsed[i]));
    }
    if other_parsed.len() < parsed.len() {
        assert(other_parsed.len() > 0);
        let last = other_parsed.len() - 1;
        assert(load_error::<M, P, E>(inputs, parsed, last) is None);
        assert(load_error::<M, P, E>(inputs, other_parsed, last) is Some);
    }
}

} // verus!
