//! What modules are called after, and where their files lie.

use crate::laws::lemma_file_stem;
use crate::model::{Input, ModuleOrigin, OutputFile, RenderDocs};
use crate::path::{
    drop_trailing, is_name, law_path_is_its_front_and_body, lemma_names_in_both, lemma_names_in_one,
    names_in, skip_names, stem, text_path, FilePath, PathView, DOT, SEPARATOR,
};
use crate::path_laws::{
    law_file_name_is_the_last_step, law_join_puts_one_behind_the_other,
    law_parent_drops_the_last_step, law_stem_is_before_the_last_dot,
    law_strip_prefix_splits_the_steps, lemma_append_piece, lemma_joined_push, lemma_plain_path,
};
use crate::project::{docs_path, erl_path, gen_dir, module_files};
use crate::text::{
    encoded, joined, law_joined_of_both, lemma_encode_both, lemma_encoded_is_as_long,
    lemma_encoded_without, lemma_encoding_differs, lemma_join_then_split, lemma_joined_encoded,
    lemma_joined_without, split_on, texts,
};
use vstd::prelude::*;
use vstd::utf8::*;

verus! {

/// What stands between a directory and what lies in it: a separator, unless the
/// directory is empty or ends in one.
pub open spec fn gap(directory: Seq<u8>) -> Seq<u8> {
    if directory.len() == 0 || directory[directory.len() - 1] == SEPARATOR {
        Seq::empty()
    } else {
        seq![SEPARATOR]
    }
}

/// A separator and joined pieces behind a path put the pieces behind its body.
proof fn lemma_append_pieces(path: PathView, pieces: Seq<Seq<u8>>) -> (longer: PathView)
    requires
        path.bytes.len() > 0,
        pieces.len() > 0,
        forall|i: int| 0 <= i < pieces.len() ==> !(#[trigger] pieces[i]).contains(SEPARATOR),
    ensures
        longer.bytes == path.bytes + seq![SEPARATOR] + joined(pieces, seq![SEPARATOR]),
        longer.lead() == path.lead(),
        longer.front() == path.front(),
        longer.body() == path.body() + pieces,
    decreases pieces.len(),
{
    let last = pieces[pieces.len() - 1];
    let less = pieces.drop_last();
    assert(less.push(last) =~= pieces);
    lemma_joined_push(less, last);
    if less.len() == 0 {
        assert(pieces =~= seq![last]);
        let longer = lemma_append_piece(path, last);
        assert(longer.bytes =~= path.bytes + seq![SEPARATOR] + joined(pieces, seq![SEPARATOR]));
        assert(longer.body() =~= path.body() + pieces);
        longer
    } else {
        assert forall|i: int| 0 <= i < less.len() implies !(#[trigger] less[i]).contains(
            SEPARATOR,
        ) by {
            assert(less[i] == pieces[i]);
        }
        let shorter = lemma_append_pieces(path, less);
        let longer = lemma_append_piece(shorter, last);
        assert(longer.bytes =~= path.bytes + seq![SEPARATOR] + joined(pieces, seq![SEPARATOR]));
        assert(longer.body() =~= path.body() + pieces);
        longer
    }
}

/// After all names of a list comes the first name behind it.
proof fn lemma_skip_all(pieces: Seq<Seq<u8>>, names: Seq<Seq<u8>>)
    requires
        names.len() > 0,
        is_name(names[0]),
    ensures
        skip_names(pieces + names, names_in(pieces).len()) == names,
    decreases pieces.len(),
{
    lemma_names_in_one(pieces);
    if pieces.len() == 0 {
        assert(pieces + names =~= names);
    } else {
        let first = pieces[0];
        let rest = pieces.drop_first();
        assert(seq![first] + rest =~= pieces);
        lemma_names_in_both(seq![first], rest);
        lemma_names_in_one(seq![first]);
        assert((pieces + names).drop_first() =~= rest + names);
        assert((pieces + names).first() == first);
        lemma_skip_all(rest, names);
    }
}

/// Where every piece is a name, the names are the pieces.
proof fn lemma_all_names(pieces: Seq<Seq<u8>>)
    requires
        forall|i: int| 0 <= i < pieces.len() ==> is_name(#[trigger] pieces[i]),
    ensures
        names_in(pieces) == pieces,
    decreases pieces.len(),
{
    lemma_names_in_one(pieces);
    if pieces.len() == 0 {
        assert(pieces =~= Seq::empty());
    } else {
        let less = pieces.drop_last();
        let last = pieces[pieces.len() - 1];
        assert forall|i: int| 0 <= i < less.len() implies is_name(#[trigger] less[i]) by {
            assert(less[i] == pieces[i]);
        }
        lemma_all_names(less);
        lemma_names_in_both(less, seq![last]);
        lemma_names_in_one(seq![last]);
        assert(less + seq![last] =~= pieces);
    }
}

/// The path of names below a base path that is not empty has the front of the base path,
/// and in its body the names stand behind pieces with the names of the base path.
proof fn lemma_body_below(base: PathView, names: Seq<Seq<u8>>, path: PathView) -> (before: Seq<
    Seq<u8>,
>)
    requires
        base.bytes.len() > 0,
        names.len() > 0,
        forall|i: int| 0 <= i < names.len() ==> !(#[trigger] names[i]).contains(SEPARATOR),
        path.bytes == base.bytes + gap(base.bytes) + joined(names, seq![SEPARATOR]),
    ensures
        path.lead() == base.lead(),
        path.front() == base.front(),
        path.body() == before + names,
        names_in(base.body()) == names_in(before),
{
    let text = joined(names, seq![SEPARATOR]);
    let none = Seq::<u8>::empty();
    lemma_split_of_nothing();
    lemma_names_in_one(seq![none]);
    if base.bytes.last() != SEPARATOR {
        let longer = lemma_append_pieces(base, names);
        assert(longer =~= path);
        base.body()
    } else if base.bytes.len() == 1 {
        let nothing = Seq::<Seq<u8>>::empty();
        assert(base.bytes.skip(1) =~= none);
        assert(path.bytes.skip(1) =~= text);
        lemma_join_then_split(names, SEPARATOR);
        assert(path.front() =~= base.front());
        assert(path.body() =~= nothing + names);
        lemma_names_in_one(nothing);
        nothing
    } else {
        let shorter = PathView { bytes: base.bytes.drop_last() };
        let own = lemma_append_piece(shorter, none);
        assert(own.bytes =~= base.bytes);
        assert(own =~= base);
        let longer = lemma_append_pieces(shorter, names);
        assert(longer.bytes =~= path.bytes);
        assert(longer =~= path);
        lemma_names_in_both(shorter.body(), seq![none]);
        assert(shorter.body() + seq![none] =~= shorter.body().push(none));
        assert(names_in(base.body()) =~= names_in(shorter.body()));
        shorter.body()
    }
}

/// The path of names below a base path has the names behind the steps of the base path,
/// and they are what is left of it after the base path.
proof fn lemma_names_below(base: PathView, names: Seq<Seq<u8>>, path: PathView)
    requires
        names.len() > 0,
        forall|i: int|
            0 <= i < names.len() ==> is_name(#[trigger] names[i]) && !names[i].contains(SEPARATOR),
        path.bytes == base.bytes + gap(base.bytes) + joined(names, seq![SEPARATOR]),
    ensures
        path.components() == base.components() + names,
        path.trimmed().len() > 0,
        path.trimmed().last() == names.last(),
        path.strip_prefix(base) matches Some(rest) && rest.bytes == joined(names, seq![SEPARATOR]),
{
    let last = names[names.len() - 1];
    let text = joined(names, seq![SEPARATOR]);
    let none = Seq::<u8>::empty();
    lemma_all_names(names);
    if base.bytes.len() == 0 {
        let plain = lemma_plain_path(names);
        assert(path =~= plain);
        lemma_split_of_nothing();
        lemma_names_in_one(seq![none]);
        assert(base.bytes.skip(0) =~= none);
        assert(base.components() =~= Seq::empty());
        assert(path.components() =~= base.components() + names);
        assert(path.with_body(path.trimmed()).bytes =~= text);
    } else {
        let before = lemma_body_below(base, names, path);
        lemma_names_in_both(before, names);
        assert(path.components() =~= base.components() + names);
        assert(path.body().last() == last);
        lemma_skip_all(before, names);
        assert(base.components().len() == base.lead() + names_in(before).len());
        lemma_some_step(base);
        assert(base.components().is_prefix_of(path.components()));
        assert(drop_trailing(names) == names);
    }
}

/// The path of names below a base path has the steps of the base path and then the
/// names, and the names, with a separator between, are what is left of it after the base
/// path.
pub proof fn law_names_below_a_base_are_left(base: PathView, names: Seq<Seq<u8>>, path: PathView)
    requires
        names.len() > 0,
        forall|i: int|
            0 <= i < names.len() ==> (#[trigger] names[i]).len() > 0 && names[i] != seq![DOT]
                && !names[i].contains(SEPARATOR),
        path.bytes == base.bytes + gap(base.bytes) + joined(names, seq![SEPARATOR]),
    ensures
        path.components() == base.components() + names,
        path.strip_prefix(base) matches Some(rest) && rest.bytes == joined(names, seq![SEPARATOR]),
{
    assert forall|i: int| 0 <= i < names.len() implies is_name(#[trigger] names[i])
        && !names[i].contains(SEPARATOR) by {}
    lemma_names_below(base, names, path);
}

/// The empty text is a single, empty piece.
proof fn lemma_split_of_nothing()
    ensures
        split_on(Seq::<u8>::empty(), SEPARATOR) == seq![Seq::<u8>::empty()],
{
}

/// A path that is not empty has a step.
proof fn lemma_some_step(path: PathView)
    requires
        path.bytes.len() > 0,
    ensures
        path.components().len() > 0,
{
    if path.lead() == 0 {
        let body = path.body();
        law_path_is_its_front_and_body(path);
        assert(path.front() =~= Seq::empty());
        let first = body[0];
        law_joined_of_both(body.take(1), body.skip(1), seq![SEPARATOR]);
        assert(body.take(1) + body.skip(1) =~= body);
        assert(body.take(1)[0] == first);
        if body.len() == 1 {
            assert(body.take(1) =~= body);
        }
        let text = joined(body, seq![SEPARATOR]);
        assert(path.bytes =~= text);
        if first.len() == 0 {
            if body.len() == 1 {
                assert(text.len() == 0);
            } else {
                assert(text[0] == SEPARATOR);
            }
        }
        if first == seq![DOT] {
            assert(first[0] == DOT && first.len() == 1);
            assert(text[0] == DOT);
            if body.len() > 1 {
                assert(text[1] == SEPARATOR);
            }
        }
        assert(is_name(first));
        lemma_names_in_both(seq![first], body.skip(1));
        lemma_names_in_one(seq![first]);
        assert(seq![first] + body.skip(1) =~= body);
    }
}

/// The encoding of a text that is not empty and not `.` and holds no `/` is a name.
pub proof fn lemma_encoded_name(text: Seq<char>)
    requires
        text.len() > 0,
        text != seq!['.'],
        !text.contains('/'),
    ensures
        is_name(encode_utf8(text)),
        !encode_utf8(text).contains(SEPARATOR),
{
    lemma_encoded_is_as_long(text);
    lemma_encoded_without(text, '/');
    lemma_encoding_differs(text, seq!['.']);
    lemma_encoded_dot();
}

/// The encoding of `.` is its byte.
proof fn lemma_encoded_dot()
    ensures
        encode_utf8(seq!['.']) == seq![DOT],
        encode_utf8(seq!['/']) == seq![SEPARATOR],
{
    is_ascii_chars_encode_utf8(seq!['.']);
    is_ascii_chars_encode_utf8(seq!['/']);
    assert(seq!['.'][0] as u8 == encode_utf8(seq!['.'])[0]);
    assert(seq!['/'][0] as u8 == encode_utf8(seq!['/'])[0]);
    assert(encode_utf8(seq!['.']) =~= seq![DOT]);
    assert(encode_utf8(seq!['/']) =~= seq![SEPARATOR]);
}

/// What stands behind the stem of a file: a `.` and its extension, or nothing.
pub open spec fn ending(extension: Option<Seq<char>>) -> Seq<char> {
    match extension {
        Some(extension) => seq!['.'] + extension,
        None => Seq::empty(),
    }
}

/// A text is the stem of what is called by it and its ending. The ending is a `.` and an
/// extension that holds no `.`; without one the text holds no `.` but perhaps at its very
/// beginning.
pub open spec fn is_stem(text: Seq<char>, extension: Option<Seq<char>>) -> bool {
    &&& text.len() > 0
    &&& text != seq!['.']
    &&& match extension {
        Some(extension) => !extension.contains('.'),
        None => !text.drop_first().contains('.'),
    }
}

/// The encoding of a stem is the stem of the encoding.
proof fn lemma_stem_of_text(text: Seq<char>, extension: Option<Seq<char>>)
    requires
        is_stem(text, extension),
    ensures
        stem(encode_utf8(text + ending(extension))) == encode_utf8(text),
        encode_utf8(text + ending(extension)) != seq![DOT, DOT],
        text + ending(extension) != seq!['.'],
{
    let bytes = encode_utf8(text);
    let file = encode_utf8(text + ending(extension));
    assert(seq![DOT, DOT].len() == 2 && seq![DOT, DOT][0] == DOT && seq![DOT, DOT][1] == DOT);
    lemma_encoded_dot();
    lemma_encoded_is_as_long(text);
    match extension {
        Some(extension) => {
            lemma_encode_both(text, ending(Some(extension)));
            lemma_encode_both(seq!['.'], extension);
            lemma_encoded_without(extension, '.');
            law_stem_is_before_the_last_dot(bytes, encode_utf8(extension));
            assert(bytes.push(DOT) + encode_utf8(extension) =~= file);
            if file == seq![DOT, DOT] {
                assert(bytes.len() == 1 && bytes[0] == file[0]);
                assert(bytes =~= seq![DOT]);
                lemma_encoding_differs(text, seq!['.']);
            }
        },
        None => {
            let rest = text.drop_first();
            assert(text + ending(extension) =~= text);
            lemma_encoded_without(rest, '.');
            lemma_encode_both(seq![text[0]], rest);
            assert(seq![text[0]] + rest =~= text);
            if text[0] == '.' {
                law_stem_is_before_the_last_dot(bytes, encode_utf8(rest));
                lemma_encoded_is_as_long(rest);
                if rest.len() == 0 {
                    assert(text =~= seq!['.']);
                }
                assert(file[1] == encode_utf8(rest)[0]);
            } else {
                assert(!text.contains('.')) by {
                    if text.contains('.') {
                        let i = choose|i: int| 0 <= i < text.len() && text[i] == '.';
                        assert(rest[i - 1] == '.');
                    }
                }
                lemma_encoded_without(text, '.');
                law_stem_is_before_the_last_dot(bytes, bytes);
                assert(file[0] != DOT);
            }
        },
    }
}

/// What holds no `/` in its two parts holds none.
proof fn lemma_both_without_slash(first: Seq<char>, second: Seq<char>)
    requires
        !first.contains('/'),
        !second.contains('/'),
    ensures
        !(first + second).contains('/'),
{
    let both = first + second;
    if both.contains('/') {
        let i = choose|i: int| 0 <= i < both.len() && both[i] == '/';
        if i < first.len() {
            assert(first[i] == '/');
        } else {
            assert(second[i - first.len()] == '/');
        }
    }
}

/// Joined pieces whose last one has an ending are the joined pieces with that ending.
proof fn lemma_joined_with_ending(less: Seq<Seq<char>>, last: Seq<char>, end: Seq<char>)
    ensures
        joined(less.push(last + end), seq!['/']) == joined(less.push(last), seq!['/']) + end,
{
    let file = last + end;
    law_joined_of_both(less, seq![file], seq!['/']);
    law_joined_of_both(less, seq![last], seq!['/']);
    law_joined_of_both(seq![file], seq![], seq!['/']);
    law_joined_of_both(seq![last], seq![], seq!['/']);
    assert(less + seq![file] =~= less.push(file));
    assert(less + seq![last] =~= less.push(last));
    if less.len() == 0 {
        assert(less.push(file) =~= seq![file]);
        assert(less.push(last) =~= seq![last]);
    }
    assert(joined(less.push(file), seq!['/']) =~= joined(less.push(last), seq!['/']) + end);
}

/// A source that lies below its base path, where the segments lead, with or without an
/// extension behind the last of them, makes up the module that is called by these segments.
#[verifier::rlimit(60)]
#[verifier::spinoff_prover]
pub proof fn law_modules_are_called_by_their_paths(
    input: Input,
    segments: Seq<Seq<char>>,
    extension: Option<Seq<char>>,
    name: Option<String>,
)
    requires
        call_ensures(Input::module_name, (&input,), name),
        segments.len() > 0,
        forall|i: int|
            0 <= i < segments.len() ==> (#[trigger] segments[i]).len() > 0 && segments[i]
                != seq!['.'] && !segments[i].contains('/'),
        is_stem(segments[segments.len() - 1], extension),
        !ending(extension).contains('/'),
        input.path.bytes@ == input.source_base_path.bytes@ + gap(input.source_base_path.bytes@)
            + encode_utf8(joined(segments, seq!['/']) + ending(extension)),
    ensures
        name is Some,
        name->0@ == joined(segments, seq!['/']),
        input@.module_name() == joined(segments, seq!['/']),
        input@.wf(),
{
    let last = segments[segments.len() - 1];
    let file = last + ending(extension);
    let less = segments.drop_last();
    let pieces = less.push(file);
    let names = encoded(pieces);
    let path = input.path@;
    let base = input.source_base_path@;
    let separator = seq![SEPARATOR];
    assert(less.push(last) =~= segments);
    lemma_both_without_slash(last, ending(extension));
    lemma_stem_of_text(last, extension);
    assert forall|i: int| 0 <= i < pieces.len() implies is_name(#[trigger] names[i])
        && !names[i].contains(SEPARATOR) && !pieces[i].contains('/') by {
        if i < less.len() {
            assert(pieces[i] == segments[i]);
        }
        lemma_encoded_name(pieces[i]);
    }
    assert forall|i: int| 0 <= i < pieces.len() implies !(#[trigger] pieces[i]).contains('/') by {
        assert(is_name(names[i]) && !pieces[i].contains('/'));
    }
    lemma_joined_encoded(pieces, '/');
    lemma_joined_with_ending(less, last, ending(extension));
    lemma_names_below(base, names, path);
    let rest = path.strip_prefix(base)->0;
    let plain = lemma_plain_path(names);
    assert(rest =~= plain);
    let directory = names.drop_last();
    let steps = encoded(segments);
    assert(directory =~= steps.drop_last());
    assert(drop_trailing(directory) == directory) by {
        if directory.len() > 0 {
            assert(directory.last() == names[names.len() - 2]);
        }
    }
    let parent = rest.parent()->0;
    assert(parent.bytes =~= joined(directory, separator));
    let stem_bytes = encode_utf8(last);
    assert(path.file_stem() == Some(stem_bytes));
    lemma_encoded_name(last);
    assert(stem_bytes[0] != SEPARATOR);
    law_join_puts_one_behind_the_other(parent, PathView { bytes: stem_bytes });
    lemma_joined_push(directory, stem_bytes);
    assert(directory.push(stem_bytes) =~= steps);
    if directory.len() > 0 {
        assert forall|i: int| 0 <= i < directory.len() implies !(
        #[trigger] directory[i]).contains(SEPARATOR) by {
            assert(directory[i] == names[i]);
        }
        assert(directory.last() == names[names.len() - 2]);
        assert(directory[0] == names[0]);
        let above = lemma_plain_path(directory);
        assert(above =~= parent);
    }
    assert(input@.name_path().bytes =~= joined(steps, separator));
    lemma_joined_encoded(segments, '/');
    encode_utf8_valid_utf8(joined(segments, seq!['/']));
    encode_utf8_decode_utf8(joined(segments, seq!['/']));
}

/// The directory of what is generated is called `gen` and lies next to the base path.
proof fn lemma_gen(base: PathView)
    ensures
        gen_dir(base).bytes == (base.parent()->0).bytes + gap((base.parent()->0).bytes)
            + encode_utf8("gen"@),
        gen_dir(base).bytes.len() > 0,
        gap(gen_dir(base).bytes) == seq![SEPARATOR],
{
    let directory = base.parent()->0;
    reveal_strlit("gen");
    is_ascii_chars_encode_utf8("gen"@);
    assert("gen"@[0] == 'g' && "gen"@[2] == 'n');
    assert("gen"@[0] as u8 == encode_utf8("gen"@)[0]);
    assert("gen"@[2] as u8 == encode_utf8("gen"@)[2]);
    law_join_puts_one_behind_the_other(directory, text_path("gen"@));
    assert(gen_dir(base).bytes =~= directory.bytes + gap(directory.bytes) + encode_utf8("gen"@));
    assert(gen_dir(base).bytes.last() == encode_utf8("gen"@)[2]);
}

/// Joining the path of a text that holds no `/` to a path that ends in no separator puts
/// a separator and the text behind it.
proof fn lemma_join_text(path: PathView, text: Seq<char>)
    requires
        path.bytes.len() > 0,
        gap(path.bytes) == seq![SEPARATOR],
        text.len() > 0,
        !text.contains('/'),
    ensures
        path.join(text_path(text)).bytes == path.bytes + encode_utf8(seq!['/'] + text),
        path.join(text_path(text)).bytes.len() > 0,
        gap(path.join(text_path(text)).bytes) == seq![SEPARATOR],
{
    let bytes = encode_utf8(text);
    lemma_encoded_dot();
    lemma_encode_both(seq!['/'], text);
    lemma_encoded_is_as_long(text);
    lemma_encoded_without(text, '/');
    assert(bytes[0] != SEPARATOR);
    assert(bytes[bytes.len() - 1] != SEPARATOR);
    if path.bytes.last() == SEPARATOR {
        assert(gap(path.bytes).len() == 0);
    }
    law_join_puts_one_behind_the_other(path, text_path(text));
    assert(path.join(text_path(text)).bytes =~= path.bytes + encode_utf8(seq!['/'] + text));
    assert(path.join(text_path(text)).bytes.last() == bytes[bytes.len() - 1]);
}

/// The Erlang file of a module is written next to its base path, in `gen/test` for a
/// test and in `gen/src` for any other module, and is called by the segments of the
/// module's name with an `@` between them.
pub proof fn law_erl_path_is_next_to_the_base(
    base: PathView,
    origin: ModuleOrigin,
    segments: Seq<Seq<char>>,
)
    requires
        forall|i: int| 0 <= i < segments.len() ==> !(#[trigger] segments[i]).contains('/'),
    ensures
        ({
            let directory = (base.parent()->0).bytes;
            let place = if origin == ModuleOrigin::Test {
                "gen/test/"@
            } else {
                "gen/src/"@
            };
            erl_path(base, origin, segments).bytes == directory + gap(directory) + encode_utf8(
                place + joined(segments, seq!['@']) + ".erl"@,
            )
        }),
{
    reveal_strlit("gen");
    reveal_strlit("src");
    reveal_strlit("test");
    reveal_strlit("gen/src/");
    reveal_strlit("gen/test/");
    reveal_strlit("@");
    reveal_strlit(".erl");
    assert("@"@ =~= seq!['@']);
    let name = joined(segments, "@"@) + ".erl"@;
    let kind = origin.spec_dir_name();
    let place = if origin == ModuleOrigin::Test {
        "gen/test/"@
    } else {
        "gen/src/"@
    };
    lemma_joined_without(segments, '@', '/');
    assert(!name.contains('/')) by {
        if name.contains('/') {
            let i = choose|i: int| 0 <= i < name.len() && name[i] == '/';
            if i < joined(segments, "@"@).len() {
                assert(joined(segments, "@"@)[i] == '/');
            } else {
                assert(".erl"@[i - joined(segments, "@"@).len()] == '/');
            }
        }
    }
    assert(!kind.contains('/'));
    lemma_gen(base);
    lemma_join_text(gen_dir(base), kind);
    lemma_join_text(gen_dir(base).join(text_path(kind)), name);
    assert(place =~= "gen"@ + (seq!['/'] + kind) + seq!['/']);
    assert(place + joined(segments, seq!['@']) + ".erl"@ =~= "gen"@ + (seq!['/'] + kind) + (
    seq!['/'] + name));
    lemma_encode_both("gen"@ + (seq!['/'] + kind), seq!['/'] + name);
    lemma_encode_both("gen"@, seq!['/'] + kind);
    let directory = (base.parent()->0).bytes;
    assert(erl_path(base, origin, segments).bytes =~= directory + gap(directory) + encode_utf8(
        place + joined(segments, seq!['@']) + ".erl"@,
    ));
}

/// Going down along segments puts them behind the path, with a `/` before each.
proof fn lemma_join_all_text(path: PathView, segments: Seq<Seq<char>>)
    requires
        path.bytes.len() > 0,
        gap(path.bytes) == seq![SEPARATOR],
        segments.len() > 0,
        forall|i: int|
            0 <= i < segments.len() ==> (#[trigger] segments[i]).len() > 0 && !segments[i].contains(
                '/',
            ),
    ensures
        path.join_all(segments).bytes == path.bytes + encode_utf8(
            seq!['/'] + joined(segments, seq!['/']),
        ),
        path.join_all(segments).bytes.len() > 0,
        gap(path.join_all(segments).bytes) == seq![SEPARATOR],
    decreases segments.len(),
{
    let last = segments[segments.len() - 1];
    let less = segments.drop_last();
    assert(less.push(last) =~= segments);
    law_joined_of_both(less, seq![last], seq!['/']);
    law_joined_of_both(seq![last], seq![], seq!['/']);
    assert(less + seq![last] =~= segments);
    if less.len() == 0 {
        assert(segments =~= seq![last]);
        assert(path.join_all(less) == path);
        lemma_join_text(path, last);
    } else {
        assert forall|i: int| 0 <= i < less.len() implies (#[trigger] less[i]).len() > 0
            && !less[i].contains('/') by {
            assert(less[i] == segments[i]);
        }
        lemma_join_all_text(path, less);
        lemma_join_text(path.join_all(less), last);
        lemma_encode_both(seq!['/'] + joined(less, seq!['/']), seq!['/'] + last);
        assert(seq!['/'] + joined(segments, seq!['/']) =~= seq!['/'] + joined(less, seq!['/']) + (
        seq!['/'] + last));
        assert(path.join_all(segments).bytes =~= path.bytes + encode_utf8(
            seq!['/'] + joined(segments, seq!['/']),
        ));
    }
}

/// The documentation of a module is written next to its base path, in `gen/docs`, where
/// the segments of the module's name lead. Its file is called by the last segment, with
/// `.md` behind it in place of its extension.
#[verifier::rlimit(60)]
#[verifier::spinoff_prover]
pub proof fn law_docs_path_is_next_to_the_base(
    base: PathView,
    directories: Seq<Seq<char>>,
    name: Seq<char>,
    extension: Option<Seq<char>>,
)
    requires
        forall|i: int|
            0 <= i < directories.len() ==> (#[trigger] directories[i]).len() > 0
                && !directories[i].contains('/'),
        is_stem(name, extension),
        !name.contains('/'),
        !ending(extension).contains('/'),
    ensures
        ({
            let directory = (base.parent()->0).bytes;
            docs_path(base, directories.push(name + ending(extension))).bytes == directory + gap(
                directory,
            ) + encode_utf8("gen/docs/"@ + joined(directories.push(name), seq!['/']) + ".md"@)
        }),
{
    reveal_strlit("gen");
    reveal_strlit("docs");
    reveal_strlit("gen/docs/");
    reveal_strlit("md");
    reveal_strlit(".md");
    let last = name + ending(extension);
    let segments = directories.push(last);
    let docs = gen_dir(base).join(text_path("docs"@));
    let path = docs.join_all(segments);
    let separator = seq![SEPARATOR];
    let steps = encoded(segments);
    let made = name + ".md"@;
    lemma_gen(base);
    assert(!"docs"@.contains('/'));
    lemma_join_text(gen_dir(base), "docs"@);
    lemma_both_without_slash(name, ending(extension));
    lemma_stem_of_text(name, extension);
    assert forall|i: int| 0 <= i < segments.len() implies (#[trigger] segments[i]).len() > 0
        && !segments[i].contains('/') by {
        if i < directories.len() {
            assert(segments[i] == directories[i]);
        }
    }
    lemma_encoded_name(last);
    lemma_join_all_text(docs, segments);
    assert forall|i: int| 0 <= i < steps.len() implies !(#[trigger] steps[i]).contains(
        SEPARATOR,
    ) by {
        assert(!segments[i].contains('/'));
        lemma_encoded_without(segments[i], '/');
    }
    lemma_joined_encoded(segments, '/');
    lemma_encode_both(seq!['/'], joined(segments, seq!['/']));
    lemma_encoded_dot();
    let own = lemma_append_pieces(docs, steps);
    assert(own.bytes =~= path.bytes);
    assert(own =~= path);
    let file = encode_utf8(last);
    let stem_bytes = encode_utf8(name);
    assert(steps.last() == file);
    assert(path.trimmed() == docs.body() + steps);
    assert(path.file_stem() == Some(stem_bytes));
    let written = stem_bytes.push(DOT) + encode_utf8("md"@);
    assert(written =~= encode_utf8(made)) by {
        lemma_encode_both(name, ".md"@);
        lemma_encode_both(seq!['.'], "md"@);
        assert(seq!['.'] + "md"@ =~= ".md"@);
        assert(stem_bytes.push(DOT) + encode_utf8("md"@) =~= stem_bytes + (seq![DOT]
            + encode_utf8("md"@)));
    }
    let target = directories.push(made);
    let ends = encoded(target);
    assert((docs.body() + steps).drop_last().push(written) =~= docs.body() + ends);
    law_path_is_its_front_and_body(docs);
    law_joined_of_both(docs.body(), ends, separator);
    assert(docs_path(base, segments).bytes =~= docs.bytes + separator + joined(ends, separator));
    assert(!".md"@.contains('/'));
    lemma_both_without_slash(name, ".md"@);
    assert forall|i: int| 0 <= i < target.len() implies !(#[trigger] target[i]).contains('/') by {
        if i < directories.len() {
            assert(target[i] == directories[i]);
        }
    }
    lemma_joined_encoded(target, '/');
    lemma_joined_with_ending(directories, name, ".md"@);
    let all = joined(target, seq!['/']);
    assert("gen/docs/"@ + joined(directories.push(name), seq!['/']) + ".md"@ =~= "gen"@ + (
    seq!['/'] + "docs"@) + (seq!['/'] + all));
    lemma_encode_both("gen"@ + (seq!['/'] + "docs"@), seq!['/'] + all);
    lemma_encode_both("gen"@, seq!['/'] + "docs"@);
    lemma_encode_both(seq!['/'], all);
    let directory = (base.parent()->0).bytes;
    assert(docs_path(base, segments).bytes =~= directory + gap(directory) + encode_utf8(
        "gen/docs/"@ + joined(directories.push(name), seq!['/']) + ".md"@,
    ));
}

/// An empty segment leads nowhere: the documentation lies where it lies without it.
pub proof fn law_empty_segments_lead_nowhere(
    base: PathView,
    before: Seq<Seq<char>>,
    after: Seq<Seq<char>>,
)
    requires
        after.len() > 0,
        after[0].len() > 0,
        after[0][0] != '/',
    ensures
        docs_path(base, before.push(Seq::empty()) + after) == docs_path(base, before + after),
{
    reveal_strlit("docs");
    let docs = gen_dir(base).join(text_path("docs"@));
    let above = docs.join_all(before);
    let first = after[0];
    let rest = after.skip(1);
    let none = Seq::<char>::empty();
    let empty = text_path(none);
    assert(empty.bytes =~= Seq::<u8>::empty());
    lemma_join_all_both(docs, before.push(none), after);
    lemma_join_all_both(docs, before, after);
    assert(before.push(none).drop_last() =~= before);
    lemma_gen(base);
    assert(!"docs"@.contains('/'));
    lemma_join_text(gen_dir(base), "docs"@);
    lemma_join_all_not_empty(docs, before);
    let over = above.join(empty);
    lemma_join_all_both(over, seq![first], rest);
    lemma_join_all_both(above, seq![first], rest);
    assert(seq![first] + rest =~= after);
    law_join_puts_one_behind_the_other(above, empty);
    law_join_puts_one_behind_the_other(over, text_path(first));
    law_join_puts_one_behind_the_other(above, text_path(first));
    lemma_first_byte(first);
    assert(over.join(text_path(first)).bytes =~= above.join(text_path(first)).bytes);
    assert(seq![first].drop_last() =~= Seq::empty());
    assert(over.join_all(seq![first]) == over.join_all(Seq::empty()).join(text_path(first)));
    assert(above.join_all(seq![first]) == above.join_all(Seq::empty()).join(text_path(first)));
    assert(over.join_all(seq![first]) =~= above.join_all(seq![first]));
}

/// The encoding of a text that does not begin with a `/` does not begin with its byte.
proof fn lemma_first_byte(text: Seq<char>)
    requires
        text.len() > 0,
        text[0] != '/',
    ensures
        encode_utf8(text).len() > 0,
        encode_utf8(text)[0] != SEPARATOR,
{
    let first = seq![text[0]];
    let rest = text.drop_first();
    assert(first + rest =~= text);
    lemma_encode_both(first, rest);
    lemma_encoded_is_as_long(first);
    lemma_encoded_without(first, '/');
    assert(encode_utf8(text)[0] == encode_utf8(first)[0]);
}

/// Going down along two lists is going down along the first and then along the second.
proof fn lemma_join_all_both(path: PathView, first: Seq<Seq<char>>, second: Seq<Seq<char>>)
    ensures
        path.join_all(first + second) == path.join_all(first).join_all(second),
    decreases second.len(),
{
    if second.len() == 0 {
        assert(first + second =~= first);
    } else {
        lemma_join_all_both(path, first, second.drop_last());
        assert((first + second).drop_last() =~= first + second.drop_last());
    }
}

/// Going down from a path that is not empty comes to one that is not.
proof fn lemma_join_all_not_empty(path: PathView, segments: Seq<Seq<char>>)
    requires
        path.bytes.len() > 0,
    ensures
        path.join_all(segments).bytes.len() > 0,
    decreases segments.len(),
{
    if segments.len() > 0 {
        lemma_join_all_not_empty(path, segments.drop_last());
    }
}

/// The directory of the tests is `test`, and that of any other module is `src`.
pub proof fn law_directories_of_origins(origin: ModuleOrigin, name: &'static str)
    requires
        call_ensures(ModuleOrigin::dir_name, (&origin,), name),
    ensures
        origin == ModuleOrigin::Test ==> name@ == "test"@,
        origin != ModuleOrigin::Test ==> name@ == "src"@,
{
}

/// The first file of a module holds its code, whatever is rendered, and lies in `gen/src` or
/// `gen/test` next to the base path. There is a second one, the documentation, exactly for a
/// module of the application where documentation is rendered.
pub proof fn law_files_of_a_module(
    base: FilePath,
    origin: ModuleOrigin,
    name: Vec<String>,
    code: String,
    render_docs: RenderDocs,
    files: Vec<OutputFile>,
)
    requires
        call_ensures(module_files, (&base, origin, &name, code, render_docs), files),
        forall|i: int| 0 <= i < name@.len() ==> !(#[trigger] name@[i])@.contains('/'),
    ensures
        files@.len() == if origin == ModuleOrigin::Src && render_docs == RenderDocs::True {
            2int
        } else {
            1
        },
        files@[0].contents@ == code@,
        ({
            let directory = (base@.parent()->0).bytes;
            let place = if origin == ModuleOrigin::Test {
                "gen/test/"@
            } else {
                "gen/src/"@
            };
            files@[0].path.bytes@ == directory + gap(directory) + encode_utf8(
                place + joined(name@.map_values(|segment: String| segment@), seq!['@']) + ".erl"@,
            )
        }),
        files@.len() == 2 ==> files@[1].contents@ == "hey look some docs"@
            && files@[1].path.bytes@ == docs_path(
            base@,
            name@.map_values(|segment: String| segment@),
        ).bytes,
{
    let segments = name@.map_values(|segment: String| segment@);
    let views = files@.map_values(|file: OutputFile| file@);
    assert(segments =~= texts(name@));
    assert(views.len() == files@.len());
    assert(views[0] == files@[0]@);
    if files@.len() == 2 {
        assert(views[1] == files@[1]@);
    }
    law_erl_path_is_next_to_the_base(base@, origin, segments);
}

/// The base path of a module need only lie in some directory for its files to be laid out.
pub proof fn law_any_module_can_be_laid_out(
    base: FilePath,
    origin: ModuleOrigin,
    name: Vec<String>,
    code: String,
    render_docs: RenderDocs,
)
    requires
        base@.components().len() > 0,
        base@.components() != seq![seq![SEPARATOR]],
    ensures
        call_requires(module_files, (&base, origin, &name, code, render_docs)),
{
    law_parent_drops_the_last_step(base@);
}

/// An input has a name where its path has the steps of its base path and further ones, the
/// last of which names a file, and the directory and the stem of that file are valid text.
pub proof fn law_files_below_their_base_have_names(input: Input)
    requires
        input.source_base_path@.components().is_prefix_of(input.path@.components()),
        input.source_base_path@.components().len() < input.path@.components().len(),
        input.path@.file_name() is Some,
        valid_utf8(input.path@.file_stem()->0),
        valid_utf8(
            ((input.path@.strip_prefix(input.source_base_path@)->0).parent()->0).bytes,
        ),
    ensures
        input@.wf(),
{
    let path = input.path@;
    let base = input.source_base_path@;
    let rest = path.strip_prefix(base)->0;
    law_strip_prefix_splits_the_steps(path, base);
    law_parent_drops_the_last_step(rest);
    law_file_name_is_the_last_step(path);
    assert(rest.components().len() > 0);
    assert(path.components().last() == rest.components().last());
    if rest.components() == seq![seq![SEPARATOR]] {
        assert(rest.components().last() == seq![SEPARATOR]);
    }
    let directory = rest.parent()->0;
    let name = path.file_stem()->0;
    lemma_file_stem(path);
    assert(name[0] != SEPARATOR);
    law_join_puts_one_behind_the_other(directory, PathView { bytes: name });
    encode_utf8_valid_utf8(seq!['/']);
    lemma_encoded_dot();
    if directory.bytes.len() > 0 && directory.bytes.last() != SEPARATOR {
        valid_utf8_concat(directory.bytes, seq![SEPARATOR]);
        valid_utf8_concat(directory.bytes + seq![SEPARATOR], name);
        assert(input@.name_path().bytes =~= directory.bytes + seq![SEPARATOR] + name);
    } else {
        valid_utf8_concat(directory.bytes, name);
        assert(input@.name_path().bytes =~= directory.bytes + name);
    }
}

} // verus!
