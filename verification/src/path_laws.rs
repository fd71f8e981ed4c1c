//! What holds of every path.

use crate::path::{
    drop_trailing, is_name, last_dot, law_path_is_its_front_and_body, lemma_drop_trailing,
    lemma_names_in_both, lemma_names_in_one, lemma_skip_names, lemma_stem, names_in, skip_names,
    stem, text_path, FilePath, PathView, DOT, SEPARATOR,
};
use crate::text::{
    joined, law_joined_of_both, lemma_join_then_split, lemma_split_of_longer, lemma_split_then_join,
    split_on,
};
use vstd::prelude::*;
use vstd::utf8::*;

verus! {

/// A path is its bytes, and the path of a text is the encoding of the text.
pub proof fn law_paths_are_bytes(path: FilePath, text: &str, made: FilePath)
    requires
        call_ensures(FilePath::new, (text,), made),
    ensures
        path@.bytes == path.bytes@,
        made.bytes@ == encode_utf8(text@),
        text_path(text@).bytes == encode_utf8(text@),
{
}

/// A separator and a piece behind a path leave its front as it is and put the piece
/// behind its body.
pub proof fn lemma_append_piece(path: PathView, piece: Seq<u8>) -> (longer: PathView)
    requires
        path.bytes.len() > 0,
        !piece.contains(SEPARATOR),
    ensures
        longer.bytes == path.bytes.push(SEPARATOR) + piece,
        longer.lead() == path.lead(),
        longer.front() == path.front(),
        longer.body() == path.body().push(piece),
{
    let longer = PathView { bytes: path.bytes.push(SEPARATOR) + piece };
    let lead = path.lead() as int;
    let text = path.bytes.skip(lead);
    assert(longer.front() =~= path.front());
    assert(longer.bytes.skip(lead) =~= text.push(SEPARATOR) + piece);
    assert(text.push(SEPARATOR).drop_last() =~= text);
    lemma_split_of_longer(text.push(SEPARATOR), piece, SEPARATOR);
    assert(Seq::<u8>::empty() + piece =~= piece);
    assert(longer.body() =~= path.body().push(piece));
    longer
}

/// What does not hold the separator is one piece.
proof fn lemma_split_of_one(piece: Seq<u8>)
    requires
        !piece.contains(SEPARATOR),
    ensures
        split_on(piece, SEPARATOR) == seq![piece],
{
    assert(joined(seq![piece], seq![SEPARATOR]) =~= piece);
    lemma_join_then_split(seq![piece], SEPARATOR);
}

/// A path without separators is a single step, and the empty path has none.
pub proof fn law_one_piece_is_one_step(path: PathView)
    requires
        !path.bytes.contains(SEPARATOR),
    ensures
        path.bytes.len() == 0 ==> path.components().len() == 0,
        path.bytes.len() > 0 ==> path.components() == seq![path.bytes],
{
    let piece = path.bytes;
    let none = Seq::<u8>::empty();
    lemma_split_of_one(piece);
    lemma_split_of_one(none);
    lemma_names_in_one(seq![piece]);
    lemma_names_in_one(seq![none]);
    if piece.len() > 0 {
        assert(piece[0] != SEPARATOR);
        assert(piece.len() > 1 ==> piece[1] != SEPARATOR);
    }
    if piece == seq![DOT] {
        assert(path.bytes.skip(1) =~= none);
        assert(path.front() =~= piece);
        assert(path.components() =~= seq![piece]);
    } else {
        assert(path.lead() == 0) by {
            if piece.len() == 1 && piece[0] == DOT {
                assert(piece =~= seq![DOT]);
            }
        }
        assert(path.bytes.skip(0) =~= piece);
        assert(piece.len() == 0 ==> path.components() =~= Seq::empty());
        assert(piece.len() > 0 ==> path.components() =~= seq![piece]);
    }
}

/// A separator at the beginning of a path is the root, its first step. What follows it
/// is one more step, where there is something and it is no `.`.
pub proof fn law_first_separator_is_the_root(path: PathView, piece: Seq<u8>)
    requires
        path.bytes == seq![SEPARATOR] + piece,
        !piece.contains(SEPARATOR),
    ensures
        piece.len() == 0 || piece == seq![DOT] ==> path.components() == seq![seq![SEPARATOR]],
        piece.len() > 0 && piece != seq![DOT] ==> path.components() == seq![
            seq![SEPARATOR],
            piece,
        ],
{
    lemma_split_of_one(piece);
    lemma_names_in_one(seq![piece]);
    assert(path.bytes.skip(1) =~= piece);
    assert(path.front() =~= seq![SEPARATOR]);
    assert(path.lead() == 1);
    let root = seq![seq![SEPARATOR]];
    assert(path.components() == root + names_in(seq![piece]));
    if is_name(piece) {
        assert(root + seq![piece] =~= seq![seq![SEPARATOR], piece]);
    } else {
        assert(root + Seq::<Seq<u8>>::empty() =~= root);
    }
}

/// A separator and a piece behind a path are one more step, but for a piece that is
/// empty or `.`, which is none.
pub proof fn law_further_separators_part_the_steps(
    path: PathView,
    piece: Seq<u8>,
    longer: PathView,
)
    requires
        path.bytes.len() > 0,
        !piece.contains(SEPARATOR),
        longer.bytes == path.bytes + seq![SEPARATOR] + piece,
    ensures
        piece.len() == 0 || piece == seq![DOT] ==> longer.components() == path.components(),
        piece.len() > 0 && piece != seq![DOT] ==> longer.components() == path.components().push(
            piece,
        ),
{
    let made = lemma_append_piece(path, piece);
    assert(made =~= longer);
    lemma_names_in_both(path.body(), seq![piece]);
    lemma_names_in_one(seq![piece]);
    assert(path.body() + seq![piece] =~= path.body().push(piece));
    assert(is_name(piece) ==> longer.components() =~= path.components().push(piece));
    assert(!is_name(piece) ==> longer.components() =~= path.components());
}

/// Two paths are equal where their steps are.
pub proof fn law_equal_paths_have_equal_steps(one: FilePath, other: FilePath, same: bool)
    requires
        call_ensures(<FilePath as PartialEq>::eq, (&one, &other), same),
    ensures
        same == (one@.components() == other@.components()),
{
}

/// The first bytes of a path that are its front and the first pieces of its body.
proof fn lemma_joined_prefix(pieces: Seq<Seq<u8>>, count: int)
    requires
        0 <= count <= pieces.len(),
    ensures
        joined(pieces.take(count), seq![SEPARATOR]).is_prefix_of(joined(pieces, seq![SEPARATOR])),
{
    let first = pieces.take(count);
    let second = pieces.skip(count);
    assert(first + second =~= pieces);
    law_joined_of_both(first, second, seq![SEPARATOR]);
    if count == 0 {
        assert(joined(first, seq![SEPARATOR]) =~= Seq::empty());
    } else if count == pieces.len() {
        assert(first =~= pieces);
    }
}

/// A path with the front of another and a body that begins like that of the other and
/// ends in a name has that front and that body.
proof fn lemma_with_body(path: PathView, pieces: Seq<Seq<u8>>)
    requires
        forall|i: int| 0 <= i < pieces.len() ==> !(#[trigger] pieces[i]).contains(SEPARATOR),
        pieces.len() > 0 ==> is_name(pieces.last()),
        pieces.len() == 1 ==> path.front() != seq![DOT],
        pieces.len() >= 2 ==> path.body().len() >= 2 && pieces[0] == path.body()[0],
    ensures
        path.with_body(pieces).front() == path.front(),
        path.with_body(pieces).lead() == path.lead(),
        pieces.len() > 0 ==> path.with_body(pieces).body() == pieces,
        path.with_body(pieces).components() == (if path.lead() == 1 {
            seq![path.front()]
        } else {
            Seq::empty()
        }) + names_in(pieces),
{
    let made = path.with_body(pieces);
    let text = joined(pieces, seq![SEPARATOR]);
    let none = Seq::<u8>::empty();
    law_path_is_its_front_and_body(path);
    lemma_names_in_one(pieces);
    lemma_names_in_one(seq![none]);
    if pieces.len() == 0 {
        lemma_split_of_one(none);
        assert(text =~= none);
        assert(made.bytes =~= path.front());
        assert(made.front() =~= path.front());
        assert(made.bytes.skip(made.lead() as int) =~= none);
        assert(made.components() =~= (if path.lead() == 1 {
            seq![path.front()]
        } else {
            Seq::empty()
        }) + names_in(pieces));
    } else {
        let first = pieces[0];
        let last = pieces.last();
        let rest = pieces.skip(1);
        assert(pieces[pieces.len() - 1] == last);
        lemma_join_then_split(pieces, SEPARATOR);
        law_joined_of_both(pieces.take(1), rest, seq![SEPARATOR]);
        assert(pieces.take(1) + rest =~= pieces);
        if pieces.len() >= 2 {
            let body = path.body();
            let others = body.skip(1);
            assert(pieces.take(1)[0] == first);
            assert(text == first + seq![SEPARATOR] + joined(rest, seq![SEPARATOR]));
            law_joined_of_both(body.take(1), others, seq![SEPARATOR]);
            assert(body.take(1) + others =~= body);
            assert(body.take(1)[0] == first);
            assert(path.bytes =~= path.front() + (first + seq![SEPARATOR] + joined(
                others,
                seq![SEPARATOR],
            )));
            if path.lead() == 1 {
                assert(made.bytes[0] == path.bytes[0]);
                assert(made.bytes[1] == path.bytes[1]);
            } else {
                assert(path.front() =~= none);
                assert(made.bytes =~= text);
                assert(made.bytes[0] == path.bytes[0]);
                assert(made.bytes.len() > 1);
                assert(first.len() > 0);
                assert(first.len() > 1 ==> made.bytes[1] == first[1] && path.bytes[1] == first[1]);
                assert(first.len() == 1 ==> made.bytes[1] == SEPARATOR && path.bytes[1]
                    == SEPARATOR);
            }
        } else {
            assert(pieces =~= seq![first]);
            assert(text == first);
            assert(first[0] != SEPARATOR);
            if path.lead() == 1 {
                assert(path.front()[0] == path.bytes[0]);
                if path.bytes[0] == DOT {
                    assert(path.front() =~= seq![DOT]);
                }
                assert(made.bytes[0] == SEPARATOR);
            } else {
                assert(path.front() =~= none);
                assert(made.bytes =~= first);
                if first.len() == 1 && first[0] == DOT {
                    assert(first =~= seq![DOT]);
                }
                assert(first.len() > 1 ==> first[1] != SEPARATOR);
            }
        }
        assert(made.lead() == path.lead());
        assert(made.front() =~= path.front());
        assert(made.bytes.skip(made.lead() as int) =~= text);
    }
}

/// Dropping what follows the last name drops no name.
proof fn lemma_names_before_the_end(pieces: Seq<Seq<u8>>)
    ensures
        names_in(drop_trailing(pieces)) == names_in(pieces),
        drop_trailing(pieces).len() == 0 <==> names_in(pieces).len() == 0,
        drop_trailing(pieces).len() > 0 ==> names_in(pieces) == names_in(
            drop_trailing(pieces).drop_last(),
        ).push(drop_trailing(pieces).last()),
    decreases pieces.len(),
{
    lemma_drop_trailing(pieces);
    lemma_names_in_one(pieces);
    if pieces.len() > 0 {
        let less = pieces.drop_last();
        lemma_names_in_both(less, seq![pieces.last()]);
        lemma_names_in_one(seq![pieces.last()]);
        assert(less + seq![pieces.last()] =~= pieces);
        if !is_name(pieces.last()) {
            lemma_names_before_the_end(less);
            assert(names_in(less) + names_in(seq![pieces.last()]) =~= names_in(less));
        } else {
            assert(names_in(less) + names_in(seq![pieces.last()]) =~= names_in(less).push(
                pieces.last(),
            ));
        }
    }
}

/// The body of a path up to one of its names makes a path of its own, which the path
/// begins with.
proof fn lemma_body_prefix(path: PathView, count: int)
    requires
        0 <= count <= path.body().len(),
        count > 0 ==> is_name(path.body()[count - 1]),
    ensures
        path.with_body(path.body().take(count)).bytes.is_prefix_of(path.bytes),
        path.with_body(path.body().take(count)).front() == path.front(),
        count > 0 ==> path.with_body(path.body().take(count)).body() == path.body().take(count),
        path.with_body(path.body().take(count)).components() == (if path.lead() == 1 {
            seq![path.front()]
        } else {
            Seq::empty()
        }) + names_in(path.body().take(count)),
        path.with_body(path.body().take(count)).bytes.len() > 1 ==> {
            let bytes = path.with_body(path.body().take(count)).bytes;
            bytes.last() != SEPARATOR && !(bytes.last() == DOT && bytes[bytes.len() - 2]
                == SEPARATOR)
        },
{
    let body = path.body();
    let pieces = body.take(count);
    let made = path.with_body(pieces);
    law_path_is_its_front_and_body(path);
    lemma_joined_prefix(body, count);
    assert forall|i: int| 0 <= i < pieces.len() implies !(#[trigger] pieces[i]).contains(
        SEPARATOR,
    ) by {
        assert(pieces[i] == body[i]);
    }
    if count == 1 && path.front() == seq![DOT] {
        lemma_dot_front(path);
    }
    lemma_with_body(path, pieces);
    assert(made.bytes =~= path.bytes.take(made.bytes.len() as int)) by {
        assert(path.bytes == path.front() + joined(body, seq![SEPARATOR]));
    }
    if count > 0 {
        let last = body[count - 1];
        let text = joined(pieces, seq![SEPARATOR]);
        assert(pieces.last() == last);
        assert(text.len() >= last.len() && text.skip(text.len() - last.len()) =~= last);
        assert(last[last.len() - 1] != SEPARATOR);
        assert(made.bytes.last() == last.last());
        if last.len() > 1 {
            assert(made.bytes[made.bytes.len() - 2] == last[last.len() - 2]);
            assert(last[last.len() - 2] != SEPARATOR);
        } else if last[0] == DOT {
            assert(last =~= seq![DOT]);
        }
    }
}

/// Behind a `.` at the beginning stands a separator, or nothing.
proof fn lemma_dot_front(path: PathView)
    requires
        path.front() == seq![DOT],
    ensures
        path.body()[0].len() == 0,
{
    assert(path.front().len() == 1 && path.front()[0] == DOT);
    if path.lead() == 0 {
        assert(path.bytes.take(0).len() == 0);
    }
    assert(path.bytes[0] == DOT);
    let text = path.bytes.skip(1);
    if text.len() == 0 {
        lemma_split_of_one(text);
    } else {
        assert(text[0] == SEPARATOR);
        law_path_is_its_front_and_body(path);
        let body = path.body();
        law_joined_of_both(body.take(1), body.skip(1), seq![SEPARATOR]);
        assert(body.take(1) + body.skip(1) =~= body);
        assert(joined(body, seq![SEPARATOR]) == text) by {
            lemma_split_then_join(text, SEPARATOR);
        }
        if body[0].len() > 0 {
            assert(body.take(1)[0] == body[0]);
            if body.len() == 1 {
                assert(body.take(1) =~= body);
            }
            assert(text[0] == body[0][0]);
            assert(body[0].contains(SEPARATOR));
        }
    }
}

/// The parent of a path is the path without its last step: the beginning of its bytes
/// that has the other steps, with nothing behind the last of them. There is none where
/// the path has no step, or none but the root.
pub proof fn law_parent_drops_the_last_step(path: PathView)
    ensures
        path.parent() is None <==> path.components().len() == 0 || path.components()
            == seq![seq![SEPARATOR]],
        path.parent() matches Some(parent) ==> {
            &&& parent.components() == path.components().drop_last()
            &&& parent.bytes.is_prefix_of(path.bytes)
            &&& parent.bytes.len() > 1 ==> parent.bytes.last() != SEPARATOR && !(
            parent.bytes.last() == DOT && parent.bytes[parent.bytes.len() - 2] == SEPARATOR)
        },
{
    let body = path.body();
    let trimmed = path.trimmed();
    let front = if path.lead() == 1 {
        seq![path.front()]
    } else {
        Seq::empty()
    };
    law_path_is_its_front_and_body(path);
    lemma_drop_trailing(body);
    lemma_names_before_the_end(body);
    if trimmed.len() > 0 {
        let less = trimmed.drop_last();
        let kept = drop_trailing(less);
        lemma_drop_trailing(less);
        lemma_names_before_the_end(less);
        assert(kept =~= body.take(kept.len() as int));
        if kept.len() > 0 {
            assert(kept.last() == body[kept.len() - 1]);
        }
        lemma_body_prefix(path, kept.len() as int);
        assert(path.components() =~= (front + names_in(less)).push(trimmed.last()));
        assert((front + names_in(less)).push(trimmed.last()).drop_last() =~= front + names_in(
            less,
        ));
        if path.components() == seq![seq![SEPARATOR]] {
            assert(path.components().last() == trimmed.last());
            assert(trimmed.last() == body[trimmed.len() - 1]);
            assert(trimmed.last()[0] == SEPARATOR);
        }
    } else {
        assert(path.components() =~= front);
        let none = PathView { bytes: Seq::empty() };
        law_one_piece_is_one_step(none);
        if path.lead() == 1 {
            assert(path.front() =~= seq![path.bytes[0]]);
            if path.front() == seq![DOT] {
                assert(path.components().drop_last() =~= Seq::empty());
                assert(path.components()[0][0] == DOT);
            } else {
                assert(path.front() =~= seq![SEPARATOR]);
            }
        } else {
            assert(path.front().len() == 0);
        }
    }
}

/// A path names a file exactly where it has a step and the last one is neither the root
/// nor `.` nor `..`; the name of the file is that step.
pub proof fn law_file_name_is_the_last_step(path: PathView)
    ensures
        path.file_name() == if path.components().len() == 0 || path.components().last()
            == seq![SEPARATOR] || path.components().last() == seq![DOT] || path.components().last()
            == seq![DOT, DOT] {
            None
        } else {
            Some(path.components().last())
        },
        path.file_stem() == match path.file_name() {
            Some(name) => Some(stem(name)),
            None => None,
        },
{
    let body = path.body();
    let trimmed = path.trimmed();
    law_path_is_its_front_and_body(path);
    lemma_drop_trailing(body);
    lemma_names_before_the_end(body);
    if trimmed.len() > 0 {
        assert(path.components().last() == trimmed.last());
        assert(trimmed.last() == body[trimmed.len() - 1]);
        if trimmed.last() == seq![SEPARATOR] {
            assert(trimmed.last()[0] == SEPARATOR);
        }
    } else if path.lead() == 1 {
        assert(path.components() =~= seq![path.front()]);
        assert(path.front() =~= seq![path.bytes[0]]);
    }
}

/// The stem of a name is what stands before its last `.`, unless that is nothing: then,
/// and where there is no `.`, it is the whole name.
pub proof fn law_stem_is_before_the_last_dot(name: Seq<u8>, extension: Seq<u8>)
    requires
        !extension.contains(DOT),
    ensures
        name.len() > 0 ==> stem(name.push(DOT) + extension) == name,
        stem(extension) == extension,
        stem(seq![DOT] + extension) == seq![DOT] + extension,
{
    lemma_last_dot_before(name, extension);
    lemma_last_dot_before(Seq::empty(), extension);
    lemma_last_dot_nowhere(extension);
    assert((name.push(DOT) + extension).take(name.len() as int) =~= name);
    assert(Seq::<u8>::empty().push(DOT) =~= seq![DOT]);
}

/// The `.` before an extension is the last one.
proof fn lemma_last_dot_before(name: Seq<u8>, extension: Seq<u8>)
    requires
        !extension.contains(DOT),
    ensures
        last_dot(name.push(DOT) + extension) == name.len(),
    decreases extension.len(),
{
    let all = name.push(DOT) + extension;
    if extension.len() == 0 {
        assert(all =~= name.push(DOT));
    } else {
        let less = extension.drop_last();
        assert(!less.contains(DOT)) by {
            if less.contains(DOT) {
                let i = choose|i: int| 0 <= i < less.len() && less[i] == DOT;
                assert(extension[i] == DOT);
            }
        }
        assert(extension[extension.len() - 1] != DOT);
        assert(all.drop_last() =~= name.push(DOT) + less);
        lemma_last_dot_before(name, less);
    }
}

/// Where there is no `.`, there is no last one.
proof fn lemma_last_dot_nowhere(name: Seq<u8>)
    requires
        !name.contains(DOT),
    ensures
        last_dot(name) == -1,
    decreases name.len(),
{
    if name.len() > 0 {
        let less = name.drop_last();
        assert(!less.contains(DOT)) by {
            if less.contains(DOT) {
                let i = choose|i: int| 0 <= i < less.len() && less[i] == DOT;
                assert(name[i] == DOT);
            }
        }
        assert(name[name.len() - 1] != DOT);
        lemma_last_dot_nowhere(less);
    }
}

/// The path of another path, seen from this one, has the bytes of both, with a separator
/// between unless there is one, and so the steps of this one and then those of the other.
/// One that begins at the root is itself, wherever it is seen from.
pub proof fn law_join_puts_one_behind_the_other(path: PathView, other: PathView)
    ensures
        other.bytes.len() > 0 && other.bytes[0] == SEPARATOR ==> path.join(other).bytes
            == other.bytes,
        !(other.bytes.len() > 0 && other.bytes[0] == SEPARATOR) ==> path.join(other).bytes
            == path.bytes + (if path.bytes.len() > 0 && path.bytes[path.bytes.len() - 1]
            != SEPARATOR {
            seq![SEPARATOR]
        } else {
            Seq::empty()
        }) + other.bytes,
{
    assert(path.join(other).bytes =~= path.join(other).bytes);
    assert(path.bytes.push(SEPARATOR) =~= path.bytes + seq![SEPARATOR]);
    assert(path.bytes + Seq::<u8>::empty() =~= path.bytes);
}

/// The names after some names are the names that are left.
proof fn lemma_names_after(pieces: Seq<Seq<u8>>, count: nat)
    requires
        count <= names_in(pieces).len(),
    ensures
        names_in(skip_names(pieces, count)) == names_in(pieces).skip(count as int),
        skip_names(pieces, count).len() > 0 ==> is_name(skip_names(pieces, count).first()),
    decreases pieces.len(),
{
    lemma_names_in_one(pieces);
    if pieces.len() == 0 {
        assert(names_in(pieces).skip(count as int) =~= names_in(pieces));
    } else {
        let first = pieces.first();
        let rest = pieces.drop_first();
        assert(seq![first] + rest =~= pieces);
        lemma_names_in_both(seq![first], rest);
        lemma_names_in_one(seq![first]);
        if !is_name(first) {
            lemma_names_after(rest, count);
            assert(names_in(pieces) =~= names_in(rest));
        } else if count == 0 {
            assert(names_in(pieces).skip(0) =~= names_in(pieces));
        } else {
            assert(names_in(pieces) =~= seq![first] + names_in(rest));
            lemma_names_after(rest, (count - 1) as nat);
            assert(names_in(pieces).skip(count as int) =~= names_in(rest).skip(count - 1));
        }
    }
}

/// Something is left of a path after another exactly where it begins with the steps of
/// the other, and the steps of the other and then those of what is left are the steps of
/// the path. Nothing stands before the first or behind the last step of what is left.
pub proof fn law_strip_prefix_splits_the_steps(path: PathView, base: PathView)
    ensures
        path.strip_prefix(base) is Some <==> base.components().is_prefix_of(path.components()),
        path.strip_prefix(base) matches Some(rest) ==> {
            &&& base.components() + rest.components() == path.components()
            &&& base.components().len() > 0 && rest.bytes.len() > 0 ==> rest.bytes[0]
                != SEPARATOR && !(rest.bytes[0] == DOT && (rest.bytes.len() == 1 || rest.bytes[1]
                == SEPARATOR))
            &&& rest.bytes.len() > 1 ==> rest.bytes.last() != SEPARATOR && !(rest.bytes.last()
                == DOT && rest.bytes[rest.bytes.len() - 2] == SEPARATOR)
        },
{
    if base.components().is_prefix_of(path.components()) {
        let body = path.body();
        let front = if path.lead() == 1 {
            seq![path.front()]
        } else {
            Seq::empty()
        };
        let count = base.components().len();
        law_path_is_its_front_and_body(path);
        lemma_drop_trailing(body);
        lemma_names_before_the_end(body);
        if count == 0 {
            let trimmed = path.trimmed();
            assert(trimmed =~= body.take(trimmed.len() as int));
            if trimmed.len() > 0 {
                assert(trimmed.last() == body[trimmed.len() - 1]);
            }
            lemma_body_prefix(path, trimmed.len() as int);
            assert(base.components() + path.components() =~= path.components());
        } else {
            let passed = (count - path.lead()) as nat;
            let left = skip_names(body, passed);
            let pieces = drop_trailing(left);
            let rest = path.strip_prefix(base)->0;
            lemma_names_after(body, passed);
            lemma_names_before_the_end(left);
            lemma_rest(path, passed);
            assert(rest.components() =~= names_in(pieces));
            assert(base.components() =~= path.components().take(count as int));
            assert(names_in(body).skip(passed as int) =~= path.components().skip(count as int));
            assert(base.components() + rest.components() =~= path.components());
        }
    }
}

/// Pieces that begin and end with a name make a path of these pieces.
pub proof fn lemma_plain_path(pieces: Seq<Seq<u8>>) -> (path: PathView)
    requires
        pieces.len() > 0,
        is_name(pieces[0]),
        is_name(pieces.last()),
        forall|i: int| 0 <= i < pieces.len() ==> !(#[trigger] pieces[i]).contains(SEPARATOR),
    ensures
        path.bytes == joined(pieces, seq![SEPARATOR]),
        path.bytes.len() > 0,
        path.bytes[0] == pieces[0][0],
        path.lead() == 0,
        path.front().len() == 0,
        path.body() == pieces,
        path.components() == names_in(pieces),
        path.bytes.last() != SEPARATOR,
        path.bytes.len() > 1 ==> !(path.bytes.last() == DOT && path.bytes[path.bytes.len() - 2]
            == SEPARATOR),
{
    let path = PathView { bytes: joined(pieces, seq![SEPARATOR]) };
    let first = pieces[0];
    let last = pieces.last();
    assert(pieces[pieces.len() - 1] == last);
    law_joined_of_both(pieces.take(1), pieces.skip(1), seq![SEPARATOR]);
    assert(pieces.take(1) + pieces.skip(1) =~= pieces);
    assert(pieces.take(1)[0] == first);
    if pieces.len() == 1 {
        assert(pieces.take(1) =~= pieces);
    }
    assert(first[0] != SEPARATOR);
    assert(path.bytes[0] == first[0]);
    if first.len() > 1 {
        assert(path.bytes[1] == first[1]);
        assert(first[1] != SEPARATOR);
    } else if first[0] == DOT {
        assert(first =~= seq![DOT]);
    }
    assert(path.lead() == 0);
    lemma_join_then_split(pieces, SEPARATOR);
    assert(path.bytes.skip(0) =~= path.bytes);
    assert(path.components() =~= names_in(pieces));
    assert(path.bytes.skip(path.bytes.len() - last.len()) =~= last);
    assert(last[last.len() - 1] != SEPARATOR);
    assert(path.bytes.last() == last.last());
    if last.len() > 1 {
        assert(path.bytes[path.bytes.len() - 2] == last[last.len() - 2]);
        assert(last[last.len() - 2] != SEPARATOR);
    } else if last[0] == DOT {
        assert(last =~= seq![DOT]);
    }
    path
}

/// What is left of a path after some of its names is a path of the other names, and begins
/// and ends with a name.
proof fn lemma_rest(path: PathView, passed: nat)
    requires
        passed <= names_in(path.body()).len(),
    ensures
        ({
            let pieces = drop_trailing(skip_names(path.body(), passed));
            let rest = PathView { bytes: joined(pieces, seq![SEPARATOR]) };
            &&& rest.lead() == 0
            &&& rest.components() == names_in(pieces)
            &&& pieces.len() > 0 ==> rest.body() == pieces
            &&& rest.bytes.len() > 0 ==> rest.bytes[0] != SEPARATOR && !(rest.bytes[0] == DOT && (
            rest.bytes.len() == 1 || rest.bytes[1] == SEPARATOR))
            &&& rest.bytes.len() > 1 ==> rest.bytes.last() != SEPARATOR && !(rest.bytes.last()
                == DOT && rest.bytes[rest.bytes.len() - 2] == SEPARATOR)
        }),
{
    let body = path.body();
    let left = skip_names(body, passed);
    let pieces = drop_trailing(left);
    let rest = PathView { bytes: joined(pieces, seq![SEPARATOR]) };
    law_path_is_its_front_and_body(path);
    let from = lemma_skip_names(body, passed);
    lemma_names_after(body, passed);
    lemma_drop_trailing(left);
    assert forall|i: int| 0 <= i < pieces.len() implies !(#[trigger] pieces[i]).contains(
        SEPARATOR,
    ) by {
        assert(pieces[i] == body[i + from]);
    }
    let none = Seq::<u8>::empty();
    lemma_split_of_one(none);
    lemma_names_in_one(pieces);
    lemma_names_in_one(seq![none]);
    if pieces.len() == 0 {
        assert(rest.bytes =~= none);
        assert(rest.bytes.skip(0) =~= none);
        assert(rest.components() =~= names_in(pieces));
    } else {
        let made = lemma_plain_path(pieces);
        assert(made =~= rest);
    }
}

/// What is left of a path stands in it, byte by byte: it begins right behind a separator
/// or with the path, and behind it the path has no further step.
pub proof fn law_rest_is_the_end_of_the_path(path: PathView, base: PathView) -> (end: int)
    requires
        path.strip_prefix(base) matches Some(rest) && rest.bytes.len() > 0,
    ensures
        ({
            let rest = (path.strip_prefix(base)->0).bytes;
            let begin = end - rest.len();
            &&& 0 <= begin <= end <= path.bytes.len()
            &&& rest == path.bytes.subrange(begin, end)
            &&& begin == 0 || path.bytes[begin - 1] == SEPARATOR
            &&& (PathView { bytes: path.bytes.take(end) }).components() == path.components()
        }),
{
    let body = path.body();
    let trimmed = path.trimmed();
    let rest = path.strip_prefix(base)->0;
    let count = base.components().len();
    let whole = path.with_body(trimmed);
    let separator = seq![SEPARATOR];
    law_path_is_its_front_and_body(path);
    lemma_drop_trailing(body);
    lemma_names_before_the_end(body);
    assert(trimmed =~= body.take(trimmed.len() as int));
    if trimmed.len() > 0 {
        assert(trimmed.last() == body[trimmed.len() - 1]);
    }
    lemma_body_prefix(path, trimmed.len() as int);
    let end = whole.bytes.len() as int;
    assert(whole.bytes =~= path.bytes.take(end));
    assert(whole =~= PathView { bytes: path.bytes.take(end) });
    if count == 0 {
        assert(rest.bytes =~= path.bytes.subrange(0, end));
    } else {
        let passed = (count - path.lead()) as nat;
        let left = skip_names(body, passed);
        let pieces = drop_trailing(left);
        let from = lemma_skip_names(body, passed);
        lemma_names_after(body, passed);
        lemma_drop_trailing(left);
        assert(pieces.len() > 0);
        lemma_end_of_trimmed(body, from);
        assert(trimmed.take(from) + pieces =~= trimmed);
        law_joined_of_both(trimmed.take(from), pieces, separator);
        let text = joined(pieces, separator);
        let before = if from > 0 {
            path.front() + joined(trimmed.take(from), separator) + separator
        } else {
            path.front()
        };
        if from > 0 {
            assert(whole.bytes =~= before + text);
            assert(before.last() == SEPARATOR);
        } else {
            assert(trimmed =~= pieces);
            if path.lead() == 1 {
                assert(path.front() =~= seq![path.bytes[0]]);
                if path.front() == seq![DOT] {
                    lemma_dot_front(path);
                    assert(is_name(left.first()));
                    assert(left.first() == body[0]);
                }
            }
        }
        assert(whole.bytes == before + text);
        lemma_part(path.bytes, before, text, end);
        assert(before.len() > 0 ==> path.bytes[before.len() - 1] == before[before.len() - 1]);
    }
    end
}

/// The second of two parts that bytes begin with stands right behind the first.
proof fn lemma_part(bytes: Seq<u8>, first: Seq<u8>, second: Seq<u8>, end: int)
    requires
        0 <= end <= bytes.len(),
        bytes.take(end) == first + second,
    ensures
        first.len() + second.len() == end,
        second == bytes.subrange(first.len() as int, end),
        bytes.take(first.len() as int) == first,
        forall|i: int| 0 <= i < first.len() ==> bytes[i] == first[i],
{
    assert(bytes.take(end).len() == end);
    assert forall|i: int| 0 <= i < end implies bytes[i] == (first + second)[i] by {
        assert(bytes.take(end)[i] == bytes[i]);
    }
    assert(second =~= bytes.subrange(first.len() as int, end));
    assert(bytes.take(first.len() as int) =~= first);
}

/// The end of the pieces, up to the last name, is the end of the pieces up to the last
/// name.
proof fn lemma_end_of_trimmed(pieces: Seq<Seq<u8>>, from: int)
    requires
        0 <= from <= pieces.len(),
        drop_trailing(pieces.skip(from)).len() > 0,
    ensures
        drop_trailing(pieces).len() > from,
        drop_trailing(pieces.skip(from)) == drop_trailing(pieces).skip(from),
    decreases pieces.len(),
{
    let end = pieces.skip(from);
    lemma_drop_trailing(end);
    assert(from < pieces.len());
    assert(end.last() == pieces.last());
    if !is_name(pieces.last()) {
        assert(end.drop_last() =~= pieces.drop_last().skip(from));
        lemma_end_of_trimmed(pieces.drop_last(), from);
    }
}

/// Replacing the extension of a path changes nothing before the end of its stem: the path
/// keeps its bytes up to there and its parent, and the file is called after the stem and
/// the extension. A path that names no file stays as it is.
pub proof fn law_replace_extension_keeps_the_stem(path: PathView, extension: Seq<char>) -> (kept:
    int)
    requires
        extension.len() > 0,
        !encode_utf8(extension).contains(SEPARATOR),
        encode_utf8(extension).len() > 0,
    ensures
        path.file_name() is None ==> path.replace_extension(extension) == path,
        path.file_name() matches Some(name) ==> {
            let made = path.replace_extension(extension);
            &&& made.file_name() == Some(stem(name).push(DOT) + encode_utf8(extension))
            &&& made.parent() == path.parent()
            &&& 0 <= kept <= path.bytes.len()
            &&& made.bytes == path.bytes.take(kept).push(DOT) + encode_utf8(extension)
        },
{
    if path.file_name() is None {
        0
    } else {
        let body = path.body();
        let trimmed = path.trimmed();
        let name = trimmed.last();
        let made = path.replace_extension(extension);
        let file = stem(name).push(DOT) + encode_utf8(extension);
        let less = trimmed.drop_last();
        let pieces = less.push(file);
        let separator = seq![SEPARATOR];
        law_path_is_its_front_and_body(path);
        lemma_drop_trailing(body);
        assert(name == body[trimmed.len() - 1]);
        lemma_stem(name);
        assert forall|i: int| 0 <= i < pieces.len() implies !(#[trigger] pieces[i]).contains(
            SEPARATOR,
        ) by {
            if i < less.len() {
                assert(pieces[i] == body[i]);
            } else if file.contains(SEPARATOR) {
                let at = choose|at: int| 0 <= at < file.len() && file[at] == SEPARATOR;
                if at < stem(name).len() {
                    assert(stem(name)[at] == SEPARATOR);
                } else {
                    assert(encode_utf8(extension)[at - stem(name).len() - 1] == SEPARATOR);
                }
            }
        }
        assert(file.len() >= 3);
        assert(seq![DOT].len() == 1 && seq![DOT, DOT].len() == 2);
        if trimmed.len() == 1 && path.front() == seq![DOT] {
            lemma_dot_front(path);
            assert(trimmed[0] == body[0]);
        }
        assert(pieces.len() >= 2 ==> pieces[0] == body[0]);
        lemma_with_body(path, pieces);
        assert(made.trimmed() == pieces);
        assert(pieces.drop_last() =~= less);
        assert(made.parent()->0 =~= path.parent()->0);
        lemma_stem_prefix(name);
        assert(less.push(name) =~= trimmed);
        lemma_joined_push(less, name);
        lemma_joined_push(less, file);
        lemma_joined_prefix(body, trimmed.len() as int);
        assert(trimmed =~= body.take(trimmed.len() as int));
        let before = joined_before(less);
        let kept = path.front().len() + before.len() + stem(name).len();
        let all = joined(body, separator);
        assert(joined(trimmed, separator) == before + name);
        assert(path.bytes == path.front() + all);
        assert(all.take((before + name).len() as int) =~= before + name);
        let begin = path.front() + (before + stem(name));
        let end = path.front().len() + (before + name).len();
        assert(path.bytes.take(end as int) =~= begin + name.skip(stem(name).len() as int)) by {
            assert(stem(name) + name.skip(stem(name).len() as int) =~= name);
            assert(path.bytes.take(end as int) =~= path.front() + (before + name));
        }
        lemma_part(path.bytes, begin, name.skip(stem(name).len() as int), end as int);
        assert(made.bytes =~= path.bytes.take(kept as int).push(DOT) + encode_utf8(extension));
        kept as int
    }
}

/// What stands before the last of the joined pieces.
pub open spec fn joined_before(pieces: Seq<Seq<u8>>) -> Seq<u8> {
    if pieces.len() == 0 {
        Seq::empty()
    } else {
        joined(pieces, seq![SEPARATOR]) + seq![SEPARATOR]
    }
}

/// One more piece stands at the very end of the joined pieces.
pub proof fn lemma_joined_push(pieces: Seq<Seq<u8>>, piece: Seq<u8>)
    ensures
        joined(pieces.push(piece), seq![SEPARATOR]) == joined_before(pieces) + piece,
{
    law_joined_of_both(pieces, seq![piece], seq![SEPARATOR]);
    law_joined_of_both(seq![piece], seq![], seq![SEPARATOR]);
    assert(pieces + seq![piece] =~= pieces.push(piece));
    if pieces.len() == 0 {
        assert(pieces.push(piece) =~= seq![piece]);
        assert(joined_before(pieces) + piece =~= piece);
    }
}

/// A name begins with its stem.
proof fn lemma_stem_prefix(name: Seq<u8>)
    requires
        name.len() > 0,
        !name.contains(SEPARATOR),
    ensures
        stem(name).is_prefix_of(name),
{
    lemma_stem(name);
    lemma_last_dot_is_inside(name);
}

/// The last `.` of a name stands inside it.
proof fn lemma_last_dot_is_inside(name: Seq<u8>)
    ensures
        last_dot(name) < name.len() || last_dot(name) == -1,
    decreases name.len(),
{
    if name.len() > 0 {
        lemma_last_dot_is_inside(name.drop_last());
    }
}

} // verus!
