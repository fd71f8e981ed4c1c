//! Splitting and joining text.

use vstd::prelude::*;
use vstd::string::*;
use vstd::utf8::*;

verus! {

/// The characters of each of `strings`.
pub open spec fn texts(strings: Seq<String>) -> Seq<Seq<char>> {
    strings.map_values(|s: String| s@)
}

/// The pieces `pieces` one after the other, with `separator` between any two
/// neighbours.
pub open spec fn joined<C>(pieces: Seq<Seq<C>>, separator: Seq<C>) -> Seq<C>
    decreases pieces.len(),
{
    if pieces.len() == 0 {
        Seq::empty()
    } else if pieces.len() == 1 {
        pieces.first()
    } else {
        joined(pieces.drop_last(), separator) + (separator + pieces.last())
    }
}

/// The pieces of `text` before, between and after the occurrences of
/// `separator`: one more than there are occurrences.
pub open spec fn split_on<C>(text: Seq<C>, separator: C) -> Seq<Seq<C>>
    decreases text.len(),
{
    if text.len() == 0 {
        seq![Seq::empty()]
    } else {
        let pieces = split_on(text.drop_last(), separator);
        if text.last() == separator {
            pieces.push(Seq::empty())
        } else {
            pieces.drop_last().push(pieces.last().push(text.last()))
        }
    }
}

/// Splitting yields at least one piece and no piece holds the separator; joined
/// by the separator, the pieces are the text again.
pub proof fn lemma_split_then_join<C>(text: Seq<C>, separator: C)
    ensures
        split_on(text, separator).len() >= 1,
        forall|i: int|
            0 <= i < split_on(text, separator).len() ==> !(#[trigger] split_on(
                text,
                separator,
            )[i]).contains(separator),
        joined(split_on(text, separator), seq![separator]) == text,
    decreases text.len(),
{
    let pieces = split_on(text, separator);
    if text.len() == 0 {
        assert(pieces[0] =~= Seq::<C>::empty());
    } else {
        let before = split_on(text.drop_last(), separator);
        lemma_split_then_join(text.drop_last(), separator);
        if text.last() == separator {
            assert(pieces.drop_last() =~= before);
            assert(joined(pieces, seq![separator]) =~= text);
            assert forall|i: int| 0 <= i < pieces.len() implies !(
            #[trigger] pieces[i]).contains(separator) by {
                if i < before.len() {
                    assert(pieces[i] == before[i]);
                }
            }
        } else {
            lemma_joined_extend_last(before, seq![separator], text.last());
            assert(joined(pieces, seq![separator]) =~= text);
            assert forall|i: int| 0 <= i < pieces.len() implies !(
            #[trigger] pieces[i]).contains(separator) by {
                if i < before.len() - 1 {
                    assert(pieces[i] == before[i]);
                } else {
                    assert(!before.last().contains(separator));
                    let last = before.last().push(text.last());
                    if last.contains(separator) {
                        let at = choose|at: int| 0 <= at < last.len() && last[at] == separator;
                        assert(at < before.last().len());
                        assert(before.last()[at] == separator);
                    }
                }
            }
        }
    }
}

/// One more character in the last piece is one more character of the joined
/// text.
proof fn lemma_joined_extend_last<C>(pieces: Seq<Seq<C>>, separator: Seq<C>, c: C)
    requires
        pieces.len() >= 1,
    ensures
        joined(pieces.drop_last().push(pieces.last().push(c)), separator) == joined(
            pieces,
            separator,
        ).push(c),
{
    let extended = pieces.drop_last().push(pieces.last().push(c));
    assert(extended.drop_last() =~= pieces.drop_last());
    assert(joined(extended, separator) =~= joined(pieces, separator).push(c));
}

/// Joining pieces that do not hold the separator and splitting the text again
/// gives the pieces back.
pub proof fn lemma_join_then_split<C>(pieces: Seq<Seq<C>>, separator: C)
    requires
        pieces.len() >= 1,
        forall|i: int| 0 <= i < pieces.len() ==> !(#[trigger] pieces[i]).contains(separator),
    ensures
        split_on(joined(pieces, seq![separator]), separator) == pieces,
    decreases pieces.len(), pieces.last().len(),
{
    let text = joined(pieces, seq![separator]);
    let last = pieces.last();
    if last.len() == 0 {
        if pieces.len() == 1 {
            assert(pieces[0] =~= Seq::<C>::empty());
            assert(pieces =~= seq![Seq::<C>::empty()]);
        } else {
            lemma_join_then_split(pieces.drop_last(), separator);
            assert(text.drop_last() =~= joined(pieces.drop_last(), seq![separator]));
            assert(last =~= Seq::<C>::empty());
            assert(split_on(text, separator) =~= pieces);
        }
    } else {
        let shorter = pieces.drop_last().push(last.drop_last());
        assert forall|i: int| 0 <= i < shorter.len() implies !(#[trigger] shorter[i]).contains(
            separator,
        ) by {
            if i < pieces.len() - 1 {
                assert(shorter[i] == pieces[i]);
            } else if shorter[i].contains(separator) {
                let at = choose|at: int| 0 <= at < shorter[i].len() && shorter[i][at] == separator;
                assert(last[at] == separator);
                assert(pieces[i].contains(separator));
            }
        }
        lemma_join_then_split(shorter, separator);
        lemma_joined_extend_last(shorter, seq![separator], last.last());
        assert(shorter.drop_last() =~= pieces.drop_last());
        assert(last.drop_last().push(last.last()) =~= last);
        assert(shorter.drop_last().push(shorter.last().push(last.last())) =~= pieces);
        assert(text.drop_last() =~= joined(shorter, seq![separator]));
        assert(!pieces[pieces.len() - 1].contains(separator));
        assert(text.last() == last.last());
        assert(last[last.len() - 1] != separator);
        assert(split_on(text, separator) =~= pieces);
    }
}

/// Joining is putting one after the other: nothing makes nothing, one piece is itself,
/// and what is joined of two lists is what is joined of each, with one separator
/// between.
pub proof fn law_joined_of_both<C>(first: Seq<Seq<C>>, second: Seq<Seq<C>>, separator: Seq<C>)
    ensures
        first.len() == 0 ==> joined(first, separator).len() == 0,
        first.len() == 1 ==> joined(first, separator) == first[0],
        first.len() > 0 && second.len() > 0 ==> joined(first + second, separator) == joined(
            first,
            separator,
        ) + separator + joined(second, separator),
    decreases second.len(),
{
    if first.len() > 0 && second.len() > 0 {
        let less = second.drop_last();
        assert((first + second).drop_last() =~= first + less);
        if less.len() == 0 {
            assert(first + less =~= first);
            assert(joined(first + second, separator) =~= joined(first, separator) + separator
                + joined(second, separator));
        } else {
            law_joined_of_both(first, less, separator);
            assert(joined(first + second, separator) =~= joined(first, separator) + separator
                + joined(second, separator));
        }
    }
}

/// Appending what does not hold the separator makes the last piece longer.
pub proof fn lemma_split_of_longer<C>(text: Seq<C>, more: Seq<C>, separator: C)
    requires
        !more.contains(separator),
    ensures
        split_on(text + more, separator) == split_on(text, separator).drop_last().push(
            split_on(text, separator).last() + more,
        ),
    decreases more.len(),
{
    lemma_split_then_join(text, separator);
    let before = split_on(text, separator);
    if more.len() == 0 {
        assert(text + more =~= text);
        assert(before.last() + more =~= before.last());
        assert(before.drop_last().push(before.last()) =~= before);
    } else {
        let less = more.drop_last();
        assert(!less.contains(separator)) by {
            if less.contains(separator) {
                let i = choose|i: int| 0 <= i < less.len() && less[i] == separator;
                assert(more[i] == separator);
            }
        }
        lemma_split_of_longer(text, less, separator);
        assert((text + more).drop_last() =~= text + less);
        assert(more[more.len() - 1] == more.last());
        assert((before.last() + less).push(more.last()) =~= before.last() + more);
        assert(before.drop_last().push(before.last() + less).drop_last() =~= before.drop_last());
    }
}

/// The UTF-8 encoding of each of `texts`.
pub open spec fn encoded(texts: Seq<Seq<char>>) -> Seq<Seq<u8>> {
    texts.map_values(|text: Seq<char>| encode_utf8(text))
}

/// The encoding of a character holds the byte of an ASCII character exactly where it
/// is that character.
proof fn lemma_encoded_char(c: char, separator: char)
    requires
        separator <= '\u{7f}',
    ensures
        c == separator ==> encode_scalar(c as u32) == seq![separator as u8],
        c != separator ==> !encode_scalar(c as u32).contains(separator as u8),
{
    let v = c as u32;
    let s = separator as u32;
    assert(v < 0x80 ==> (v & 0x7F) as u8 == v as u8) by (bit_vector);
    assert(v < 0x80 && s < 0x80 && v as u8 == s as u8 ==> v == s) by (bit_vector);
    assert(s < 0x80 ==> (s as u8) < 0x80) by (bit_vector);
    assert(0xC0u8 | ((v >> 6) & 0x1F) as u8 >= 0x80) by (bit_vector);
    assert(0xE0u8 | ((v >> 12) & 0x0F) as u8 >= 0x80) by (bit_vector);
    assert(0xF0u8 | ((v >> 18) & 0x7) as u8 >= 0x80) by (bit_vector);
    assert(0x80u8 | (v & 0x3F) as u8 >= 0x80) by (bit_vector);
    assert(0x80u8 | ((v >> 6) & 0x3F) as u8 >= 0x80) by (bit_vector);
    assert(0x80u8 | ((v >> 12) & 0x3F) as u8 >= 0x80) by (bit_vector);
}

/// The encoding of a text is that of its characters, one after the other.
proof fn lemma_encode_push(text: Seq<char>, c: char)
    ensures
        encode_utf8(text.push(c)) == encode_utf8(text) + encode_scalar(c as u32),
    decreases text.len(),
{
    let longer = text.push(c);
    if text.len() == 0 {
        assert(longer.drop_first() =~= text);
        assert(encode_utf8(text) =~= Seq::<u8>::empty());
        assert(encode_utf8(longer) =~= encode_utf8(text) + encode_scalar(c as u32));
    } else {
        lemma_encode_push(text.drop_first(), c);
        assert(longer.drop_first() =~= text.drop_first().push(c));
        assert(encode_utf8(longer) =~= encode_utf8(text) + encode_scalar(c as u32));
    }
}

/// The encoding of two texts is that of the first and then that of the second.
pub proof fn lemma_encode_both(first: Seq<char>, second: Seq<char>)
    ensures
        encode_utf8(first + second) == encode_utf8(first) + encode_utf8(second),
    decreases second.len(),
{
    if second.len() == 0 {
        assert(first + second =~= first);
        assert(encode_utf8(second) =~= Seq::<u8>::empty());
        assert(encode_utf8(first) + encode_utf8(second) =~= encode_utf8(first));
    } else {
        let less = second.drop_last();
        lemma_encode_both(first, less);
        lemma_encode_push(first + less, second.last());
        lemma_encode_push(less, second.last());
        assert((first + less).push(second.last()) =~= first + second);
        assert(less.push(second.last()) =~= second);
        assert(encode_utf8(first + second) =~= encode_utf8(first) + encode_utf8(second));
    }
}

/// Splitting the encoding of a text at the byte of an ASCII character gives the
/// encodings of the pieces of the text.
pub proof fn lemma_split_encoded(text: Seq<char>, separator: char)
    requires
        separator <= '\u{7f}',
    ensures
        split_on(encode_utf8(text), separator as u8) == encoded(split_on(text, separator)),
    decreases text.len(),
{
    let bytes = encode_utf8(text);
    let byte = separator as u8;
    let pieces = split_on(text, separator);
    if text.len() == 0 {
        assert(split_on(bytes, byte) =~= encoded(pieces));
    } else {
        let less = text.drop_last();
        let c = text.last();
        let before = split_on(less, separator);
        let all = encode_utf8(less);
        lemma_split_encoded(less, separator);
        lemma_split_then_join(less, separator);
        lemma_encode_push(less, c);
        lemma_encoded_char(c, separator);
        assert(less.push(c) =~= text);
        if c == separator {
            assert(bytes.drop_last() =~= all);
            assert(split_on(bytes, byte) =~= encoded(pieces));
        } else {
            lemma_split_of_longer(all, encode_scalar(c as u32), byte);
            lemma_encode_push(before.last(), c);
            assert(split_on(bytes, byte) =~= encoded(pieces));
        }
    }
}

/// The encodings of pieces that do not hold an ASCII separator, joined by its byte, are
/// the encoding of the joined pieces.
pub proof fn lemma_joined_encoded(pieces: Seq<Seq<char>>, separator: char)
    requires
        separator <= '\u{7f}',
        pieces.len() >= 1,
        forall|i: int| 0 <= i < pieces.len() ==> !(#[trigger] pieces[i]).contains(separator),
    ensures
        joined(encoded(pieces), seq![separator as u8]) == encode_utf8(
            joined(pieces, seq![separator]),
        ),
{
    let text = joined(pieces, seq![separator]);
    lemma_join_then_split(pieces, separator);
    lemma_split_encoded(text, separator);
    lemma_split_then_join(encode_utf8(text), separator as u8);
}

/// Different texts have different encodings.
pub proof fn lemma_encoding_differs(one: Seq<char>, other: Seq<char>)
    requires
        one != other,
    ensures
        encode_utf8(one) != encode_utf8(other),
{
    encode_utf8_decode_utf8(one);
    encode_utf8_decode_utf8(other);
}

/// The encoding of a text that does not hold an ASCII character does not hold its byte.
pub proof fn lemma_encoded_without(text: Seq<char>, c: char)
    requires
        c <= '\u{7f}',
        !text.contains(c),
    ensures
        !encode_utf8(text).contains(c as u8),
{
    lemma_join_then_split(seq![text], c);
    lemma_split_encoded(text, c);
    lemma_split_then_join(encode_utf8(text), c as u8);
    assert(joined(seq![text], seq![c]) =~= text);
    assert(split_on(encode_utf8(text), c as u8)[0] == encode_utf8(text));
}

/// The encoding of a text has at least as many bytes as the text has characters.
pub proof fn lemma_encoded_is_as_long(text: Seq<char>)
    ensures
        encode_utf8(text).len() >= text.len(),
    decreases text.len(),
{
    if text.len() > 0 {
        lemma_encoded_is_as_long(text.drop_first());
    }
}

/// Joining pieces that do not hold `c` by another character makes a text that does
/// not hold it.
pub proof fn lemma_joined_without(pieces: Seq<Seq<char>>, separator: char, c: char)
    requires
        separator != c,
        forall|i: int| 0 <= i < pieces.len() ==> !(#[trigger] pieces[i]).contains(c),
    ensures
        !joined(pieces, seq![separator]).contains(c),
    decreases pieces.len(),
{
    let text = joined(pieces, seq![separator]);
    if pieces.len() == 1 {
        assert(!pieces[0].contains(c));
    } else if pieces.len() > 1 {
        lemma_joined_without(pieces.drop_last(), separator, c);
        let before = joined(pieces.drop_last(), seq![separator]);
        assert(!pieces[pieces.len() - 1].contains(c));
        if text.contains(c) {
            let i = choose|i: int| 0 <= i < text.len() && text[i] == c;
            if i < before.len() {
                assert(before[i] == c);
            } else {
                assert(i > before.len());
                assert(pieces.last()[i - before.len() - 1] == c);
            }
        }
    }
}

/// Splits `text` at every `separator`.
pub fn split(text: &str, separator: char) -> (pieces: Vec<String>)
    ensures
        texts(pieces@) == split_on(text@, separator),
{
    let length: usize = text.unicode_len();
    let mut pieces: Vec<String> = Vec::new();
    let mut start: usize = 0;
    let mut end: usize = 0;
    assert(text@.take(0) =~= Seq::<char>::empty());
    assert(text@.subrange(0, 0) =~= Seq::<char>::empty());
    assert(texts(pieces@).push(Seq::empty()) =~= seq![Seq::<char>::empty()]);
    for c in chars: text.chars()
        invariant
            chars.seq() == text@,
            length == text@.len(),
            end == chars.index(),
            start <= end,
            split_on(text@.take(end as int), separator) == texts(pieces@).push(
                text@.subrange(start as int, end as int),
            ),
    {
        let ghost before = text@.take(end as int);
        let ghost done = texts(pieces@);
        assert(text@.take(end + 1).drop_last() =~= before);
        if c == separator {
            let piece = text.substring_char(start, end).to_owned();
            pieces.push(piece);
            start = end + 1;
            assert(texts(pieces@) =~= done.push(piece@));
            assert(text@.subrange(start as int, end + 1) =~= Seq::<char>::empty());
        } else {
            assert(done.push(text@.subrange(start as int, end as int)).drop_last() =~= done);
            assert(text@.subrange(start as int, end + 1) =~= text@.subrange(
                start as int,
                end as int,
            ).push(c));
        }
        end = end + 1;
    }
    assert(text@.take(end as int) =~= text@);
    pieces.push(text.substring_char(start, end).to_owned());
    assert(texts(pieces@) =~= split_on(text@, separator));
    pieces
}

/// Joins `pieces`, with `separator` between neighbours.
pub fn join(pieces: &Vec<String>, separator: &str) -> (text: String)
    ensures
        text@ == joined(texts(pieces@), separator@),
{
    let mut text = String::new();
    let ghost all = texts(pieces@);
    for i in 0..pieces.len()
        invariant
            all == texts(pieces@),
            text@ == joined(all.take(i as int), separator@),
    {
        if i > 0 {
            text.append(separator);
        }
        text.append(pieces[i].as_str());
        assert(all.take(i + 1).drop_last() =~= all.take(i as int));
        assert(text@ =~= joined(all.take(i + 1), separator@));
    }
    assert(all.take(pieces.len() as int) =~= all);
    text
}

/// What [`split`] returns: at least one piece, none of which holds the separator, and
/// joined by the separator they are the text again.
pub proof fn law_split(text: &str, separator: char, pieces: Vec<String>)
    requires
        call_ensures(split, (text, separator), pieces),
    ensures
        pieces@.len() >= 1,
        forall|i: int| 0 <= i < pieces@.len() ==> !(#[trigger] pieces@[i])@.contains(separator),
        joined(pieces@.map_values(|piece: String| piece@), seq![separator]) == text@,
{
    lemma_split_then_join(text@, separator);
    assert(pieces@.map_values(|piece: String| piece@) =~= split_on(text@, separator));
    assert forall|i: int| 0 <= i < pieces@.len() implies !(#[trigger] pieces@[i])@.contains(
        separator,
    ) by {
        assert(pieces@[i]@ == split_on(text@, separator)[i]);
    }
}

/// What [`join`] returns: the pieces, one after the other, with the separator between.
pub proof fn law_join(pieces: &Vec<String>, separator: &str, text: String)
    requires
        call_ensures(join, (pieces, separator), text),
    ensures
        text@ == joined(pieces@.map_values(|piece: String| piece@), separator@),
{
    assert(pieces@.map_values(|piece: String| piece@) =~= texts(pieces@));
}

} // verus!
