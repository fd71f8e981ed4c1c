//! What holds of every collection of sources.

use crate::layout_laws::{gap, law_names_below_a_base_are_left, lemma_encoded_name};
use crate::model::{input_views, Input, ModuleOrigin};
use crate::path::{FilePath, SEPARATOR};
use crate::path_laws::law_strip_prefix_splits_the_steps;
use crate::source::{
    are_segments, collect_source, gleam_path, is_collected, is_gleam_path, is_gleam_path_text,
    is_name_char, is_opened, is_segment, source_entries, source_inputs, DirEntry,
};
use crate::text::{
    encoded, joined, law_joined_of_both, lemma_joined_encoded, lemma_split_then_join, split_on,
};
use vstd::prelude::*;
use vstd::utf8::*;

verus! {

/// The text, read character by character: it ends in `.gleam`, before that come only
/// letters from `a` to `z`, underscores and `/`, at least one character, and no `/` is
/// the first of them, the last of them or next to another.
pub open spec fn reads_as_source(text: Seq<char>) -> bool {
    let count = text.len() - 6;
    &&& count > 0
    &&& text.skip(count) == seq!['.', 'g', 'l', 'e', 'a', 'm']
    &&& forall|i: int|
        #![trigger text[i]]
        0 <= i < count ==> text[i] == '/' || text[i] == '_' || ('a' <= text[i] && text[i] <= 'z')
    &&& text[0] != '/'
    &&& text[count - 1] != '/'
    &&& forall|i: int|
        #![trigger text[i]]
        0 <= i < count - 1 ==> !(text[i] == '/' && text[i + 1] == '/')
}

/// What the text of segments, joined by `/`, looks like.
proof fn lemma_segments_read(segments: Seq<Seq<char>>)
    requires
        are_segments(segments),
    ensures
        ({
            let text = joined(segments, seq!['/']);
            &&& text.len() > 0
            &&& forall|i: int|
                #![trigger text[i]]
                0 <= i < text.len() ==> text[i] == '/' || is_name_char(text[i])
            &&& text[0] != '/'
            &&& text[text.len() - 1] != '/'
            &&& forall|i: int|
                #![trigger text[i]]
                0 <= i < text.len() - 1 ==> !(text[i] == '/' && text[i + 1] == '/')
        }),
    decreases segments.len(),
{
    let last = segments[segments.len() - 1];
    let less = segments.drop_last();
    let text = joined(segments, seq!['/']);
    assert(is_segment(last));
    assert(is_name_char(last[0]) && is_name_char(last[last.len() - 1]));
    law_joined_of_both(less, seq![last], seq!['/']);
    law_joined_of_both(seq![last], seq![], seq!['/']);
    assert(less + seq![last] =~= segments);
    if less.len() == 0 {
        assert(segments =~= seq![last]);
        assert(text == last);
        assert forall|i: int|
            #![trigger text[i]]
            0 <= i < text.len() - 1 implies !(text[i] == '/' && text[i + 1] == '/') by {
            assert(is_name_char(last[i]));
        }
    } else {
        assert forall|i: int| 0 <= i < less.len() implies is_segment(#[trigger] less[i]) by {
            assert(less[i] == segments[i]);
        }
        lemma_segments_read(less);
        let before = joined(less, seq!['/']);
        let count = before.len() as int;
        assert(text == before + seq!['/'] + last);
        assert forall|i: int| #![trigger text[i]] 0 <= i < text.len() implies text[i] == '/'
            || is_name_char(text[i]) by {
            if i < count {
                assert(text[i] == before[i]);
            } else if i > count {
                assert(text[i] == last[i - count - 1]);
            }
        }
        assert forall|i: int|
            #![trigger text[i]]
            0 <= i < text.len() - 1 implies !(text[i] == '/' && text[i + 1] == '/') by {
            if i < count - 1 {
                assert(text[i] == before[i] && text[i + 1] == before[i + 1]);
            } else if i == count - 1 {
                assert(text[i] == before[count - 1]);
            } else {
                assert(text[i + 1] == last[i - count]);
                assert(is_name_char(last[i - count]));
            }
        }
        assert(text[0] == before[0]);
        assert(text[text.len() - 1] == last[last.len() - 1]);
    }
}

/// Where no `/` is the first character or next to another, only the last piece between
/// them can be empty, and it is where the last character is a `/`.
proof fn lemma_pieces_read(text: Seq<char>)
    requires
        text.len() > 0,
        forall|i: int|
            #![trigger text[i]]
            0 <= i < text.len() ==> text[i] == '/' || is_name_char(text[i]),
        text[0] != '/',
        forall|i: int|
            #![trigger text[i]]
            0 <= i < text.len() - 1 ==> !(text[i] == '/' && text[i + 1] == '/'),
    ensures
        split_on(text, '/').len() >= 1,
        forall|i: int|
            0 <= i < split_on(text, '/').len() - 1 ==> is_segment(#[trigger] split_on(text, '/')[i]),
        text.last() != '/' ==> is_segment(split_on(text, '/').last()),
        text.last() == '/' ==> split_on(text, '/').last().len() == 0,
    decreases text.len(),
{
    let less = text.drop_last();
    let pieces = split_on(text, '/');
    let before = split_on(less, '/');
    assert(text[text.len() - 1] == text.last());
    if less.len() == 0 {
        assert(before =~= seq![Seq::<char>::empty()]);
        assert(pieces =~= seq![Seq::<char>::empty().push(text.last())]);
        assert(pieces[0] =~= seq![text[0]]);
        assert(is_segment(pieces[0]));
    } else {
        assert forall|i: int| #![trigger less[i]] 0 <= i < less.len() implies less[i] == '/'
            || is_name_char(less[i]) by {
            assert(less[i] == text[i]);
        }
        assert forall|i: int|
            #![trigger less[i]]
            0 <= i < less.len() - 1 implies !(less[i] == '/' && less[i + 1] == '/') by {
            assert(less[i] == text[i]);
        }
        lemma_pieces_read(less);
        assert(less[less.len() - 1] == text[text.len() - 2]);
        if text.last() == '/' {
            assert(less.last() != '/');
            assert(pieces == before.push(Seq::empty()));
            assert forall|i: int| 0 <= i < pieces.len() - 1 implies is_segment(
                #[trigger] pieces[i],
            ) by {
                assert(pieces[i] == before[i]);
            }
        } else {
            let last = before.last().push(text.last());
            assert(pieces == before.drop_last().push(last));
            assert forall|i: int| 0 <= i < pieces.len() - 1 implies is_segment(
                #[trigger] pieces[i],
            ) by {
                assert(pieces[i] == before[i]);
            }
            assert forall|c: int| 0 <= c < last.len() implies is_name_char(#[trigger] last[c]) by {
                if c < last.len() - 1 {
                    assert(last[c] == before.last()[c]);
                } else {
                    assert(text[text.len() - 1] == last[c]);
                }
            }
        }
    }
}

/// A text is the path of a source exactly where it reads as one.
pub proof fn law_gleam_paths_read_as_sources(text: &str, result: bool)
    requires
        call_ensures(is_gleam_path, (text,), result),
    ensures
        result <==> reads_as_source(text@),
{
    lemma_gleam_paths_read_as_sources(text@);
}

/// A text is the path of a source exactly where it reads as one.
proof fn lemma_gleam_paths_read_as_sources(text: Seq<char>)
    ensures
        is_gleam_path_text(text) <==> reads_as_source(text),
{
    reveal_strlit(".gleam");
    let end = seq!['.', 'g', 'l', 'e', 'a', 'm'];
    let count = text.len() - 6;
    assert(".gleam"@ =~= end);
    if is_gleam_path_text(text) {
        let segments = choose|segments: Seq<Seq<char>>|
            are_segments(segments) && text == #[trigger] gleam_path(segments);
        let name = joined(segments, seq!['/']);
        lemma_segments_read(segments);
        assert(text.skip(count) =~= end);
        assert forall|i: int| 0 <= i < count implies #[trigger] text[i] == name[i] by {}
        assert forall|i: int| #![trigger text[i]] 0 <= i < count implies text[i] == '/' || text[i]
            == '_' || ('a' <= text[i] && text[i] <= 'z') by {
            assert(name[i] == '/' || is_name_char(name[i]));
        }
        assert forall|i: int| #![trigger text[i]] 0 <= i < count - 1 implies !(text[i] == '/'
            && text[i + 1] == '/') by {
            assert(text[i] == name[i] && text[i + 1] == name[i + 1]);
        }
    }
    if reads_as_source(text) {
        let name = text.take(count);
        assert forall|i: int| #![trigger name[i]] 0 <= i < name.len() implies name[i] == '/'
            || is_name_char(name[i]) by {
            assert(name[i] == text[i]);
        }
        assert forall|i: int| #![trigger name[i]] 0 <= i < name.len() - 1 implies !(name[i] == '/'
            && name[i + 1] == '/') by {
            assert(name[i] == text[i] && name[i + 1] == text[i + 1]);
        }
        lemma_pieces_read(name);
        lemma_split_then_join(name, '/');
        let segments = split_on(name, '/');
        assert forall|i: int| 0 <= i < segments.len() implies is_segment(
            #[trigger] segments[i],
        ) by {
            if i == segments.len() - 1 {
                assert(segments[i] == segments.last());
            }
        }
        assert(text =~= name + end);
        assert(text == gleam_path(segments));
    }
}

/// What a filter keeps stands in the list, in the order in which it stands there.
proof fn lemma_filter_places<A>(list: Seq<A>, keeps: spec_fn(A) -> bool) -> (places: Seq<int>)
    ensures
        places.len() == list.filter(keeps).len(),
        forall|k: int|
            0 <= k < places.len() ==> 0 <= #[trigger] places[k] < list.len() && list[places[k]]
                == list.filter(keeps)[k],
        forall|j: int, k: int| 0 <= j < k < places.len() ==> places[j] < places[k],
        forall|i: int| 0 <= i < list.len() ==> (places.contains(i) <==> keeps(#[trigger] list[i])),
    decreases list.len(),
{
    reveal(Seq::filter);
    if list.len() == 0 {
        Seq::empty()
    } else {
        let less = list.drop_last();
        let last = list.len() - 1;
        let before = lemma_filter_places(less, keeps);
        let places = if keeps(list.last()) {
            before.push(last)
        } else {
            before
        };
        assert forall|i: int| 0 <= i < list.len() implies (places.contains(i) <==> keeps(
            #[trigger] list[i],
        )) by {
            if i < last {
                assert(less[i] == list[i]);
                if before.contains(i) {
                    let k = choose|k: int| 0 <= k < before.len() && before[k] == i;
                    assert(places[k] == i);
                }
                if places.contains(i) {
                    let k = choose|k: int| 0 <= k < places.len() && places[k] == i;
                    assert(before[k] == i);
                }
            } else {
                if keeps(list.last()) {
                    assert(places[places.len() - 1] == i);
                }
                if places.contains(i) {
                    let k = choose|k: int| 0 <= k < places.len() && places[k] == i;
                    if k < before.len() {
                        assert(before[k] < less.len());
                    }
                }
            }
        }
        places
    }
}

/// Collecting keeps the inputs that are there and appends one for each file whose path
/// below the directory reads as that of a source, in the order of the entries, and none
/// else. The input is made of what opening that file gave, of the directory and of the
/// origin. What is found is the places of the files among the entries and what opening
/// gave for each.
pub proof fn law_exactly_the_sources_are_collected<Open>(
    src_dir: FilePath,
    origin: ModuleOrigin,
    entries: Seq<DirEntry>,
    open: Open,
    before: Seq<Input>,
    after: Seq<Input>,
) -> (found: (Seq<int>, Seq<(FilePath, String)>)) where Open: Fn(&FilePath) -> (FilePath, String)
    requires
        is_collected(src_dir@, origin, entries, open, before, after),
    ensures
        found.0.len() == found.1.len(),
        after.len() == before.len() + found.0.len(),
        forall|i: int| 0 <= i < before.len() ==> #[trigger] after[i] == before[i],
        forall|k: int| 0 <= k < found.0.len() ==> 0 <= #[trigger] found.0[k] < entries.len(),
        forall|j: int, k: int| 0 <= j < k < found.0.len() ==> found.0[j] < found.0[k],
        forall|i: int|
            0 <= i < entries.len() ==> (found.0.contains(i) <==> {
                &&& (#[trigger] entries[i]).is_file
                &&& entries[i].path@.strip_prefix(src_dir@) matches Some(rest)
                &&& valid_utf8(rest.bytes)
                &&& reads_as_source(decode_utf8(rest.bytes))
            }),
        forall|k: int|
            0 <= k < found.1.len() ==> call_ensures(
                open,
                (&entries[found.0[k]].path,),
                #[trigger] found.1[k],
            ),
        forall|k: int|
            0 <= k < found.1.len() ==> {
                let input = after[before.len() + k];
                &&& input.path.bytes@ == (#[trigger] found.1[k]).0.bytes@
                &&& input.src@ == found.1[k].1@
                &&& input.source_base_path.bytes@ == src_dir.bytes@
                &&& input.origin == origin
            },
{
    let opened = choose|opened: Seq<(FilePath, String)>|
        {
            &&& #[trigger] is_opened(open, src_dir@, entries, opened)
            &&& input_views(after) == input_views(before) + source_inputs(
                src_dir@,
                origin,
                opened,
            )
        };
    let is_source = |entry: DirEntry| entry.is_source(src_dir@);
    let places = lemma_filter_places(entries, is_source);
    assert(input_views(after).len() == after.len());
    assert(input_views(before).len() == before.len());
    assert(source_inputs(src_dir@, origin, opened).len() == opened.len());
    assert(source_entries(src_dir@, entries).len() == places.len());
    assert forall|i: int| 0 <= i < before.len() implies #[trigger] after[i] == before[i] by {
        assert(after.take(before.len() as int)[i] == before[i]);
    }
    assert forall|i: int| 0 <= i < entries.len() implies (places.contains(i) <==> {
        &&& (#[trigger] entries[i]).is_file
        &&& entries[i].path@.strip_prefix(src_dir@) matches Some(rest)
        &&& valid_utf8(rest.bytes)
        &&& reads_as_source(decode_utf8(rest.bytes))
    }) by {
        assert(is_source(entries[i]) == entries[i].is_source(src_dir@));
        if let Some(rest) = entries[i].path@.strip_prefix(src_dir@) {
            lemma_gleam_paths_read_as_sources(decode_utf8(rest.bytes));
        }
    }
    assert forall|k: int| 0 <= k < opened.len() implies {
        let input = after[before.len() + k];
        &&& call_ensures(open, (&entries[places[k]].path,), #[trigger] opened[k])
        &&& input.path.bytes@ == opened[k].0.bytes@
        &&& input.src@ == opened[k].1@
        &&& input.source_base_path.bytes@ == src_dir.bytes@
        &&& input.origin == origin
    } by {
        let input = after[before.len() + k];
        assert(source_entries(src_dir@, entries)[k] == entries[places[k]]);
        assert(input_views(after)[before.len() + k] == input@);
        assert(input@ == source_inputs(src_dir@, origin, opened)[k]);
    }
    (places, opened)
}

/// Every file that lies where segments lead below the directory, however many, with
/// `.gleam` behind the last of them, is collected: some appended input is made of what
/// opening it gave.
pub proof fn law_every_source_is_collected<Open>(
    src_dir: FilePath,
    origin: ModuleOrigin,
    entries: Seq<DirEntry>,
    open: Open,
    before: Seq<Input>,
    after: Seq<Input>,
    i: int,
    segments: Seq<Seq<char>>,
) -> (found: (int, (FilePath, String))) where Open: Fn(&FilePath) -> (FilePath, String)
    requires
        is_collected(src_dir@, origin, entries, open, before, after),
        0 <= i < entries.len(),
        entries[i].is_file,
        segments.len() > 0,
        forall|s: int| 0 <= s < segments.len() ==> (#[trigger] segments[s]).len() > 0,
        forall|s: int, c: int|
            #![trigger segments[s][c]]
            0 <= s < segments.len() && 0 <= c < segments[s].len() ==> segments[s][c] == '_' || (
            'a' <= segments[s][c] && segments[s][c] <= 'z'),
        entries[i].path.bytes@ == src_dir.bytes@ + gap(src_dir.bytes@) + encode_utf8(
            joined(segments, seq!['/']) + ".gleam"@,
        ),
    ensures
        before.len() <= found.0 < after.len(),
        call_ensures(open, (&entries[i].path,), found.1),
        after[found.0].path.bytes@ == found.1.0.bytes@,
        after[found.0].src@ == found.1.1@,
        after[found.0].source_base_path.bytes@ == src_dir.bytes@,
        after[found.0].origin == origin,
{
    reveal_strlit(".gleam");
    let last = segments[segments.len() - 1];
    let less = segments.drop_last();
    let pieces = less.push(last + ".gleam"@);
    let names = encoded(pieces);
    let text = joined(segments, seq!['/']) + ".gleam"@;
    assert forall|s: int| 0 <= s < segments.len() implies is_segment(
        #[trigger] segments[s],
    ) by {
        assert forall|c: int| 0 <= c < segments[s].len() implies is_name_char(
            #[trigger] segments[s][c],
        ) by {}
    }
    assert forall|s: int| 0 <= s < pieces.len() implies !(#[trigger] pieces[s]).contains('/')
        && pieces[s].len() > 0 && pieces[s] != seq!['.'] by {
        let segment = segments[s];
        assert(is_segment(segment));
        assert(is_name_char(segment[0]));
        assert(seq!['.'][0] == '.');
        assert(pieces[s][0] == segment[0]);
        if pieces[s].contains('/') {
            let c = choose|c: int| 0 <= c < pieces[s].len() && pieces[s][c] == '/';
            if c < segment.len() {
                assert(is_name_char(segment[c]));
                assert(pieces[s][c] == segment[c]);
            } else {
                assert(pieces[s][c] == ".gleam"@[c - segment.len()]);
            }
        }
    }
    assert(joined(pieces, seq!['/']) =~= text) by {
        law_joined_of_both(less, seq![last + ".gleam"@], seq!['/']);
        law_joined_of_both(less, seq![last], seq!['/']);
        law_joined_of_both(seq![last + ".gleam"@], seq![], seq!['/']);
        law_joined_of_both(seq![last], seq![], seq!['/']);
        assert(less + seq![last + ".gleam"@] =~= pieces);
        assert(less + seq![last] =~= segments);
        if less.len() == 0 {
            assert(pieces =~= seq![last + ".gleam"@]);
            assert(segments =~= seq![last]);
        }
    }
    lemma_joined_encoded(pieces, '/');
    assert forall|s: int| 0 <= s < names.len() implies (#[trigger] names[s]).len() > 0 && names[s]
        != seq![46u8] && !names[s].contains(SEPARATOR) by {
        lemma_encoded_name(pieces[s]);
    }
    law_names_below_a_base_are_left(src_dir@, names, entries[i].path@);
    encode_utf8_valid_utf8(text);
    encode_utf8_decode_utf8(text);
    assert(text == gleam_path(segments));
    assert(is_gleam_path_text(text));
    lemma_gleam_paths_read_as_sources(text);
    let (places, opened) = law_exactly_the_sources_are_collected(
        src_dir,
        origin,
        entries,
        open,
        before,
        after,
    );
    assert(places.contains(i));
    let k = choose|k: int| 0 <= k < places.len() && places[k] == i;
    (before.len() + k, opened[k])
}

/// Sources can be collected from any entries whose files lie below the directory, where
/// every file can be opened.
pub proof fn law_any_entries_can_be_collected<Open>(
    src_dir: &FilePath,
    origin: ModuleOrigin,
    entries: &Vec<DirEntry>,
    open: Open,
    srcs: &mut Vec<Input>,
) where Open: Fn(&FilePath) -> (FilePath, String)
    requires
        forall|i: int|
            #![trigger entries@[i]]
            0 <= i < entries@.len() && entries@[i].is_file
                ==> src_dir@.components().is_prefix_of(entries@[i].path@.components())
                && call_requires(open, (&entries@[i].path,)),
    ensures
        call_requires(collect_source::<Open>, (src_dir, origin, entries, open, srcs)),
{
    assert forall|i: int| 0 <= i < entries@.len() && (#[trigger] entries@[i]).is_file implies
        entries@[i].is_below(src_dir@) by {
        law_strip_prefix_splits_the_steps(entries@[i].path@, src_dir@);
    }
}

} // verus!
