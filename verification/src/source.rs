//! Collecting the sources of a project.

use crate::model::{input_views, Input, InputView, ModuleOrigin};
use crate::path::{FilePath, PathView};
use crate::text::joined;
use vstd::prelude::*;
use vstd::utf8::*;

verus! {

/// A lower case letter of the Latin alphabet or an underscore.
pub open spec fn is_name_char(c: char) -> bool {
    c == '_' || ('a' <= c && c <= 'z')
}

/// One or more letters or underscores.
pub open spec fn is_segment(text: Seq<char>) -> bool {
    text.len() > 0 && forall|i: int| 0 <= i < text.len() ==> is_name_char(#[trigger] text[i])
}

/// The segments `segments` make up a module name.
pub open spec fn are_segments(segments: Seq<Seq<char>>) -> bool {
    segments.len() > 0 && forall|i: int|
        0 <= i < segments.len() ==> is_segment(#[trigger] segments[i])
}

/// The path of the source of the module with these segments.
pub open spec fn gleam_path(segments: Seq<Seq<char>>) -> Seq<char> {
    joined(segments, seq!['/']) + ".gleam"@
}

/// The text `text` is the path of a module's source, from the directory of the
/// sources on.
pub open spec fn is_gleam_path_text(text: Seq<char>) -> bool {
    exists|segments: Seq<Seq<char>>| are_segments(segments) && text == #[trigger] gleam_path(segments)
}

/// Calls `regex::Regex::new` on `pattern` and `Regex::is_match` on `text`. The one
/// pattern that is admitted is accepted by `Regex::new`. It matches the texts that
/// are, from the first character to the last, any number of segments with a `/`
/// after each, then a segment and `.gleam`, where a segment is one or more of the
/// characters `a` to `z` and `_`.
#[verifier::external_body]
fn regex_is_match(pattern: &str, text: &str) -> (matched: bool)
    requires
        pattern@ == "^([a-z_]+/)*[a-z_]+\\.gleam$"@,
    ensures
        matched == is_gleam_path_text(text@),
{
    regex::Regex::new(pattern).unwrap().is_match(text)
}

/// Whether `text` is the path of a module's source, from the directory of the
/// sources on.
pub fn is_gleam_path(text: &str) -> (result: bool)
    ensures
        result == is_gleam_path_text(text@),
{
    regex_is_match("^([a-z_]+/)*[a-z_]+\\.gleam$", text)
}

/// Something that was found below the directory of the sources.
#[derive(Debug, PartialEq)]
pub struct DirEntry {
    pub is_file: bool,
    pub path: FilePath,
}

impl DirEntry {
    /// The entry lies below `src_dir`.
    pub open spec fn is_below(self, src_dir: PathView) -> bool {
        self.path@.strip_prefix(src_dir) is Some
    }

    /// The entry is the source of a module.
    pub open spec fn is_source(self, src_dir: PathView) -> bool {
        &&& self.is_file
        &&& self.path@.strip_prefix(src_dir) matches Some(rest)
        &&& valid_utf8(rest.bytes)
        &&& is_gleam_path_text(decode_utf8(rest.bytes))
    }
}

/// Those of `entries` that are sources of modules.
pub open spec fn source_entries(src_dir: PathView, entries: Seq<DirEntry>) -> Seq<DirEntry> {
    entries.filter(|entry: DirEntry| entry.is_source(src_dir))
}

/// The input that is made of a source: of its path, when all links are resolved,
/// and of its contents.
pub open spec fn source_input(
    src_dir: PathView,
    origin: ModuleOrigin,
    opened: (FilePath, String),
) -> InputView {
    InputView { source_base_path: src_dir, path: opened.0@, src: opened.1@, origin }
}

/// The inputs that are made of the sources `opened`.
pub open spec fn source_inputs(
    src_dir: PathView,
    origin: ModuleOrigin,
    opened: Seq<(FilePath, String)>,
) -> Seq<InputView> {
    opened.map_values(|file: (FilePath, String)| source_input(src_dir, origin, file))
}

/// The sources among `entries` are opened, one by one; `opened` is what came back
/// for each.
pub open spec fn is_opened<Open>(
    open: Open,
    src_dir: PathView,
    entries: Seq<DirEntry>,
    opened: Seq<(FilePath, String)>,
) -> bool where Open: Fn(&FilePath) -> (FilePath, String) {
    let sources = source_entries(src_dir, entries);
    &&& opened.len() == sources.len()
    &&& forall|k: int|
        0 <= k < opened.len() ==> call_ensures(
            open,
            (&sources[k].path,),
            #[trigger] opened[k],
        )
}

/// The inputs `after` are the inputs `before` and those that are made of the sources
/// among `entries`.
pub open spec fn is_collected<Open>(
    src_dir: PathView,
    origin: ModuleOrigin,
    entries: Seq<DirEntry>,
    open: Open,
    before: Seq<Input>,
    after: Seq<Input>,
) -> bool where Open: Fn(&FilePath) -> (FilePath, String) {
    &&& before.is_prefix_of(after)
    &&& exists|opened: Seq<(FilePath, String)>|
        {
            &&& #[trigger] is_opened(open, src_dir, entries, opened)
            &&& input_views(after) == input_views(before) + source_inputs(src_dir, origin, opened)
        }
}

/// Appends to `srcs` an input for each of `entries` that is the source of a module.
/// `open` opens a source: it returns its path, when all links are resolved, and
/// its contents. Nothing but sources is opened.
pub fn collect_source<Open>(
    src_dir: &FilePath,
    origin: ModuleOrigin,
    entries: &Vec<DirEntry>,
    open: Open,
    srcs: &mut Vec<Input>,
) where Open: Fn(&FilePath) -> (FilePath, String)
    requires
        forall|i: int|
            0 <= i < entries@.len() && (#[trigger] entries@[i]).is_file ==> entries@[i].is_below(
                src_dir@,
            ),
        forall|i: int|
            0 <= i < entries@.len() && (#[trigger] entries@[i]).is_source(src_dir@)
                ==> call_requires(open, (&entries@[i].path,)),
    ensures
        is_collected(src_dir@, origin, entries@, open, old(srcs)@, final(srcs)@),
        old(srcs)@.is_prefix_of(final(srcs)@),
        exists|opened: Seq<(FilePath, String)>|
            {
                &&& #[trigger] is_opened(open, src_dir@, entries@, opened)
                &&& input_views(final(srcs)@) == input_views(old(srcs)@) + source_inputs(
                    src_dir@,
                    origin,
                    opened,
                )
            },
{
    let ghost mut opened: Seq<(FilePath, String)> = Seq::empty();
    let ghost initial = srcs@;
    assert(input_views(initial) + source_inputs(src_dir@, origin, opened) =~= input_views(initial));
    assert(is_opened(open, src_dir@, entries@.take(0), opened)) by {
        assert(entries@.take(0) =~= Seq::<DirEntry>::empty());
        reveal_with_fuel(Seq::filter, 1);
    }
    for i in 0..entries.len()
        invariant
            forall|j: int|
                0 <= j < entries@.len() && (#[trigger] entries@[j]).is_file
                    ==> entries@[j].is_below(src_dir@),
            forall|j: int|
                0 <= j < entries@.len() && (#[trigger] entries@[j]).is_source(src_dir@)
                    ==> call_requires(open, (&entries@[j].path,)),
            is_opened(open, src_dir@, entries@.take(i as int), opened),
            initial == old(srcs)@,
            initial.is_prefix_of(srcs@),
            input_views(srcs@) == input_views(initial) + source_inputs(src_dir@, origin, opened),
    {
        let entry = &entries[i];
        assert(entries@.take(i + 1) =~= entries@.take(i as int).push(*entry));
        proof {
            entries@.take(i as int).lemma_filter_push(
                *entry,
                |entry: DirEntry| entry.is_source(src_dir@),
            );
        }
        if entry.is_file {
            let relative = entry.path.strip_prefix(src_dir).unwrap().to_str();
            if let Some(relative) = relative {
                if is_gleam_path(relative.as_str()) {
                    let ghost before = srcs@;
                    let file = open(&entry.path);
                    proof {
                        opened = opened.push(file);
                    }
                    let (path, src) = file;
                    let input = Input { source_base_path: src_dir.clone(), path, src, origin };
                    srcs.push(input);
                    assert(input_views(srcs@) =~= input_views(before).push(input@));
                    assert(input_views(srcs@) =~= input_views(initial) + source_inputs(
                        src_dir@,
                        origin,
                        opened,
                    ));
                }
            }
        }
    }
    assert(entries@.take(entries@.len() as int) =~= entries@);
}

} // verus!
