//! File paths, as Unix systems write them: any bytes, with `/` between names.

use crate::text::{joined, lemma_split_of_longer, lemma_split_then_join, split_on, texts};
use vstd::prelude::*;
use vstd::slice::*;
use vstd::string::*;
use vstd::utf8::*;

verus! {

/// The byte between the names of a path, `/`.
pub const SEPARATOR: u8 = 47;

/// The byte before the extension of a name, `.`.
pub const DOT: u8 = 46;

/// A file path. It need not be valid text.
#[derive(Debug)]
pub struct FilePath {
    pub bytes: Vec<u8>,
}

/// What a [`FilePath`] stands for.
#[verifier::ext_equal]
pub struct PathView {
    pub bytes: Seq<u8>,
}

/// The name of the current directory.
pub open spec fn dot() -> Seq<u8> {
    seq![DOT]
}

/// The name of the parent directory.
pub open spec fn dot_dot() -> Seq<u8> {
    seq![DOT, DOT]
}

/// The piece `piece` of a path is a step on the way: there is something in it, and
/// it does not stay where it is.
pub open spec fn is_name(piece: Seq<u8>) -> bool {
    piece.len() > 0 && piece != dot()
}

/// The pieces `pieces` up to the last name among them.
pub open spec fn drop_trailing(pieces: Seq<Seq<u8>>) -> Seq<Seq<u8>>
    decreases pieces.len(),
{
    if pieces.len() == 0 || is_name(pieces.last()) {
        pieces
    } else {
        drop_trailing(pieces.drop_last())
    }
}

/// What is left of `pieces` after `count` names, from the next name on.
pub open spec fn skip_names(pieces: Seq<Seq<u8>>, count: nat) -> Seq<Seq<u8>>
    decreases pieces.len(),
{
    if pieces.len() == 0 {
        pieces
    } else if !is_name(pieces.first()) {
        skip_names(pieces.drop_first(), count)
    } else if count == 0 {
        pieces
    } else {
        skip_names(pieces.drop_first(), (count - 1) as nat)
    }
}

/// The names among `pieces`.
pub open spec fn names_in(pieces: Seq<Seq<u8>>) -> Seq<Seq<u8>> {
    pieces.filter(|piece: Seq<u8>| is_name(piece))
}

/// Where the last `.` of `name` stands, or `-1` where there is none.
pub open spec fn last_dot(name: Seq<u8>) -> int
    decreases name.len(),
{
    if name.len() == 0 {
        -1
    } else if name.last() == DOT {
        name.len() - 1
    } else {
        last_dot(name.drop_last())
    }
}

/// A file name without its extension: the part before the last `.`, or all of it
/// where there is no `.` but perhaps one at its very beginning.
pub open spec fn stem(name: Seq<u8>) -> Seq<u8> {
    if last_dot(name) > 0 {
        name.take(last_dot(name))
    } else {
        name
    }
}

/// The path that is written `text`.
pub open spec fn text_path(text: Seq<char>) -> PathView {
    PathView { bytes: encode_utf8(text) }
}

impl PathView {
    /// How many bytes say where the path begins: one for a path that begins at the
    /// root, or with a `.` on its own.
    pub open spec fn lead(self) -> nat {
        if self.bytes.len() > 0 && (self.bytes[0] == SEPARATOR || (self.bytes[0] == DOT && (
        self.bytes.len() == 1 || self.bytes[1] == SEPARATOR))) {
            1
        } else {
            0
        }
    }

    /// Where the path begins.
    pub open spec fn front(self) -> Seq<u8> {
        self.bytes.take(self.lead() as int)
    }

    /// What stands before, between and after the separators that follow the front.
    pub open spec fn body(self) -> Seq<Seq<u8>> {
        split_on(self.bytes.skip(self.lead() as int), SEPARATOR)
    }

    /// The body up to its last name.
    pub open spec fn trimmed(self) -> Seq<Seq<u8>> {
        drop_trailing(self.body())
    }

    /// The path with the front of this one and the body `pieces`.
    pub open spec fn with_body(self, pieces: Seq<Seq<u8>>) -> PathView {
        PathView { bytes: self.front() + joined(pieces, seq![SEPARATOR]) }
    }

    /// The steps of the path: its front, where it has one, and the names in its body.
    pub open spec fn components(self) -> Seq<Seq<u8>> {
        (if self.lead() == 1 {
            seq![self.front()]
        } else {
            Seq::empty()
        }) + names_in(self.body())
    }

    /// The path without its last step. One that is empty or the root has none to lose.
    pub open spec fn parent(self) -> Option<PathView> {
        if self.trimmed().len() > 0 {
            Some(self.with_body(drop_trailing(self.trimmed().drop_last())))
        } else if self.front() == dot() {
            Some(PathView { bytes: Seq::empty() })
        } else {
            None
        }
    }

    /// The last step, where it names a file or a directory.
    pub open spec fn file_name(self) -> Option<Seq<u8>> {
        if self.trimmed().len() == 0 || self.trimmed().last() == dot_dot() {
            None
        } else {
            Some(self.trimmed().last())
        }
    }

    /// The last step without its extension, where it names a file or a directory.
    pub open spec fn file_stem(self) -> Option<Seq<u8>> {
        match self.file_name() {
            Some(name) => Some(stem(name)),
            None => None,
        }
    }

    /// What is left of the path after the steps of `base`, where it begins with them.
    pub open spec fn strip_prefix(self, base: PathView) -> Option<PathView> {
        let count = base.components().len();
        if !base.components().is_prefix_of(self.components()) {
            None
        } else if count == 0 {
            Some(self.with_body(self.trimmed()))
        } else {
            let pieces = drop_trailing(skip_names(self.body(), (count - self.lead()) as nat));
            Some(PathView { bytes: joined(pieces, seq![SEPARATOR]) })
        }
    }

    /// The path `other`, seen from this one.
    pub open spec fn join(self, other: PathView) -> PathView {
        if other.bytes.len() > 0 && other.bytes[0] == SEPARATOR {
            other
        } else if self.bytes.len() == 0 || self.bytes.last() == SEPARATOR {
            PathView { bytes: self.bytes + other.bytes }
        } else {
            PathView { bytes: self.bytes.push(SEPARATOR) + other.bytes }
        }
    }

    /// The path of the last of `names`, seen from those before it, seen from this one.
    pub open spec fn join_all(self, names: Seq<Seq<char>>) -> PathView
        decreases names.len(),
    {
        if names.len() == 0 {
            self
        } else {
            self.join_all(names.drop_last()).join(text_path(names.last()))
        }
    }

    /// The path with `extension` in place of the extension that its last step has, or
    /// added to it. One whose last step names no file is left as it is.
    pub open spec fn replace_extension(self, extension: Seq<char>) -> PathView {
        match self.file_stem() {
            Some(stem) => self.with_body(
                self.trimmed().drop_last().push(stem.push(DOT) + encode_utf8(extension)),
            ),
            None => self,
        }
    }
}

/// The names among two lists of pieces are those among the first and then those among
/// the second.
pub proof fn lemma_names_in_both(first: Seq<Seq<u8>>, second: Seq<Seq<u8>>)
    ensures
        names_in(first + second) == names_in(first) + names_in(second),
{
    Seq::filter_distributes_over_add(first, second, |piece: Seq<u8>| is_name(piece));
}

/// A single piece is a name or is left out.
pub proof fn lemma_names_in_one(pieces: Seq<Seq<u8>>)
    ensures
        pieces.len() == 0 ==> names_in(pieces) == Seq::<Seq<u8>>::empty(),
        pieces.len() == 1 && is_name(pieces[0]) ==> names_in(pieces) == pieces,
        pieces.len() == 1 && !is_name(pieces[0]) ==> names_in(pieces) == Seq::<Seq<u8>>::empty(),
{
    reveal_with_fuel(Seq::filter, 2);
    if pieces.len() == 1 {
        assert(pieces.drop_last() =~= Seq::empty());
        assert(is_name(pieces[0]) ==> names_in(pieces) =~= pieces);
    }
}

/// The pieces up to the last name are the first of the pieces, and end in a name.
pub proof fn lemma_drop_trailing(pieces: Seq<Seq<u8>>)
    ensures
        drop_trailing(pieces).is_prefix_of(pieces),
        drop_trailing(pieces).len() > 0 ==> is_name(drop_trailing(pieces).last()),
    decreases pieces.len(),
{
    if pieces.len() > 0 && !is_name(pieces.last()) {
        lemma_drop_trailing(pieces.drop_last());
    }
}

/// What is left after some names is the end of the pieces.
pub proof fn lemma_skip_names(pieces: Seq<Seq<u8>>, count: nat) -> (from: int)
    ensures
        0 <= from <= pieces.len(),
        skip_names(pieces, count) == pieces.skip(from),
    decreases pieces.len(),
{
    if pieces.len() == 0 || (is_name(pieces.first()) && count == 0) {
        assert(pieces.skip(0) =~= pieces);
        0
    } else {
        let less = if is_name(pieces.first()) {
            (count - 1) as nat
        } else {
            count
        };
        let from = lemma_skip_names(pieces.drop_first(), less);
        assert(pieces.drop_first().skip(from) =~= pieces.skip(from + 1));
        from + 1
    }
}

/// The last name among the last pieces is the last name among all.
pub proof fn lemma_last_name_of_end(pieces: Seq<Seq<u8>>, from: int)
    requires
        0 <= from <= pieces.len(),
        drop_trailing(pieces.skip(from)).len() > 0,
    ensures
        drop_trailing(pieces).len() > 0,
        drop_trailing(pieces).last() == drop_trailing(pieces.skip(from)).last(),
    decreases pieces.len(),
{
    let end = pieces.skip(from);
    lemma_drop_trailing(end);
    assert(from < pieces.len());
    assert(end.last() == pieces.last());
    if !is_name(pieces.last()) {
        assert(end.drop_last() =~= pieces.drop_last().skip(from));
        lemma_last_name_of_end(pieces.drop_last(), from);
    }
}

/// A name without its extension is not empty and begins like the name. It holds no
/// separator where the name holds none.
pub proof fn lemma_stem(name: Seq<u8>)
    requires
        name.len() > 0,
        !name.contains(SEPARATOR),
    ensures
        stem(name).len() > 0,
        stem(name)[0] == name[0],
        !stem(name).contains(SEPARATOR),
{
    lemma_last_dot_bounds(name);
    if stem(name).contains(SEPARATOR) {
        let i = choose|i: int| 0 <= i < stem(name).len() && stem(name)[i] == SEPARATOR;
        assert(name[i] == SEPARATOR);
    }
}

/// The last `.` of a name stands in it, where there is one.
proof fn lemma_last_dot_bounds(name: Seq<u8>)
    ensures
        -1 <= last_dot(name) < name.len() || name.len() == 0 && last_dot(name) == -1,
    decreases name.len(),
{
    if name.len() > 0 {
        lemma_last_dot_bounds(name.drop_last());
    }
}

/// A path is its front and its body, put together again. No piece of the body holds a
/// separator.
pub proof fn law_path_is_its_front_and_body(path: PathView)
    ensures
        path.with_body(path.body()) == path,
        path.body().len() >= 1,
        forall|i: int|
            0 <= i < path.body().len() ==> !(#[trigger] path.body()[i]).contains(SEPARATOR),
{
    lemma_split_then_join(path.bytes.skip(path.lead() as int), SEPARATOR);
    assert(path.with_body(path.body()).bytes =~= path.bytes);
}

/// The path of a name inside another path has that name for its last step, and loses it
/// again when its parent is taken.
pub proof fn law_joined_name_is_the_last_step(path: PathView, name: Seq<u8>)
    requires
        path.bytes.len() > 0,
        path.bytes.last() != SEPARATOR,
        is_name(name),
        !name.contains(SEPARATOR),
    ensures
        path.join(PathView { bytes: name }).front() == path.front(),
        path.join(PathView { bytes: name }).body() == path.body().push(name),
        name != dot_dot() ==> path.join(PathView { bytes: name }).file_name() == Some(name),
        path.join(PathView { bytes: name }).parent() == Some(path.with_body(path.trimmed())),
{
    let longer = path.join(PathView { bytes: name });
    let lead = path.lead() as int;
    let text = path.bytes.skip(lead);
    assert(name[0] != SEPARATOR);
    assert(longer.bytes == path.bytes.push(SEPARATOR) + name);
    assert(longer.lead() == path.lead());
    assert(longer.front() =~= path.front());
    assert(longer.bytes.skip(lead) =~= text.push(SEPARATOR) + name);
    assert(text.push(SEPARATOR).drop_last() =~= text);
    lemma_split_of_longer(text.push(SEPARATOR), name, SEPARATOR);
    assert(Seq::<u8>::empty() + name =~= name);
    assert(longer.body() =~= path.body().push(name));
    assert(longer.body().drop_last() =~= path.body());
}

impl View for FilePath {
    type V = PathView;

    open spec fn view(&self) -> PathView {
        PathView { bytes: self.bytes@ }
    }
}

impl Clone for FilePath {
    fn clone(&self) -> (path: FilePath)
        ensures
            path@ == self@,
    {
        FilePath { bytes: slice_to_vec(self.bytes.as_slice()) }
    }
}

impl PartialEq for FilePath {
    /// Two paths are the same where their steps are.
    fn eq(&self, other: &FilePath) -> (same: bool) {
        let own = self.components();
        let others = other.components();
        own.len() == others.len() && begin_alike(&own, &others)
    }
}

impl vstd::std_specs::cmp::PartialEqSpecImpl for FilePath {
    open spec fn obeys_eq_spec() -> bool {
        true
    }

    open spec fn eq_spec(&self, other: &FilePath) -> bool {
        self@.components() == other@.components()
    }
}

impl Eq for FilePath {

}

/// The bytes of each of `pieces`.
pub open spec fn byte_pieces(pieces: Seq<Vec<u8>>) -> Seq<Seq<u8>> {
    pieces.map_values(|piece: Vec<u8>| piece@)
}

/// Calls `String::from_utf8`, which makes a text of bytes that are the UTF-8
/// encoding of one, and returns an error for any other bytes.
#[verifier::external_body]
fn from_utf8(bytes: Vec<u8>) -> (text: Option<String>)
    ensures
        match text {
            Some(text) => valid_utf8(bytes@) && text@ == decode_utf8(bytes@),
            None => !valid_utf8(bytes@),
        },
{
    String::from_utf8(bytes).ok()
}

/// Whether one holds the same bytes as the other.
fn same_bytes(one: &Vec<u8>, other: &Vec<u8>) -> (same: bool)
    ensures
        same == (one@ == other@),
{
    if one.len() != other.len() {
        return false;
    }
    for i in 0..one.len()
        invariant
            one@.len() == other@.len(),
            forall|j: int| 0 <= j < i ==> one@[j] == other@[j],
    {
        if one[i] != other[i] {
            return false;
        }
    }
    assert(one@ =~= other@);
    true
}

/// Whether `pieces` begins with the pieces of `first`.
fn begin_alike(first: &Vec<Vec<u8>>, pieces: &Vec<Vec<u8>>) -> (alike: bool)
    ensures
        alike == byte_pieces(first@).is_prefix_of(byte_pieces(pieces@)),
        alike && first@.len() == pieces@.len() ==> byte_pieces(first@) == byte_pieces(pieces@),
        !alike ==> byte_pieces(first@) != byte_pieces(pieces@),
{
    if first.len() > pieces.len() {
        return false;
    }
    for i in 0..first.len()
        invariant
            first@.len() <= pieces@.len(),
            forall|j: int| 0 <= j < i ==> byte_pieces(first@)[j] == byte_pieces(pieces@)[j],
    {
        if !same_bytes(&first[i], &pieces[i]) {
            assert(byte_pieces(first@)[i as int] != byte_pieces(pieces@)[i as int]);
            return false;
        }
    }
    true
}

/// Whether `piece` is a step on the way.
fn is_step(piece: &Vec<u8>) -> (result: bool)
    ensures
        result == is_name(piece@),
{
    if piece.len() == 1 && piece[0] == DOT {
        assert(piece@ =~= dot());
        return false;
    }
    piece.len() > 0
}

/// Splits the bytes from `from` on at every separator.
fn split_bytes(bytes: &Vec<u8>, from: usize) -> (pieces: Vec<Vec<u8>>)
    requires
        from <= bytes@.len(),
    ensures
        byte_pieces(pieces@) == split_on(bytes@.skip(from as int), SEPARATOR),
{
    let ghost all = bytes@.skip(from as int);
    let mut pieces: Vec<Vec<u8>> = Vec::new();
    let mut piece: Vec<u8> = Vec::new();
    assert(all.take(0) =~= Seq::<u8>::empty());
    assert(byte_pieces(pieces@).push(piece@) =~= seq![Seq::<u8>::empty()]);
    for i in from..bytes.len()
        invariant
            from <= i,
            all == bytes@.skip(from as int),
            split_on(all.take(i - from), SEPARATOR) == byte_pieces(pieces@).push(piece@),
    {
        let ghost done = byte_pieces(pieces@);
        let ghost before = piece@;
        assert(all.take(i + 1 - from).drop_last() =~= all.take(i - from));
        assert(done.push(before).drop_last() =~= done);
        if bytes[i] == SEPARATOR {
            pieces.push(piece);
            piece = Vec::new();
            assert(byte_pieces(pieces@) =~= done.push(before));
            assert(piece@ =~= Seq::<u8>::empty());
        } else {
            piece.push(bytes[i]);
        }
    }
    let ghost done = byte_pieces(pieces@);
    let ghost last = piece@;
    assert(all.take(bytes@.len() - from) =~= all);
    pieces.push(piece);
    assert(byte_pieces(pieces@) =~= done.push(last));
    pieces
}

/// Appends `pieces` to `front`, with a separator between neighbours.
fn join_bytes(front: Vec<u8>, pieces: &Vec<Vec<u8>>) -> (bytes: Vec<u8>)
    ensures
        bytes@ == front@ + joined(byte_pieces(pieces@), seq![SEPARATOR]),
{
    let ghost all = byte_pieces(pieces@);
    let mut bytes = front;
    assert(bytes@ =~= front@ + joined(all.take(0), seq![SEPARATOR]));
    for i in 0..pieces.len()
        invariant
            all == byte_pieces(pieces@),
            bytes@ == front@ + joined(all.take(i as int), seq![SEPARATOR]),
    {
        if i > 0 {
            bytes.push(SEPARATOR);
        }
        bytes.extend_from_slice(pieces[i].as_slice());
        assert(all.take(i + 1).drop_last() =~= all.take(i as int));
        assert(bytes@ =~= front@ + joined(all.take(i + 1), seq![SEPARATOR]));
    }
    assert(all.take(pieces.len() as int) =~= all);
    bytes
}

/// Drops the pieces after the last name.
fn trim_end(pieces: Vec<Vec<u8>>) -> (trimmed: Vec<Vec<u8>>)
    ensures
        byte_pieces(trimmed@) == drop_trailing(byte_pieces(pieces@)),
{
    let mut trimmed = pieces;
    while trimmed.len() > 0 && !is_step(&trimmed[trimmed.len() - 1])
        invariant
            drop_trailing(byte_pieces(trimmed@)) == drop_trailing(byte_pieces(pieces@)),
        decreases trimmed.len(),
    {
        let ghost before = byte_pieces(trimmed@);
        let _ = trimmed.pop();
        assert(byte_pieces(trimmed@) =~= before.drop_last());
    }
    trimmed
}

/// A file name without its extension.
fn name_stem(name: &Vec<u8>) -> (result: Vec<u8>)
    ensures
        result@ == stem(name@),
{
    let mut at: usize = name.len();
    assert(name@.take(at as int) =~= name@);
    while at > 0 && name[at - 1] != DOT
        invariant
            at <= name@.len(),
            last_dot(name@.take(at as int)) == last_dot(name@),
        decreases at,
    {
        assert(name@.take(at as int).drop_last() =~= name@.take(at - 1));
        at = at - 1;
    }
    if at > 1 {
        slice_to_vec(slice_subrange(name.as_slice(), 0, at - 1))
    } else {
        slice_to_vec(name.as_slice())
    }
}

impl FilePath {
    /// The path that is written `text`.
    pub fn new(text: &str) -> (path: FilePath)
        ensures
            path@ == text_path(text@),
    {
        FilePath { bytes: text.as_bytes_vec() }
    }

    /// The path as text, where it is valid text.
    pub fn to_str(&self) -> (text: Option<String>)
        ensures
            match text {
                Some(text) => valid_utf8(self@.bytes) && text@ == decode_utf8(self@.bytes),
                None => !valid_utf8(self@.bytes),
            },
    {
        from_utf8(slice_to_vec(self.bytes.as_slice()))
    }

    /// How many bytes say where the path begins.
    fn lead(&self) -> (lead: usize)
        ensures
            lead == self@.lead(),
            lead <= self@.bytes.len(),
    {
        if self.bytes.len() > 0 && (self.bytes[0] == SEPARATOR || (self.bytes[0] == DOT && (
        self.bytes.len() == 1 || self.bytes[1] == SEPARATOR))) {
            1
        } else {
            0
        }
    }

    /// Where the path begins.
    fn front(&self) -> (front: Vec<u8>)
        ensures
            front@ == self@.front(),
    {
        slice_to_vec(slice_subrange(self.bytes.as_slice(), 0, self.lead()))
    }

    /// What stands before, between and after the separators that follow the front.
    fn body(&self) -> (pieces: Vec<Vec<u8>>)
        ensures
            byte_pieces(pieces@) == self@.body(),
    {
        split_bytes(&self.bytes, self.lead())
    }

    /// The body up to its last name.
    fn trimmed(&self) -> (pieces: Vec<Vec<u8>>)
        ensures
            byte_pieces(pieces@) == self@.trimmed(),
    {
        trim_end(self.body())
    }

    /// The path with the front of this one and the body `pieces`.
    fn with_body(&self, pieces: &Vec<Vec<u8>>) -> (path: FilePath)
        ensures
            path@ == self@.with_body(byte_pieces(pieces@)),
    {
        FilePath { bytes: join_bytes(self.front(), pieces) }
    }

    /// The steps of the path: its front, where it has one, and the names in its body.
    pub fn components(&self) -> (components: Vec<Vec<u8>>)
        ensures
            byte_pieces(components@) == self@.components(),
    {
        let mut components: Vec<Vec<u8>> = Vec::new();
        if self.lead() == 1 {
            components.push(self.front());
        }
        let ghost first = byte_pieces(components@);
        let body = self.body();
        let ghost all = self@.body();
        proof {
            lemma_names_in_one(all.take(0));
        }
        assert(byte_pieces(components@) =~= first + names_in(all.take(0)));
        for i in 0..body.len()
            invariant
                all == byte_pieces(body@),
                byte_pieces(components@) == first + names_in(all.take(i as int)),
        {
            let ghost before = byte_pieces(components@);
            let piece = &body[i];
            assert(all.take(i + 1) =~= all.take(i as int) + seq![piece@]);
            proof {
                lemma_names_in_both(all.take(i as int), seq![piece@]);
                lemma_names_in_one(seq![piece@]);
            }
            if is_step(piece) {
                components.push(slice_to_vec(piece.as_slice()));
                assert(byte_pieces(components@) =~= before.push(piece@));
            }
            assert(byte_pieces(components@) =~= first + names_in(all.take(i + 1)));
        }
        assert(all.take(all.len() as int) =~= all);
        components
    }

    /// The path without its last step, where it has one to lose.
    pub fn parent(&self) -> (result: Option<FilePath>)
        ensures
            match result {
                Some(path) => self@.parent() == Some(path@),
                None => self@.parent() is None,
            },
    {
        let mut pieces = self.trimmed();
        let ghost all = byte_pieces(pieces@);
        match pieces.pop() {
            Some(_) => {
                assert(byte_pieces(pieces@) =~= all.drop_last());
                Some(self.with_body(&trim_end(pieces)))
            },
            None => {
                if self.lead() == 1 && self.bytes[0] == DOT {
                    assert(self@.front() =~= dot());
                    let path = FilePath { bytes: Vec::new() };
                    assert(path@ =~= PathView { bytes: Seq::empty() });
                    Some(path)
                } else {
                    assert(self@.front() != dot()) by {
                        if self@.lead() == 1 {
                            assert(self@.front()[0] == SEPARATOR);
                            assert(dot()[0] == DOT);
                        } else {
                            assert(dot().len() == 1);
                        }
                    }
                    None
                }
            },
        }
    }

    /// The last step without its extension, where it names a file or a directory.
    pub fn file_stem(&self) -> (result: Option<Vec<u8>>)
        ensures
            match result {
                Some(stem) => self@.file_stem() == Some(stem@),
                None => self@.file_stem() is None,
            },
    {
        let pieces = self.trimmed();
        let count: usize = pieces.len();
        if count == 0 {
            return None;
        }
        let name = &pieces[count - 1];
        assert(self@.trimmed().last() == name@);
        if name.len() == 2 && name[0] == DOT && name[1] == DOT {
            assert(name@ =~= dot_dot());
            None
        } else {
            assert(dot_dot().len() == 2 && dot_dot()[0] == DOT && dot_dot()[1] == DOT);
            Some(name_stem(name))
        }
    }

    /// What is left of the path after the steps of `base`, where it begins with them.
    pub fn strip_prefix(&self, base: &FilePath) -> (result: Option<FilePath>)
        ensures
            match result {
                Some(path) => self@.strip_prefix(base@) == Some(path@),
                None => self@.strip_prefix(base@) is None,
            },
    {
        let steps = base.components();
        if !begin_alike(&steps, &self.components()) {
            return None;
        }
        let count: usize = steps.len();
        if count == 0 {
            return Some(self.with_body(&self.trimmed()));
        }
        let lead: usize = self.lead();
        let mut body = self.body();
        let ghost all = self@.body();
        let total: usize = count - lead;
        let mut left: usize = total;
        let mut at: usize = 0;
        assert(all.skip(0) =~= all);
        while at < body.len() && !(left == 0 && is_step(&body[at]))
            invariant
                all == byte_pieces(body@),
                at <= body@.len(),
                skip_names(all.skip(at as int), left as nat) == skip_names(all, total as nat),
            decreases body.len() - at,
        {
            assert(all.skip(at as int).drop_first() =~= all.skip(at + 1));
            assert(all.skip(at as int).first() == body@[at as int]@);
            if is_step(&body[at]) {
                left = left - 1;
            }
            at = at + 1;
        }
        assert(at < body@.len() ==> all.skip(at as int).first() == body@[at as int]@);
        let rest = body.split_off(at);
        assert(byte_pieces(rest@) =~= all.skip(at as int));
        let path = FilePath { bytes: join_bytes(Vec::new(), &trim_end(rest)) };
        assert(path@.bytes =~= joined(
            drop_trailing(skip_names(all, total as nat)),
            seq![SEPARATOR],
        ));
        Some(path)
    }

    /// The path `other`, seen from this one.
    pub fn join(&self, other: &FilePath) -> (path: FilePath)
        ensures
            path@ == self@.join(other@),
    {
        if other.bytes.len() > 0 && other.bytes[0] == SEPARATOR {
            return other.clone();
        }
        let mut path = self.clone();
        let count: usize = self.bytes.len();
        if count > 0 && self.bytes[count - 1] != SEPARATOR {
            path.bytes.push(SEPARATOR);
        }
        path.bytes.extend_from_slice(other.bytes.as_slice());
        assert(path@ =~= self@.join(other@));
        path
    }

    /// The path of the last of `names`, seen from those before it, seen from this one.
    pub fn join_all(&self, names: &Vec<String>) -> (path: FilePath)
        ensures
            path@ == self@.join_all(texts(names@)),
    {
        let mut path = self.clone();
        let ghost all = texts(names@);
        for i in 0..names.len()
            invariant
                all == texts(names@),
                path@ == self@.join_all(all.take(i as int)),
        {
            path = path.join(&FilePath::new(names[i].as_str()));
            assert(all.take(i + 1).drop_last() =~= all.take(i as int));
        }
        assert(all.take(names.len() as int) =~= all);
        path
    }

    /// The path with `extension` in place of the extension that its last step has, or
    /// added to it.
    pub fn replace_extension(&self, extension: &str) -> (path: FilePath)
        ensures
            path@ == self@.replace_extension(extension@),
    {
        match self.file_stem() {
            Some(stem) => {
                let mut name = stem;
                name.push(DOT);
                name.extend_from_slice(extension.as_bytes());
                assert(name@ =~= stem@.push(DOT) + encode_utf8(extension@));
                let mut pieces = self.trimmed();
                let ghost all = byte_pieces(pieces@);
                let _ = pieces.pop();
                pieces.push(name);
                assert(byte_pieces(pieces@) =~= all.drop_last().push(name@));
                self.with_body(&pieces)
            },
            None => self.clone(),
        }
    }
}

} // verus!
