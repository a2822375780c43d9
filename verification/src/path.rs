//! File paths as bytes, with the rules by which they are compared and taken apart.
//!
//! A path is split at its slashes. Empty pieces are left out, and so is a `.` that is not the
//! first piece; a leading slash is a component of its own.

use crate::bytes::bytes_equal;
use crate::path_laws::lemma_extension_is_behind_the_last_dot;
use vstd::prelude::*;
use vstd::slice::{slice_subrange, slice_to_vec};
use vstd::string::*;
use vstd::utf8::{decode_utf8, decode_utf8_encode_utf8, encode_utf8, valid_utf8};

verus! {

pub const SLASH: u8 = 47;

pub const DOT: u8 = 46;

/// The text that bytes stand for, with a replacement character for every part that is no UTF-8,
/// as the standard library decodes it.
pub uninterp spec fn lossy_text(bytes: Seq<u8>) -> Seq<char>;

/// Calls `String::from_utf8_lossy`. Claimed of it: the text depends on nothing but the bytes, and
/// bytes that are UTF-8 are decoded as such. How many replacement characters stand for a part that
/// is no UTF-8 is not said.
#[verifier::external_body]
pub(crate) fn decode_lossy(bytes: &[u8]) -> (text: String)
    ensures
        text@ == lossy_text(bytes@),
        valid_utf8(bytes@) ==> text@ == decode_utf8(bytes@),
{
    String::from_utf8_lossy(bytes).into_owned()
}

/// The parts of a path between its slashes, empty ones too.
pub open spec fn pieces(path: Seq<u8>) -> Seq<Seq<u8>>
    decreases path.len(),
{
    if path.len() == 0 {
        seq![Seq::<u8>::empty()]
    } else {
        let front = pieces(path.drop_last());
        if path.last() == SLASH {
            front.push(Seq::<u8>::empty())
        } else {
            front.drop_last().push(front.last().push(path.last()))
        }
    }
}

/// Whether a piece is a component: it is not empty, and it is no `.` unless it is the first.
pub open spec fn is_kept(piece: Seq<u8>, first: bool) -> bool {
    &&& piece.len() > 0
    &&& piece == seq![DOT] ==> first
}

/// The pieces that are components.
pub open spec fn kept(parts: Seq<Seq<u8>>) -> Seq<Seq<u8>>
    decreases parts.len(),
{
    if parts.len() == 0 {
        seq![]
    } else if is_kept(parts.last(), parts.len() == 1) {
        kept(parts.drop_last()).push(parts.last())
    } else {
        kept(parts.drop_last())
    }
}

/// The component of the root directory, where the path is absolute.
pub open spec fn root_component(path: Seq<u8>) -> Seq<Seq<u8>> {
    if path.len() > 0 && path[0] == SLASH {
        seq![seq![SLASH]]
    } else {
        seq![]
    }
}

/// The components of a path.
pub open spec fn components(path: Seq<u8>) -> Seq<Seq<u8>> {
    root_component(path) + kept(pieces(path))
}

/// Whether `base` is `path` or one of the directories that lead to it.
pub open spec fn path_starts_with(path: Seq<u8>, base: Seq<u8>) -> bool {
    components(base).is_prefix_of(components(path))
}

/// Where the last component ends: slashes and `.` components behind it do not count.
pub open spec fn name_end(path: Seq<u8>) -> int
    decreases path.len(),
{
    let n = path.len() as int;
    if n == 0 {
        0
    } else if path[n - 1] == SLASH {
        name_end(path.drop_last())
    } else if n >= 2 && path[n - 1] == DOT && path[n - 2] == SLASH {
        name_end(path.drop_last())
    } else {
        n
    }
}

/// Where the piece that ends at `end` starts.
pub open spec fn name_start(path: Seq<u8>, end: int) -> int
    decreases end,
{
    if end <= 0 {
        0
    } else if path[end - 1] == SLASH {
        end
    } else {
        name_start(path, end - 1)
    }
}

/// The bytes of the last component.
pub open spec fn last_name(path: Seq<u8>) -> Seq<u8> {
    path.subrange(name_start(path, name_end(path)), name_end(path))
}

/// The file name of a path: its last component, unless that is the root, `.` or `..`.
pub open spec fn file_name(path: Seq<u8>) -> Option<Seq<u8>> {
    let name = last_name(path);
    if name.len() == 0 || name == seq![DOT] || name == seq![DOT, DOT] {
        None
    } else {
        Some(name)
    }
}

/// The place of the last dot in a name, and -1 where there is none.
pub open spec fn last_dot(name: Seq<u8>) -> int
    decreases name.len(),
{
    if name.len() == 0 {
        -1
    } else if name.last() == DOT {
        name.len() - 1
    } else {
        last_dot(name.drop_last())
    }
}

/// The extension of a path: what follows the last dot of its file name, unless that dot is the
/// first character or there is none.
pub open spec fn extension(path: Seq<u8>) -> Option<Seq<u8>> {
    match file_name(path) {
        None => None,
        Some(name) => if last_dot(name) <= 0 {
            None
        } else {
            Some(name.skip(last_dot(name) + 1))
        },
    }
}

/// Where the file name without its extension ends.
pub open spec fn stem_end(path: Seq<u8>) -> int {
    let name = last_name(path);
    if last_dot(name) <= 0 {
        name_end(path)
    } else {
        name_start(path, name_end(path)) + last_dot(name)
    }
}

/// The text of the extension, if there is an extension.
pub open spec fn extension_text(path: Seq<u8>) -> Option<Seq<char>> {
    match extension(path) {
        None => None,
        Some(bytes) => Some(lossy_text(bytes)),
    }
}

/// Where a file is moved while its link is made: the extension is followed by `.bak`. A path
/// without a file name stays as it is.
pub open spec fn backup_path(path: Seq<u8>) -> Seq<u8> {
    let text = match extension_text(path) {
        Some(text) => text,
        None => Seq::<char>::empty(),
    };
    if file_name(path) is None {
        path
    } else {
        path.take(stem_end(path)) + seq![DOT] + encode_utf8(text + ".bak"@)
    }
}

/// Characters are encoded one by one.
pub proof fn lemma_encode_both(a: Seq<char>, b: Seq<char>)
    ensures
        encode_utf8(a + b) == encode_utf8(a) + encode_utf8(b),
    decreases a.len(),
{
    if a.len() == 0 {
        assert(a + b =~= b);
        assert(encode_utf8(a) =~= seq![]);
        assert(encode_utf8(a) + encode_utf8(b) =~= encode_utf8(b));
    } else {
        lemma_encode_both(a.drop_first(), b);
        assert((a + b).drop_first() =~= a.drop_first() + b);
        assert(encode_utf8(a + b) =~= encode_utf8(a) + encode_utf8(b));
    }
}

/// A file path, which may be any sequence of bytes. Its view is the bytes.
#[derive(Debug, PartialEq, Eq)]
pub struct FilePath {
    pub bytes: Vec<u8>,
}

impl View for FilePath {
    type V = Seq<u8>;

    open spec fn view(&self) -> Seq<u8> {
        self.bytes@
    }
}

impl Clone for FilePath {
    fn clone(&self) -> (copy: FilePath)
        ensures
            copy@ == self@,
            copy.bytes@ == self.bytes@,
    {
        FilePath { bytes: slice_to_vec(self.bytes.as_slice()) }
    }
}

/// The views of a vector of byte strings.
pub open spec fn byte_strings(strings: Seq<Vec<u8>>) -> Seq<Seq<u8>> {
    strings.map_values(|s: Vec<u8>| s@)
}

impl FilePath {
    /// The components of the path, in order.
    pub fn components(&self) -> (parts: Vec<Vec<u8>>)
        ensures
            byte_strings(parts@) == components(self@),
            parts@.len() == components(self@).len(),
            forall|i: int| 0 <= i < parts@.len() ==> (#[trigger] parts@[i])@ == components(self@)[i],
    {
        let mut parts: Vec<Vec<u8>> = Vec::new();
        if self.bytes.len() > 0 && self.bytes[0] == SLASH {
            let mut root: Vec<u8> = Vec::new();
            root.push(SLASH);
            assert(root@ =~= seq![SLASH]);
            parts.push(root);
        }
        assert(byte_strings(parts@) =~= root_component(self@));
        let mut current: Vec<u8> = Vec::new();
        let mut first: bool = true;
        let mut i: usize = 0;
        proof {
            assert(self@.take(0) =~= seq![]);
            assert(pieces(self@.take(0)).drop_last() =~= seq![]);
            assert(kept(pieces(self@.take(0)).drop_last()) =~= seq![]);
            assert(byte_strings(parts@) =~= root_component(self@) + kept(
                pieces(self@.take(0)).drop_last(),
            ));
        }
        while i < self.bytes.len()
            invariant
                i <= self@.len(),
                pieces(self@.take(i as int)).len() > 0,
                current@ == pieces(self@.take(i as int)).last(),
                first == (pieces(self@.take(i as int)).len() == 1),
                byte_strings(parts@) == root_component(self@) + kept(
                    pieces(self@.take(i as int)).drop_last(),
                ),
            decreases self@.len() - i,
        {
            let b: u8 = self.bytes[i];
            let ghost before = pieces(self@.take(i as int));
            let ghost after = pieces(self@.take(i + 1));
            assert(self@.take(i + 1).drop_last() =~= self@.take(i as int));
            if b == SLASH {
                let is_dot = current.len() == 1 && current[0] == DOT;
                assert(is_dot == (current@ =~= seq![DOT]));
                assert(after.drop_last() =~= before);
                if current.len() > 0 && (!is_dot || first) {
                    let ghost old_parts = parts@;
                    parts.push(current);
                    assert(byte_strings(parts@) =~= byte_strings(old_parts).push(before.last()));
                    assert(byte_strings(parts@) =~= root_component(self@) + kept(before));
                } else {
                    assert(byte_strings(parts@) =~= root_component(self@) + kept(before));
                }
                current = Vec::new();
                first = false;
                assert(current@ =~= after.last());
            } else {
                current.push(b);
                assert(after.drop_last() =~= before.drop_last());
                assert(current@ =~= after.last());
            }
            i = i + 1;
        }
        assert(self@.take(i as int) =~= self@);
        let ghost all = pieces(self@);
        let is_dot = current.len() == 1 && current[0] == DOT;
        assert(is_dot == (current@ =~= seq![DOT]));
        if current.len() > 0 && (!is_dot || first) {
            let ghost old_parts = parts@;
            parts.push(current);
            assert(byte_strings(parts@) =~= byte_strings(old_parts).push(all.last()));
            assert(byte_strings(parts@) =~= root_component(self@) + kept(all));
        } else {
            assert(byte_strings(parts@) =~= root_component(self@) + kept(all));
        }
        parts
    }

    /// Whether `base` is this path or one of the directories that lead to it.
    pub fn starts_with(&self, base: &FilePath) -> (starts: bool)
        ensures
            starts == path_starts_with(self@, base@),
            starts <==> components(base@).len() <= components(self@).len() && forall|i: int|
                0 <= i < components(base@).len() ==> #[trigger] components(base@)[i] == components(
                    self@,
                )[i],
    {
        let own = self.components();
        let wanted = base.components();
        if wanted.len() > own.len() {
            assert(byte_strings(wanted@).len() > byte_strings(own@).len());
            return false;
        }
        let mut i: usize = 0;
        while i < wanted.len()
            invariant
                wanted@.len() <= own@.len(),
                i <= wanted@.len(),
                byte_strings(wanted@) == components(base@),
                byte_strings(own@) == components(self@),
                forall|j: int| 0 <= j < i ==> wanted@[j]@ == own@[j]@,
            decreases wanted@.len() - i,
        {
            if !bytes_equal(wanted[i].as_slice(), own[i].as_slice()) {
                assert(byte_strings(wanted@)[i as int] != byte_strings(own@)[i as int]);
                assert(components(base@)[i as int] != components(self@)[i as int]);
                assert(!components(base@).is_prefix_of(components(self@)));
                return false;
            }
            i = i + 1;
        }
        assert forall|j: int| 0 <= j < components(base@).len() implies components(base@)[j]
            == components(self@)[j] by {
            assert(byte_strings(wanted@)[j] == wanted@[j]@);
            assert(byte_strings(own@)[j] == own@[j]@);
        }
        assert(components(base@) =~= components(self@).take(components(base@).len() as int));
        true
    }

    /// Where the last component starts and ends.
    fn last_name_range(&self) -> (range: (usize, usize))
        ensures
            range.0 <= range.1 <= self@.len(),
            range.1 == name_end(self@),
            range.0 == name_start(self@, name_end(self@)),
    {
        let mut end: usize = self.bytes.len();
        assert(self@.take(end as int) =~= self@);
        while end > 0 && (self.bytes[end - 1] == SLASH || (end >= 2 && self.bytes[end - 1] == DOT
            && self.bytes[end - 2] == SLASH))
            invariant
                end <= self@.len(),
                name_end(self@) == name_end(self@.take(end as int)),
            decreases end,
        {
            assert(self@.take(end as int).drop_last() =~= self@.take(end - 1));
            end = end - 1;
        }
        let mut start: usize = end;
        while start > 0 && self.bytes[start - 1] != SLASH
            invariant
                start <= end <= self@.len(),
                name_start(self@, end as int) == name_start(self@, start as int),
            decreases start,
        {
            start = start - 1;
        }
        (start, end)
    }

    /// The file name, as the range of bytes that it takes up.
    fn file_name_range(&self) -> (range: Option<(usize, usize)>)
        ensures
            match range {
                None => file_name(self@) is None,
                Some((start, end)) => {
                    &&& start == name_start(self@, name_end(self@))
                    &&& end == name_end(self@)
                    &&& start < end <= self@.len()
                    &&& file_name(self@) == Some(self@.subrange(start as int, end as int))
                },
            },
    {
        let (start, end) = self.last_name_range();
        let ghost name = last_name(self@);
        if start == end {
            return None;
        }
        if end - start == 1 && self.bytes[start] == DOT {
            assert(name =~= seq![DOT]);
            return None;
        }
        if end - start == 2 && self.bytes[start] == DOT && self.bytes[start + 1] == DOT {
            assert(name =~= seq![DOT, DOT]);
            return None;
        }
        assert(name.len() == end - start);
        assert(name[0] == self@[start as int]);
        assert(name.len() == 2 ==> name[1] == self@[start + 1]);
        assert(name != seq![DOT]);
        assert(name != seq![DOT, DOT]);
        Some((start, end))
    }

    /// The last component of the path, if it is the name of a file or directory.
    pub fn file_name(&self) -> (name: Option<Vec<u8>>)
        ensures
            match name {
                None => file_name(self@) is None,
                Some(bytes) => file_name(self@) == Some(bytes@),
            },
    {
        match self.file_name_range() {
            None => None,
            Some((start, end)) => {
                Some(slice_to_vec(slice_subrange(self.bytes.as_slice(), start, end)))
            },
        }
    }

    /// The place of the last dot of the file name that takes up the given range.
    fn extension_dot(&self, start: usize, end: usize) -> (dot: Option<usize>)
        requires
            start <= end <= self@.len(),
        ensures
            match dot {
                None => last_dot(self@.subrange(start as int, end as int)) <= 0,
                Some(at) => {
                    &&& start < at < end
                    &&& last_dot(self@.subrange(start as int, end as int)) == at - start
                },
            },
    {
        let mut at: usize = end;
        let ghost name = self@.subrange(start as int, end as int);
        assert(name.take(at - start) =~= name);
        while at > start
            invariant
                start <= at <= end <= self@.len(),
                name == self@.subrange(start as int, end as int),
                last_dot(name) == last_dot(name.take(at - start)),
            decreases at,
        {
            assert(name.take(at - start).last() == self@[at - 1]);
            assert(name.take(at - start).drop_last() =~= name.take(at - 1 - start));
            at = at - 1;
            if self.bytes[at] == DOT {
                return if at == start { None } else { Some(at) };
            }
        }
        None
    }

    /// What follows the last dot of the file name.
    pub fn extension(&self) -> (ext: Option<Vec<u8>>)
        ensures
            match ext {
                None => extension(self@) is None,
                Some(bytes) => extension(self@) == Some(bytes@),
            },
            match (file_name(self@), ext) {
                (Some(name), Some(bytes)) => {
                    &&& exists|stem: Seq<u8>|
                        stem.len() > 0 && name == #[trigger] (stem + seq![46u8] + bytes@)
                    &&& forall|i: int| 0 <= i < bytes@.len() ==> #[trigger] bytes@[i] != 46u8
                },
                (Some(name), None) => forall|i: int|
                    0 < i < name.len() ==> #[trigger] name[i] != 46u8,
                (None, _) => ext is None,
            },
    {
        proof {
            lemma_extension_is_behind_the_last_dot(self@);
        }
        match self.file_name_range() {
            None => None,
            Some((start, end)) => match self.extension_dot(start, end) {
                None => None,
                Some(at) => {
                    let ghost name = self@.subrange(start as int, end as int);
                    assert(name.skip(at - start + 1) =~= self@.subrange(at + 1, end as int));
                    Some(slice_to_vec(slice_subrange(self.bytes.as_slice(), at + 1, end)))
                },
            },
        }
    }

    /// The extension as text.
    pub fn extension_text(&self) -> (text: Option<String>)
        ensures
            match text {
                None => extension_text(self@) is None && extension(self@) is None,
                Some(text) => {
                    &&& extension_text(self@) == Some(text@)
                    &&& extension(self@) is Some
                    &&& text@ == lossy_text(extension(self@)->0)
                    &&& valid_utf8(extension(self@)->0) ==> text@ == decode_utf8(
                        extension(self@)->0,
                    )
                },
            },
    {
        match self.extension() {
            None => None,
            Some(bytes) => Some(decode_lossy(bytes.as_slice())),
        }
    }

    /// The path under which the file is kept while a link takes its place.
    pub fn backup(&self) -> (backup: FilePath)
        ensures
            backup@ == backup_path(self@),
            extension(self@) is Some && valid_utf8(extension(self@)->0) ==> backup@ == self@.take(
                stem_end(self@),
            ) + seq![DOT] + extension(self@)->0 + encode_utf8(".bak"@),
    {
        match self.file_name_range() {
            None => self.clone(),
            Some((start, end)) => {
                let mut text = match self.extension_text() {
                    Some(text) => text,
                    None => String::new(),
                };
                proof {
                    if extension(self@) is Some && valid_utf8(extension(self@)->0) {
                        lemma_encode_both(text@, ".bak"@);
                        decode_utf8_encode_utf8(extension(self@)->0);
                    }
                }
                text.append(".bak");
                let stem: usize = match self.extension_dot(start, end) {
                    Some(at) => at,
                    None => end,
                };
                let mut bytes = slice_to_vec(slice_subrange(self.bytes.as_slice(), 0, stem));
                bytes.push(DOT);
                let mut suffix = slice_to_vec(text.as_str().as_bytes());
                bytes.append(&mut suffix);
                let backup = FilePath { bytes };
                assert(self@.subrange(0, stem as int) =~= self@.take(stem as int));
                assert(backup@ =~= backup_path(self@));
                backup
            },
        }
    }

    /// The path as text.
    pub fn to_text(&self) -> (text: String)
        ensures
            text@ == lossy_text(self@),
            valid_utf8(self@) ==> text@ == decode_utf8(self@),
    {
        decode_lossy(self.bytes.as_slice())
    }
}

} // verus!
