//! What holds of every path.

use crate::path::{
    backup_path, components, extension, extension_text, file_name, is_kept, kept, last_dot,
    last_name, lemma_encode_both, lossy_text, name_end, name_start, path_starts_with, pieces,
    root_component, stem_end, DOT, SLASH,
};
use vstd::prelude::*;
use vstd::utf8::{encode_utf8, is_ascii_chars, is_ascii_chars_encode_utf8};

verus! {

/// Every path starts with itself.
pub proof fn lemma_starts_with_itself(path: Seq<u8>)
    ensures
        path_starts_with(path, path),
{
    assert(components(path) =~= components(path).take(components(path).len() as int));
}

/// What lies below a directory lies below every directory that leads to it. So nothing below an
/// excluded directory has to be looked at to be known as excluded.
pub proof fn lemma_starts_with_transitive(path: Seq<u8>, middle: Seq<u8>, base: Seq<u8>)
    requires
        path_starts_with(path, middle),
        path_starts_with(middle, base),
    ensures
        path_starts_with(path, base),
{
    let p = components(path);
    let m = components(middle);
    let b = components(base);
    assert forall|i: int| 0 <= i < b.len() implies b[i] == p[i] by {
        assert(b[i] == m[i]);
        assert(m[i] == p[i]);
    }
    assert(b =~= p.take(b.len() as int));
}

proof fn lemma_pieces(path: Seq<u8>)
    ensures
        pieces(path).len() > 0,
        pieces(path).last() == path.skip(name_start(path, path.len() as int)),
        0 <= name_start(path, path.len() as int) <= path.len(),
        pieces(path).len() == 1 <==> name_start(path, path.len() as int) == 0,
        name_start(path, path.len() as int) > 0 ==> path[name_start(path, path.len() as int) - 1]
            == SLASH,
    decreases path.len(),
{
    let n = path.len() as int;
    if n == 0 {
        assert(path.skip(0) =~= Seq::<u8>::empty());
    } else {
        let front = path.drop_last();
        lemma_pieces(front);
        lemma_name_start_prefix(path, n - 1);
        assert(path.take(n - 1) =~= front);
        if path.last() == SLASH {
            assert(path.skip(n) =~= Seq::<u8>::empty());
        } else {
            let start = name_start(path, n - 1);
            assert(path.skip(start) =~= front.skip(start).push(path.last()));
        }
    }
}

proof fn lemma_name_start_prefix(path: Seq<u8>, end: int)
    requires
        0 <= end <= path.len(),
    ensures
        name_start(path, end) == name_start(path.take(end), end),
        0 <= name_start(path, end) <= end,
    decreases end,
{
    if end > 0 {
        lemma_name_start_prefix(path, end - 1);
        lemma_name_start_prefix(path.take(end), end - 1);
        assert(path.take(end).take(end - 1) =~= path.take(end - 1));
    }
}

/// Slashes and `.` components at the end of a path change nothing.
proof fn lemma_trailing_part(path: Seq<u8>)
    ensures
        0 <= name_end(path) <= path.len(),
        name_end(path) > 0 ==> components(path) == components(path.take(name_end(path))),
        name_end(path) == 0 ==> components(path) == root_component(path),
        forall|i: int|
            name_end(path) <= i < path.len() ==> #[trigger] path[i] == SLASH || path[i] == DOT,
    decreases path.len(),
{
    let n = path.len() as int;
    if n == 0 {
        assert(pieces(path).last() =~= Seq::<u8>::empty());
        assert(kept(pieces(path)) =~= kept(pieces(path).drop_last()));
        assert(pieces(path).drop_last() =~= seq![]);
        assert(components(path) =~= root_component(path));
    } else {
        let front = path.drop_last();
        lemma_trailing_part(front);
        lemma_pieces(front);
        if path[n - 1] == SLASH {
            assert(pieces(path).drop_last() =~= pieces(front));
            assert(pieces(path).last().len() == 0);
            assert(kept(pieces(path)) == kept(pieces(front)));
            if n == 1 {
                assert(front =~= seq![]);
                assert(components(path) =~= root_component(path));
            } else {
                assert(root_component(path) == root_component(front));
                assert(components(path) == components(front));
            }
            assert(front.take(name_end(path)) =~= path.take(name_end(path)));
        } else if n >= 2 && path[n - 1] == DOT && path[n - 2] == SLASH {
            assert(name_start(front, n - 1) == n - 1);
            assert(front.skip(n - 1) =~= Seq::<u8>::empty());
            assert(pieces(path).last() =~= seq![DOT]);
            assert(pieces(path).drop_last() =~= pieces(front).drop_last());
            assert(pieces(path).len() == pieces(front).len());
            assert(kept(pieces(path)) == kept(pieces(path).drop_last()));
            assert(pieces(front).last().len() == 0);
            assert(kept(pieces(front)) == kept(pieces(front).drop_last()));
            assert(root_component(path) == root_component(front));
            assert(components(path) == components(front));
            assert(front.take(name_end(path)) =~= path.take(name_end(path)));
        } else {
            assert(path.take(n) =~= path);
        }
        assert forall|i: int| name_end(path) <= i < path.len() implies #[trigger] path[i] == SLASH
            || path[i] == DOT by {
            if i < n - 1 {
                assert(front[i] == path[i]);
            }
        }
    }
}

proof fn lemma_name_end_stops(path: Seq<u8>)
    ensures
        0 <= name_end(path) <= path.len(),
        name_end(path) > 0 ==> path[name_end(path) - 1] != SLASH,
        name_end(path) >= 2 && path[name_end(path) - 1] == DOT ==> path[name_end(path) - 2]
            != SLASH,
    decreases path.len(),
{
    if path.len() > 0 {
        lemma_name_end_stops(path.drop_last());
    }
}

/// The file name of a path is its last component. A path without a file name has no component at
/// all, or its last one is the root, `.` or `..`.
pub proof fn lemma_file_name_is_last_component(path: Seq<u8>)
    ensures
        match file_name(path) {
            Some(name) => components(path).len() > 0 && components(path).last() == name,
            None => components(path).len() == 0 || components(path).last() == seq![SLASH]
                || components(path).last() == seq![DOT] || components(path).last() == seq![
                DOT,
                DOT,
            ],
        },
{
    let end = name_end(path);
    lemma_trailing_part(path);
    lemma_name_end_stops(path);
    if end > 0 {
        let front = path.take(end);
        lemma_pieces(front);
        lemma_name_start_prefix(path, end);
        let start = name_start(path, end);
        assert(front.skip(start) =~= last_name(path));
        let all = pieces(front);
        assert(all.last() == last_name(path));
        assert(start < end);
        if all.last() == seq![DOT] {
            assert(end - start == 1);
            assert(path[end - 1] == last_name(path)[0]);
            assert(start == 0);
        }
        assert(is_kept(all.last(), all.len() == 1));
        assert(components(front).last() == last_name(path));
    } else {
        assert(last_name(path).len() == 0);
        lemma_name_start_prefix(path, 0);
    }
}

proof fn lemma_last_dot(name: Seq<u8>)
    ensures
        -1 <= last_dot(name) < name.len(),
        last_dot(name) >= 0 ==> name[last_dot(name)] == DOT,
        forall|i: int| last_dot(name) < i < name.len() ==> #[trigger] name[i] != DOT,
    decreases name.len(),
{
    if name.len() > 0 {
        lemma_last_dot(name.drop_last());
        assert forall|i: int| last_dot(name) < i < name.len() implies #[trigger] name[i] != DOT by {
            if i < name.len() - 1 {
                assert(name.drop_last()[i] == name[i]);
            }
        }
    }
}

/// The name under which a file is kept while a link takes its place is never the name of the file
/// itself, and it starts with the same directory.
pub proof fn lemma_backup_is_another_path(path: Seq<u8>)
    requires
        file_name(path) is Some,
    ensures
        backup_path(path) != path,
        backup_path(path).take(name_start(path, name_end(path))) == path.take(
            name_start(path, name_end(path)),
        ),
{
    let text = match extension_text(path) {
        Some(text) => text,
        None => Seq::<char>::empty(),
    };
    let bak = ".bak"@;
    reveal_strlit(".bak");
    assert(is_ascii_chars(bak));
    is_ascii_chars_encode_utf8(bak);
    lemma_encode_both(text, bak);
    let start = name_start(path, name_end(path));
    let name = last_name(path);
    lemma_trailing_part(path);
    lemma_name_start_prefix(path, name_end(path));
    lemma_last_dot(name);
    let backup = backup_path(path);
    let stem = stem_end(path);
    assert(start <= stem <= name_end(path));
    assert(backup.len() == stem + 1 + encode_utf8(text).len() + 4);
    assert(backup.last() == 107u8);
    assert(backup[backup.len() - 4] == DOT);
    assert(backup.take(start) =~= path.take(start));
    if backup == path {
        let n = path.len() as int;
        assert(path[n - 1] == 107u8);
        assert(name_end(path) == n);
        assert(path[n - 4] == DOT);
        assert(n - 4 > stem);
        assert(name[n - 4 - start] == DOT);
    }
}

/// Bytes without a slash behind a path make its last piece longer.
proof fn lemma_pieces_with_more(path: Seq<u8>, name: Seq<u8>)
    requires
        forall|i: int| 0 <= i < name.len() ==> #[trigger] name[i] != SLASH,
    ensures
        pieces(path).len() > 0,
        pieces(path + name) == pieces(path).drop_last().push(pieces(path).last() + name),
    decreases name.len(),
{
    lemma_pieces(path);
    if name.len() == 0 {
        assert(path + name =~= path);
        assert(pieces(path).last() + name =~= pieces(path).last());
        assert(pieces(path).drop_last().push(pieces(path).last()) =~= pieces(path));
    } else {
        let front = name.drop_last();
        assert forall|i: int| 0 <= i < front.len() implies #[trigger] front[i] != SLASH by {
            assert(front[i] == name[i]);
        }
        lemma_pieces_with_more(path, front);
        assert((path + name).drop_last() =~= path + front);
        assert((path + name).last() == name.last());
        assert(name[name.len() - 1] == name.last());
        let before = pieces(path).drop_last().push(pieces(path).last() + front);
        assert(before.drop_last() =~= pieces(path).drop_last());
        assert((pieces(path).last() + front).push(name.last()) =~= pieces(path).last() + name);
    }
}

/// Components are found by building a path up. The empty path has none; a slash alone is the root;
/// a name alone is itself; a slash behind a path adds nothing; and behind a slash a name is added,
/// unless it is a single dot, which adds nothing.
pub proof fn lemma_components_build_up(path: Seq<u8>, name: Seq<u8>)
    requires
        name.len() > 0,
        forall|i: int| 0 <= i < name.len() ==> #[trigger] name[i] != 47u8,
    ensures
        components(Seq::<u8>::empty()) == Seq::<Seq<u8>>::empty(),
        components(seq![47u8]) == seq![seq![47u8]],
        components(name) == seq![name],
        path.len() > 0 ==> components(path.push(47u8)) == components(path),
        path.len() > 0 && path.last() == 47u8 ==> components(path + name) == if name == seq![
            46u8,
        ] {
            components(path)
        } else {
            components(path).push(name)
        },
{
    let none = Seq::<u8>::empty();
    let nothing = Seq::<Seq<u8>>::empty();
    assert(kept(nothing) == nothing);
    assert(pieces(none).drop_last() =~= nothing);
    assert(kept(pieces(none)) =~= nothing);
    assert(components(none) =~= nothing);
    let slash = seq![47u8];
    assert(slash.drop_last() =~= none);
    assert(pieces(slash).drop_last() =~= pieces(none));
    assert(kept(pieces(slash)) =~= nothing);
    assert(components(slash) =~= seq![slash]);
    lemma_pieces_with_more(none, name);
    assert(none + name =~= name);
    assert(pieces(name) =~= seq![name]);
    assert(seq![name].drop_last() =~= nothing);
    assert(kept(seq![name]) =~= seq![name]);
    assert(name[0] != SLASH);
    assert(components(name) =~= seq![name]);
    if path.len() > 0 {
        let longer = path.push(47u8);
        assert(longer.drop_last() =~= path);
        assert(pieces(longer).drop_last() =~= pieces(path));
        assert(kept(pieces(longer)) == kept(pieces(path)));
        assert(longer[0] == path[0]);
        if path.last() == 47u8 {
            let whole = path + name;
            lemma_pieces_with_more(path, name);
            let all = pieces(path);
            assert(all.last() =~= none);
            assert(all.last() + name =~= name);
            lemma_pieces(path.drop_last());
            assert(all.len() >= 2);
            assert(pieces(whole).drop_last() =~= all.drop_last());
            assert(kept(all) == kept(all.drop_last()));
            assert(whole[0] == path[0]);
            if name == seq![46u8] {
                assert(components(whole) =~= components(path));
            } else {
                assert(components(whole) =~= components(path).push(name));
            }
        }
    }
}

/// A path lies below another one exactly if it has the components of that one first, and then any
/// others.
pub proof fn lemma_starts_with_is_more_components(path: Seq<u8>, base: Seq<u8>)
    ensures
        path_starts_with(path, base) <==> exists|rest: Seq<Seq<u8>>|
            components(path) == #[trigger] (components(base) + rest),
{
    let p = components(path);
    let b = components(base);
    if path_starts_with(path, base) {
        let rest = p.skip(b.len() as int);
        assert(p =~= b + rest);
    }
    if exists|rest: Seq<Seq<u8>>| p == #[trigger] (b + rest) {
        let rest = choose|rest: Seq<Seq<u8>>| p == #[trigger] (b + rest);
        assert(b =~= p.take(b.len() as int));
    }
}

/// A path has a file name exactly if it has components and the last one is not the root, `.` or
/// `..`; that component is the file name.
pub proof fn lemma_file_name_is_a_name(path: Seq<u8>)
    ensures
        file_name(path) is Some <==> components(path).len() > 0 && components(path).last() != seq![
            47u8,
        ] && components(path).last() != seq![46u8] && components(path).last() != seq![46u8, 46u8],
        file_name(path) is Some ==> file_name(path)->0 == components(path).last(),
{
    lemma_file_name_is_last_component(path);
    lemma_trailing_part(path);
    lemma_name_end_stops(path);
    let end = name_end(path);
    lemma_name_start_prefix(path, end);
    if file_name(path) is Some {
        let start = name_start(path, end);
        let name = last_name(path);
        assert(end > 0);
        assert(name[name.len() - 1] == path[end - 1]);
        if name == seq![47u8] {
            assert(name[0] == 47u8);
        }
    }
}

/// The extension is everything behind the last dot of the file name, of whatever length: the name
/// is a stem that is not empty, a dot, and the extension, which holds no dot. A file name without an
/// extension has no dot behind its first byte, and a path without a file name has no extension.
pub proof fn lemma_extension_is_behind_the_last_dot(path: Seq<u8>)
    ensures
        match (file_name(path), extension(path)) {
            (Some(name), Some(ext)) => {
                &&& exists|stem: Seq<u8>|
                    stem.len() > 0 && name == #[trigger] (stem + seq![46u8] + ext)
                &&& forall|i: int| 0 <= i < ext.len() ==> #[trigger] ext[i] != 46u8
            },
            (Some(name), None) => forall|i: int|
                0 < i < name.len() ==> #[trigger] name[i] != 46u8,
            (None, Some(_)) => false,
            (None, None) => true,
        },
{
    if let Some(name) = file_name(path) {
        lemma_last_dot(name);
        let at = last_dot(name);
        if at > 0 {
            let stem = name.take(at);
            let ext = extension(path)->0;
            assert(ext == name.skip(at + 1));
            assert(name =~= stem + seq![46u8] + ext);
            assert(stem.len() > 0 && name == stem + seq![46u8] + ext);
            assert forall|i: int| 0 <= i < ext.len() implies #[trigger] ext[i] != 46u8 by {
                assert(ext[i] == name[at + 1 + i]);
            }
        }
    }
}

/// The backup of a file stands in its directory, under its name with `.bak` behind it, or with
/// `..bak` behind it where it has no extension. An extension that is no text is replaced by how it
/// reads.
pub proof fn lemma_backup_name(directory: Seq<u8>, name: Seq<u8>)
    requires
        directory.len() > 0 ==> directory.last() == 47u8,
        name.len() > 0,
        forall|i: int| 0 <= i < name.len() ==> #[trigger] name[i] != 47u8,
        name != seq![46u8],
        name != seq![46u8, 46u8],
    ensures
        ({
            let path = directory + name;
            let bak = seq![46u8, 98u8, 97u8, 107u8];
            &&& file_name(path) == Some(name)
            &&& match extension(path) {
                None => backup_path(path) == path + seq![46u8] + bak,
                Some(ext) => {
                    let text = encode_utf8(lossy_text(ext));
                    &&& backup_path(path) == path.take(path.len() - ext.len()) + text + bak
                    &&& text == ext ==> backup_path(path) == path + bak
                },
            }
        }),
{
    let path = directory + name;
    let n = path.len() as int;
    let start = directory.len() as int;
    assert(path[n - 1] == name[name.len() - 1]);
    assert(name_end(path) == n) by {
        if path[n - 1] == DOT && n >= 2 && path[n - 2] == SLASH {
            if name.len() >= 2 {
                assert(path[n - 2] == name[name.len() - 2]);
            } else {
                assert(name =~= seq![46u8]);
            }
        }
    }
    lemma_name_start_of(path, start, n);
    assert(last_name(path) =~= name);
    lemma_last_dot(name);
    let bak = ".bak"@;
    reveal_strlit(".bak");
    assert(is_ascii_chars(bak));
    is_ascii_chars_encode_utf8(bak);
    assert(encode_utf8(bak) =~= seq![46u8, 98u8, 97u8, 107u8]);
    match extension(path) {
        None => {
            lemma_encode_both(Seq::<char>::empty(), bak);
            assert(Seq::<char>::empty() + bak =~= bak);
            assert(path.take(n) =~= path);
            assert(backup_path(path) =~= path + seq![46u8] + encode_utf8(bak));
        },
        Some(ext) => {
            lemma_encode_both(lossy_text(ext), bak);
            let at = last_dot(name);
            assert(stem_end(path) == start + at);
            assert(path.take(start + at).push(46u8) =~= path.take(n - ext.len()));
            assert(path.take(start + at) + seq![46u8] =~= path.take(n - ext.len()));
            assert(backup_path(path) =~= path.take(n - ext.len()) + encode_utf8(lossy_text(ext))
                + encode_utf8(bak));
            if encode_utf8(lossy_text(ext)) == ext {
                assert(path.take(n - ext.len()) + ext =~= path);
            }
        },
    }
}

proof fn lemma_name_start_of(path: Seq<u8>, start: int, end: int)
    requires
        0 <= start <= end <= path.len(),
        start > 0 ==> path[start - 1] == SLASH,
        forall|i: int| start <= i < end ==> #[trigger] path[i] != SLASH,
    ensures
        name_start(path, end) == start,
    decreases end,
{
    if end > start {
        lemma_name_start_of(path, start, end - 1);
    }
}

/// A slash, or a slash and a dot, behind a path change neither its file name nor its extension nor
/// the place of its backup; and a path without a file name is its own backup.
pub proof fn lemma_what_follows_the_name_does_not_count(path: Seq<u8>)
    requires
        path.len() > 0,
    ensures
        ({
            let slash = path.push(47u8);
            let dot = path.push(47u8).push(46u8);
            &&& file_name(slash) == file_name(path) && file_name(dot) == file_name(path)
            &&& extension(slash) == extension(path) && extension(dot) == extension(path)
            &&& file_name(path) is Some ==> backup_path(slash) == backup_path(path) && backup_path(
                dot,
            ) == backup_path(path)
        }),
        file_name(path) is None ==> backup_path(path) == path && extension(path) is None,
{
    let slash = path.push(47u8);
    let dot = slash.push(46u8);
    let end = name_end(path);
    lemma_trailing_part(path);
    lemma_name_start_prefix(path, end);
    assert(slash.drop_last() =~= path);
    assert(dot.drop_last() =~= slash);
    assert(name_end(slash) == end);
    assert(name_end(dot) == end);
    lemma_name_start_prefix(slash, end);
    lemma_name_start_prefix(dot, end);
    assert(slash.take(end) =~= path.take(end));
    assert(dot.take(end) =~= path.take(end));
    assert(last_name(slash) =~= last_name(path));
    assert(last_name(dot) =~= last_name(path));
    lemma_last_dot(last_name(path));
    if file_name(path) is Some {
        let stem = stem_end(path);
        assert(0 <= stem <= end);
        assert(slash.take(stem) =~= path.take(stem));
        assert(dot.take(stem) =~= path.take(stem));
    }
}

} // verus!
