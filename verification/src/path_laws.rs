//! What holds of paths, whatever their names.

use crate::paths;
use crate::paths::PathStyle;
use crate::text;
use crate::text::CharSet;
use crate::text_laws;
use vstd::prelude::*;

verus! {

/// Whether a text is a name in a path: it is not empty, not a single dot, and holds no slash.
pub open spec fn is_name(name: Seq<char>) -> bool {
    name.len() > 0 && name != "."@ && !name.contains('/')
}

/// The names of a path are those before a slash and those behind it, and a name is the only one of
/// itself.
pub proof fn lemma_names(a: Seq<char>, b: Seq<char>)
    ensures
        paths::names(a + seq!['/'] + b) == paths::names(a) + paths::names(b),
        is_name(a) ==> paths::names(a) == seq![a],
        a.len() == 0 || a == "."@ ==> paths::names(a) == Seq::<Seq<char>>::empty(),
{
    let set = CharSet::Only('/');
    let keep = |p: Seq<char>| paths::counts(p);
    text_laws::lemma_pieces_around(a, '/', b, set);
    lemma_filter_concat(text::pieces(a, set), text::pieces(b, set), keep);
    reveal_strlit(".");
    if !a.contains('/') {
        text::lemma_pieces_single(a, '/');
        reveal(Seq::filter);
        assert(seq![a].drop_last() =~= Seq::<Seq<char>>::empty());
        assert(Seq::<Seq<char>>::empty().filter(keep) =~= Seq::empty());
        assert(seq![a].last() == a);
        assert(seq![a].filter(keep) =~= if paths::counts(a) {
            seq![a]
        } else {
            Seq::empty()
        });
    }
    if a == "."@ {
        assert(!a.contains('/')) by {
            assert(a[0] == '.');
        }
    }
}

proof fn lemma_filter_concat(x: Seq<Seq<char>>, y: Seq<Seq<char>>, keep: spec_fn(Seq<char>) -> bool)
    ensures
        (x + y).filter(keep) == x.filter(keep) + y.filter(keep),
    decreases y.len(),
{
    reveal(Seq::filter);
    if y.len() == 0 {
        assert(x + y =~= x);
        assert(x.filter(keep) + y.filter(keep) =~= x.filter(keep));
    } else {
        assert((x + y).drop_last() =~= x + y.drop_last());
        lemma_filter_concat(x, y.drop_last(), keep);
        assert((x + y).filter(keep) =~= x.filter(keep) + y.filter(keep));
    }
}

/// The text of a path has the names of the path, in their order.
pub proof fn lemma_path_text(parts: Seq<Seq<char>>)
    requires
        forall|i: int| 0 <= i < parts.len() ==> is_name(#[trigger] parts[i]),
    ensures
        paths::names(paths::path_text(parts)) == parts,
    decreases parts.len(),
{
    reveal_strlit("/");
    assert("/"@ =~= seq!['/']);
    if parts.len() == 0 {
        lemma_names(Seq::empty(), Seq::empty());
        assert(parts =~= Seq::empty());
    } else {
        let rest = parts.drop_last();
        let last = parts[parts.len() - 1];
        assert forall|i: int| 0 <= i < rest.len() implies is_name(#[trigger] rest[i]) by {
            assert(rest[i] == parts[i]);
        }
        lemma_path_text(rest);
        text_laws::lemma_joined(rest, last, "/"@);
        assert(rest.push(last) =~= parts);
        lemma_names(last, Seq::empty());
        if rest.len() > 0 {
            lemma_names(paths::path_text(rest), last);
        } else {
            assert(rest + seq![last] =~= seq![last]);
            assert(parts =~= seq![last]);
        }
        assert(rest + seq![last] =~= parts);
    }
}

/// The name of the file at a path is the last name of the path, and a path that ends with a parent
/// directory has none.
pub proof fn lemma_file_name(directory: Seq<char>, name: Seq<char>)
    requires
        is_name(name),
    ensures
        name != ".."@ ==> paths::file_name(directory + seq!['/'] + name) == Some(name)
            && paths::file_name(name) == Some(name),
        name == ".."@ ==> paths::file_name(directory + seq!['/'] + name) is None,
{
    lemma_names(directory, name);
    lemma_names(name, Seq::empty());
    let all = paths::names(directory) + seq![name];
    assert(all.last() == name);
}

/// A file name is taken apart at its last dot: what stands before it is the stem, and what stands
/// behind it the extension. A name without a dot has no extension, and neither has one whose only
/// dot is its first character.
pub proof fn lemma_stem(stem: Seq<char>, extension: Seq<char>)
    requires
        !extension.contains('.'),
    ensures
        stem.len() > 0 ==> paths::stem(stem + seq!['.'] + extension) == stem
            && paths::extension(stem + seq!['.'] + extension) == Some(extension),
        paths::stem(extension) == extension && paths::extension(extension) is None,
        paths::stem(seq!['.'] + extension) == seq!['.'] + extension
            && paths::extension(seq!['.'] + extension) is None,
{
    let name = stem + seq!['.'] + extension;
    let hidden = seq!['.'] + extension;
    assert forall|k: int| 0 <= k < extension.len() implies #[trigger] extension[k] != '.' by {
        assert(extension.contains(extension[k]));
    }
    lemma_dot(name, stem.len() as int, name.len() as int);
    lemma_dot(hidden, 0, hidden.len() as int);
    lemma_no_dot(extension, extension.len() as int);
    assert(name.subrange(0, stem.len() as int) =~= stem);
    assert(name.subrange(stem.len() as int + 1, name.len() as int) =~= extension);
}

proof fn lemma_dot(name: Seq<char>, dot: int, end: int)
    requires
        0 <= dot < end <= name.len(),
        name[dot] == '.',
        forall|k: int| dot < k < name.len() ==> #[trigger] name[k] != '.',
    ensures
        paths::last_dot(name, end) == Some(dot),
    decreases end,
{
    if end - 1 > dot {
        lemma_dot(name, dot, end - 1);
    }
}

proof fn lemma_no_dot(name: Seq<char>, end: int)
    requires
        0 <= end <= name.len(),
        forall|k: int| 0 <= k < name.len() ==> #[trigger] name[k] != '.',
    ensures
        paths::last_dot(name, end) is None,
    decreases end,
{
    if end > 0 {
        lemma_no_dot(name, end - 1);
    }
}

/// The id of a page is the stem of its file name, wherever the file stands.
pub proof fn lemma_path_stem(directory: Seq<char>, name: Seq<char>)
    requires
        is_name(name),
        name != ".."@,
    ensures
        paths::path_stem(directory + seq!['/'] + name) == paths::stem(name),
        paths::path_stem(name) == paths::stem(name),
{
    lemma_file_name(directory, name);
}

/// On Unix a path is absolute where it starts with a slash. On Windows it is where it starts with a
/// drive and a slash of either kind, and a path that starts with a single slash is not.
pub proof fn lemma_absolute(drive: char, slash: char, rest: Seq<char>)
    ensures
        paths::is_absolute(PathStyle::Unix, seq!['/'] + rest),
        rest.len() > 0 && rest[0] != '/' ==> !paths::is_absolute(PathStyle::Unix, rest),
        !paths::is_absolute(PathStyle::Unix, Seq::empty()),
        !paths::is_absolute(PathStyle::Windows, Seq::empty()),
        text::ascii_letter(drive) && (slash == '/' || slash == '\\') ==> paths::is_absolute(
            PathStyle::Windows,
            seq![drive, ':', slash] + rest,
        ),
        rest.len() > 0 && rest[0] != '/' && rest[0] != '\\' && (slash == '/' || slash == '\\')
            ==> !paths::is_absolute(PathStyle::Windows, seq![slash] + rest),
        rest.len() > 0 && rest[0] != '/' && rest[0] != '\\' && text::ascii_letter(drive)
            ==> !paths::is_absolute(PathStyle::Windows, seq![drive, ':'] + rest),
{
    let w = PathStyle::Windows;
    let none = Seq::<char>::empty();
    let (one, two, three) = (
        seq![drive, ':', slash] + rest,
        seq![slash] + rest,
        seq![drive, ':'] + rest,
    );
    assert(paths::with_slashes(w, none) =~= none);
    assert(text::pieces(none, CharSet::Only('/')).len() == 1);
    if text::ascii_letter(drive) && (slash == '/' || slash == '\\') {
        let p = paths::with_slashes(w, one);
        assert(p[0] == drive && p[1] == ':' && p[2] == '/');
    }
    if rest.len() > 0 && rest[0] != '/' && rest[0] != '\\' {
        let r = paths::with_slashes(w, rest);
        if slash == '/' || slash == '\\' {
            let p = paths::with_slashes(w, two);
            assert(p =~= none + seq!['/'] + r);
            text_laws::lemma_pieces_around(none, '/', r, CharSet::Only('/'));
            lemma_first_piece(r);
            assert(text::pieces(none, CharSet::Only('/')) =~= seq![none]);
            assert(text::pieces(p, CharSet::Only('/'))[1] == text::pieces(
                r,
                CharSet::Only('/'),
            )[0]);
            assert(p[0] == '/');
        }
        if text::ascii_letter(drive) {
            let p = paths::with_slashes(w, three);
            assert(p[0] == drive && p[2] == rest[0]);
            lemma_first_piece(p);
        }
    }
}

proof fn lemma_first_piece(s: Seq<char>)
    requires
        s.len() > 0,
        s[0] != '/',
    ensures
        text::pieces(s, CharSet::Only('/'))[0].len() > 0,
    decreases s.len(),
{
    let set = CharSet::Only('/');
    text::lemma_pieces_not_empty(s.drop_last(), set);
    if s.len() > 1 {
        assert(s.drop_last()[0] == s[0]);
        lemma_first_piece(s.drop_last());
    } else {
        assert(s.drop_last() =~= Seq::<char>::empty());
        assert(s.last() == s[0]);
    }
}

/// A file is named behind the directory that it stands in, with one separator between them: its path
/// stands in the directory, and its name is the last one of the path.
pub proof fn lemma_joined_path(directory: Seq<char>, name: Seq<char>)
    requires
        is_name(name),
        directory.len() > 0,
    ensures
        ({
            let path = paths::joined_path(PathStyle::Unix, directory, name);
            &&& paths::names(path) == paths::names(directory).push(name)
            &&& paths::stands_in(PathStyle::Unix, path, directory)
            &&& directory.last() != '/' ==> path == directory + seq!['/'] + name
            &&& directory.last() == '/' ==> path == directory + name
        }),
        directory.last() != '/' && directory.last() != '\\' && directory.len() > 2
            ==> paths::joined_path(PathStyle::Windows, directory, name) == directory + seq!['\\']
            + name,
{
    let path = paths::joined_path(PathStyle::Unix, directory, name);
    lemma_names(name, Seq::empty());
    if directory.last() == '/' {
        let before = directory.drop_last();
        assert(directory =~= before + seq!['/'] + Seq::<char>::empty());
        assert(path =~= before + seq!['/'] + name);
        lemma_names(before, Seq::empty());
        lemma_names(before, name);
        lemma_names(Seq::empty(), Seq::empty());
        assert(paths::names(directory) =~= paths::names(before));
        assert(paths::names(path) =~= paths::names(directory).push(name));
    } else {
        assert(path =~= directory + seq!['/'] + name);
        lemma_names(directory, name);
        assert(paths::names(path) =~= paths::names(directory).push(name));
    }
    let all = paths::names(path);
    assert(all.subrange(0, paths::names(directory).len() as int) =~= paths::names(directory));
    let w = PathStyle::Windows;
    if directory.last() != '/' && directory.last() != '\\' && directory.len() > 2 {
        assert(paths::with_slashes(w, directory).last() == directory.last());
        assert(directory.push('\\') + name =~= directory + seq!['\\'] + name);
    }
}

/// A path stands in a directory exactly where the names of the directory are the first names of the
/// path. So a directory stands in itself, and one that only begins with the same characters is
/// another one.
pub proof fn lemma_stands_in(directory: Seq<char>, rest: Seq<char>, name: Seq<char>, other: Seq<char>)
    requires
        is_name(name),
        is_name(other),
        name != other,
    ensures
        paths::stands_in(PathStyle::Unix, directory, directory),
        paths::stands_in(PathStyle::Unix, directory + seq!['/'] + rest, directory),
        !paths::stands_in(
            PathStyle::Unix,
            directory + seq!['/'] + other,
            directory + seq!['/'] + name,
        ),
        !paths::stands_in(PathStyle::Unix, directory, directory + seq!['/'] + name),
{
    lemma_names(directory, rest);
    lemma_names(directory, name);
    lemma_names(directory, other);
    lemma_names(name, Seq::empty());
    lemma_names(other, Seq::empty());
    let all = paths::names(directory);
    let n = all.len() as int;
    assert(all.subrange(0, n) =~= all);
    assert((all + paths::names(rest)).subrange(0, n) =~= all);
    let (a, b) = (all + seq![other], all + seq![name]);
    if paths::is_inside(a, b) {
        assert(a.subrange(0, b.len() as int)[n] == other);
        assert(b[n] == name);
    }
}

/// Paths stand in the order of their names: a directory stands before what is in it, and of two
/// paths in one directory the one whose name there comes first in the dictionary.
pub proof fn lemma_path_order(
    common: Seq<Seq<char>>,
    a: Seq<char>,
    x: Seq<Seq<char>>,
    b: Seq<char>,
    y: Seq<Seq<char>>,
)
    ensures
        paths::parts_le(common, common + x),
        text::text_lt(a, b) ==> paths::parts_le(common + seq![a] + x, common + seq![b] + y)
            && !paths::parts_le(common + seq![b] + y, common + seq![a] + x),
    decreases common.len(),
{
    let (p, q) = (common + seq![a] + x, common + seq![b] + y);
    if common.len() == 0 {
        assert(p[0] == a && q[0] == b);
        if text::text_lt(a, b) && text::text_le(b, a) {
            text::lemma_text_antisymmetric(a, b);
        }
    } else {
        let rest = common.subrange(1, common.len() as int);
        assert(p[0] == common[0] && q[0] == common[0] && (common + x)[0] == common[0]);
        assert(p.subrange(1, p.len() as int) =~= rest + seq![a] + x);
        assert(q.subrange(1, q.len() as int) =~= rest + seq![b] + y);
        assert((common + x).subrange(1, (common + x).len() as int) =~= rest + x);
        lemma_path_order(rest, a, x, b, y);
    }
}

/// On Windows a path that names a share of a server is absolute, with slashes of either kind.
pub proof fn lemma_share_is_absolute(server: Seq<char>, share: Seq<char>, rest: Seq<char>)
    requires
        server.len() > 0 && !server.contains('/') && !server.contains('\\'),
        share.len() > 0 && !share.contains('/') && !share.contains('\\'),
    ensures
        paths::is_absolute(
            PathStyle::Windows,
            seq!['\\', '\\'] + server + seq!['\\'] + share + seq!['\\'] + rest,
        ),
        paths::is_absolute(
            PathStyle::Windows,
            seq!['/', '/'] + server + seq!['/'] + share + seq!['/'] + rest,
        ),
{
    let w = PathStyle::Windows;
    let set = CharSet::Only('/');
    let none = Seq::<char>::empty();
    let r = paths::with_slashes(w, rest);
    let one = seq!['\\', '\\'] + server + seq!['\\'] + share + seq!['\\'] + rest;
    let two = seq!['/', '/'] + server + seq!['/'] + share + seq!['/'] + rest;
    text_laws::lemma_with_char(server, '\\', none, '/');
    text_laws::lemma_with_char(share, '\\', none, '/');
    let tail = share + seq!['/'] + r;
    let whole = none + seq!['/'] + (none + seq!['/'] + (server + seq!['/'] + tail));
    assert(paths::with_slashes(w, one) =~= whole) by {
        assert(paths::with_slashes(w, server) == server && paths::with_slashes(w, share) == share);
        assert(paths::with_slashes(w, one) =~= seq!['/', '/'] + paths::with_slashes(w, server)
            + seq!['/'] + paths::with_slashes(w, share) + seq!['/'] + r);
    }
    assert(paths::with_slashes(w, two) =~= whole) by {
        assert(paths::with_slashes(w, two) =~= seq!['/', '/'] + paths::with_slashes(w, server)
            + seq!['/'] + paths::with_slashes(w, share) + seq!['/'] + r);
    }
    text_laws::lemma_pieces_around(none, '/', none + seq!['/'] + (server + seq!['/'] + tail), set);
    text_laws::lemma_pieces_around(none, '/', server + seq!['/'] + tail, set);
    text_laws::lemma_pieces_around(server, '/', tail, set);
    text_laws::lemma_pieces_around(share, '/', r, set);
    text::lemma_pieces_single(server, '/');
    text::lemma_pieces_single(share, '/');
    assert(text::pieces(none, set) =~= seq![none]);
    let parts = text::pieces(whole, set);
    assert(parts =~= seq![none, none, server, share] + text::pieces(r, set));
    assert(parts[0] == none && parts[1] == none && parts[2] == server && parts[3] == share);
}

/// On Windows slashes of either kind stand between the names of a path, and a name that is put behind
/// a bare drive gets none before it.
pub proof fn lemma_windows_paths(directory: Seq<char>, rest: Seq<char>, drive: char, name: Seq<char>)
    requires
        !directory.contains('\\'),
        !rest.contains('\\'),
    ensures
        paths::stands_in(PathStyle::Windows, directory + seq!['\\'] + rest, directory),
        paths::stands_in(PathStyle::Windows, directory + seq!['/'] + rest, directory),
        text::ascii_letter(drive) ==> paths::joined_path(
            PathStyle::Windows,
            seq![drive, ':'],
            name,
        ) == seq![drive, ':'] + name,
{
    let w = PathStyle::Windows;
    let none = Seq::<char>::empty();
    text_laws::lemma_with_char(directory, '\\', none, '/');
    text_laws::lemma_with_char(rest, '\\', none, '/');
    let whole = directory + seq!['/'] + rest;
    assert(paths::with_slashes(w, directory + seq!['\\'] + rest) =~= paths::with_slashes(
        w,
        directory,
    ) + seq!['/'] + paths::with_slashes(w, rest));
    assert(paths::with_slashes(w, whole) =~= paths::with_slashes(w, directory) + seq!['/']
        + paths::with_slashes(w, rest));
    lemma_names(directory, rest);
    let all = paths::names(directory);
    assert((all + paths::names(rest)).subrange(0, all.len() as int) =~= all);
}

} // verus!
