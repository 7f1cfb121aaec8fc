//! Paths as texts and as lists of names.
//!
//! A path is a text of names with slashes between them. A project-relative path is kept as the
//! list of its names. A path of the system is written in the style of that system.

use crate::order;
use crate::order::{Ordered, Ranked};
use crate::text;
use crate::text::CharSet;
use vstd::prelude::*;
use vstd::slice::slice_subrange;

verus! {

// ---------------------------------------------------------------------------------------
// Names
// ---------------------------------------------------------------------------------------

/// Whether a piece of a path counts: it is not empty and not a single dot.
pub open spec fn counts(part: Seq<char>) -> bool {
    part.len() > 0 && part != "."@
}

/// The names in a path: its pieces between slashes that count.
pub open spec fn names(path: Seq<char>) -> Seq<Seq<char>> {
    text::pieces(path, CharSet::Only('/')).filter(|p: Seq<char>| counts(p))
}

/// How paths are written on a system.
#[derive(Debug, Clone, Copy, PartialEq, Eq, Structural)]
pub enum PathStyle {
    /// With slashes between the names.
    Unix,
    /// With slashes or backslashes between the names, behind the name of a drive or of a share.
    Windows,
}

impl PathStyle {
    /// What is written between two names.
    pub open spec fn separator(self) -> char {
        match self {
            PathStyle::Unix => '/',
            PathStyle::Windows => '\\',
        }
    }
}

/// A path with slashes between its names.
pub open spec fn with_slashes(style: PathStyle, path: Seq<char>) -> Seq<char> {
    match style {
        PathStyle::Unix => path,
        PathStyle::Windows => text::with_char(path, '\\', '/'),
    }
}

/// Whether a path starts at the root of the file system. On Windows it must name the drive or the
/// share as well.
pub open spec fn is_absolute(style: PathStyle, path: Seq<char>) -> bool {
    let p = with_slashes(style, path);
    match style {
        PathStyle::Unix => p.len() > 0 && p[0] == '/',
        PathStyle::Windows => {
            ||| p.len() >= 3 && text::ascii_letter(p[0]) && p[1] == ':' && p[2] == '/'
            ||| names_share(p)
        },
    }
}

/// Whether a path with slashes begins with two of them, the name of a server and that of a share.
pub open spec fn names_share(path: Seq<char>) -> bool {
    let parts = text::pieces(path, CharSet::Only('/'));
    &&& parts.len() >= 4
    &&& parts[0].len() == 0
    &&& parts[1].len() == 0
    &&& parts[2].len() > 0
    &&& parts[3].len() > 0
}

/// Whether a path is the name of a drive and no more.
pub open spec fn is_drive(path: Seq<char>) -> bool {
    path.len() == 2 && text::ascii_letter(path[0]) && path[1] == ':'
}

/// The path of `name` in a directory. An empty path is that of the directory in which a path
/// begins that is not absolute, and behind the name of a drive stands a path in the directory that
/// is current there.
pub open spec fn joined_path(style: PathStyle, directory: Seq<char>, name: Seq<char>) -> Seq<char> {
    if directory.len() == 0 || with_slashes(style, directory).last() == '/' || (style
        == PathStyle::Windows && is_drive(directory)) {
        directory + name
    } else {
        directory.push(style.separator()) + name
    }
}

/// Whether a path stands in a directory or is it. Both are resolved paths.
pub open spec fn stands_in(style: PathStyle, path: Seq<char>, directory: Seq<char>) -> bool {
    is_inside(names(with_slashes(style, path)), names(with_slashes(style, directory)))
}

/// Whether a path, given by its names, stands in a directory or is that directory.
pub open spec fn is_inside(path: Seq<Seq<char>>, directory: Seq<Seq<char>>) -> bool {
    directory.len() <= path.len() && path.subrange(0, directory.len() as int) == directory
}

/// The last name in a path, unless that names a parent directory.
pub open spec fn file_name(path: Seq<char>) -> Option<Seq<char>> {
    let all = names(path);
    if all.len() == 0 || all.last() == ".."@ {
        None
    } else {
        Some(all.last())
    }
}

/// The position of the last dot in a name before position `end`.
pub open spec fn last_dot(name: Seq<char>, end: int) -> Option<int>
    decreases end,
{
    if end <= 0 {
        None
    } else if name[end - 1] == '.' {
        Some(end - 1)
    } else {
        last_dot(name, end - 1)
    }
}

/// A file name without its extension. A dot at the start of the name opens no extension.
pub open spec fn stem(name: Seq<char>) -> Seq<char> {
    match last_dot(name, name.len() as int) {
        Some(i) => if i > 0 {
            name.subrange(0, i)
        } else {
            name
        },
        None => name,
    }
}

/// The extension of a file name: what stands behind its last dot. A dot at the start of the name
/// opens no extension.
pub open spec fn extension(name: Seq<char>) -> Option<Seq<char>> {
    match last_dot(name, name.len() as int) {
        Some(i) => if i > 0 {
            Some(name.subrange(i + 1, name.len() as int))
        } else {
            None
        },
        None => None,
    }
}

/// The stem of the last name in a path, or the path where it has none.
pub open spec fn path_stem(path: Seq<char>) -> Seq<char> {
    match file_name(path) {
        Some(name) => stem(name),
        None => path,
    }
}

/// A file name taken apart at its extension and put together again is the file name.
pub proof fn lemma_stem_and_extension(name: Seq<char>)
    ensures
        match extension(name) {
            Some(e) => name == stem(name) + seq!['.'] + e,
            None => name == stem(name),
        },
{
    lemma_last_dot(name, name.len() as int);
    if let Some(i) = last_dot(name, name.len() as int) {
        if i > 0 {
            assert(name =~= name.subrange(0, i) + seq!['.'] + name.subrange(
                i + 1,
                name.len() as int,
            ));
        }
    }
}

/// The last dot found is a dot, and none stands behind it.
proof fn lemma_last_dot(name: Seq<char>, end: int)
    requires
        end <= name.len(),
    ensures
        match last_dot(name, end) {
            Some(i) => 0 <= i < end && name[i] == '.' && forall|k: int|
                i < k < end ==> #[trigger] name[k] != '.',
            None => forall|k: int| 0 <= k < end ==> #[trigger] name[k] != '.',
        },
    decreases end,
{
    if end > 0 && name[end - 1] != '.' {
        lemma_last_dot(name, end - 1);
    }
}

/// The names in a path.
pub fn split_path(path: &[char]) -> (r: Vec<Vec<char>>)
    ensures
        text::texts(r@) == names(path@),
{
    let parts = text::split(path, CharSet::Only('/'));
    let mut out: Vec<Vec<char>> = Vec::new();
    let mut i: usize = 0;
    let ghost keep = |p: Seq<char>| counts(p);
    proof {
        reveal(Seq::filter);
        assert(text::texts(out@) =~= text::texts(parts@).take(0).filter(keep));
    }
    while i < parts.len()
        invariant
            i <= parts@.len(),
            keep == |p: Seq<char>| counts(p),
            text::texts(out@) == text::texts(parts@).take(i as int).filter(keep),
        decreases parts@.len() - i,
    {
        let ghost before = text::texts(out@);
        proof {
            reveal(Seq::filter);
            assert(text::texts(parts@).take(i + 1).drop_last() =~= text::texts(parts@).take(
                i as int,
            ));
        }
        if parts[i].len() > 0 && !text::is_text(parts[i].as_slice(), ".") {
            out.push(text::copy(parts[i].as_slice()));
            assert(text::texts(out@) =~= before.push(parts@[i as int]@));
        }
        i += 1;
    }
    assert(text::texts(parts@).take(parts@.len() as int) =~= text::texts(parts@));
    out
}

/// The position of the last dot in a name.
fn find_last_dot(name: &[char]) -> (r: Option<usize>)
    ensures
        match r {
            Some(i) => last_dot(name@, name@.len() as int) == Some(i as int) && i < name@.len(),
            None => last_dot(name@, name@.len() as int) is None,
        },
{
    let mut end: usize = name.len();
    while end > 0
        invariant
            end <= name@.len(),
            last_dot(name@, end as int) == last_dot(name@, name@.len() as int),
        decreases end,
    {
        if name[end - 1] == '.' {
            return Some(end - 1);
        }
        end -= 1;
    }
    None
}

/// A file name without its extension.
pub fn stem_of(name: &[char]) -> (r: &[char])
    ensures
        r@ == stem(name@),
{
    match find_last_dot(name) {
        Some(i) => if i > 0 {
            slice_subrange(name, 0, i)
        } else {
            name
        },
        None => name,
    }
}

/// The extension of a file name.
pub fn extension_of(name: &[char]) -> (r: Option<&[char]>)
    ensures
        text::part(r) == extension(name@),
{
    let n: usize = name.len();
    match find_last_dot(name) {
        Some(i) => if i > 0 {
            Some(slice_subrange(name, i + 1, n))
        } else {
            None
        },
        None => None,
    }
}

/// The last name in a path, unless that names a parent directory.
pub fn file_name_of(path: &str) -> (r: Option<String>)
    ensures
        text::optional(r) == file_name(path@),
{
    let chars = text::to_chars(path);
    let parts = split_path(chars.as_slice());
    let n: usize = parts.len();
    if n == 0 {
        assert(text::texts(parts@).len() == 0);
        return None;
    }
    assert(text::texts(parts@)[n - 1] == parts@[n - 1]@);
    if text::is_text(parts[n - 1].as_slice(), "..") {
        None
    } else {
        Some(text::to_text(parts[n - 1].as_slice()))
    }
}

/// The stem of the last name in a path, or the path where it has none.
pub fn file_stem(path: &str) -> (r: String)
    ensures
        r@ == path_stem(path@),
{
    match file_name_of(path) {
        Some(name) => text::to_text(stem_of(text::to_chars(name.as_str()).as_slice())),
        None => path.to_string(),
    }
}

// ---------------------------------------------------------------------------------------
// Relative paths
// ---------------------------------------------------------------------------------------

/// A path relative to some directory, as the list of its names.
#[derive(Debug, Clone, PartialEq, Eq)]
pub struct RelativePath {
    pub parts: Vec<String>,
}

impl View for RelativePath {
    type V = Seq<Seq<char>>;

    open spec fn view(&self) -> Seq<Seq<char>> {
        text::strings(self.parts@)
    }
}

/// The text of a path: its names with slashes between them.
pub open spec fn path_text(parts: Seq<Seq<char>>) -> Seq<char> {
    text::joined(parts, "/"@)
}

/// The text of a path as a browser is shown it: with slashes for backslashes.
pub open spec fn shown_path(parts: Seq<Seq<char>>) -> Seq<char> {
    text::with_char(path_text(parts), '\\', '/')
}

/// The path of the directory that a path stands in.
pub open spec fn parent(parts: Seq<Seq<char>>) -> Seq<Seq<char>> {
    if parts.len() == 0 {
        parts
    } else {
        parts.drop_last()
    }
}

impl RelativePath {
    /// The path without names.
    pub fn new() -> (r: RelativePath)
        ensures
            r@ == Seq::<Seq<char>>::empty(),
    {
        let r = RelativePath { parts: Vec::new() };
        assert(r@ =~= Seq::<Seq<char>>::empty());
        r
    }

    /// Goes on to the name `name`.
    pub fn push(&mut self, name: String)
        ensures
            final(self)@ == old(self)@.push(name@),
    {
        let ghost before = self@;
        self.parts.push(name);
        assert(self@ =~= before.push(name@));
    }

    /// A copy of the path.
    pub fn copy(&self) -> (r: RelativePath)
        ensures
            r@ == self@,
    {
        let mut r = RelativePath::new();
        let mut i: usize = 0;
        assert(r@ =~= self@.take(0));
        while i < self.parts.len()
            invariant
                i <= self.parts@.len(),
                r@ == self@.take(i as int),
            decreases self.parts@.len() - i,
        {
            assert(self@[i as int] == self.parts@[i as int]@);
            r.push(self.parts[i].as_str().to_string());
            assert(self@.take(i + 1) =~= self@.take(i as int).push(self@[i as int]));
            i += 1;
        }
        assert(self@.take(self@.len() as int) =~= self@);
        r
    }

    /// The path of `name` in the directory.
    pub fn join(&self, name: &str) -> (r: RelativePath)
        ensures
            r@ == self@.push(name@),
    {
        let mut r = self.copy();
        r.push(name.to_string());
        r
    }

    /// The path `other` below the directory.
    pub fn join_path(&self, other: &RelativePath) -> (r: RelativePath)
        ensures
            r@ == self@ + other@,
    {
        let mut r = self.copy();
        let mut i: usize = 0;
        assert(self@ + other@.take(0) =~= self@);
        while i < other.parts.len()
            invariant
                i <= other.parts@.len(),
                r@ == self@ + other@.take(i as int),
            decreases other.parts@.len() - i,
        {
            assert(other@[i as int] == other.parts@[i as int]@);
            r.push(other.parts[i].as_str().to_string());
            assert(self@ + other@.take(i + 1) =~= (self@ + other@.take(i as int)).push(
                other@[i as int],
            ));
            i += 1;
        }
        assert(other@.take(other@.len() as int) =~= other@);
        r
    }

    /// The path of the directory that the path stands in.
    pub fn parent(&self) -> (r: RelativePath)
        ensures
            r@ == parent(self@),
    {
        let mut r = self.copy();
        let ghost before = r.parts@;
        if r.parts.len() > 0 {
            r.parts.pop();
            assert(r@ =~= self@.drop_last());
        } else {
            assert(self@.len() == 0);
        }
        r
    }

    /// The names, as lists of characters.
    fn texts(&self) -> (r: Vec<Vec<char>>)
        ensures
            text::texts(r@) == self@,
    {
        let mut out: Vec<Vec<char>> = Vec::new();
        let mut i: usize = 0;
        while i < self.parts.len()
            invariant
                i <= self.parts@.len(),
                text::texts(out@) =~= self@.take(i as int),
            decreases self.parts@.len() - i,
        {
            let ghost before = text::texts(out@);
            assert(self@[i as int] == self.parts@[i as int]@);
            out.push(text::to_chars(self.parts[i].as_str()));
            assert(text::texts(out@) =~= before.push(self@[i as int]));
            i += 1;
        }
        assert(text::texts(out@) =~= self@);
        out
    }

    /// The text of the path.
    pub fn to_text(&self) -> (r: String)
        ensures
            r@ == path_text(self@),
    {
        let parts = self.texts();
        text::to_text(text::join(&parts, text::to_chars("/").as_slice()).as_slice())
    }

    /// The text of the path as a browser is shown it.
    pub fn browser_relative_path(&self) -> (r: String)
        ensures
            r@ == shown_path(self@),
    {
        let plain = self.to_text();
        text::to_text(
            text::replace_char(text::to_chars(plain.as_str()).as_slice(), '\\', '/').as_slice(),
        )
    }
}

// ---------------------------------------------------------------------------------------
// Whole paths
// ---------------------------------------------------------------------------------------

/// The characters of a path with slashes between its names.
fn slashed(style: PathStyle, path: &str) -> (r: Vec<char>)
    ensures
        r@ == with_slashes(style, path@),
{
    let chars = text::to_chars(path);
    match style {
        PathStyle::Unix => chars,
        PathStyle::Windows => text::replace_char(chars.as_slice(), '\\', '/'),
    }
}

/// Whether a path starts at the root of the file system.
pub fn path_is_absolute(style: PathStyle, path: &str) -> (r: bool)
    ensures
        r == is_absolute(style, path@),
{
    let p = slashed(style, path);
    match style {
        PathStyle::Unix => p.len() > 0 && p[0] == '/',
        PathStyle::Windows => {
            let drive = p.len() >= 3 && text::is_ascii_letter(p[0]) && p[1] == ':' && p[2] == '/';
            let parts = text::split(p.as_slice(), CharSet::Only('/'));
            proof {
                let found = text::texts(parts@);
                if parts@.len() >= 4 {
                    assert(found[0] == parts@[0]@);
                    assert(found[1] == parts@[1]@);
                    assert(found[2] == parts@[2]@);
                    assert(found[3] == parts@[3]@);
                }
            }
            let share = parts.len() >= 4 && parts[0].len() == 0 && parts[1].len() == 0
                && parts[2].len() > 0 && parts[3].len() > 0;
            drive || share
        },
    }
}

/// The path of `name` in a directory.
pub fn join_path(style: PathStyle, directory: &str, name: &str) -> (r: String)
    ensures
        r@ == joined_path(style, directory@, name@),
{
    let chars = slashed(style, directory);
    let n: usize = chars.len();
    let mut out = directory.to_string();
    match style {
        PathStyle::Unix => {
            if n > 0 && chars[n - 1] != '/' {
                out.push('/');
            }
        },
        PathStyle::Windows => {
            let drive = n == 2 && text::is_ascii_letter(chars[0]) && chars[1] == ':';
            if n > 0 && chars[n - 1] != '/' && !drive {
                out.push('\\');
            }
        },
    }
    out.append(name);
    out
}

/// The names in a path.
fn path_names(style: PathStyle, path: &str) -> (r: RelativePath)
    ensures
        r@ == names(with_slashes(style, path@)),
{
    let parts = split_path(slashed(style, path).as_slice());
    let ghost all = text::texts(parts@);
    let mut out = RelativePath::new();
    let mut i: usize = 0;
    assert(out@ =~= all.take(0));
    while i < parts.len()
        invariant
            i <= parts@.len(),
            all == text::texts(parts@),
            out@ == all.take(i as int),
        decreases parts@.len() - i,
    {
        assert(all[i as int] == parts@[i as int]@);
        out.push(text::to_text(parts[i].as_slice()));
        assert(all.take(i + 1) =~= all.take(i as int).push(all[i as int]));
        i += 1;
    }
    assert(all.take(all.len() as int) =~= all);
    out
}

/// Whether a path, given by its names, stands in a directory or is that directory.
fn stands_inside(path: &RelativePath, directory: &RelativePath) -> (r: bool)
    ensures
        r == is_inside(path@, directory@),
{
    let n: usize = directory.parts.len();
    if n > path.parts.len() {
        return false;
    }
    let mut i: usize = 0;
    while i < n
        invariant
            i <= n,
            n == directory.parts@.len(),
            n <= path.parts@.len(),
            forall|k: int| 0 <= k < i ==> #[trigger] path@[k] == directory@[k],
        decreases n - i,
    {
        assert(path@[i as int] == path.parts@[i as int]@);
        assert(directory@[i as int] == directory.parts@[i as int]@);
        if !text::same_text(path.parts[i].as_str(), directory.parts[i].as_str()) {
            assert(path@.subrange(0, n as int)[i as int] != directory@[i as int]);
            return false;
        }
        i += 1;
    }
    assert(path@.subrange(0, n as int) =~= directory@);
    true
}

/// Whether a path, as resolved, stands in a directory or is it.
pub fn path_stands_in(style: PathStyle, path: &str, directory: &str) -> (r: bool)
    ensures
        r == stands_in(style, path@, directory@),
{
    stands_inside(&path_names(style, path), &path_names(style, directory))
}

// ---------------------------------------------------------------------------------------
// Order
// ---------------------------------------------------------------------------------------

/// The order of paths: name by name.
pub open spec fn parts_le(a: Seq<Seq<char>>, b: Seq<Seq<char>>) -> bool
    decreases a.len(),
{
    if a.len() == 0 {
        true
    } else if b.len() == 0 {
        false
    } else if a[0] == b[0] {
        parts_le(a.subrange(1, a.len() as int), b.subrange(1, b.len() as int))
    } else {
        text::text_le(a[0], b[0])
    }
}

/// Of two paths one is at most the other.
proof fn lemma_parts_total(a: Seq<Seq<char>>, b: Seq<Seq<char>>)
    ensures
        parts_le(a, b) || parts_le(b, a),
    decreases a.len(),
{
    if a.len() > 0 && b.len() > 0 {
        if a[0] == b[0] {
            lemma_parts_total(a.subrange(1, a.len() as int), b.subrange(1, b.len() as int));
        } else {
            text::lemma_text_total(a[0], b[0]);
        }
    }
}

/// The order of paths is transitive.
proof fn lemma_parts_transitive(a: Seq<Seq<char>>, b: Seq<Seq<char>>, c: Seq<Seq<char>>)
    requires
        parts_le(a, b),
        parts_le(b, c),
    ensures
        parts_le(a, c),
    decreases a.len(),
{
    if a.len() > 0 {
        if a[0] == b[0] && b[0] == c[0] {
            lemma_parts_transitive(
                a.subrange(1, a.len() as int),
                b.subrange(1, b.len() as int),
                c.subrange(1, c.len() as int),
            );
        } else if a[0] != b[0] && b[0] != c[0] {
            text::lemma_text_transitive(a[0], b[0], c[0]);
            if a[0] == c[0] {
                text::lemma_text_antisymmetric(a[0], b[0]);
            }
        }
    }
}

/// A path as it is ordered.
pub struct PathOrder {
    pub parts: Seq<Seq<char>>,
}

impl Ranked for PathOrder {
    open spec fn le(self, other: Self) -> bool {
        parts_le(self.parts, other.parts)
    }

    proof fn le_total(self, other: Self) {
        lemma_parts_total(self.parts, other.parts);
    }

    proof fn le_transitive(self, middle: Self, other: Self) {
        lemma_parts_transitive(self.parts, middle.parts, other.parts);
    }
}

impl Ordered for RelativePath {
    type Model = PathOrder;

    open spec fn model(&self) -> PathOrder {
        PathOrder { parts: self@ }
    }

    fn is_le(&self, other: &Self) -> (r: bool) {
        let (a, b) = (&self.parts, &other.parts);
        let ghost (all_a, all_b) = (self@, other@);
        let mut i: usize = 0;
        assert(all_a.subrange(0, all_a.len() as int) =~= all_a);
        assert(all_b.subrange(0, all_b.len() as int) =~= all_b);
        while i < a.len()
            invariant
                i <= a@.len(),
                i <= b@.len(),
                all_a == self@,
                all_b == other@,
                all_a == text::strings(a@),
                all_b == text::strings(b@),
                parts_le(
                    all_a.subrange(i as int, all_a.len() as int),
                    all_b.subrange(i as int, all_b.len() as int),
                ) == parts_le(all_a, all_b),
            decreases a@.len() - i,
        {
            if i == b.len() {
                return false;
            }
            assert(all_a[i as int] == a@[i as int]@ && all_b[i as int] == b@[i as int]@);
            if !text::same_text(a[i].as_str(), b[i].as_str()) {
                return text::string_at_most(a[i].as_str(), b[i].as_str());
            }
            assert(all_a.subrange(i as int, all_a.len() as int).subrange(1, all_a.len() - i)
                =~= all_a.subrange(i + 1, all_a.len() as int));
            assert(all_b.subrange(i as int, all_b.len() as int).subrange(1, all_b.len() - i)
                =~= all_b.subrange(i + 1, all_b.len() as int));
            i += 1;
        }
        true
    }
}

/// The paths in order, name by name.
pub fn sort_paths(list: Vec<RelativePath>) -> (r: Vec<RelativePath>)
    ensures
        order::models(r@) == order::sorted_list(order::models(list@)),
        r@.len() == list@.len(),
{
    order::sort(list)
}

} // verus!
