//! Paths as the selector pipeline sees them: a root and the components
//! below it.

use vstd::prelude::*;
use crate::text::{chars_of, copy_strings, push_char, push_chars, split, split_chars, texts};
use crate::token::SEPARATOR;

verus! {

/// A path: where it starts, and the components that lead on from there.
/// An empty root stands for the current directory.
///
/// The components are kept as they are written. `.` and `..` are components
/// like any other and are left to the file system: nothing is resolved or
/// taken away, so `aaa/../bbb` and `./aaa` stay as they are, though they
/// name the same files as `bbb` and `aaa`.
#[derive(Debug)]
pub struct Path {
    pub root: String,
    pub components: Vec<String>,
}

/// The mathematical value of a [`Path`].
pub struct PathView {
    pub root: Seq<char>,
    pub components: Seq<Seq<char>>,
}

impl View for Path {
    type V = PathView;

    open spec fn view(&self) -> PathView {
        PathView { root: self.root@, components: texts(self.components@) }
    }
}

/// The values of a run of paths.
pub open spec fn path_views(paths: Seq<Path>) -> Seq<PathView> {
    Seq::new(paths.len(), |i: int| paths[i]@)
}

/// `path` with `component` joined on. An empty component adds nothing, so
/// a trailing separator in a pattern leaves the path as it is. Every other
/// component is added as it is written, `.` and `..` too: joining `..` onto
/// `aaa` gives `aaa/..`, not the directory above `aaa`.
pub open spec fn joined(path: PathView, component: Seq<char>) -> PathView {
    if component.len() == 0 {
        path
    } else {
        PathView { root: path.root, components: path.components.push(component) }
    }
}

/// The entry called `name` of the directory `path`.
pub open spec fn child(path: PathView, name: Seq<char>) -> PathView {
    PathView { root: path.root, components: path.components.push(name) }
}

/// The final component of a path; empty where the path has none.
pub open spec fn name_of(path: PathView) -> Seq<char> {
    if path.components.len() == 0 {
        Seq::empty()
    } else {
        path.components.last()
    }
}

/// `pieces` without its empty members.
pub open spec fn without_empty(pieces: Seq<Seq<char>>) -> Seq<Seq<char>>
    decreases pieces.len(),
{
    if pieces.len() == 0 {
        Seq::empty()
    } else if pieces.last().len() == 0 {
        without_empty(pieces.drop_last())
    } else {
        without_empty(pieces.drop_last()).push(pieces.last())
    }
}

/// Whether a text starts at the root of the file system.
pub open spec fn is_rooted(text: Seq<char>) -> bool {
    text.len() > 0 && text[0] == SEPARATOR
}

/// The path that a text names: rooted if it starts with a separator, with
/// one component for each non-empty piece between separators.
pub open spec fn path_of(text: Seq<char>) -> PathView {
    if is_rooted(text) {
        PathView { root: seq![SEPARATOR], components: without_empty(split(text.skip(1), SEPARATOR)) }
    } else {
        PathView { root: Seq::empty(), components: without_empty(split(text, SEPARATOR)) }
    }
}

/// The components, with a separator between each two.
pub open spec fn components_text(components: Seq<Seq<char>>) -> Seq<char>
    decreases components.len(),
{
    if components.len() == 0 {
        Seq::empty()
    } else if components.len() == 1 {
        components[0]
    } else {
        components_text(components.drop_last()) + seq![SEPARATOR] + components.last()
    }
}

/// A path as text. The current directory is written `.`.
pub open spec fn path_text(path: PathView) -> Seq<char> {
    if path.components.len() == 0 {
        if path.root.len() == 0 {
            seq!['.']
        } else {
            path.root
        }
    } else {
        path.root + components_text(path.components)
    }
}

impl Path {
    /// The current directory.
    pub fn current() -> (p: Path)
        ensures
            p@ == (PathView { root: Seq::empty(), components: Seq::empty() }),
    {
        let p = Path { root: String::new(), components: Vec::new() };
        assert(p@.components == Seq::<Seq<char>>::empty());
        p
    }

    /// The path that is just the given root.
    pub fn rooted(root: String) -> (p: Path)
        ensures
            p@ == (PathView { root: root@, components: Seq::empty() }),
    {
        let p = Path { root, components: Vec::new() };
        assert(p@.components == Seq::<Seq<char>>::empty());
        p
    }

    /// The path that `text` names.
    pub fn new(text: &str) -> (p: Path)
        ensures
            p@ == path_of(text@),
    {
        let chars = chars_of(text);
        let mut root = String::new();
        let mut from: usize = 0;
        if chars.len() > 0 && chars[0] == SEPARATOR {
            push_char(&mut root, SEPARATOR);
            from = 1;
        }
        assert(from == 0 ==> chars@.skip(0) == text@);
        let pieces = split_chars(&chars, SEPARATOR, from);
        let ghost all = texts(pieces@);
        let mut components: Vec<String> = Vec::new();
        let mut i: usize = 0;
        assert(all.take(0) == Seq::<Seq<char>>::empty());
        assert(texts(components@) == Seq::<Seq<char>>::empty());
        while i < pieces.len()
            invariant
                i <= pieces.len(),
                all == texts(pieces@),
                texts(components@) == without_empty(all.take(i as int)),
            decreases pieces.len() - i,
        {
            let ghost before = texts(components@);
            assert(all.take(i + 1).drop_last() == all.take(i as int));
            if pieces[i].as_str().unicode_len() > 0 {
                components.push(pieces[i].clone());
                assert(texts(components@) == before.push(pieces[i as int]@));
            }
            i += 1;
        }
        assert(all.take(i as int) == all);
        Path { root, components }
    }

    /// A copy of the path.
    pub fn duplicate(&self) -> (p: Path)
        ensures
            p@ == self@,
    {
        Path { root: self.root.clone(), components: copy_strings(&self.components) }
    }

    /// The path with `component` joined on; the same path where the
    /// component is empty. `.` and `..` are joined on as they are written
    /// and not resolved: a pattern `aaa/../bbb` finds `aaa/../bbb`, not
    /// `bbb`, and `./aaa` finds `./aaa`, not `aaa`.
    pub fn join(&self, component: &str) -> (p: Path)
        ensures
            p@ == joined(self@, component@),
    {
        let mut p = self.duplicate();
        if component.unicode_len() > 0 {
            let ghost before = texts(p.components@);
            p.components.push(component.to_owned());
            assert(texts(p.components@) == before.push(component@));
        }
        p
    }

    /// The entry called `name` of this directory.
    pub fn child(&self, name: &str) -> (p: Path)
        ensures
            p@ == child(self@, name@),
    {
        let mut p = self.duplicate();
        let ghost before = texts(p.components@);
        p.components.push(name.to_owned());
        assert(texts(p.components@) == before.push(name@));
        p
    }

    /// The final component; empty where the path has none.
    pub fn file_name(&self) -> (name: &str)
        ensures
            name@ == name_of(self@),
    {
        let n = self.components.len();
        if n == 0 {
            proof {
                reveal_strlit("");
            }
            assert(""@ == Seq::<char>::empty());
            ""
        } else {
            self.components[n - 1].as_str()
        }
    }

    /// The path as text, its components separated by `/`.
    pub fn to_string(&self) -> (text: String)
        ensures
            text@ == path_text(self@),
    {
        let ghost all = texts(self.components@);
        let n = self.components.len();
        let mut text = self.root.clone();
        if n == 0 {
            if self.root.as_str().unicode_len() == 0 {
                push_char(&mut text, '.');
                assert(text@ == seq!['.']);
            }
            return text;
        }
        let first = chars_of(self.components[0].as_str());
        push_chars(&mut text, &first, 0);
        assert(first@.skip(0) == first@);
        assert(all.take(1).len() == 1);
        let mut i: usize = 1;
        while i < n
            invariant
                1 <= i <= n == self.components.len(),
                all == texts(self.components@),
                text@ == self.root@ + components_text(all.take(i as int)),
            decreases n - i,
        {
            let piece = chars_of(self.components[i].as_str());
            push_char(&mut text, SEPARATOR);
            push_chars(&mut text, &piece, 0);
            assert(piece@.skip(0) == piece@);
            assert(all.take(i + 1).drop_last() == all.take(i as int));
            i += 1;
        }
        assert(all.take(i as int) == all);
        text
    }
}

/// Puts a path at the end of a run of paths.
pub fn push_path(paths: &mut Vec<Path>, path: Path)
    ensures
        path_views(final(paths)@) == path_views(old(paths)@).push(path@),
{
    paths.push(path);
    assert(path_views(paths@) == path_views(old(paths)@).push(path@));
}

/// Takes the last path off a run of paths.
pub fn pop_path(paths: &mut Vec<Path>) -> (path: Option<Path>)
    ensures
        match path {
            Some(p) => {
                &&& old(paths).len() > 0
                &&& p@ == path_views(old(paths)@).last()
                &&& path_views(final(paths)@) == path_views(old(paths)@).drop_last()
            },
            None => old(paths).len() == 0 && path_views(final(paths)@) == path_views(
                old(paths)@,
            ),
        },
{
    let path = paths.pop();
    assert(path is Some ==> path_views(paths@) == path_views(old(paths)@).drop_last());
    path
}

} // verus!
