//! The files folder that scripts may use: resolving a script-supplied
//! relative path against the folder's root, refusing absolute paths and any
//! path with a `..` component, and the order in which a directory listing is
//! returned. The reading and writing themselves are done by the server.
use vstd::prelude::*;

use crate::text::{chars_of, sort_by_name, sorted_by_name};

verus! {

/// The error text for a path that would leave the folder.
pub const OUTSIDE_FOLDER: &'static str = "invalid path: outside configured files folder";

/// The error text for deleting a path that does not exist.
pub const NO_SUCH_PATH: &'static str = "path does not exist";

/// `p` is an absolute Unix path.
pub open spec fn is_absolute(p: Seq<char>) -> bool {
    p.len() > 0 && p[0] == '/'
}

/// `..` is a whole `/`-separated component of `p` starting at `i`.
pub open spec fn parent_at(p: Seq<char>, i: int) -> bool {
    &&& 0 <= i
    &&& i + 2 <= p.len()
    &&& p[i] == '.'
    &&& p[i + 1] == '.'
    &&& (i == 0 || p[i - 1] == '/')
    &&& (i + 2 == p.len() || p[i + 2] == '/')
}

/// `p` has a `..` component (what `Path::components` calls `ParentDir`).
pub open spec fn has_parent(p: Seq<char>) -> bool {
    exists|i: int| #[trigger] parent_at(p, i)
}

/// `Path::join` of a relative path: a `/` goes between them unless the
/// root is empty or already ends in `/`.
pub open spec fn join_path(root: Seq<char>, rel: Seq<char>) -> Seq<char> {
    if root.len() == 0 || root[root.len() - 1] == '/' {
        root + rel
    } else {
        root + seq!['/'] + rel
    }
}

/// What resolving `rel` against `root` gives.
pub open spec fn resolve_spec(root: Seq<char>, rel: Seq<char>) -> Option<Seq<char>> {
    if is_absolute(rel) {
        None
    } else if has_parent(join_path(root, rel)) {
        None
    } else {
        Some(join_path(root, rel))
    }
}

/// Whether a path has a `..` component.
pub fn traversal(path: &str) -> (b: bool)
    ensures
        b == has_parent(path@),
{
    let p = chars_of(path);
    let n = p.len();
    let mut i: usize = 0;
    while n > 0 && i < n - 1
        invariant
            p@ == path@,
            n == p.len(),
            forall|j: int| 0 <= j < i ==> !parent_at(path@, j),
        decreases n - i,
    {
        if p[i] == '.' && p[i + 1] == '.' && (i == 0 || p[i - 1] == '/') && (i + 2 == n || p[i
            + 2] == '/') {
            assert(parent_at(path@, i as int));
            return true;
        }
        i += 1;
    }
    assert forall|j: int| !parent_at(path@, j) by {
        if 0 <= j < i {
        }
    }
    false
}

/// The files folder, by the text of its root path.
#[derive(Clone, Debug)]
pub struct FileStore {
    root: String,
}

impl FileStore {
    /// The folder at `root`, which the caller has created and made canonical.
    pub fn new(root: String) -> (s: Self)
        ensures
            s.root_path() == root@,
    {
        FileStore { root }
    }

    pub closed spec fn root_path(&self) -> Seq<char> {
        self.root@
    }

    /// The folder's root path.
    pub fn root(&self) -> (r: &str)
        ensures
            r@ == self.root_path(),
    {
        self.root.as_str()
    }

    /// Resolve a script-supplied relative path against the root: `None` for
    /// an absolute path or one with a `..` component.
    pub fn resolve(&self, rel: &str) -> (r: Option<String>)
        ensures
            match r {
                Some(p) => resolve_spec(self.root_path(), rel@) == Some(p@),
                None => resolve_spec(self.root_path(), rel@) is None,
            },
    {
        let rel_chars = chars_of(rel);
        if rel_chars.len() > 0 && rel_chars[0] == '/' {
            return None;
        }
        let mut path = self.root.clone();
        let root_chars = chars_of(&self.root);
        if root_chars.len() > 0 && root_chars[root_chars.len() - 1] != '/' {
            path.push('/');
        }
        path.push_str(rel);
        assert(path@ == join_path(self.root@, rel@));
        if traversal(&path) {
            None
        } else {
            Some(path)
        }
    }
}

/// A path that resolves lies inside the folder: it is the root, a
/// separator, then the relative path, and it has no `..` component, so it
/// names nothing outside the folder.
pub proof fn lemma_resolved_inside(root: Seq<char>, rel: Seq<char>)
    requires
        resolve_spec(root, rel) is Some,
    ensures
        ({
            let p = resolve_spec(root, rel)->0;
            &&& p.subrange(0, root.len() as int) == root
            &&& p.subrange(p.len() - rel.len(), p.len() as int) == rel
            &&& !has_parent(p)
            &&& !is_absolute(rel)
        }),
{
    let p = join_path(root, rel);
    if root.len() == 0 || root[root.len() - 1] == '/' {
        assert(p.subrange(0, root.len() as int) =~= root);
        assert(p.subrange(p.len() - rel.len(), p.len() as int) =~= rel);
    } else {
        assert(p.subrange(0, root.len() as int) =~= root);
        assert(p.subrange(p.len() - rel.len(), p.len() as int) =~= rel);
    }
}

/// A relative path with a `..` component never resolves, whatever the root.
pub proof fn lemma_parent_rejected(root: Seq<char>, rel: Seq<char>, i: int)
    requires
        parent_at(rel, i),
    ensures
        resolve_spec(root, rel) is None,
{
    let p = join_path(root, rel);
    let off = p.len() - rel.len();
    assert(p.subrange(off, p.len() as int) =~= rel);
    assert(p[off + i] == rel[i]);
    assert(p[off + i + 1] == rel[i + 1]);
    if i + 2 < rel.len() {
        assert(p[off + i + 2] == rel[i + 2]);
    }
    if i > 0 {
        assert(p[off + i - 1] == rel[i - 1]);
    } else {
        if off > 0 {
            assert(p[off - 1] == '/');
        }
    }
    assert(parent_at(p, off + i));
}

/// A directory listing as `(name, is_dir)` entries, sorted by name.
pub fn sort_entries(entries: Vec<(String, bool)>) -> (r: Vec<(String, bool)>)
    ensures
        r@.to_multiset() == entries@.to_multiset(),
        sorted_by_name(r@),
{
    sort_by_name(entries)
}

/// For a canonical root (absolute, with no `..` component), resolving
/// refuses exactly the absolute paths and those with a `..` component;
/// anything else resolves to the joined path, which lies under the root.
pub proof fn lemma_resolve_refuses_exactly(root: Seq<char>, rel: Seq<char>)
    requires
        is_absolute(root),
        !has_parent(root),
    ensures
        (resolve_spec(root, rel) is None) == (is_absolute(rel) || has_parent(rel)),
        resolve_spec(root, rel) matches Some(p) ==> p == join_path(root, rel) && p.take(
            root.len() as int,
        ) == root,
{
    if !is_absolute(rel) {
        let j = join_path(root, rel);
        let k = j.len() - rel.len();
        assert(k == root.len() || k == root.len() + 1);
        assert forall|t: int| 0 <= t < rel.len() implies j[k + t] == rel[t] by {}
        assert forall|t: int| 0 <= t < root.len() implies j[t] == root[t] by {}
        assert(j[k - 1] == '/');
        assert(j.take(root.len() as int) =~= root);
        if has_parent(rel) {
            let i = choose|i: int| parent_at(rel, i);
            assert(parent_at(j, k + i));
        }
        if has_parent(j) {
            let m = choose|m: int| parent_at(j, m);
            if m >= k {
                assert(parent_at(rel, m - k));
            } else if m + 2 <= root.len() {
                if m + 2 == root.len() {
                    assert(root[root.len() - 1] == '.');
                    assert(k == root.len() + 1);
                }
                assert(parent_at(root, m));
            } else {
                assert(m + 1 >= root.len());
                if root[root.len() - 1] == '/' {
                    assert(k == root.len());
                } else {
                    assert(j[root.len() as int] == '/');
                }
                assert(false);
            }
        }
    }
}

} // verus!
