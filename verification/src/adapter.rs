//! The storage adapter: the read-only, storage-facing contract a protocol
//! engine drives.
//!
//! Existence and structure are entirely a property of the synthesized tree;
//! the external content store is consulted only for a file's byte size or
//! its bytes, and its answer is handed in here as a plain value. A path the
//! store cannot supply is still listed — absence of bytes is a normal
//! outcome in this domain. Every mutating operation fails with
//! [`VfsError::Unsupported`] and, since the adapter only ever reads the
//! tree, has no observable side effect.

use vstd::prelude::*;
use crate::errors::VfsError;
use crate::paths::join_slash;
use crate::paths::normalize;
use crate::paths::normalize_spec;
use crate::paths::split_slash_exec;
use crate::tree::NodeV;
use crate::tree::Tree;
use crate::tree::find_child;
use crate::tree::resolve_canon;
use crate::tree::resolve_segs;
use crate::tree::reconstruct_spec;
use crate::tree::seg_path;
use crate::tree::wf_node;

verus! {

/// Metadata of one resolved node: a byte size (0 whenever the content store
/// cannot supply bytes), and the node's kind, of which exactly one of
/// directory and file holds. The modification time, owner and group are
/// fixed: the archive records none.
#[derive(Clone, Copy, Debug, PartialEq, Eq, Structural)]
pub struct Meta {
    pub file_size: u64,
    pub is_dir: bool,
    pub is_file: bool,
}

impl Meta {
    /// The spec image of the metadata of node `n` with the given stored size.
    pub open spec fn of_node(t: Seq<NodeV>, n: int, content_len: Option<u64>) -> Meta {
        (Meta {
            file_size: (match content_len {
                Option::Some(l) => l,
                Option::None => 0,
            }),
            is_dir: t[n].is_dir,
            is_file: !t[n].is_dir,
        })
    }

    /// The byte size.
    pub fn len(&self) -> (r: u64)
        ensures
            r == self.file_size,
    {
        self.file_size
    }

    /// Whether the node is a directory.
    pub fn is_dir(&self) -> (r: bool)
        ensures
            r == self.is_dir,
    {
        self.is_dir
    }

    /// Whether the node is a file; always the opposite of [`Meta::is_dir`].
    pub fn is_file(&self) -> (r: bool)
        ensures
            r == self.is_file,
    {
        self.is_file
    }

    /// Never a symlink: the tree has none.
    pub fn is_symlink(&self) -> (r: bool)
        ensures
            r == false,
    {
        false
    }

    /// The fixed modification timestamp, as seconds since the epoch.
    pub fn modified(&self) -> (r: u64)
        ensures
            r == 0,
    {
        0
    }

    /// The fixed group id.
    pub fn gid(&self) -> (r: u32)
        ensures
            r == 0,
    {
        0
    }

    /// The fixed owner id.
    pub fn uid(&self) -> (r: u32)
        ensures
            r == 0,
    {
        0
    }
}

/// The virtual file system: the immutable directory tree, built once at
/// startup. The adapter is stateless between calls; every operation is a
/// function of the tree, the request, and the content store's answer.
#[derive(Debug)]
pub struct XivVfs {
    pub tree: Tree,
}

impl View for XivVfs {
    type V = Seq<NodeV>;

    open spec fn view(&self) -> Seq<NodeV> {
        self.tree@
    }
}

impl XivVfs {
    /// Well-formedness of the underlying tree; [`crate::tree::build_vfs`]
    /// establishes it and nothing ever mutates the tree afterwards.
    pub open spec fn wf(&self) -> bool {
        crate::tree::wf(self@)
    }

    /// Canonical form of a raw client-supplied path.
    pub fn fix_path(&self, path: &str) -> (r: String)
        ensures
            r@ == normalize_spec(path@),
    {
        normalize(path)
    }

    /// The node a canonical path names, if any: `"/"` names the root, and
    /// any other string is walked from the root segment by segment.
    pub fn resolve(&self, canonical: &str) -> (r: Option<usize>)
        requires
            self.wf(),
        ensures
            match r {
                Option::Some(n) => n < self@.len() && resolve_canon(self@, canonical@)
                    == Option::Some(n as int),
                Option::None => resolve_canon(self@, canonical@) is None,
            },
    {
        let ghost t = self@;
        if canonical.unicode_len() == 1 && canonical.get_char(0) == '/' {
            proof {
                assert(canonical@ =~= seq!['/']);
            }
            return Some(0);
        }
        proof {
            assert(canonical@ != seq!['/']);
        }
        let segs = split_slash_exec(canonical);
        let mut cur: usize = 0;
        let mut k: usize = 0;
        proof {
            assert(segs.deep_view().skip(0) =~= segs.deep_view());
        }
        while k < segs.len()
            invariant
                t == self@,
                self.wf(),
                cur < t.len(),
                k <= segs@.len(),
                canonical@ != seq!['/'],
                segs.deep_view() == crate::paths::split_slash(canonical@),
                resolve_segs(t, 0, segs.deep_view()) == resolve_segs(
                    t,
                    cur as int,
                    segs.deep_view().skip(k as int),
                ),
            decreases segs@.len() - k,
        {
            let ghost rest = segs.deep_view().skip(k as int);
            proof {
                assert(rest[0] == segs.deep_view()[k as int]);
            }
            match find_child(&self.tree.nodes, cur, &segs[k]) {
                Some(c) => {
                    proof {
                        assert(rest.drop_first() =~= segs.deep_view().skip(k + 1 as int));
                    }
                    cur = c;
                },
                None => {
                    proof {
                        assert(rest.len() > 0);
                        assert(resolve_segs(t, cur as int, rest) is None);
                        assert(resolve_segs(t, 0, segs.deep_view()) is None);
                        assert(crate::paths::split_slash(canonical@) == segs.deep_view());
                        assert(canonical@ != seq!['/']);
                        assert(resolve_canon(t, canonical@) is None);
                    }
                    return None;
                },
            }
            k += 1;
        }
        proof {
            assert(segs.deep_view().skip(segs@.len() as int) =~= Seq::<Seq<char>>::empty());
        }
        Some(cur)
    }

    /// The canonical path of node `n`, reconstructed by walking the parent
    /// links up to the root: `"/"` for the root itself, otherwise the
    /// segment names joined with `'/'` and no leading slash.
    pub fn get_full_path(&self, node: usize) -> (r: String)
        requires
            self.wf(),
            node < self@.len(),
        ensures
            r@ == reconstruct_spec(self@, node as int),
    {
        let ghost t = self@;
        if node == 0 {
            let root = String::from_str("/");
            proof {
                reveal_strlit("/");
                assert(root@ =~= seq!['/']);
            }
            return root;
        }
        let mut names: Vec<String> = Vec::new();
        let mut cur = node;
        proof {
            assert(seg_path(t, node as int) =~= seg_path(t, cur as int)
                + names.deep_view().reverse());
        }
        while cur != 0
            invariant
                t == self@,
                self.wf(),
                cur < t.len(),
                seg_path(t, node as int) == seg_path(t, cur as int) + names.deep_view().reverse(),
            decreases cur,
        {
            let ghost names0 = names.deep_view();
            names.push(self.tree.nodes[cur].name.clone());
            proof {
                assert(wf_node(t, cur as int));
                assert(names.deep_view() =~~= names0.push(t[cur as int].name));
                assert(names.deep_view().reverse() =~~= seq![t[cur as int].name]
                    + names0.reverse());
                assert(seg_path(t, cur as int) == seg_path(t, t[cur as int].parent).push(
                    t[cur as int].name,
                ));
                assert(seg_path(t, node as int) =~~= seg_path(t, t[cur as int].parent)
                    + names.deep_view().reverse());
            }
            cur = self.tree.nodes[cur].parent;
        }
        let ghost rev = names.deep_view().reverse();
        proof {
            assert(seg_path(t, 0) =~= Seq::<Seq<char>>::empty());
            assert(seg_path(t, node as int) =~~= rev);
        }
        let m = names.len();
        let mut out = String::new();
        let mut j: usize = 0;
        proof {
            assert(rev.take(0) =~= Seq::<Seq<char>>::empty());
        }
        while j < m
            invariant
                m == names@.len(),
                j <= m,
                rev == names.deep_view().reverse(),
                out@ == join_slash(rev.take(j as int)),
            decreases m - j,
        {
            if j > 0 {
                out.append("/");
            }
            out.append(names[m - 1 - j].as_str());
            proof {
                reveal_strlit("/");
                assert(rev[j as int] == names.deep_view()[m - 1 - j as int]);
                assert(rev.take(j + 1 as int).drop_last() =~= rev.take(j as int));
                assert(rev.take(j + 1 as int).last() == rev[j as int]);
                if j > 0 {
                    assert(out@ =~= join_slash(rev.take(j + 1 as int)));
                } else {
                    assert(out@ =~= join_slash(rev.take(1)));
                }
            }
            j += 1;
        }
        proof {
            assert(rev.take(m as int) =~= rev);
        }
        out
    }

    /// Metadata of the node a canonical path names, with the byte size the
    /// content store supplied for that path, or 0 where it could not.
    /// Existence is decided by the tree alone: an unresolvable path is
    /// [`VfsError::NotFound`], whatever the store would say.
    pub fn get_metadata(&self, canonical: &str, content_len: Option<u64>) -> (r: Result<
        Meta,
        VfsError,
    >)
        requires
            self.wf(),
        ensures
            match resolve_canon(self@, canonical@) {
                Option::Some(n) => r == Ok::<Meta, VfsError>(Meta::of_node(self@, n, content_len)),
                Option::None => r == Err::<Meta, VfsError>(VfsError::NotFound),
            },
    {
        match self.resolve(canonical) {
            Some(n) => {
                let size = match content_len {
                    Some(l) => l,
                    None => 0,
                };
                let is_dir = self.tree.nodes[n].is_dir;
                Ok(Meta { file_size: size, is_dir, is_file: !is_dir })
            },
            None => Err(VfsError::NotFound),
        }
    }

    /// Metadata for a raw client path: the path is normalized, resolved in
    /// the tree, and reported with the store-supplied size, as
    /// [`XivVfs::get_metadata`] says.
    pub fn metadata(&self, path: &str, content_len: Option<u64>) -> (r: Result<Meta, VfsError>)
        requires
            self.wf(),
        ensures
            match resolve_canon(self@, normalize_spec(path@)) {
                Option::Some(n) => r == Ok::<Meta, VfsError>(Meta::of_node(self@, n, content_len)),
                Option::None => r == Err::<Meta, VfsError>(VfsError::NotFound),
            },
    {
        let canon = self.fix_path(path);
        self.get_metadata(canon.as_str(), content_len)
    }

    /// The full canonical path of every child of the directory a raw path
    /// names, one entry per child, in the tree's child order (the order in
    /// which the builder first met each name — deterministic for a given
    /// input list). A path that does not resolve, or resolves to a file,
    /// is [`VfsError::NotFound`].
    pub fn list(&self, path: &str) -> (r: Result<Vec<String>, VfsError>)
        requires
            self.wf(),
        ensures
            match resolve_canon(self@, normalize_spec(path@)) {
                Option::Some(n) => if self@[n].is_dir {
                    r matches Ok(v) && v.deep_view().len() == self@[n].children.len()
                        && (forall|k: int|
                        0 <= k < v.deep_view().len() ==> #[trigger] v.deep_view()[k]
                            == reconstruct_spec(self@, self@[n].children[k]))
                } else {
                    r == Err::<Vec<String>, VfsError>(VfsError::NotFound)
                },
                Option::None => r == Err::<Vec<String>, VfsError>(VfsError::NotFound),
            },
    {
        let ghost t = self@;
        let canon = self.fix_path(path);
        match self.resolve(canon.as_str()) {
            None => Err(VfsError::NotFound),
            Some(n) => {
                if !self.tree.nodes[n].is_dir {
                    return Err(VfsError::NotFound);
                }
                let ghost cs = t[n as int].children;
                let count = self.tree.nodes[n].children.len();
                let mut v: Vec<String> = Vec::new();
                let mut k: usize = 0;
                while k < count
                    invariant
                        t == self@,
                        self.wf(),
                        n < t.len(),
                        cs == t[n as int].children,
                        count == cs.len(),
                        k <= count,
                        v.deep_view().len() == k,
                        forall|q: int|
                            0 <= q < k ==> #[trigger] v.deep_view()[q] == reconstruct_spec(
                                t,
                                cs[q],
                            ),
                    decreases count - k,
                {
                    let c = self.tree.nodes[n].children[k];
                    proof {
                        assert(wf_node(t, n as int));
                        assert(cs[k as int] == c as int);
                    }
                    let ghost v0 = v.deep_view();
                    let full = self.get_full_path(c);
                    v.push(full);
                    proof {
                        assert(v.deep_view() =~~= v0.push(reconstruct_spec(t, cs[k as int])));
                    }
                    k += 1;
                }
                Ok(v)
            },
        }
    }

    /// The content from byte `start_pos` to the end, as a plain byte vector:
    /// the empty vector when the offset is at or past the end, and
    /// [`VfsError::NotAvailable`] when the content store could not supply
    /// bytes for the path. The tree is not consulted: content is entirely
    /// the store's business.
    pub fn get(&self, start_pos: u64, content: Option<Vec<u8>>) -> (r: Result<Vec<u8>, VfsError>)
        ensures
            match content {
                Option::Some(b) => r matches Ok(out) && out@ == b@.skip(
                    if start_pos as int <= b@.len() {
                        start_pos as int
                    } else {
                        b@.len() as int
                    },
                ),
                Option::None => r == Err::<Vec<u8>, VfsError>(VfsError::NotAvailable),
            },
    {
        match content {
            None => Err(VfsError::NotAvailable),
            Some(b) => {
                let len = b.len();
                let start: usize = if start_pos >= len as u64 {
                    len
                } else {
                    start_pos as usize
                };
                let mut out: Vec<u8> = Vec::new();
                let mut i = start;
                proof {
                    assert(out@ =~= b@.subrange(start as int, start as int));
                }
                while i < len
                    invariant
                        start <= i <= len,
                        len == b@.len(),
                        out@ == b@.subrange(start as int, i as int),
                    decreases len - i,
                {
                    out.push(b[i]);
                    proof {
                        assert(out@ =~= b@.subrange(start as int, i + 1 as int));
                    }
                    i += 1;
                }
                proof {
                    assert(out@ =~= b@.skip(
                        if start_pos as int <= b@.len() {
                            start_pos as int
                        } else {
                            b@.len() as int
                        },
                    ));
                }
                Ok(out)
            },
        }
    }

    /// A change of working directory succeeds for any path that resolves to
    /// an existing node — directory or file alike, a permissive behavior
    /// kept deliberately — and is otherwise [`VfsError::NotFound`].
    pub fn cwd(&self, path: &str) -> (r: Result<(), VfsError>)
        requires
            self.wf(),
        ensures
            match resolve_canon(self@, normalize_spec(path@)) {
                Option::Some(_) => r == Ok::<(), VfsError>(()),
                Option::None => r == Err::<(), VfsError>(VfsError::NotFound),
            },
    {
        let canon = self.fix_path(path);
        match self.resolve(canon.as_str()) {
            Some(_) => Ok(()),
            None => Err(VfsError::NotFound),
        }
    }

    /// Uploads never succeed: the tree is read-only.
    pub fn put(&self, _path: &str, _start_pos: u64) -> (r: Result<u64, VfsError>)
        ensures
            r == Err::<u64, VfsError>(VfsError::Unsupported),
    {
        Err(VfsError::Unsupported)
    }

    /// Deletions never succeed: the tree is read-only.
    pub fn del(&self, _path: &str) -> (r: Result<(), VfsError>)
        ensures
            r == Err::<(), VfsError>(VfsError::Unsupported),
    {
        Err(VfsError::Unsupported)
    }

    /// Directory creation never succeeds: the tree is read-only.
    pub fn mkd(&self, _path: &str) -> (r: Result<(), VfsError>)
        ensures
            r == Err::<(), VfsError>(VfsError::Unsupported),
    {
        Err(VfsError::Unsupported)
    }

    /// Renames never succeed: the tree is read-only.
    pub fn rename(&self, _from: &str, _to: &str) -> (r: Result<(), VfsError>)
        ensures
            r == Err::<(), VfsError>(VfsError::Unsupported),
    {
        Err(VfsError::Unsupported)
    }

    /// Directory removal never succeeds: the tree is read-only.
    pub fn rmd(&self, _path: &str) -> (r: Result<(), VfsError>)
        ensures
            r == Err::<(), VfsError>(VfsError::Unsupported),
    {
        Err(VfsError::Unsupported)
    }
}

} // verus!
