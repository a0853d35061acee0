//! The synthesized directory tree.
//!
//! The archive can only look a file up by its full path, so the hierarchy is
//! built once, at startup, from a flat list of file paths. Nodes live in an
//! arena: a vector of nodes addressed by index, each carrying its parent's
//! index and the indices of its children. Index 0 is the root directory.
//!
//! The ghost model mirrors the builder step by step: [`insert_segs`] says
//! what inserting one path's segments does to the arena, and [`build_spec`]
//! folds that over the whole input list. The executable builder is proved to
//! produce exactly the model's arena, so building twice from the same list
//! gives structurally identical trees.

use vstd::prelude::*;
use crate::errors::VfsError;
use crate::paths::split_slash;
use crate::paths::split_slash_exec;

verus! {

/// The ghost image of one arena entry.
#[verifier::ext_equal]
pub ghost struct NodeV {
    pub name: Seq<char>,
    pub is_dir: bool,
    pub parent: int,
    pub children: Seq<int>,
}

/// One arena entry: a directory or file node.
#[derive(Debug)]
pub struct Node {
    pub name: String,
    pub is_dir: bool,
    pub parent: usize,
    pub children: Vec<usize>,
}

impl View for Node {
    type V = NodeV;

    open spec fn view(&self) -> NodeV {
        NodeV {
            name: self.name@,
            is_dir: self.is_dir,
            parent: self.parent as int,
            children: self.children@.map_values(|c: usize| c as int),
        }
    }
}

/// The arena of nodes; index 0 is the root directory.
#[derive(Debug)]
pub struct Tree {
    pub nodes: Vec<Node>,
}

/// The ghost image of a whole arena.
pub open spec fn nv(nodes: Seq<Node>) -> Seq<NodeV> {
    nodes.map_values(|n: Node| n@)
}

impl View for Tree {
    type V = Seq<NodeV>;

    open spec fn view(&self) -> Seq<NodeV> {
        nv(self.nodes@)
    }
}

/// Well-formedness of one entry: the root is its own parent and a directory
/// with an empty name; every other node's parent precedes it; files have no
/// children; child links are in range, point back, and no two children of
/// one node share a name.
pub open spec fn wf_node(t: Seq<NodeV>, i: int) -> bool {
    &&& (i == 0 ==> t[0].parent == 0 && t[0].name == Seq::<char>::empty() && t[0].is_dir)
    &&& (i != 0 ==> 0 <= t[i].parent < i)
    &&& (!t[i].is_dir ==> t[i].children.len() == 0)
    &&& (forall|k: int|
        0 <= k < t[i].children.len() ==> i < #[trigger] t[i].children[k] < t.len()
            && t[t[i].children[k]].parent == i)
    &&& (forall|k1: int, k2: int|
        0 <= k1 < k2 < t[i].children.len() ==> t[#[trigger] t[i].children[k1]].name
            != t[#[trigger] t[i].children[k2]].name)
}

/// Well-formedness of the arena.
pub open spec fn wf(t: Seq<NodeV>) -> bool {
    &&& t.len() >= 1
    &&& forall|i: int| 0 <= i < t.len() ==> #[trigger] wf_node(t, i)
}

/// The first entry of `cs` whose node is named `name`.
pub open spec fn find_in(t: Seq<NodeV>, cs: Seq<int>, name: Seq<char>) -> Option<int>
    decreases cs.len(),
{
    if cs.len() == 0 {
        Option::None
    } else if t[cs[0]].name == name {
        Option::Some(cs[0])
    } else {
        find_in(t, cs.drop_first(), name)
    }
}

/// The child of node `i` named `name`, if any.
pub open spec fn child_named(t: Seq<NodeV>, i: int, name: Seq<char>) -> Option<int> {
    find_in(t, t[i].children, name)
}

/// Walking the tree from node `i` along the given segment names.
pub open spec fn resolve_segs(t: Seq<NodeV>, i: int, segs: Seq<Seq<char>>) -> Option<int>
    decreases segs.len(),
{
    if segs.len() == 0 {
        Option::Some(i)
    } else {
        match child_named(t, i, segs[0]) {
            Option::None => Option::None,
            Option::Some(c) => resolve_segs(t, c, segs.drop_first()),
        }
    }
}

/// A new node appended to the arena and linked as the last child of `parent`.
pub open spec fn push_child(t: Seq<NodeV>, parent: int, name: Seq<char>, is_dir: bool) -> Seq<
    NodeV,
> {
    let p = t[parent];
    t.update(
        parent,
        NodeV { name: p.name, is_dir: p.is_dir, parent: p.parent, children: p.children.push(t.len() as int) },
    ).push(NodeV { name, is_dir, parent, children: Seq::empty() })
}

/// What inserting one path's segments, starting at directory `i`, does to
/// the arena. All segments but the last become or reuse directory nodes; the
/// last becomes a file node, or is a no-op if a node of that name already
/// exists (a node's kind is never overwritten). The step fails, leaving the
/// nodes made so far in place, when a non-final segment names an existing
/// file node.
pub open spec fn insert_segs(t: Seq<NodeV>, i: int, segs: Seq<Seq<char>>) -> (bool, Seq<NodeV>)
    decreases segs.len(),
{
    if segs.len() == 0 {
        (true, t)
    } else if segs.len() == 1 {
        match child_named(t, i, segs[0]) {
            Option::Some(_) => (true, t),
            Option::None => (true, push_child(t, i, segs[0], false)),
        }
    } else {
        match child_named(t, i, segs[0]) {
            Option::Some(c) => if t[c].is_dir {
                insert_segs(t, c, segs.drop_first())
            } else {
                (false, t)
            },
            Option::None => insert_segs(
                push_child(t, i, segs[0], true),
                t.len() as int,
                segs.drop_first(),
            ),
        }
    }
}

/// The arena holding only the root directory.
pub open spec fn root_only() -> Seq<NodeV> {
    seq![NodeV { name: Seq::<char>::empty(), is_dir: true, parent: 0, children: Seq::<int>::empty() }]
}

/// Inserting one path from the root.
pub open spec fn insert_path(t: Seq<NodeV>, p: Seq<char>) -> (bool, Seq<NodeV>) {
    insert_segs(t, 0, split_slash(p))
}

/// Folding the whole input list, stopping at the first failing entry.
pub open spec fn build_from(t: Seq<NodeV>, paths: Seq<Seq<char>>) -> (bool, Seq<NodeV>)
    decreases paths.len(),
{
    if paths.len() == 0 {
        (true, t)
    } else {
        let r = insert_path(t, paths[0]);
        if r.0 {
            build_from(r.1, paths.drop_first())
        } else {
            r
        }
    }
}

/// The arena the builder produces from an input list.
pub open spec fn build_spec(paths: Seq<Seq<char>>) -> (bool, Seq<NodeV>) {
    build_from(root_only(), paths)
}

/// The segment names on the walk from the root down to node `n`, read off
/// the parent links. The root's own path is the empty sequence.
pub open spec fn seg_path(t: Seq<NodeV>, n: int) -> Seq<Seq<char>>
    decreases n,
{
    if n <= 0 || n >= t.len() {
        Seq::empty()
    } else if !(0 <= t[n].parent < n) {
        Seq::empty()
    } else {
        seg_path(t, t[n].parent).push(t[n].name)
    }
}

/// The canonical path string of node `n`: `"/"` for the root, otherwise its
/// segment names joined with `'/'`.
pub open spec fn reconstruct_spec(t: Seq<NodeV>, n: int) -> Seq<char> {
    if n == 0 {
        seq!['/']
    } else {
        crate::paths::join_slash(seg_path(t, n))
    }
}

/// Resolution of a canonical path string: the root representation `"/"`
/// names the root, and any other string is walked segment by segment.
pub open spec fn resolve_canon(t: Seq<NodeV>, s: Seq<char>) -> Option<int> {
    if s == seq!['/'] {
        Option::Some(0)
    } else {
        resolve_segs(t, 0, split_slash(s))
    }
}

/// What a hit and a miss of [`find_in`] mean for the entries of `cs`.
pub proof fn lemma_find_in(t: Seq<NodeV>, cs: Seq<int>, name: Seq<char>)
    ensures
        find_in(t, cs, name) matches Option::Some(c) ==> cs.contains(c) && t[c].name == name,
        find_in(t, cs, name) is None ==> forall|k: int|
            0 <= k < cs.len() ==> t[#[trigger] cs[k]].name != name,
    decreases cs.len(),
{
    if cs.len() > 0 {
        lemma_find_in(t, cs.drop_first(), name);
        if t[cs[0]].name != name {
            match find_in(t, cs.drop_first(), name) {
                Option::Some(c) => {
                    assert(cs.drop_first().contains(c));
                    let k = choose|k: int|
                        0 <= k < cs.drop_first().len() && cs.drop_first()[k] == c;
                    assert(cs[k + 1] == c);
                },
                Option::None => {
                    assert forall|k: int| 0 <= k < cs.len() implies t[#[trigger] cs[k]].name
                        != name by {
                        if k > 0 {
                            assert(cs[k] == cs.drop_first()[k - 1]);
                        }
                    }
                },
            }
        }
    }
}

/// Appending a child whose name is not yet taken preserves well-formedness.
pub proof fn lemma_wf_push_child(t: Seq<NodeV>, i: int, name: Seq<char>, is_dir: bool)
    requires
        wf(t),
        0 <= i < t.len(),
        t[i].is_dir,
        child_named(t, i, name) is None,
    ensures
        wf(push_child(t, i, name, is_dir)),
{
    let u = push_child(t, i, name, is_dir);
    let w = t.len() as int;
    lemma_find_in(t, t[i].children, name);
    assert(wf_node(t, i));
    assert forall|j: int| 0 <= j < u.len() implies #[trigger] wf_node(u, j) by {
        if j == w {
            assert(u[j].parent == i);
        } else {
            assert(wf_node(t, j));
            if j == i {
                assert(u[i].children == t[i].children.push(w));
                assert forall|k: int|
                    0 <= k < u[i].children.len() implies i < #[trigger] u[i].children[k] < u.len()
                        && u[u[i].children[k]].parent == i by {
                    if k < t[i].children.len() {
                        assert(u[i].children[k] == t[i].children[k]);
                    } else {
                        assert(u[i].children[k] == w);
                    }
                }
                assert forall|k1: int, k2: int|
                    0 <= k1 < k2 < u[i].children.len() implies t[#[trigger] u[i].children[k1]].name
                        != t[#[trigger] u[i].children[k2]].name || k2 == t[i].children.len() by {
                }
                assert forall|k1: int, k2: int|
                    0 <= k1 < k2 < u[i].children.len() implies u[#[trigger] u[i].children[k1]].name
                        != u[#[trigger] u[i].children[k2]].name by {
                    if k2 == t[i].children.len() {
                        assert(u[i].children[k2] == w);
                        assert(i < u[i].children[k1] < w);
                        assert(u[u[i].children[k1]].name == t[t[i].children[k1]].name);
                        assert(t[t[i].children[k1]].name != name);
                    } else {
                        assert(u[i].children[k1] == t[i].children[k1]);
                        assert(u[i].children[k2] == t[i].children[k2]);
                    }
                }
            } else {
                assert(u[j].children == t[j].children);
                assert forall|k: int|
                    0 <= k < u[j].children.len() implies j < #[trigger] u[j].children[k] < u.len()
                        && u[u[j].children[k]].parent == j by {
                    assert(t[j].children[k] != i ==> u[t[j].children[k]] == t[t[j].children[k]]);
                }
            }
        }
    }
}

/// Inserting a path below a directory keeps the arena well-formed and never
/// shrinks it.
pub proof fn lemma_wf_insert(t: Seq<NodeV>, i: int, segs: Seq<Seq<char>>)
    requires
        wf(t),
        0 <= i < t.len(),
        t[i].is_dir,
    ensures
        wf(insert_segs(t, i, segs).1),
        insert_segs(t, i, segs).1.len() >= t.len(),
    decreases segs.len(),
{
    if segs.len() == 0 {
    } else if segs.len() == 1 {
        match child_named(t, i, segs[0]) {
            Option::Some(_) => {},
            Option::None => {
                lemma_wf_push_child(t, i, segs[0], false);
            },
        }
    } else {
        match child_named(t, i, segs[0]) {
            Option::Some(c) => {
                if t[c].is_dir {
                    lemma_find_in(t, t[i].children, segs[0]);
                    assert(t[i].children.contains(c));
                    let k = choose|k: int| 0 <= k < t[i].children.len() && t[i].children[k] == c;
                    assert(wf_node(t, i));
                    lemma_wf_insert(t, c, segs.drop_first());
                }
            },
            Option::None => {
                lemma_wf_push_child(t, i, segs[0], true);
                let t2 = push_child(t, i, segs[0], true);
                assert(t2[t.len() as int].is_dir);
                lemma_wf_insert(t2, t.len() as int, segs.drop_first());
            },
        }
    }
}

/// The index of the child of node `i` named `name`, if there is one, as
/// [`child_named`] gives it.
pub fn find_child(nodes: &Vec<Node>, i: usize, name: &String) -> (r: Option<usize>)
    requires
        wf(nv(nodes@)),
        i < nodes@.len(),
    ensures
        match r {
            Option::Some(c) => i < c < nodes@.len() && child_named(nv(nodes@), i as int, name@)
                == Option::Some(c as int),
            Option::None => child_named(nv(nodes@), i as int, name@) is None,
        },
{
    let ghost t = nv(nodes@);
    let ghost cs = t[i as int].children;
    let n = nodes[i].children.len();
    let mut k: usize = 0;
    proof {
        assert(cs.skip(0) =~= cs);
    }
    while k < n
        invariant
            t == nv(nodes@),
            wf(t),
            i < nodes@.len(),
            cs == t[i as int].children,
            n == cs.len(),
            k <= n,
            child_named(t, i as int, name@) == find_in(t, cs.skip(k as int), name@),
        decreases n - k,
    {
        let c = nodes[i].children[k];
        proof {
            assert(wf_node(t, i as int));
            assert(cs[k as int] == c as int);
            assert(cs.skip(k as int)[0] == c as int);
        }
        if nodes[c].name == *name {
            return Some(c);
        }
        proof {
            assert(cs.skip(k as int).drop_first() =~= cs.skip(k + 1 as int));
        }
        k += 1;
    }
    proof {
        assert(cs.skip(n as int) =~= Seq::<int>::empty());
    }
    None
}

/// A new node appended to the arena and linked under `parent`, exactly as
/// [`push_child`] describes.
fn push_child_exec(nodes: &mut Vec<Node>, parent: usize, name: &String, is_dir: bool)
    requires
        parent < old(nodes)@.len(),
    ensures
        final(nodes)@.len() == old(nodes)@.len() + 1,
        nv(final(nodes)@) == push_child(nv(old(nodes)@), parent as int, name@, is_dir),
{
    let c = nodes.len();
    nodes.push(Node { name: name.clone(), is_dir, parent, children: Vec::new() });
    nodes[parent].children.push(c);
    proof {
        assert(nv(nodes@) =~~= push_child(nv(old(nodes)@), parent as int, name@, is_dir));
    }
}

/// Inserting the segments `segs[k..]` below directory `i`, exactly as
/// [`insert_segs`] describes.
fn insert_segs_exec(nodes: &mut Vec<Node>, i: usize, segs: &Vec<String>, k: usize) -> (ok: bool)
    requires
        wf(nv(old(nodes)@)),
        i < old(nodes)@.len(),
        nv(old(nodes)@)[i as int].is_dir,
        k < segs@.len(),
    ensures
        ({
            let r = insert_segs(nv(old(nodes)@), i as int, segs.deep_view().skip(k as int));
            ok == r.0 && nv(final(nodes)@) == r.1
        }),
        wf(nv(final(nodes)@)),
    decreases segs@.len() - k,
{
    let ghost t0 = nv(nodes@);
    let ghost rest = segs.deep_view().skip(k as int);
    proof {
        assert(rest[0] == segs.deep_view()[k as int]);
        lemma_wf_insert(t0, i as int, rest);
    }
    let name = &segs[k];
    let found = find_child(nodes, i, name);
    if k == segs.len() - 1 {
        proof {
            assert(rest.len() == 1);
        }
        match found {
            Some(_) => true,
            None => {
                push_child_exec(nodes, i, name, false);
                true
            },
        }
    } else {
        proof {
            assert(rest.len() >= 2);
            assert(rest.drop_first() =~= segs.deep_view().skip(k + 1 as int));
        }
        match found {
            Some(c) => {
                if nodes[c].is_dir {
                    insert_segs_exec(nodes, c, segs, k + 1)
                } else {
                    false
                }
            },
            None => {
                let c = nodes.len();
                push_child_exec(nodes, i, name, true);
                proof {
                    lemma_wf_push_child(t0, i as int, name@, true);
                    assert(nv(nodes@)[c as int].is_dir);
                }
                insert_segs_exec(nodes, c, segs, k + 1)
            },
        }
    }
}

/// The directory tree built from a flat list of file paths.
///
/// Every path is split on `'/'`; all segments but the last become or reuse
/// directory nodes along a walk from the root, and the last becomes a file
/// node, unless a node of that name already exists, in which case the entry
/// is a no-op (duplicates never change an existing node's kind or children).
/// The arena is exactly the one [`build_spec`] gives for the input list, so
/// the same list always yields the same tree. When a non-final segment of an
/// entry names an existing file node, the walk cannot continue and the whole
/// build fails with [`VfsError::Internal`], as [`build_spec`] says.
pub fn build_vfs(paths: &Vec<String>) -> (r: Result<Tree, VfsError>)
    ensures
        ({
            let b = build_spec(paths.deep_view());
            match r {
                Ok(tree) => b.0 && tree@ == b.1 && wf(tree@),
                Err(e) => !b.0 && e == VfsError::Internal,
            }
        }),
{
    let mut nodes: Vec<Node> = Vec::new();
    nodes.push(Node { name: String::new(), is_dir: true, parent: 0, children: Vec::new() });
    proof {
        assert(nv(nodes@) =~~= root_only());
        assert(wf_node(root_only(), 0));
        assert(paths.deep_view().skip(0) =~= paths.deep_view());
    }
    let mut j: usize = 0;
    while j < paths.len()
        invariant
            j <= paths@.len(),
            wf(nv(nodes@)),
            build_spec(paths.deep_view()) == build_from(nv(nodes@), paths.deep_view().skip(j as int)),
        decreases paths@.len() - j,
    {
        let ghost t0 = nv(nodes@);
        let ghost rest = paths.deep_view().skip(j as int);
        let segs = split_slash_exec(paths[j].as_str());
        proof {
            assert(rest[0] == paths.deep_view()[j as int]);
            assert(segs.deep_view().skip(0) =~= segs.deep_view());
            assert(wf_node(t0, 0));
        }
        let ok = insert_segs_exec(&mut nodes, 0, &segs, 0);
        if !ok {
            return Err(VfsError::Internal);
        }
        proof {
            assert(rest.drop_first() =~= paths.deep_view().skip(j + 1 as int));
        }
        j += 1;
    }
    proof {
        assert(paths.deep_view().skip(paths@.len() as int) =~= Seq::<Seq<char>>::empty());
    }
    Ok(Tree { nodes })
}

} // verus!
