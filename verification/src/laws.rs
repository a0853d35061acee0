//! Properties of the built tree.
//!
//! The builder's contract pins the arena to [`build_spec`]; the lemmas here
//! say what that arena contains: every input entry resolves, every proper
//! prefix of an entry resolves to a directory, and resolution and path
//! reconstruction are inverse to one another.

use vstd::prelude::*;
use crate::paths::join_slash;
use crate::paths::lemma_join_split;
use crate::paths::lemma_normalize_valid_entry;
use crate::paths::lemma_split_leading_slash;
use crate::paths::lemma_split_join;
use crate::paths::lemma_split_no_slash;
use crate::paths::lemma_split_nonempty;
use crate::paths::normalize_spec;
use crate::paths::split_slash;
use crate::paths::valid_entry;
use crate::tree::NodeV;
use crate::tree::build_from;
use crate::tree::build_spec;
use crate::tree::child_named;
use crate::tree::find_in;
use crate::tree::insert_path;
use crate::tree::insert_segs;
use crate::tree::lemma_find_in;
use crate::tree::lemma_wf_insert;
use crate::tree::lemma_wf_push_child;
use crate::tree::push_child;
use crate::tree::reconstruct_spec;
use crate::tree::resolve_canon;
use crate::tree::resolve_segs;
use crate::tree::root_only;
use crate::tree::seg_path;
use crate::tree::wf;
use crate::tree::wf_node;

verus! {

/// Whether the walk from node `i` along `segs` ends at a directory.
pub open spec fn resolves_to_dir(t: Seq<NodeV>, i: int, segs: Seq<Seq<char>>) -> bool {
    match resolve_segs(t, i, segs) {
        Option::Some(n) => t[n].is_dir,
        Option::None => false,
    }
}

/// One arena extends another when it keeps every old node's name, kind and
/// parent, and only ever appends to an old node's child list.
pub open spec fn extends(t: Seq<NodeV>, u: Seq<NodeV>) -> bool {
    &&& t.len() <= u.len()
    &&& forall|i: int|
        0 <= i < t.len() ==> (#[trigger] u[i]).name == t[i].name && u[i].is_dir == t[i].is_dir
            && u[i].parent == t[i].parent && t[i].children.is_prefix_of(u[i].children)
}

pub proof fn lemma_extends_refl(t: Seq<NodeV>)
    ensures
        extends(t, t),
{
    assert forall|i: int| 0 <= i < t.len() implies (#[trigger] t[i]).name == t[i].name
        && t[i].children.is_prefix_of(t[i].children) by {
        assert(t[i].children =~= t[i].children.subrange(0, t[i].children.len() as int));
    }
}

pub proof fn lemma_extends_trans(t: Seq<NodeV>, u: Seq<NodeV>, v: Seq<NodeV>)
    requires
        extends(t, u),
        extends(u, v),
    ensures
        extends(t, v),
{
    assert forall|i: int| 0 <= i < t.len() implies (#[trigger] v[i]).name == t[i].name
        && v[i].is_dir == t[i].is_dir && v[i].parent == t[i].parent
        && t[i].children.is_prefix_of(v[i].children) by {
        assert(u[i].name == t[i].name);
        let a = t[i].children;
        let b = u[i].children;
        let c = v[i].children;
        assert(a =~= b.subrange(0, a.len() as int));
        assert(b =~= c.subrange(0, b.len() as int));
        assert(a =~= c.subrange(0, a.len() as int));
    }
}

pub proof fn lemma_push_child_extends(t: Seq<NodeV>, parent: int, name: Seq<char>, is_dir: bool)
    requires
        0 <= parent < t.len(),
    ensures
        extends(t, push_child(t, parent, name, is_dir)),
{
    let u = push_child(t, parent, name, is_dir);
    assert forall|i: int| 0 <= i < t.len() implies (#[trigger] u[i]).name == t[i].name
        && u[i].is_dir == t[i].is_dir && u[i].parent == t[i].parent
        && t[i].children.is_prefix_of(u[i].children) by {
        if i == parent {
            assert(t[i].children =~= u[i].children.subrange(0, t[i].children.len() as int));
        } else {
            assert(t[i].children =~= u[i].children.subrange(0, t[i].children.len() as int));
        }
    }
}

/// Inserting a path only ever grows the arena, whether or not it succeeds.
pub proof fn lemma_insert_extends(t: Seq<NodeV>, i: int, segs: Seq<Seq<char>>)
    requires
        wf(t),
        0 <= i < t.len(),
        t[i].is_dir,
    ensures
        extends(t, insert_segs(t, i, segs).1),
    decreases segs.len(),
{
    if segs.len() == 0 {
        lemma_extends_refl(t);
    } else if segs.len() == 1 {
        match child_named(t, i, segs[0]) {
            Option::Some(_) => {
                lemma_extends_refl(t);
            },
            Option::None => {
                lemma_push_child_extends(t, i, segs[0], false);
            },
        }
    } else {
        match child_named(t, i, segs[0]) {
            Option::Some(c) => {
                if t[c].is_dir {
                    lemma_find_in(t, t[i].children, segs[0]);
                    assert(t[i].children.contains(c));
                    let k = choose|k: int| 0 <= k < t[i].children.len() && t[i].children[k] == c;
                    assert(wf_node(t, i));
                    lemma_insert_extends(t, c, segs.drop_first());
                } else {
                    lemma_extends_refl(t);
                }
            },
            Option::None => {
                let t2 = push_child(t, i, segs[0], true);
                lemma_push_child_extends(t, i, segs[0], true);
                lemma_wf_push_child(t, i, segs[0], true);
                lemma_insert_extends(t2, t.len() as int, segs.drop_first());
                lemma_extends_trans(t, t2, insert_segs(t2, t.len() as int, segs.drop_first()).1);
            },
        }
    }
}

/// The whole build only ever grows the arena it starts from, and keeps it
/// well-formed.
pub proof fn lemma_build_extends(t: Seq<NodeV>, paths: Seq<Seq<char>>)
    requires
        wf(t),
    ensures
        extends(t, build_from(t, paths).1),
        wf(build_from(t, paths).1),
    decreases paths.len(),
{
    if paths.len() == 0 {
        lemma_extends_refl(t);
    } else {
        assert(wf_node(t, 0));
        let r = insert_path(t, paths[0]);
        lemma_insert_extends(t, 0, split_slash(paths[0]));
        lemma_wf_insert(t, 0, split_slash(paths[0]));
        if r.0 {
            lemma_build_extends(r.1, paths.drop_first());
            lemma_extends_trans(t, r.1, build_from(r.1, paths.drop_first()).1);
        }
    }
}

/// A hit of [`find_in`] survives appending entries to the list searched.
pub proof fn lemma_find_in_append(t: Seq<NodeV>, cs: Seq<int>, rest: Seq<int>, name: Seq<char>)
    requires
        find_in(t, cs, name) is Some,
    ensures
        find_in(t, cs + rest, name) == find_in(t, cs, name),
    decreases cs.len(),
{
    assert(cs.len() > 0);
    assert((cs + rest)[0] == cs[0]);
    if t[cs[0]].name != name {
        lemma_find_in_append(t, cs.drop_first(), rest, name);
        assert(cs.drop_first() + rest =~= (cs + rest).drop_first());
    }
}

/// A hit of [`find_in`] names the same node in any extension of the arena,
/// as long as the entries searched are old nodes.
pub proof fn lemma_find_in_stable(t: Seq<NodeV>, u: Seq<NodeV>, cs: Seq<int>, name: Seq<char>)
    requires
        extends(t, u),
        forall|k: int| 0 <= k < cs.len() ==> 0 <= #[trigger] cs[k] < t.len(),
        find_in(t, cs, name) is Some,
    ensures
        find_in(u, cs, name) == find_in(t, cs, name),
    decreases cs.len(),
{
    assert(cs.len() > 0);
    assert(u[cs[0]].name == t[cs[0]].name);
    if t[cs[0]].name != name {
        assert(forall|k: int|
            0 <= k < cs.drop_first().len() ==> 0 <= #[trigger] cs.drop_first()[k] < t.len());
        lemma_find_in_stable(t, u, cs.drop_first(), name);
    }
}

/// A child found in the old arena is found, unchanged, in any extension.
pub proof fn lemma_child_stable(t: Seq<NodeV>, u: Seq<NodeV>, i: int, name: Seq<char>)
    requires
        wf(t),
        extends(t, u),
        0 <= i < t.len(),
        child_named(t, i, name) is Some,
    ensures
        child_named(u, i, name) == child_named(t, i, name),
{
    let cs = t[i].children;
    assert(wf_node(t, i));
    lemma_find_in_stable(t, u, cs, name);
    let suffix = u[i].children.skip(cs.len() as int);
    assert(cs =~= u[i].children.subrange(0, cs.len() as int));
    assert(u[i].children =~= cs + suffix);
    lemma_find_in_append(u, cs, suffix, name);
}

/// A resolution in the old arena holds, with the same node and kind, in any
/// extension; the node found is always in the old range, and below a
/// non-empty segment list it lies strictly deeper than the start.
pub proof fn lemma_resolve_stable(t: Seq<NodeV>, u: Seq<NodeV>, i: int, segs: Seq<Seq<char>>)
    requires
        wf(t),
        extends(t, u),
        0 <= i < t.len(),
        resolve_segs(t, i, segs) is Some,
    ensures
        resolve_segs(u, i, segs) == resolve_segs(t, i, segs),
        match resolve_segs(t, i, segs) {
            Option::Some(n) => i <= n < t.len() && u[n].is_dir == t[n].is_dir && (segs.len() >= 1
                ==> n > i),
            Option::None => false,
        },
    decreases segs.len(),
{
    if segs.len() == 0 {
    } else {
        match child_named(t, i, segs[0]) {
            Option::Some(c) => {
                lemma_find_in(t, t[i].children, segs[0]);
                assert(t[i].children.contains(c));
                let k = choose|k: int| 0 <= k < t[i].children.len() && t[i].children[k] == c;
                assert(wf_node(t, i));
                lemma_child_stable(t, u, i, segs[0]);
                lemma_resolve_stable(t, u, c, segs.drop_first());
            },
            Option::None => {
                assert(false);
            },
        }
    }
}

/// A list none of whose entries is named `name` yields a miss.
pub proof fn lemma_find_in_none(t: Seq<NodeV>, cs: Seq<int>, name: Seq<char>)
    requires
        forall|k: int| 0 <= k < cs.len() ==> t[#[trigger] cs[k]].name != name,
    ensures
        find_in(t, cs, name) is None,
    decreases cs.len(),
{
    if cs.len() > 0 {
        lemma_find_in_none(t, cs.drop_first(), name);
    }
}

/// After a miss on the first part of a list, the search continues in the rest.
pub proof fn lemma_find_in_append_none(t: Seq<NodeV>, cs: Seq<int>, rest: Seq<int>, name: Seq<char>)
    requires
        find_in(t, cs, name) is None,
    ensures
        find_in(t, cs + rest, name) == find_in(t, rest, name),
    decreases cs.len(),
{
    if cs.len() == 0 {
        assert(cs + rest =~= rest);
    } else {
        assert((cs + rest)[0] == cs[0]);
        lemma_find_in_append_none(t, cs.drop_first(), rest, name);
        assert(cs.drop_first() + rest =~= (cs + rest).drop_first());
    }
}

/// After a new child is pushed under `i` because none was named `name`, the
/// lookup finds exactly that new node.
pub proof fn lemma_child_after_push(t: Seq<NodeV>, i: int, name: Seq<char>, is_dir: bool)
    requires
        wf(t),
        0 <= i < t.len(),
        child_named(t, i, name) is None,
    ensures
        child_named(push_child(t, i, name, is_dir), i, name) == Option::Some(t.len() as int),
{
    let u = push_child(t, i, name, is_dir);
    let w = t.len() as int;
    let cs = t[i].children;
    assert(wf_node(t, i));
    lemma_find_in(t, cs, name);
    assert forall|k: int| 0 <= k < cs.len() implies u[#[trigger] cs[k]].name != name by {
        assert(u[cs[k]].name == t[cs[k]].name);
    }
    lemma_find_in_none(u, cs, name);
    assert(u[i].children =~= cs + seq![w]);
    lemma_find_in_append_none(u, cs, seq![w], name);
    assert(seq![w][0] == w);
    assert(u[w].name == name);
    assert(find_in(u, seq![w], name) == Option::Some(w));
}

/// A successful insertion makes the inserted path resolvable, and every
/// proper non-empty prefix of it resolve to a directory.
pub proof fn lemma_insert_establishes(t: Seq<NodeV>, i: int, segs: Seq<Seq<char>>)
    requires
        wf(t),
        0 <= i < t.len(),
        t[i].is_dir,
        segs.len() >= 1,
        insert_segs(t, i, segs).0,
    ensures
        resolve_segs(insert_segs(t, i, segs).1, i, segs) is Some,
        forall|j: int|
            1 <= j < segs.len() ==> resolves_to_dir(insert_segs(t, i, segs).1, i, segs.take(j)),
    decreases segs.len(),
{
    let u = insert_segs(t, i, segs).1;
    let s0 = segs[0];
    if segs.len() == 1 {
        match child_named(t, i, s0) {
            Option::Some(c) => {
                assert(resolve_segs(t, c, segs.drop_first()) == Option::Some(c));
                assert(resolve_segs(t, i, segs) is Some);
            },
            Option::None => {
                lemma_child_after_push(t, i, s0, false);
                let w = t.len() as int;
                assert(child_named(u, i, s0) == Option::Some(w));
                assert(resolve_segs(u, w, segs.drop_first()) == Option::Some(w));
                assert(resolve_segs(u, i, segs) is Some);
            },
        }
    } else {
        let rest = segs.drop_first();
        match child_named(t, i, s0) {
            Option::Some(c) => {
                lemma_find_in(t, t[i].children, s0);
                assert(t[i].children.contains(c));
                let k = choose|k: int| 0 <= k < t[i].children.len() && t[i].children[k] == c;
                assert(wf_node(t, i));
                assert(t[c].is_dir);
                lemma_insert_establishes(t, c, rest);
                lemma_insert_extends(t, c, rest);
                lemma_child_stable(t, u, i, s0);
                assert(resolve_segs(u, i, segs) == resolve_segs(u, c, rest));
                assert forall|j: int| 1 <= j < segs.len() implies resolves_to_dir(
                    u,
                    i,
                    segs.take(j),
                ) by {
                    assert(segs.take(j)[0] == s0);
                    assert(segs.take(j).drop_first() =~= rest.take(j - 1));
                    if j == 1 {
                        assert(resolve_segs(u, i, segs.take(1)) == Option::Some(c));
                        assert(u[c].is_dir == t[c].is_dir);
                    } else {
                        assert(resolves_to_dir(u, c, rest.take(j - 1)));
                        assert(resolve_segs(u, i, segs.take(j)) == resolve_segs(
                            u,
                            c,
                            rest.take(j - 1),
                        ));
                    }
                }
            },
            Option::None => {
                let t2 = push_child(t, i, s0, true);
                let w = t.len() as int;
                lemma_wf_push_child(t, i, s0, true);
                lemma_child_after_push(t, i, s0, true);
                assert(t2[w].is_dir);
                lemma_insert_establishes(t2, w, rest);
                lemma_insert_extends(t2, w, rest);
                lemma_child_stable(t2, u, i, s0);
                assert(child_named(u, i, s0) == Option::Some(w));
                assert(resolve_segs(u, i, segs) == resolve_segs(u, w, rest));
                assert forall|j: int| 1 <= j < segs.len() implies resolves_to_dir(
                    u,
                    i,
                    segs.take(j),
                ) by {
                    assert(segs.take(j)[0] == s0);
                    assert(segs.take(j).drop_first() =~= rest.take(j - 1));
                    if j == 1 {
                        assert(resolve_segs(u, i, segs.take(1)) == Option::Some(w));
                        assert(u[w].is_dir == t2[w].is_dir);
                    } else {
                        assert(resolves_to_dir(u, w, rest.take(j - 1)));
                        assert(resolve_segs(u, i, segs.take(j)) == resolve_segs(
                            u,
                            w,
                            rest.take(j - 1),
                        ));
                    }
                }
            },
        }
    }
}

/// After a successful build from `t`, every entry of the list resolves, and
/// every proper non-empty segment prefix of it resolves to a directory.
pub proof fn lemma_build_entry(t: Seq<NodeV>, paths: Seq<Seq<char>>, j: int)
    requires
        wf(t),
        build_from(t, paths).0,
        0 <= j < paths.len(),
    ensures
        resolve_segs(build_from(t, paths).1, 0, split_slash(paths[j])) is Some,
        forall|q: int|
            1 <= q < split_slash(paths[j]).len() ==> resolves_to_dir(
                build_from(t, paths).1,
                0,
                split_slash(paths[j]).take(q),
            ),
    decreases paths.len(),
{
    let r = insert_path(t, paths[0]);
    let v = build_from(t, paths).1;
    assert(wf_node(t, 0));
    assert(r.0);
    lemma_wf_insert(t, 0, split_slash(paths[0]));
    if j == 0 {
        lemma_split_nonempty(paths[0]);
        lemma_insert_establishes(t, 0, split_slash(paths[0]));
        lemma_build_extends(r.1, paths.drop_first());
        lemma_resolve_stable(r.1, v, 0, split_slash(paths[0]));
        assert forall|q: int| 1 <= q < split_slash(paths[0]).len() implies resolves_to_dir(
            v,
            0,
            split_slash(paths[0]).take(q),
        ) by {
            assert(resolves_to_dir(r.1, 0, split_slash(paths[0]).take(q)));
            lemma_resolve_stable(r.1, v, 0, split_slash(paths[0]).take(q));
        }
    } else {
        lemma_build_entry(r.1, paths.drop_first(), j - 1);
        assert(paths.drop_first()[j - 1] == paths[j]);
    }
}

/// Resolution pins down a node's reconstructed segment path: whatever
/// segment list leads from node `i` to node `n`, it is exactly the
/// difference of their paths from the root.
pub proof fn lemma_resolve_seg_path(t: Seq<NodeV>, i: int, segs: Seq<Seq<char>>, n: int)
    requires
        wf(t),
        0 <= i < t.len(),
        resolve_segs(t, i, segs) == Option::Some(n),
    ensures
        seg_path(t, n) == seg_path(t, i) + segs,
    decreases segs.len(),
{
    if segs.len() == 0 {
        assert(seg_path(t, i) + segs =~= seg_path(t, i));
    } else {
        match child_named(t, i, segs[0]) {
            Option::Some(c) => {
                lemma_find_in(t, t[i].children, segs[0]);
                assert(t[i].children.contains(c));
                let k = choose|k: int| 0 <= k < t[i].children.len() && t[i].children[k] == c;
                assert(wf_node(t, i));
                assert(t[c].parent == i && t[c].name == segs[0] && i < c < t.len());
                assert(seg_path(t, c) == seg_path(t, i).push(segs[0]));
                lemma_resolve_seg_path(t, c, segs.drop_first(), n);
                assert(seg_path(t, i).push(segs[0]) + segs.drop_first() =~= seg_path(t, i) + segs);
            },
            Option::None => {
                assert(false);
            },
        }
    }
}

/// The arena of the root alone is well-formed.
pub proof fn lemma_root_wf()
    ensures
        wf(root_only()),
{
    assert(wf_node(root_only(), 0));
}

/// A well-formed entry never is the root representation: its first segment
/// would be empty.
pub proof fn lemma_valid_entry_not_root(p: Seq<char>)
    requires
        valid_entry(p),
    ensures
        p != seq!['/'],
{
    if p == seq!['/'] {
        lemma_split_leading_slash(p);
    }
}

/// After a successful build, every entry of the input list, in its
/// normalized (= canonical) form, resolves to a node of the tree; by the
/// adapter's contracts, `metadata` and `cwd` therefore succeed on it.
pub proof fn lemma_input_path_resolves(paths: Seq<Seq<char>>, j: int)
    requires
        build_spec(paths).0,
        0 <= j < paths.len(),
        valid_entry(paths[j]),
    ensures
        resolve_canon(build_spec(paths).1, normalize_spec(paths[j])) is Some,
{
    lemma_root_wf();
    lemma_build_entry(root_only(), paths, j);
    lemma_normalize_valid_entry(paths[j]);
    lemma_valid_entry_not_root(paths[j]);
}

/// After a successful build, every proper, non-empty prefix of every input
/// entry — its first `q` of more than `q` segments — resolves to a
/// directory node.
pub proof fn lemma_prefix_resolves_to_directory(paths: Seq<Seq<char>>, j: int, q: int)
    requires
        build_spec(paths).0,
        0 <= j < paths.len(),
        1 <= q < split_slash(paths[j]).len(),
    ensures
        resolves_to_dir(build_spec(paths).1, 0, split_slash(paths[j]).take(q)),
{
    lemma_root_wf();
    lemma_build_entry(root_only(), paths, j);
}

/// The same, at the level of path strings: every proper, non-empty prefix
/// of an input entry — its first `q` of more than `q` segments, joined back
/// with `'/'` — resolves, as a canonical path, to a directory node.
pub proof fn lemma_prefix_string_resolves_to_directory(paths: Seq<Seq<char>>, j: int, q: int)
    requires
        build_spec(paths).0,
        0 <= j < paths.len(),
        valid_entry(paths[j]),
        1 <= q < split_slash(paths[j]).len(),
    ensures
        ({
            let t = build_spec(paths).1;
            match resolve_canon(t, join_slash(split_slash(paths[j]).take(q))) {
                Option::Some(n) => t[n].is_dir,
                Option::None => false,
            }
        }),
{
    let t = build_spec(paths).1;
    let p = paths[j];
    let segsq = split_slash(p).take(q);
    let prefix = join_slash(segsq);
    lemma_prefix_resolves_to_directory(paths, j, q);
    lemma_split_no_slash(p);
    assert forall|a: int, b: int|
        0 <= a < segsq.len() && 0 <= b < segsq[a].len() implies #[trigger] segsq[a][b] != '/' by {
        assert(segsq[a] == split_slash(p)[a]);
    }
    lemma_split_join(segsq);
    if prefix == seq!['/'] {
        lemma_split_leading_slash(prefix);
        assert(segsq[0] == split_slash(p)[0]);
        assert(false);
    }
}

/// Reconstructing the path of the node an input entry resolves to gives
/// back exactly the normalized entry: resolution and reconstruction are
/// inverse on the input list.
pub proof fn lemma_round_trip(paths: Seq<Seq<char>>, j: int)
    requires
        build_spec(paths).0,
        0 <= j < paths.len(),
        valid_entry(paths[j]),
    ensures
        ({
            let t = build_spec(paths).1;
            match resolve_canon(t, normalize_spec(paths[j])) {
                Option::Some(n) => reconstruct_spec(t, n) == normalize_spec(paths[j]),
                Option::None => false,
            }
        }),
{
    let t = build_spec(paths).1;
    let p = paths[j];
    lemma_input_path_resolves(paths, j);
    lemma_normalize_valid_entry(p);
    lemma_valid_entry_not_root(p);
    lemma_root_wf();
    lemma_build_extends(root_only(), paths);
    lemma_split_nonempty(p);
    match resolve_canon(t, p) {
        Option::Some(n) => {
            lemma_extends_refl(t);
            lemma_resolve_stable(t, t, 0, split_slash(p));
            assert(n > 0);
            lemma_resolve_seg_path(t, 0, split_slash(p), n);
            assert(seg_path(t, 0) =~= Seq::<Seq<char>>::empty());
            assert(seg_path(t, n) =~= split_slash(p));
            lemma_join_split(p);
            assert(reconstruct_spec(t, n) == join_slash(seg_path(t, n)));
        },
        Option::None => {
            assert(false);
        },
    }
}

/// An old node's reconstructed segment path is the same in any extension of
/// the arena.
pub proof fn lemma_seg_path_stable(t: Seq<NodeV>, u: Seq<NodeV>, n: int)
    requires
        extends(t, u),
        0 <= n < t.len(),
    ensures
        seg_path(u, n) == seg_path(t, n),
    decreases n,
{
    if n > 0 {
        assert(u[n].parent == t[n].parent && u[n].name == t[n].name);
        if 0 <= t[n].parent < n {
            lemma_seg_path_stable(t, u, t[n].parent);
        }
    }
}

/// One segment list strictly extending another: the second is a proper,
/// non-empty-difference prefix of the first.
pub open spec fn strictly_extends(q: Seq<Seq<char>>, p: Seq<Seq<char>>) -> bool {
    p.len() < q.len() && q.take(p.len() as int) == p
}

/// Every node an insertion creates sits at some non-empty prefix of the
/// inserted segment list (below the starting node), and is a directory only
/// at a proper prefix: the final segment's node, if newly made, is a file.
pub proof fn lemma_insert_new_nodes(t: Seq<NodeV>, i: int, segs: Seq<Seq<char>>, n: int)
    requires
        wf(t),
        0 <= i < t.len(),
        t[i].is_dir,
        segs.len() >= 1,
        t.len() <= n < insert_segs(t, i, segs).1.len(),
    ensures
        exists|j: int|
            1 <= j <= segs.len() && #[trigger] seg_path(insert_segs(t, i, segs).1, n) == seg_path(
                t,
                i,
            ) + segs.take(j) && (insert_segs(t, i, segs).1[n].is_dir ==> j < segs.len()),
    decreases segs.len(),
{
    let u = insert_segs(t, i, segs).1;
    let s0 = segs[0];
    if segs.len() == 1 {
        match child_named(t, i, s0) {
            Option::Some(_) => {
                assert(false);
            },
            Option::None => {
                assert(n == t.len());
                lemma_push_child_extends(t, i, s0, false);
                lemma_seg_path_stable(t, u, i);
                assert(u[n].parent == i && u[n].name == s0 && !u[n].is_dir);
                assert(seg_path(u, n) == seg_path(u, i).push(s0));
                assert(seg_path(t, i) + segs.take(1) =~= seg_path(t, i).push(s0));
                assert(seg_path(u, n) == seg_path(t, i) + segs.take(1));
            },
        }
    } else {
        let rest = segs.drop_first();
        match child_named(t, i, s0) {
            Option::Some(c) => {
                if t[c].is_dir {
                    lemma_find_in(t, t[i].children, s0);
                    assert(t[i].children.contains(c));
                    let k = choose|k: int| 0 <= k < t[i].children.len() && t[i].children[k] == c;
                    assert(wf_node(t, i));
                    assert(seg_path(t, c) == seg_path(t, i).push(s0));
                    lemma_insert_new_nodes(t, c, rest, n);
                    let j = choose|j: int|
                        1 <= j <= rest.len() && #[trigger] seg_path(u, n) == seg_path(t, c)
                            + rest.take(j) && (u[n].is_dir ==> j < rest.len());
                    assert(seg_path(t, i).push(s0) + rest.take(j) =~= seg_path(t, i) + segs.take(
                        j + 1,
                    ));
                    assert(seg_path(u, n) == seg_path(t, i) + segs.take(j + 1));
                } else {
                    assert(false);
                }
            },
            Option::None => {
                let t2 = push_child(t, i, s0, true);
                let w = t.len() as int;
                lemma_wf_push_child(t, i, s0, true);
                lemma_push_child_extends(t, i, s0, true);
                lemma_insert_extends(t2, w, rest);
                lemma_seg_path_stable(t, t2, i);
                lemma_seg_path_stable(t2, u, i);
                lemma_seg_path_stable(t2, u, w);
                assert(t2[w].parent == i && t2[w].name == s0);
                assert(seg_path(t2, w) == seg_path(t2, i).push(s0));
                assert(seg_path(t2, w) == seg_path(t, i).push(s0));
                if n == w {
                    assert(seg_path(u, n) == seg_path(t, i).push(s0));
                    assert(seg_path(t, i) + segs.take(1) =~= seg_path(t, i).push(s0));
                    assert(u[n].is_dir == t2[w].is_dir);
                    assert(seg_path(u, n) == seg_path(t, i) + segs.take(1) && (u[n].is_dir ==> 1
                        < segs.len()));
                } else {
                    assert(t2.len() <= n < u.len());
                    lemma_insert_new_nodes(t2, w, rest, n);
                    let j = choose|j: int|
                        1 <= j <= rest.len() && #[trigger] seg_path(u, n) == seg_path(t2, w)
                            + rest.take(j) && (u[n].is_dir ==> j < rest.len());
                    assert(seg_path(t, i).push(s0) + rest.take(j) =~= seg_path(t, i) + segs.take(
                        j + 1,
                    ));
                    assert(seg_path(u, n) == seg_path(t, i) + segs.take(j + 1));
                }
            },
        }
    }
}

/// If no entry of the list strictly extends `p`, then building the list
/// never places a directory at `p`'s segment path.
pub proof fn lemma_no_dir_at_path(t: Seq<NodeV>, paths: Seq<Seq<char>>, p: Seq<char>)
    requires
        wf(t),
        forall|x: int|
            0 <= x < paths.len() ==> !strictly_extends(
                split_slash(#[trigger] paths[x]),
                split_slash(p),
            ),
        forall|n: int|
            0 <= n < t.len() ==> !(#[trigger] seg_path(t, n) == split_slash(p) && t[n].is_dir),
    ensures
        forall|n: int|
            0 <= n < build_from(t, paths).1.len() ==> !(#[trigger] seg_path(
                build_from(t, paths).1,
                n,
            ) == split_slash(p) && build_from(t, paths).1[n].is_dir),
    decreases paths.len(),
{
    if paths.len() > 0 {
        let q = paths[0];
        let r = insert_path(t, q);
        assert(wf_node(t, 0));
        lemma_split_nonempty(q);
        lemma_split_nonempty(p);
        lemma_insert_extends(t, 0, split_slash(q));
        lemma_wf_insert(t, 0, split_slash(q));
        assert forall|n: int| 0 <= n < r.1.len() implies !(#[trigger] seg_path(r.1, n)
            == split_slash(p) && r.1[n].is_dir) by {
            if n < t.len() {
                lemma_seg_path_stable(t, r.1, n);
            } else {
                lemma_insert_new_nodes(t, 0, split_slash(q), n);
                let j = choose|j: int|
                    1 <= j <= split_slash(q).len() && #[trigger] seg_path(r.1, n) == seg_path(t, 0)
                        + split_slash(q).take(j) && (r.1[n].is_dir ==> j < split_slash(q).len());
                assert(seg_path(t, 0) + split_slash(q).take(j) =~= split_slash(q).take(j));
                if seg_path(r.1, n) == split_slash(p) && r.1[n].is_dir {
                    assert(split_slash(q).take(j) == split_slash(p));
                    assert(split_slash(p).len() == j < split_slash(q).len());
                    assert(strictly_extends(split_slash(q), split_slash(p)));
                }
            }
        }
        if r.0 {
            assert forall|x: int| 0 <= x < paths.drop_first().len() implies !strictly_extends(
                split_slash(#[trigger] paths.drop_first()[x]),
                split_slash(p),
            ) by {
                assert(paths.drop_first()[x] == paths[x + 1]);
            }
            lemma_no_dir_at_path(r.1, paths.drop_first(), p);
            assert(build_from(t, paths).1 == build_from(r.1, paths.drop_first()).1);
        } else {
            assert(build_from(t, paths).1 == r.1);
        }
    } else {
        assert(build_from(t, paths).1 == t);
    }
}

/// After a successful build, an input entry that no other entry strictly
/// extends resolves to a file node. (An entry that also occurs as a proper
/// prefix of another entry resolves instead to the directory that longer
/// entry required.)
pub proof fn lemma_input_path_is_file(paths: Seq<Seq<char>>, j: int)
    requires
        build_spec(paths).0,
        0 <= j < paths.len(),
        valid_entry(paths[j]),
        forall|x: int|
            0 <= x < paths.len() ==> !strictly_extends(
                split_slash(#[trigger] paths[x]),
                split_slash(paths[j]),
            ),
    ensures
        ({
            let t = build_spec(paths).1;
            match resolve_canon(t, normalize_spec(paths[j])) {
                Option::Some(n) => !t[n].is_dir,
                Option::None => false,
            }
        }),
{
    let t = build_spec(paths).1;
    let p = paths[j];
    lemma_input_path_resolves(paths, j);
    lemma_normalize_valid_entry(p);
    lemma_valid_entry_not_root(p);
    lemma_root_wf();
    lemma_build_extends(root_only(), paths);
    lemma_split_nonempty(p);
    assert forall|n: int| 0 <= n < root_only().len() implies !(#[trigger] seg_path(
        root_only(),
        n,
    ) == split_slash(p) && root_only()[n].is_dir) by {
        assert(seg_path(root_only(), 0) =~= Seq::<Seq<char>>::empty());
    }
    lemma_no_dir_at_path(root_only(), paths, p);
    match resolve_canon(t, p) {
        Option::Some(n) => {
            lemma_extends_refl(t);
            lemma_resolve_stable(t, t, 0, split_slash(p));
            lemma_resolve_seg_path(t, 0, split_slash(p), n);
            assert(seg_path(t, 0) =~= Seq::<Seq<char>>::empty());
            assert(seg_path(t, n) =~= split_slash(p));
        },
        Option::None => {
            assert(false);
        },
    }
}

/// Building twice from the same input list gives structurally identical
/// trees — the same nodes, kinds, and parent/child links — because the
/// builder's contract makes every arena equal to the one [`build_spec`]
/// gives for the list.
pub proof fn lemma_build_deterministic(t1: crate::tree::Tree, t2: crate::tree::Tree, paths: Seq<Seq<char>>)
    requires
        t1@ == build_spec(paths).1,
        t2@ == build_spec(paths).1,
    ensures
        t1@ == t2@,
{
}

} // verus!
