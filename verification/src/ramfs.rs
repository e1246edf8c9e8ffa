//! The volatile in-memory filesystem: absolute-path resolution and a single
//! rooted tree of directory/file nodes.
//!
//! A path is a byte string: a leading `/` followed by non-empty segments
//! joined by `/`; the root path is `/` alone.

use vstd::prelude::*;

use crate::bytes_eq;

verus! {

/// Path separator byte (`'/'`).
pub const SEP: u8 = '/' as u8;

// ---------------------------------------------------------------------------
// Path segments: the specification side.
// ---------------------------------------------------------------------------

/// Length of the leading run of non-separator bytes.
pub open spec fn first_seg_len(s: Seq<u8>) -> nat
    decreases s.len(),
{
    if s.len() == 0 {
        0
    } else if s[0] == SEP {
        0
    } else {
        1 + first_seg_len(s.drop_first())
    }
}

/// The non-empty segments of a path, in order, split on the separator.
pub open spec fn split_spec(s: Seq<u8>) -> Seq<Seq<u8>>
    decreases s.len(),
{
    if s.len() == 0 {
        Seq::empty()
    } else if s[0] == SEP {
        split_spec(s.drop_first())
    } else {
        let k0 = 1 + first_seg_len(s.drop_first()) as int;
        let k = if k0 <= s.len() {
            k0
        } else {
            s.len() as int
        };
        seq![s.subrange(0, k)] + split_spec(s.subrange(k, s.len() as int))
    }
}

/// Segments joined by separators, each preceded by one: `[a, b]` spells `/a/b`.
pub open spec fn joined(parts: Seq<Seq<u8>>) -> Seq<u8>
    decreases parts.len(),
{
    if parts.len() == 0 {
        Seq::empty()
    } else {
        joined(parts.drop_last()) + seq![SEP] + parts.last()
    }
}

/// The absolute path spelled by a segment list; the bare separator for none.
pub open spec fn path_of(parts: Seq<Seq<u8>>) -> Seq<u8> {
    if parts.len() == 0 {
        seq![SEP]
    } else {
        joined(parts)
    }
}

/// The `.` segment.
pub open spec fn seg_dot() -> Seq<u8> {
    seq!['.' as u8]
}

/// The `..` segment.
pub open spec fn seg_dotdot() -> Seq<u8> {
    seq!['.' as u8, '.' as u8]
}

/// One step of relative resolution: `.` is a no-op, `..` pops the last
/// accumulated segment (a no-op on an empty stack), anything else is appended.
pub open spec fn seg_step(acc: Seq<Seq<u8>>, p: Seq<u8>) -> Seq<Seq<u8>> {
    if p == seg_dot() {
        acc
    } else if p == seg_dotdot() {
        if acc.len() == 0 {
            acc
        } else {
            acc.drop_last()
        }
    } else {
        acc.push(p)
    }
}

/// Left-to-right application of `seg_step` over a segment list.
pub open spec fn apply_segments(acc: Seq<Seq<u8>>, parts: Seq<Seq<u8>>) -> Seq<Seq<u8>>
    decreases parts.len(),
{
    if parts.len() == 0 {
        acc
    } else {
        apply_segments(seg_step(acc, parts[0]), parts.drop_first())
    }
}

/// What `resolve_path` returns: an absolute target verbatim, otherwise the
/// target's segments applied to the working directory's.
pub open spec fn resolve_spec(cwd: Seq<u8>, target: Seq<u8>) -> Seq<u8> {
    if target.len() > 0 && target[0] == SEP {
        target
    } else {
        path_of(apply_segments(split_spec(cwd), split_spec(target)))
    }
}

/// The views of a sequence of byte vectors.
pub open spec fn views_of(s: Seq<Vec<u8>>) -> Seq<Seq<u8>> {
    Seq::new(s.len(), |i: int| s[i]@)
}

// ---------------------------------------------------------------------------
// Path segments: lemmas.
// ---------------------------------------------------------------------------

proof fn lemma_first_seg_len_is(s: Seq<u8>, k: int)
    requires
        0 <= k <= s.len(),
        forall|j: int| 0 <= j < k ==> s[j] != SEP,
        k == s.len() || s[k] == SEP,
    ensures
        first_seg_len(s) == k,
    decreases k,
{
    if k == 0 {
    } else {
        let t = s.drop_first();
        assert(forall|j: int| 0 <= j < k - 1 ==> t[j] == s[j + 1]);
        lemma_first_seg_len_is(t, k - 1);
    }
}

/// Splitting a path that opens with a full segment yields that segment first.
proof fn lemma_split_at_seg(s: Seq<u8>, k: int)
    requires
        0 < k <= s.len(),
        forall|j: int| 0 <= j < k ==> s[j] != SEP,
        k == s.len() || s[k] == SEP,
    ensures
        split_spec(s) == seq![s.subrange(0, k)] + split_spec(s.subrange(k, s.len() as int)),
{
    lemma_first_seg_len_is(s, k);
}

/// A leading separator does not change the segment list.
proof fn lemma_split_skip_sep(s: Seq<u8>)
    requires
        s.len() > 0,
        s[0] == SEP,
    ensures
        split_spec(s) == split_spec(s.drop_first()),
{
}

proof fn lemma_views_of_push(s: Seq<Vec<u8>>, v: Vec<u8>)
    ensures
        views_of(s.push(v)) == views_of(s) + seq![v@],
{
    assert(views_of(s.push(v)) =~= views_of(s) + seq![v@]);
}

proof fn lemma_views_of_drop_last(s: Seq<Vec<u8>>)
    requires
        s.len() > 0,
    ensures
        views_of(s.drop_last()) == views_of(s).drop_last(),
{
    assert(views_of(s.drop_last()) =~= views_of(s).drop_last());
}

/// A non-empty segment list spells a non-empty path that opens with the
/// separator.
proof fn lemma_joined_absolute(parts: Seq<Seq<u8>>)
    requires
        parts.len() > 0,
    ensures
        joined(parts).len() > 0,
        joined(parts)[0] == SEP,
    decreases parts.len(),
{
    let d = parts.drop_last();
    if parts.len() == 1 {
        assert(joined(d).len() == 0);
        assert(joined(parts) == joined(d) + seq![SEP] + parts.last());
        assert(joined(parts)[0] == SEP);
    } else {
        lemma_joined_absolute(d);
        assert(joined(parts) == joined(d) + seq![SEP] + parts.last());
        assert(joined(parts)[0] == joined(d)[0]);
    }
}

/// Every resolved path is absolute: non-empty, opening with the separator.
pub proof fn lemma_resolve_absolute(cwd: Seq<u8>, target: Seq<u8>)
    ensures
        resolve_spec(cwd, target).len() > 0,
        resolve_spec(cwd, target)[0] == SEP,
{
    if target.len() > 0 && target[0] == SEP {
    } else {
        let parts = apply_segments(split_spec(cwd), split_spec(target));
        if parts.len() > 0 {
            lemma_joined_absolute(parts);
        }
    }
}

/// `resolve_path` applied to its own output is a fixed point: resolving an
/// already-resolved path returns it verbatim.
pub proof fn lemma_resolve_fixed_point(cwd: Seq<u8>, p: Seq<u8>)
    ensures
        resolve_spec(cwd, resolve_spec(cwd, p)) == resolve_spec(cwd, p),
{
    lemma_resolve_absolute(cwd, p);
}

// ---------------------------------------------------------------------------
// Path segments: executable side.
// ---------------------------------------------------------------------------

/// Copy a byte slice into an owned vector.
pub fn bytes_to_vec(s: &[u8]) -> (r: Vec<u8>)
    ensures
        r@ == s@,
{
    let mut r: Vec<u8> = Vec::new();
    let mut i: usize = 0;
    while i < s.len()
        invariant
            i <= s@.len(),
            r@ == s@.subrange(0, i as int),
        decreases s@.len() - i,
    {
        r.push(s[i]);
        assert(s@.subrange(0, i + 1 as int) =~= s@.subrange(0, i as int).push(s@[i as int]));
        i += 1;
    }
    proof {
        assert(s@.subrange(0, s@.len() as int) =~= s@);
    }
    r
}

/// Split a path into its non-empty segments.
pub fn split_path(path: &[u8]) -> (r: Vec<Vec<u8>>)
    ensures
        views_of(r@) == split_spec(path@),
{
    let mut r: Vec<Vec<u8>> = Vec::new();
    let mut i: usize = 0;
    proof {
        assert(views_of(r@) =~= Seq::<Seq<u8>>::empty());
        assert(path@.subrange(0, path@.len() as int) =~= path@);
    }
    while i < path.len()
        invariant
            i <= path@.len(),
            views_of(r@) + split_spec(path@.subrange(i as int, path@.len() as int))
                == split_spec(path@),
        decreases path@.len() - i,
    {
        if path[i] == SEP {
            proof {
                let rest = path@.subrange(i as int, path@.len() as int);
                lemma_split_skip_sep(rest);
                assert(rest.drop_first() =~= path@.subrange(i + 1, path@.len() as int));
            }
            i += 1;
        } else {
            let start = i;
            let mut seg: Vec<u8> = Vec::new();
            let mut j: usize = i;
            while j < path.len() && path[j] != SEP
                invariant
                    start <= j <= path@.len(),
                    start < path@.len(),
                    path@[start as int] != SEP,
                    seg@ == path@.subrange(start as int, j as int),
                    forall|t: int| start <= t < j ==> path@[t] != SEP,
                decreases path@.len() - j,
            {
                seg.push(path[j]);
                assert(path@.subrange(start as int, j + 1 as int)
                    =~= path@.subrange(start as int, j as int).push(path@[j as int]));
                j += 1;
            }
            proof {
                let rest = path@.subrange(start as int, path@.len() as int);
                let k = j - start;
                assert(forall|t: int| 0 <= t < k ==> rest[t] == path@[start + t]);
                lemma_split_at_seg(rest, k);
                assert(rest.subrange(0, k) =~= seg@);
                assert(rest.subrange(k, rest.len() as int)
                    =~= path@.subrange(j as int, path@.len() as int));
                lemma_views_of_push(r@, seg);
                assert(views_of(r@.push(seg)) + split_spec(path@.subrange(j as int, path@.len() as int))
                    =~= views_of(r@) + split_spec(rest));
            }
            r.push(seg);
            i = j;
        }
    }
    proof {
        assert(path@.subrange(path@.len() as int, path@.len() as int)
            =~= Seq::<u8>::empty());
        assert(views_of(r@) + Seq::<Seq<u8>>::empty() =~= views_of(r@));
    }
    r
}

/// Spell the absolute path of a segment list.
fn join_segments(parts: &Vec<Vec<u8>>) -> (r: Vec<u8>)
    ensures
        r@ == path_of(views_of(parts@)),
{
    let mut r: Vec<u8> = Vec::new();
    if parts.len() == 0 {
        r.push(SEP);
        assert(r@ =~= seq![SEP]);
        return r;
    }
    let mut i: usize = 0;
    proof {
        assert(views_of(parts@).take(0) =~= Seq::<Seq<u8>>::empty());
    }
    while i < parts.len()
        invariant
            i <= parts@.len(),
            r@ == joined(views_of(parts@).take(i as int)),
        decreases parts@.len() - i,
    {
        r.push(SEP);
        let ghost before = r@;
        let mut j: usize = 0;
        while j < parts[i].len()
            invariant
                i < parts@.len(),
                j <= parts@[i as int]@.len(),
                r@ == before + parts@[i as int]@.subrange(0, j as int),
                before == joined(views_of(parts@).take(i as int)) + seq![SEP],
            decreases parts@[i as int]@.len() - j,
        {
            r.push(parts[i][j]);
            assert(parts@[i as int]@.subrange(0, j + 1 as int)
                =~= parts@[i as int]@.subrange(0, j as int).push(parts@[i as int]@[j as int]));
            j += 1;
        }
        proof {
            let vs = views_of(parts@);
            assert(parts@[i as int]@.subrange(0, parts@[i as int]@.len() as int)
                =~= vs[i as int]);
            assert(vs.take(i + 1).drop_last() =~= vs.take(i as int));
            assert(vs.take(i + 1).last() == vs[i as int]);
            assert(r@ =~= joined(vs.take(i as int)) + seq![SEP] + vs[i as int]);
        }
        i += 1;
    }
    proof {
        assert(views_of(parts@).take(parts@.len() as int) =~= views_of(parts@));
    }
    r
}

/// Resolve a target path against the current working directory.  An absolute
/// target is returned verbatim; a relative one is applied segment by segment
/// to the working directory's segments (`.` keeps, `..` pops, anything else
/// descends), and popping past the root is a no-op.
pub fn resolve_path(current_directory: &[u8], target: &[u8]) -> (r: Vec<u8>)
    ensures
        r@ == resolve_spec(current_directory@, target@),
{
    if target.len() > 0 && target[0] == SEP {
        return bytes_to_vec(target);
    }
    let mut parts = split_path(current_directory);
    let mut tsegs = split_path(target);
    while tsegs.len() > 0
        invariant
            apply_segments(views_of(parts@), views_of(tsegs@))
                == apply_segments(split_spec(current_directory@), split_spec(target@)),
        decreases tsegs@.len(),
    {
        let ghost old_parts = parts@;
        let ghost old_tsegs = tsegs@;
        let p = tsegs.remove(0);
        let ghost pv = p@;
        proof {
            assert(views_of(old_tsegs)[0] == pv);
            assert(views_of(tsegs@) =~= views_of(old_tsegs).drop_first());
        }
        if p.len() == 1 && p[0] == '.' as u8 {
            proof {
                assert(pv =~= seg_dot());
                assert(seg_step(views_of(old_parts), pv) == views_of(parts@));
            }
        } else if p.len() == 2 && p[0] == '.' as u8 && p[1] == '.' as u8 {
            proof {
                assert(pv =~= seg_dotdot());
                assert(pv != seg_dot());
            }
            if parts.len() > 0 {
                parts.pop();
                proof {
                    lemma_views_of_drop_last(old_parts);
                }
            }
            proof {
                assert(seg_step(views_of(old_parts), pv) == views_of(parts@));
            }
        } else {
            proof {
                assert(pv != seg_dot());
                assert(pv != seg_dotdot());
                lemma_views_of_push(parts@, p);
            }
            parts.push(p);
            proof {
                assert(views_of(old_parts) + seq![pv] =~= views_of(old_parts).push(pv));
                assert(seg_step(views_of(old_parts), pv) == views_of(parts@));
            }
        }
        proof {
            assert(apply_segments(views_of(old_parts), views_of(old_tsegs))
                == apply_segments(views_of(parts@), views_of(tsegs@)));
        }
    }
    proof {
        assert(views_of(tsegs@).len() == 0);
    }
    join_segments(&parts)
}

// ---------------------------------------------------------------------------
// The tree: abstract model.
// ---------------------------------------------------------------------------

/// The mathematical model of a tree entry: a file owning its byte content, or
/// a directory owning its children in listing order.
pub enum FsNode {
    File { name: Seq<u8>, data: Seq<u8> },
    Dir { name: Seq<u8>, children: Seq<FsNode> },
}

/// The name of a model entry.
pub open spec fn fs_name(t: FsNode) -> Seq<u8> {
    match t {
        FsNode::File { name, .. } => name,
        FsNode::Dir { name, .. } => name,
    }
}

/// The index of the first child with the given name, or the length if none.
pub open spec fn idx_of(cs: Seq<FsNode>, name: Seq<u8>) -> int
    decreases cs.len(),
{
    if cs.len() == 0 {
        0
    } else if fs_name(cs[0]) == name {
        0
    } else {
        1 + idx_of(cs.drop_first(), name)
    }
}

/// Whether some child bears the given name.
pub open spec fn has_name(cs: Seq<FsNode>, name: Seq<u8>) -> bool {
    idx_of(cs, name) < cs.len()
}

/// The children's names, in listing order.
pub open spec fn names_of(cs: Seq<FsNode>) -> Seq<Seq<u8>> {
    Seq::new(cs.len(), |i: int| fs_name(cs[i]))
}

/// Sibling names are unique, here and in every subdirectory.
pub open spec fn fs_wf(t: FsNode) -> bool
    decreases t,
{
    match t {
        FsNode::File { .. } => true,
        FsNode::Dir { children, .. } => {
            (forall|i: int, j: int|
                0 <= i < j < children.len() ==> fs_name(children[i]) != fs_name(children[j]))
                && (forall|i: int| 0 <= i < children.len() ==> fs_wf(#[trigger] children[i]))
        },
    }
}

/// Walk from a node along named children; fails at the first missing segment,
/// or at a file met while segments remain.
pub open spec fn fs_lookup(t: FsNode, parts: Seq<Seq<u8>>) -> Option<FsNode>
    decreases parts.len(),
{
    if parts.len() == 0 {
        Some(t)
    } else {
        match t {
            FsNode::File { .. } => None,
            FsNode::Dir { children, .. } => {
                if has_name(children, parts[0]) {
                    fs_lookup(children[idx_of(children, parts[0])], parts.drop_first())
                } else {
                    None
                }
            },
        }
    }
}

/// Append a new child under the directory at `dirs`; fails if the walk fails,
/// the node there is a file, or a sibling already bears the child's name.
pub open spec fn fs_insert(t: FsNode, dirs: Seq<Seq<u8>>, child: FsNode) -> Option<FsNode>
    decreases dirs.len(),
{
    match t {
        FsNode::File { .. } => None,
        FsNode::Dir { name, children } => {
            if dirs.len() == 0 {
                if has_name(children, fs_name(child)) {
                    None
                } else {
                    Some(FsNode::Dir { name, children: children.push(child) })
                }
            } else if has_name(children, dirs[0]) {
                let i = idx_of(children, dirs[0]);
                match fs_insert(children[i], dirs.drop_first(), child) {
                    Some(c2) => Some(FsNode::Dir { name, children: children.update(i, c2) }),
                    None => None,
                }
            } else {
                None
            }
        },
    }
}

/// Replace the whole content of the file at `parts`; fails if the walk fails
/// or the node there is not a file.
pub open spec fn fs_update(t: FsNode, parts: Seq<Seq<u8>>, data: Seq<u8>) -> Option<FsNode>
    decreases parts.len(),
{
    if parts.len() == 0 {
        match t {
            FsNode::File { name, .. } => Some(FsNode::File { name, data }),
            FsNode::Dir { .. } => None,
        }
    } else {
        match t {
            FsNode::File { .. } => None,
            FsNode::Dir { name, children } => {
                if has_name(children, parts[0]) {
                    let i = idx_of(children, parts[0]);
                    match fs_update(children[i], parts.drop_first(), data) {
                        Some(c2) => Some(FsNode::Dir { name, children: children.update(i, c2) }),
                        None => None,
                    }
                } else {
                    None
                }
            },
        }
    }
}

/// Rename the child `old_name` of the directory at `dirs` to `new_name`;
/// fails if the walk fails, a sibling already bears `new_name`, the child is
/// missing, or its kind does not match `want_file`.
pub open spec fn fs_rename(
    t: FsNode,
    dirs: Seq<Seq<u8>>,
    old_name: Seq<u8>,
    new_name: Seq<u8>,
    want_file: bool,
) -> Option<FsNode>
    decreases dirs.len(),
{
    match t {
        FsNode::File { .. } => None,
        FsNode::Dir { name, children } => {
            if dirs.len() == 0 {
                if has_name(children, new_name) {
                    None
                } else if has_name(children, old_name) {
                    let i = idx_of(children, old_name);
                    match children[i] {
                        FsNode::File { data, .. } => {
                            if want_file {
                                Some(
                                    FsNode::Dir {
                                        name,
                                        children: children.update(
                                            i,
                                            FsNode::File { name: new_name, data },
                                        ),
                                    },
                                )
                            } else {
                                None
                            }
                        },
                        FsNode::Dir { children: sub, .. } => {
                            if !want_file {
                                Some(
                                    FsNode::Dir {
                                        name,
                                        children: children.update(
                                            i,
                                            FsNode::Dir { name: new_name, children: sub },
                                        ),
                                    },
                                )
                            } else {
                                None
                            }
                        },
                    }
                } else {
                    None
                }
            } else if has_name(children, dirs[0]) {
                let i = idx_of(children, dirs[0]);
                match fs_rename(children[i], dirs.drop_first(), old_name, new_name, want_file) {
                    Some(c2) => Some(FsNode::Dir { name, children: children.update(i, c2) }),
                    None => None,
                }
            } else {
                None
            }
        },
    }
}

/// Remove the child `name` of the directory at `dirs`; fails if the walk
/// fails, the node there is a file, or no child bears the name.
pub open spec fn fs_delete(t: FsNode, dirs: Seq<Seq<u8>>, name: Seq<u8>) -> Option<FsNode>
    decreases dirs.len(),
{
    match t {
        FsNode::File { .. } => None,
        FsNode::Dir { name: dname, children } => {
            if dirs.len() == 0 {
                if has_name(children, name) {
                    Some(
                        FsNode::Dir {
                            name: dname,
                            children: children.remove(idx_of(children, name)),
                        },
                    )
                } else {
                    None
                }
            } else if has_name(children, dirs[0]) {
                let i = idx_of(children, dirs[0]);
                match fs_delete(children[i], dirs.drop_first(), name) {
                    Some(c2) => Some(FsNode::Dir { name: dname, children: children.update(i, c2) }),
                    None => None,
                }
            } else {
                None
            }
        },
    }
}

// ---------------------------------------------------------------------------
// The tree: executable nodes and their view.
// ---------------------------------------------------------------------------

/// The kind of a tree entry: a file owning bytes, or a directory owning an
/// ordered list of child nodes (insertion order is listing order).
pub enum NodeType {
    File { data: Vec<u8> },
    Dir { children: Vec<Node> },
}

/// A tree entry with a name and a kind.
pub struct Node {
    pub name: Vec<u8>,
    pub node_type: NodeType,
}

/// The model of a node.
pub open spec fn node_view(n: Node) -> FsNode
    decreases n,
{
    match n.node_type {
        NodeType::File { data } => FsNode::File { name: n.name@, data: data@ },
        NodeType::Dir { children } => FsNode::Dir {
            name: n.name@,
            children: children_view(children@),
        },
    }
}

/// The models of a child list, in order.
pub open spec fn children_view(cs: Seq<Node>) -> Seq<FsNode>
    decreases cs,
{
    if cs.len() == 0 {
        Seq::empty()
    } else {
        children_view(cs.drop_last()).push(node_view(cs.last()))
    }
}

impl View for Node {
    type V = FsNode;

    open spec fn view(&self) -> FsNode {
        node_view(*self)
    }
}

/// A child list's view is pointwise the children's views.
pub proof fn lemma_children_view(cs: Seq<Node>)
    ensures
        children_view(cs).len() == cs.len(),
        forall|i: int| 0 <= i < cs.len() ==> children_view(cs)[i] == node_view(#[trigger] cs[i]),
    decreases cs,
{
    if cs.len() > 0 {
        let d = cs.drop_last();
        lemma_children_view(d);
        assert(forall|k: int| 0 <= k < d.len() ==> d[k] == cs[k]);
        assert forall|i: int| 0 <= i < cs.len() implies children_view(cs)[i] == node_view(
            #[trigger] cs[i],
        ) by {
            if i < cs.len() - 1 {
                assert(children_view(cs)[i] == children_view(d)[i]);
                assert(children_view(d)[i] == node_view(d[i]));
            } else {
                assert(cs[i] == cs.last());
            }
        }
    }
}

proof fn lemma_children_view_push(cs: Seq<Node>, c: Node)
    ensures
        children_view(cs.push(c)) == children_view(cs).push(node_view(c)),
{
    assert(cs.push(c).drop_last() =~= cs);
    assert(cs.push(c).last() == c);
}

proof fn lemma_children_view_update(cs: Seq<Node>, j: int, c: Node)
    requires
        0 <= j < cs.len(),
    ensures
        children_view(cs.update(j, c)) == children_view(cs).update(j, node_view(c)),
{
    lemma_children_view(cs);
    lemma_children_view(cs.update(j, c));
    assert forall|k: int| 0 <= k < cs.len() implies children_view(cs.update(j, c))[k]
        == children_view(cs).update(j, node_view(c))[k] by {
        assert(children_view(cs.update(j, c))[k] == node_view(cs.update(j, c)[k]));
        assert(children_view(cs)[k] == node_view(cs[k]));
    }
    assert(children_view(cs.update(j, c)) =~= children_view(cs).update(j, node_view(c)));
}

proof fn lemma_children_view_remove(cs: Seq<Node>, j: int)
    requires
        0 <= j < cs.len(),
    ensures
        children_view(cs.remove(j)) == children_view(cs).remove(j),
{
    lemma_children_view(cs);
    lemma_children_view(cs.remove(j));
    assert forall|k: int| 0 <= k < cs.len() - 1 implies children_view(cs.remove(j))[k]
        == children_view(cs).remove(j)[k] by {
        assert(children_view(cs.remove(j))[k] == node_view(cs.remove(j)[k]));
        if k < j {
            assert(cs.remove(j)[k] == cs[k]);
            assert(children_view(cs)[k] == node_view(cs[k]));
        } else {
            assert(cs.remove(j)[k] == cs[k + 1]);
            assert(children_view(cs)[k + 1] == node_view(cs[k + 1]));
        }
    }
    assert(children_view(cs.remove(j)) =~= children_view(cs).remove(j));
}

// ---------------------------------------------------------------------------
// The tree: lemmas about first-match lookup.
// ---------------------------------------------------------------------------

/// `idx_of` is the first match: everything before it misses, and it hits
/// whenever anything does.
pub proof fn lemma_idx_of(cs: Seq<FsNode>, name: Seq<u8>)
    ensures
        0 <= idx_of(cs, name) <= cs.len(),
        idx_of(cs, name) < cs.len() ==> fs_name(cs[idx_of(cs, name)]) == name,
        forall|j: int| 0 <= j < idx_of(cs, name) ==> fs_name(cs[j]) != name,
        idx_of(cs, name) == cs.len() ==> forall|j: int|
            0 <= j < cs.len() ==> fs_name(cs[j]) != name,
    decreases cs.len(),
{
    if cs.len() > 0 && fs_name(cs[0]) != name {
        let d = cs.drop_first();
        lemma_idx_of(d, name);
        assert(forall|j: int| 0 <= j < cs.len() - 1 ==> d[j] == cs[j + 1]);
        assert forall|j: int| 0 <= j < idx_of(cs, name) implies fs_name(cs[j]) != name by {
            if j > 0 {
                assert(fs_name(d[j - 1]) != name);
            }
        }
        if idx_of(cs, name) == cs.len() {
            assert forall|j: int| 0 <= j < cs.len() implies fs_name(cs[j]) != name by {
                if j > 0 {
                    assert(fs_name(d[j - 1]) != name);
                }
            }
        }
    }
}

/// If everything before `i` misses and `i` hits, the first match is `i`.
proof fn lemma_idx_of_is(cs: Seq<FsNode>, name: Seq<u8>, i: int)
    requires
        0 <= i < cs.len(),
        fs_name(cs[i]) == name,
        forall|j: int| 0 <= j < i ==> fs_name(cs[j]) != name,
    ensures
        idx_of(cs, name) == i,
    decreases i,
{
    if i > 0 {
        let d = cs.drop_first();
        assert(forall|j: int| 0 <= j < cs.len() - 1 ==> d[j] == cs[j + 1]);
        lemma_idx_of_is(d, name, i - 1);
    }
}

/// If nothing matches, the first match is the length.
proof fn lemma_idx_of_none(cs: Seq<FsNode>, name: Seq<u8>)
    requires
        forall|j: int| 0 <= j < cs.len() ==> fs_name(cs[j]) != name,
    ensures
        idx_of(cs, name) == cs.len(),
        !has_name(cs, name),
    decreases cs.len(),
{
    if cs.len() > 0 {
        let d = cs.drop_first();
        assert(forall|j: int| 0 <= j < cs.len() - 1 ==> d[j] == cs[j + 1]);
        lemma_idx_of_none(d, name);
    }
}

// ---------------------------------------------------------------------------
// The tree: laws.
// ---------------------------------------------------------------------------

/// A successful insert appends one child under the parent and keeps sibling
/// names unique everywhere, provided they were and the child is itself
/// well-formed.
pub proof fn lemma_insert_wf(t: FsNode, dirs: Seq<Seq<u8>>, child: FsNode)
    requires
        fs_wf(t),
        fs_wf(child),
        fs_insert(t, dirs, child) is Some,
    ensures
        fs_wf(fs_insert(t, dirs, child).unwrap()),
    decreases dirs.len(),
{
    match t {
        FsNode::File { .. } => {},
        FsNode::Dir { name, children } => {
            if dirs.len() == 0 {
                lemma_idx_of(children, fs_name(child));
                let cs2 = children.push(child);
                assert forall|a: int, b: int| 0 <= a < b < cs2.len() implies fs_name(cs2[a])
                    != fs_name(cs2[b]) by {
                    if b < children.len() {
                        assert(fs_name(children[a]) != fs_name(children[b]));
                    } else {
                        assert(fs_name(children[a]) != fs_name(child));
                    }
                }
                assert forall|a: int| 0 <= a < cs2.len() implies fs_wf(#[trigger] cs2[a]) by {
                    if a < children.len() {
                        assert(fs_wf(children[a]));
                    }
                }
            } else {
                let i = idx_of(children, dirs[0]);
                lemma_idx_of(children, dirs[0]);
                lemma_insert_wf(children[i], dirs.drop_first(), child);
                let c2 = fs_insert(children[i], dirs.drop_first(), child).unwrap();
                assert(fs_name(c2) == fs_name(children[i]));
                let cs2 = children.update(i, c2);
                assert forall|a: int, b: int| 0 <= a < b < cs2.len() implies fs_name(cs2[a])
                    != fs_name(cs2[b]) by {
                    assert(fs_name(children[a]) != fs_name(children[b]));
                }
                assert forall|a: int| 0 <= a < cs2.len() implies fs_wf(#[trigger] cs2[a]) by {
                    assert(fs_wf(children[a]));
                }
            }
        },
    }
}

/// A successful content update changes no name and keeps sibling names
/// unique everywhere.
pub proof fn lemma_update_wf(t: FsNode, parts: Seq<Seq<u8>>, data: Seq<u8>)
    requires
        fs_wf(t),
        fs_update(t, parts, data) is Some,
    ensures
        fs_wf(fs_update(t, parts, data).unwrap()),
    decreases parts.len(),
{
    if parts.len() == 0 {
    } else {
        match t {
            FsNode::File { .. } => {},
            FsNode::Dir { name, children } => {
                let i = idx_of(children, parts[0]);
                lemma_idx_of(children, parts[0]);
                lemma_update_wf(children[i], parts.drop_first(), data);
                let c2 = fs_update(children[i], parts.drop_first(), data).unwrap();
                assert(fs_name(c2) == fs_name(children[i]));
                let cs2 = children.update(i, c2);
                assert forall|a: int, b: int| 0 <= a < b < cs2.len() implies fs_name(cs2[a])
                    != fs_name(cs2[b]) by {
                    assert(fs_name(children[a]) != fs_name(children[b]));
                }
                assert forall|a: int| 0 <= a < cs2.len() implies fs_wf(#[trigger] cs2[a]) by {
                    assert(fs_wf(children[a]));
                }
            },
        }
    }
}

/// A successful rename gives the child a name no sibling bears, so sibling
/// names stay unique everywhere.
pub proof fn lemma_rename_wf(
    t: FsNode,
    dirs: Seq<Seq<u8>>,
    old_name: Seq<u8>,
    new_name: Seq<u8>,
    want_file: bool,
)
    requires
        fs_wf(t),
        fs_rename(t, dirs, old_name, new_name, want_file) is Some,
    ensures
        fs_wf(fs_rename(t, dirs, old_name, new_name, want_file).unwrap()),
    decreases dirs.len(),
{
    match t {
        FsNode::File { .. } => {},
        FsNode::Dir { name, children } => {
            if dirs.len() == 0 {
                lemma_idx_of(children, new_name);
                let i = idx_of(children, old_name);
                lemma_idx_of(children, old_name);
                let t2 = fs_rename(t, dirs, old_name, new_name, want_file).unwrap();
                let cs2 = match t2 {
                    FsNode::Dir { children: cs2, .. } => cs2,
                    FsNode::File { .. } => Seq::empty(),
                };
                assert(cs2.len() == children.len());
                assert(forall|a: int|
                    0 <= a < children.len() && a != i ==> cs2[a] == children[a]);
                assert(fs_name(cs2[i]) == new_name);
                assert(fs_wf(children[i]));
                match children[i] {
                    FsNode::File { .. } => {},
                    FsNode::Dir { children: sub, .. } => {
                        assert(fs_wf(FsNode::Dir { name: new_name, children: sub }));
                    },
                }
                assert(fs_wf(cs2[i]));
                assert forall|a: int, b: int| 0 <= a < b < cs2.len() implies fs_name(cs2[a])
                    != fs_name(cs2[b]) by {
                    if a != i && b != i {
                        assert(fs_name(children[a]) != fs_name(children[b]));
                    } else if a == i {
                        assert(fs_name(children[b]) != new_name);
                    } else {
                        assert(fs_name(children[a]) != new_name);
                    }
                }
                assert forall|a: int| 0 <= a < cs2.len() implies fs_wf(#[trigger] cs2[a]) by {
                    if a != i {
                        assert(fs_wf(children[a]));
                    }
                }
            } else {
                let i = idx_of(children, dirs[0]);
                lemma_idx_of(children, dirs[0]);
                lemma_rename_wf(children[i], dirs.drop_first(), old_name, new_name, want_file);
                let c2 = fs_rename(
                    children[i],
                    dirs.drop_first(),
                    old_name,
                    new_name,
                    want_file,
                ).unwrap();
                assert(fs_name(c2) == fs_name(children[i]));
                let cs2 = children.update(i, c2);
                assert forall|a: int, b: int| 0 <= a < b < cs2.len() implies fs_name(cs2[a])
                    != fs_name(cs2[b]) by {
                    assert(fs_name(children[a]) != fs_name(children[b]));
                }
                assert forall|a: int| 0 <= a < cs2.len() implies fs_wf(#[trigger] cs2[a]) by {
                    assert(fs_wf(children[a]));
                }
            }
        },
    }
}

/// Removing a child keeps sibling names unique everywhere.
pub proof fn lemma_delete_wf(t: FsNode, dirs: Seq<Seq<u8>>, name: Seq<u8>)
    requires
        fs_wf(t),
        fs_delete(t, dirs, name) is Some,
    ensures
        fs_wf(fs_delete(t, dirs, name).unwrap()),
    decreases dirs.len(),
{
    match t {
        FsNode::File { .. } => {},
        FsNode::Dir { name: dname, children } => {
            if dirs.len() == 0 {
                let i = idx_of(children, name);
                lemma_idx_of(children, name);
                let cs2 = children.remove(i);
                assert forall|a: int, b: int| 0 <= a < b < cs2.len() implies fs_name(cs2[a])
                    != fs_name(cs2[b]) by {
                    let a0: int = if a < i {
                        a
                    } else {
                        a + 1
                    };
                    let b0: int = if b < i {
                        b
                    } else {
                        b + 1
                    };
                    assert(cs2[a] == children[a0]);
                    assert(cs2[b] == children[b0]);
                    assert(fs_name(children[a0]) != fs_name(children[b0]));
                }
                assert forall|a: int| 0 <= a < cs2.len() implies fs_wf(#[trigger] cs2[a]) by {
                    if a < i {
                        assert(fs_wf(children[a]));
                    } else {
                        assert(fs_wf(children[a + 1]));
                    }
                }
            } else {
                let i = idx_of(children, dirs[0]);
                lemma_idx_of(children, dirs[0]);
                lemma_delete_wf(children[i], dirs.drop_first(), name);
                let c2 = fs_delete(children[i], dirs.drop_first(), name).unwrap();
                assert(fs_name(c2) == fs_name(children[i]));
                let cs2 = children.update(i, c2);
                assert forall|a: int, b: int| 0 <= a < b < cs2.len() implies fs_name(cs2[a])
                    != fs_name(cs2[b]) by {
                    assert(fs_name(children[a]) != fs_name(children[b]));
                }
                assert forall|a: int| 0 <= a < cs2.len() implies fs_wf(#[trigger] cs2[a]) by {
                    assert(fs_wf(children[a]));
                }
            }
        },
    }
}

/// After a create succeeds under a parent, a second create there with the
/// same name always fails, whatever kind or content the second child has:
/// sibling names are unique, and the executable operations leave the tree
/// unchanged whenever the model transition fails.
pub proof fn lemma_create_collision(t: FsNode, dirs: Seq<Seq<u8>>, c1: FsNode, c2: FsNode)
    requires
        fs_insert(t, dirs, c1) is Some,
        fs_name(c2) == fs_name(c1),
    ensures
        fs_insert(fs_insert(t, dirs, c1).unwrap(), dirs, c2) is None,
    decreases dirs.len(),
{
    match t {
        FsNode::File { .. } => {},
        FsNode::Dir { name, children } => {
            if dirs.len() == 0 {
                let cs2 = children.push(c1);
                lemma_idx_of(cs2, fs_name(c1));
                if idx_of(cs2, fs_name(c1)) == cs2.len() {
                    assert(fs_name(cs2[children.len() as int]) == fs_name(c1));
                }
                assert(has_name(cs2, fs_name(c2)));
            } else {
                let i = idx_of(children, dirs[0]);
                lemma_idx_of(children, dirs[0]);
                let c1r = fs_insert(children[i], dirs.drop_first(), c1).unwrap();
                assert(fs_name(c1r) == fs_name(children[i]));
                let cs2 = children.update(i, c1r);
                assert forall|j: int| 0 <= j < i implies fs_name(cs2[j]) != dirs[0] by {
                    assert(fs_name(children[j]) != dirs[0]);
                }
                lemma_idx_of_is(cs2, dirs[0], i);
                lemma_create_collision(children[i], dirs.drop_first(), c1, c2);
            }
        },
    }
}

/// Looking a just-created child up under its parent finds exactly the child
/// that was inserted, content and all.
pub proof fn lemma_lookup_after_insert(t: FsNode, dirs: Seq<Seq<u8>>, child: FsNode)
    requires
        fs_insert(t, dirs, child) is Some,
    ensures
        fs_lookup(fs_insert(t, dirs, child).unwrap(), dirs.push(fs_name(child))) == Some(child),
    decreases dirs.len(),
{
    let p = dirs.push(fs_name(child));
    match t {
        FsNode::File { .. } => {},
        FsNode::Dir { name, children } => {
            if dirs.len() == 0 {
                let cs2 = children.push(child);
                lemma_idx_of(children, fs_name(child));
                assert(forall|j: int|
                    0 <= j < children.len() ==> fs_name(children[j]) != fs_name(child));
                assert forall|j: int| 0 <= j < children.len() implies fs_name(cs2[j])
                    != fs_name(child) by {
                    assert(fs_name(children[j]) != fs_name(child));
                }
                lemma_idx_of_is(cs2, fs_name(child), children.len() as int);
                assert(p[0] == fs_name(child));
                assert(p.drop_first() =~= Seq::<Seq<u8>>::empty());
                assert(cs2[children.len() as int] == child);
                let t2 = fs_insert(t, dirs, child).unwrap();
                assert(fs_lookup(t2, p) == fs_lookup(child, p.drop_first()));
                assert(fs_lookup(child, p.drop_first()) == Some(child));
            } else {
                let i = idx_of(children, dirs[0]);
                lemma_idx_of(children, dirs[0]);
                let c2 = fs_insert(children[i], dirs.drop_first(), child).unwrap();
                assert(fs_name(c2) == fs_name(children[i]));
                let cs2 = children.update(i, c2);
                assert forall|j: int| 0 <= j < i implies fs_name(cs2[j]) != dirs[0] by {
                    assert(fs_name(children[j]) != dirs[0]);
                }
                lemma_idx_of_is(cs2, dirs[0], i);
                lemma_lookup_after_insert(children[i], dirs.drop_first(), child);
                assert(p[0] == dirs[0]);
                assert(p.drop_first() =~= dirs.drop_first().push(fs_name(child)));
                let t2 = fs_insert(t, dirs, child).unwrap();
                assert(fs_lookup(t2, p) == fs_lookup(cs2[i], p.drop_first()));
                assert(fs_lookup(c2, dirs.drop_first().push(fs_name(child))) == Some(child));
            }
        },
    }
}

/// Reading a just-updated file returns exactly the new content, never the
/// old one.
pub proof fn lemma_lookup_after_update(t: FsNode, parts: Seq<Seq<u8>>, data: Seq<u8>)
    requires
        fs_update(t, parts, data) is Some,
    ensures
        ({
            let t2 = fs_update(t, parts, data).unwrap();
            match fs_lookup(t2, parts) {
                Some(FsNode::File { data: d, .. }) => d == data,
                _ => false,
            }
        }),
    decreases parts.len(),
{
    if parts.len() == 0 {
    } else {
        match t {
            FsNode::File { .. } => {},
            FsNode::Dir { name, children } => {
                let i = idx_of(children, parts[0]);
                lemma_idx_of(children, parts[0]);
                let c2 = fs_update(children[i], parts.drop_first(), data).unwrap();
                assert(fs_name(c2) == fs_name(children[i]));
                let cs2 = children.update(i, c2);
                assert forall|j: int| 0 <= j < i implies fs_name(cs2[j]) != parts[0] by {
                    assert(fs_name(children[j]) != parts[0]);
                }
                lemma_idx_of_is(cs2, parts[0], i);
                lemma_lookup_after_update(children[i], parts.drop_first(), data);
            },
        }
    }
}

/// Deleting a child and immediately creating one with the same name under
/// the same parent succeeds: no residual collision remains.
pub proof fn lemma_create_after_delete(t: FsNode, dirs: Seq<Seq<u8>>, child: FsNode)
    requires
        fs_wf(t),
        fs_delete(t, dirs, fs_name(child)) is Some,
    ensures
        fs_insert(fs_delete(t, dirs, fs_name(child)).unwrap(), dirs, child) is Some,
    decreases dirs.len(),
{
    let name = fs_name(child);
    match t {
        FsNode::File { .. } => {},
        FsNode::Dir { name: dname, children } => {
            if dirs.len() == 0 {
                let i = idx_of(children, name);
                lemma_idx_of(children, name);
                let cs2 = children.remove(i);
                assert forall|k: int| 0 <= k < cs2.len() implies fs_name(cs2[k]) != name by {
                    if k < i {
                        assert(cs2[k] == children[k]);
                        assert(fs_name(children[k]) != name);
                    } else {
                        assert(cs2[k] == children[k + 1]);
                        assert(fs_name(children[i]) != fs_name(children[k + 1]));
                    }
                }
                lemma_idx_of_none(cs2, name);
            } else {
                let i = idx_of(children, dirs[0]);
                lemma_idx_of(children, dirs[0]);
                let c2 = fs_delete(children[i], dirs.drop_first(), name).unwrap();
                assert(fs_name(c2) == fs_name(children[i]));
                let cs2 = children.update(i, c2);
                assert forall|j: int| 0 <= j < i implies fs_name(cs2[j]) != dirs[0] by {
                    assert(fs_name(children[j]) != dirs[0]);
                }
                lemma_idx_of_is(cs2, dirs[0], i);
                lemma_create_after_delete(children[i], dirs.drop_first(), child);
            }
        },
    }
}

// ---------------------------------------------------------------------------
// The tree: executable constructors and lookup.
// ---------------------------------------------------------------------------

impl Node {
    /// A fresh, empty directory.
    pub fn new_dir(name: &[u8]) -> (n: Node)
        ensures
            n@ == (FsNode::Dir { name: name@, children: Seq::<FsNode>::empty() }),
    {
        let n = Node { name: bytes_to_vec(name), node_type: NodeType::Dir { children: Vec::new() } };
        n
    }

    /// A fresh file seeded with its content.
    pub fn new_file(name: &[u8], data: Vec<u8>) -> (n: Node)
        ensures
            n@ == (FsNode::File { name: name@, data: data@ }),
    {
        Node { name: bytes_to_vec(name), node_type: NodeType::File { data } }
    }
}

/// The index of the first child bearing `name`, if any.
fn find_child_idx(children: &Vec<Node>, name: &[u8]) -> (r: Option<usize>)
    ensures
        ({
            let cs = children_view(children@);
            match r {
                Some(i) => i < cs.len() && i == idx_of(cs, name@),
                None => !has_name(cs, name@),
            }
        }),
{
    proof {
        lemma_children_view(children@);
    }
    let mut i: usize = 0;
    while i < children.len()
        invariant
            i <= children@.len(),
            children_view(children@).len() == children@.len(),
            forall|k: int| 0 <= k < children@.len()
                ==> children_view(children@)[k] == node_view(#[trigger] children@[k]),
            forall|k: int| 0 <= k < i ==> fs_name(children_view(children@)[k]) != name@,
        decreases children@.len() - i,
    {
        if bytes_eq(children[i].name.as_slice(), name) {
            proof {
                lemma_idx_of_is(children_view(children@), name@, i as int);
            }
            return Some(i);
        }
        i += 1;
    }
    proof {
        lemma_idx_of_none(children_view(children@), name@);
    }
    None
}

/// Walk from `node` along `parts[i..]`, returning the node reached.
fn find_node<'a>(node: &'a Node, parts: &[Vec<u8>], i: usize) -> (r: Option<&'a Node>)
    requires
        i <= parts@.len(),
    ensures
        ({
            let res = fs_lookup(node@, views_of(parts@).skip(i as int));
            match r {
                Some(m) => res == Some(m@),
                None => res is None,
            }
        }),
    decreases parts@.len() - i,
{
    let ghost rest = views_of(parts@).skip(i as int);
    if i == parts.len() {
        proof {
            assert(rest.len() == 0);
        }
        return Some(node);
    }
    proof {
        assert(rest[0] == parts@[i as int]@);
        assert(rest.drop_first() =~= views_of(parts@).skip(i + 1));
    }
    match &node.node_type {
        NodeType::File { .. } => None,
        NodeType::Dir { children } => {
            proof {
                lemma_children_view(children@);
            }
            match find_child_idx(children, parts[i].as_slice()) {
                None => None,
                Some(j) => find_node(&children[j], parts, i + 1),
            }
        },
    }
}

/// Descend along `parts[i..]` and append `child` under the directory
/// reached; `false` (and no change) if the walk fails, a file is reached, or
/// a sibling already bears the child's name.
fn insert_node(node: &mut Node, parts: &[Vec<u8>], i: usize, child: Node) -> (r: bool)
    requires
        i <= parts@.len(),
    ensures
        ({
            let res = fs_insert(old(node)@, views_of(parts@).skip(i as int), child@);
            match res {
                Some(t) => r && final(node)@ == t,
                None => !r && final(node)@ == old(node)@,
            }
        }),
    decreases parts@.len() - i,
{
    let ghost rest = views_of(parts@).skip(i as int);
    let ghost childv = child@;
    proof {
        assert(fs_name(childv) == child.name@);
    }
    match &mut node.node_type {
        NodeType::File { .. } => false,
        NodeType::Dir { children } => {
            let ghost cs0 = children@;
            proof {
                lemma_children_view(cs0);
            }
            if i == parts.len() {
                proof {
                    assert(rest.len() == 0);
                }
                match find_child_idx(children, child.name.as_slice()) {
                    Some(_) => false,
                    None => {
                        proof {
                            lemma_children_view_push(cs0, child);
                        }
                        children.push(child);
                        true
                    },
                }
            } else {
                proof {
                    assert(rest[0] == parts@[i as int]@);
                    assert(rest.drop_first() =~= views_of(parts@).skip(i + 1));
                }
                match find_child_idx(children, parts[i].as_slice()) {
                    None => false,
                    Some(j) => {
                        let mut c = children.remove(j);
                        let r = insert_node(&mut c, parts, i + 1, child);
                        proof {
                            lemma_children_view_update(cs0, j as int, c);
                        }
                        children.insert(j, c);
                        proof {
                            assert(children@ =~= cs0.update(j as int, children@[j as int]));
                            if !r {
                                assert(children_view(cs0).update(j as int, node_view(cs0[j as int]))
                                    =~= children_view(cs0));
                            }
                        }
                        r
                    },
                }
            }
        },
    }
}

/// Descend along `parts[i..]` and replace the content of the file reached;
/// `false` (and no change) if the walk fails or a directory is reached.
fn update_node(node: &mut Node, parts: &[Vec<u8>], i: usize, data: Vec<u8>) -> (r: bool)
    requires
        i <= parts@.len(),
    ensures
        ({
            let res = fs_update(old(node)@, views_of(parts@).skip(i as int), data@);
            match res {
                Some(t) => r && final(node)@ == t,
                None => !r && final(node)@ == old(node)@,
            }
        }),
    decreases parts@.len() - i,
{
    let ghost rest = views_of(parts@).skip(i as int);
    if i == parts.len() {
        proof {
            assert(rest.len() == 0);
        }
        match &mut node.node_type {
            NodeType::File { data: file_data } => {
                *file_data = data;
                true
            },
            NodeType::Dir { .. } => false,
        }
    } else {
        proof {
            assert(rest[0] == parts@[i as int]@);
            assert(rest.drop_first() =~= views_of(parts@).skip(i + 1));
        }
        match &mut node.node_type {
            NodeType::File { .. } => false,
            NodeType::Dir { children } => {
                let ghost cs0 = children@;
                proof {
                    lemma_children_view(cs0);
                }
                match find_child_idx(children, parts[i].as_slice()) {
                    None => false,
                    Some(j) => {
                        let mut c = children.remove(j);
                        let r = update_node(&mut c, parts, i + 1, data);
                        proof {
                            lemma_children_view_update(cs0, j as int, c);
                        }
                        children.insert(j, c);
                        proof {
                            assert(children@ =~= cs0.update(j as int, children@[j as int]));
                            if !r {
                                assert(children_view(cs0).update(j as int, node_view(cs0[j as int]))
                                    =~= children_view(cs0));
                            }
                        }
                        r
                    },
                }
            },
        }
    }
}

/// Descend along `dirs[i..]` and rename the child `old_name` of the
/// directory reached to `new_name`, provided its kind matches `want_file`;
/// `false` (and no change) on any failure.
fn rename_node(
    node: &mut Node,
    dirs: &[Vec<u8>],
    i: usize,
    old_name: &[u8],
    new_name: &[u8],
    want_file: bool,
) -> (r: bool)
    requires
        i <= dirs@.len(),
    ensures
        ({
            let res = fs_rename(
                old(node)@,
                views_of(dirs@).skip(i as int),
                old_name@,
                new_name@,
                want_file,
            );
            match res {
                Some(t) => r && final(node)@ == t,
                None => !r && final(node)@ == old(node)@,
            }
        }),
    decreases dirs@.len() - i,
{
    let ghost rest = views_of(dirs@).skip(i as int);
    match &mut node.node_type {
        NodeType::File { .. } => false,
        NodeType::Dir { children } => {
            let ghost cs0 = children@;
            proof {
                lemma_children_view(cs0);
            }
            if i == dirs.len() {
                proof {
                    assert(rest.len() == 0);
                }
                match find_child_idx(children, new_name) {
                    Some(_) => false,
                    None => match find_child_idx(children, old_name) {
                        None => false,
                        Some(j) => {
                            let mut c = children.remove(j);
                            let kind_matches = match &c.node_type {
                                NodeType::File { .. } => want_file,
                                NodeType::Dir { .. } => !want_file,
                            };
                            if kind_matches {
                                c.name = bytes_to_vec(new_name);
                            }
                            proof {
                                lemma_children_view_update(cs0, j as int, c);
                            }
                            children.insert(j, c);
                            proof {
                                assert(children@ =~= cs0.update(j as int, children@[j as int]));
                                if !kind_matches {
                                    assert(children_view(cs0).update(
                                        j as int,
                                        node_view(cs0[j as int]),
                                    ) =~= children_view(cs0));
                                }
                            }
                            kind_matches
                        },
                    },
                }
            } else {
                proof {
                    assert(rest[0] == dirs@[i as int]@);
                    assert(rest.drop_first() =~= views_of(dirs@).skip(i + 1));
                }
                match find_child_idx(children, dirs[i].as_slice()) {
                    None => false,
                    Some(j) => {
                        let mut c = children.remove(j);
                        let r = rename_node(&mut c, dirs, i + 1, old_name, new_name, want_file);
                        proof {
                            lemma_children_view_update(cs0, j as int, c);
                        }
                        children.insert(j, c);
                        proof {
                            assert(children@ =~= cs0.update(j as int, children@[j as int]));
                            if !r {
                                assert(children_view(cs0).update(j as int, node_view(cs0[j as int]))
                                    =~= children_view(cs0));
                            }
                        }
                        r
                    },
                }
            }
        },
    }
}

/// Descend along `dirs[i..]` and remove the child `name` of the directory
/// reached; `false` (and no change) if the walk fails or no child bears the
/// name.
fn delete_node(node: &mut Node, dirs: &[Vec<u8>], i: usize, name: &[u8]) -> (r: bool)
    requires
        i <= dirs@.len(),
    ensures
        ({
            let res = fs_delete(old(node)@, views_of(dirs@).skip(i as int), name@);
            match res {
                Some(t) => r && final(node)@ == t,
                None => !r && final(node)@ == old(node)@,
            }
        }),
    decreases dirs@.len() - i,
{
    let ghost rest = views_of(dirs@).skip(i as int);
    match &mut node.node_type {
        NodeType::File { .. } => false,
        NodeType::Dir { children } => {
            let ghost cs0 = children@;
            proof {
                lemma_children_view(cs0);
            }
            if i == dirs.len() {
                proof {
                    assert(rest.len() == 0);
                }
                match find_child_idx(children, name) {
                    None => false,
                    Some(j) => {
                        proof {
                            lemma_children_view_remove(cs0, j as int);
                        }
                        children.remove(j);
                        true
                    },
                }
            } else {
                proof {
                    assert(rest[0] == dirs@[i as int]@);
                    assert(rest.drop_first() =~= views_of(dirs@).skip(i + 1));
                }
                match find_child_idx(children, dirs[i].as_slice()) {
                    None => false,
                    Some(j) => {
                        let mut c = children.remove(j);
                        let r = delete_node(&mut c, dirs, i + 1, name);
                        proof {
                            lemma_children_view_update(cs0, j as int, c);
                        }
                        children.insert(j, c);
                        proof {
                            assert(children@ =~= cs0.update(j as int, children@[j as int]));
                            if !r {
                                assert(children_view(cs0).update(j as int, node_view(cs0[j as int]))
                                    =~= children_view(cs0));
                            }
                        }
                        r
                    },
                }
            }
        },
    }
}

/// Resolve the target and verify that it names an existing directory; the
/// resolved path on success, nothing otherwise (the tree is never changed).
pub fn change_directory(root: &Node, current_directory: &[u8], to_directory: &[u8]) -> (r: Option<
    Vec<u8>,
>)
    ensures
        ({
            let path = resolve_spec(current_directory@, to_directory@);
            match fs_lookup(root@, split_spec(path)) {
                Some(t) => if t is Dir {
                    r matches Some(p) && p@ == path
                } else {
                    r is None
                },
                None => r is None,
            }
        }),
{
    let path = resolve_path(current_directory, to_directory);
    let parts = split_path(path.as_slice());
    proof {
        assert(views_of(parts@).skip(0) =~= views_of(parts@));
    }
    match find_node(root, parts.as_slice(), 0) {
        None => None,
        Some(node) => match &node.node_type {
            NodeType::Dir { .. } => Some(path),
            NodeType::File { .. } => None,
        },
    }
}

/// Resolve the target to (parent path, new name) and create an empty
/// directory there; fails if the target is the root, the parent walk fails,
/// or a sibling already bears the name.
pub fn mkdir(root: &mut Node, current_directory: &[u8], path: &[u8]) -> (r: bool)
    ensures
        ({
            let parts = split_spec(resolve_spec(current_directory@, path@));
            if parts.len() == 0 {
                !r && final(root)@ == old(root)@
            } else {
                let newdir = FsNode::Dir { name: parts.last(), children: Seq::<FsNode>::empty() };
                match fs_insert(old(root)@, parts.drop_last(), newdir) {
                    Some(t) => r && final(root)@ == t,
                    None => !r && final(root)@ == old(root)@,
                }
            }
        }),
        fs_wf(old(root)@) ==> fs_wf(final(root)@),
{
    let ghost t0 = root@;
    let rpath = resolve_path(current_directory, path);
    let mut parts = split_path(rpath.as_slice());
    if parts.len() == 0 {
        return false;
    }
    let ghost all = views_of(parts@);
    let name = parts.pop().unwrap();
    proof {
        assert(views_of(parts@) =~= all.drop_last());
        assert(name@ == all.last());
        assert(views_of(parts@).skip(0) =~= views_of(parts@));
    }
    let child = Node::new_dir(name.as_slice());
    let ghost childv = child@;
    let r = insert_node(root, parts.as_slice(), 0, child);
    proof {
        if fs_wf(t0) && r {
            assert(fs_wf(childv));
            lemma_insert_wf(t0, all.drop_last(), childv);
        }
    }
    r
}

/// Resolve the target to (parent path, new name) and create a file there
/// seeded with `data`; fails if the target is the root, the parent walk
/// fails, or a sibling already bears the name.
pub fn create_file(root: &mut Node, current_directory: &[u8], path: &[u8], data: &[u8]) -> (r:
    bool)
    ensures
        ({
            let parts = split_spec(resolve_spec(current_directory@, path@));
            if parts.len() == 0 {
                !r && final(root)@ == old(root)@
            } else {
                let newfile = FsNode::File { name: parts.last(), data: data@ };
                match fs_insert(old(root)@, parts.drop_last(), newfile) {
                    Some(t) => r && final(root)@ == t,
                    None => !r && final(root)@ == old(root)@,
                }
            }
        }),
        fs_wf(old(root)@) ==> fs_wf(final(root)@),
{
    let ghost t0 = root@;
    let rpath = resolve_path(current_directory, path);
    let mut parts = split_path(rpath.as_slice());
    if parts.len() == 0 {
        return false;
    }
    let ghost all = views_of(parts@);
    let name = parts.pop().unwrap();
    proof {
        assert(views_of(parts@) =~= all.drop_last());
        assert(name@ == all.last());
        assert(views_of(parts@).skip(0) =~= views_of(parts@));
    }
    let child = Node::new_file(name.as_slice(), bytes_to_vec(data));
    let ghost childv = child@;
    let r = insert_node(root, parts.as_slice(), 0, child);
    proof {
        if fs_wf(t0) && r {
            assert(fs_wf(childv));
            lemma_insert_wf(t0, all.drop_last(), childv);
        }
    }
    r
}

/// Resolve the target to an existing file and replace its entire content
/// with `data`; fails if the walk fails or the node is not a file.
pub fn update_file(root: &mut Node, current_directory: &[u8], path: &[u8], data: &[u8]) -> (r:
    bool)
    ensures
        ({
            let parts = split_spec(resolve_spec(current_directory@, path@));
            match fs_update(old(root)@, parts, data@) {
                Some(t) => r && final(root)@ == t,
                None => !r && final(root)@ == old(root)@,
            }
        }),
        fs_wf(old(root)@) ==> fs_wf(final(root)@),
{
    let ghost t0 = root@;
    let rpath = resolve_path(current_directory, path);
    let parts = split_path(rpath.as_slice());
    proof {
        assert(views_of(parts@).skip(0) =~= views_of(parts@));
    }
    let r = update_node(root, parts.as_slice(), 0, bytes_to_vec(data));
    proof {
        if fs_wf(t0) && r {
            lemma_update_wf(t0, views_of(parts@), data@);
        }
    }
    r
}

/// Resolve the target to (parent path, old name) and rename the file there
/// to `new_name`; fails if the target is the root, the parent walk fails, a
/// sibling already bears `new_name`, the child is missing, or it is a
/// directory.
pub fn rename_file(root: &mut Node, current_directory: &[u8], path: &[u8], new_name: &[u8]) -> (r:
    bool)
    ensures
        ({
            let parts = split_spec(resolve_spec(current_directory@, path@));
            if parts.len() == 0 {
                !r && final(root)@ == old(root)@
            } else {
                match fs_rename(old(root)@, parts.drop_last(), parts.last(), new_name@, true) {
                    Some(t) => r && final(root)@ == t,
                    None => !r && final(root)@ == old(root)@,
                }
            }
        }),
        fs_wf(old(root)@) ==> fs_wf(final(root)@),
{
    let ghost t0 = root@;
    let rpath = resolve_path(current_directory, path);
    let mut parts = split_path(rpath.as_slice());
    if parts.len() == 0 {
        return false;
    }
    let ghost all = views_of(parts@);
    let name = parts.pop().unwrap();
    proof {
        assert(views_of(parts@) =~= all.drop_last());
        assert(name@ == all.last());
        assert(views_of(parts@).skip(0) =~= views_of(parts@));
    }
    let r = rename_node(root, parts.as_slice(), 0, name.as_slice(), new_name, true);
    proof {
        if fs_wf(t0) && r {
            lemma_rename_wf(t0, all.drop_last(), all.last(), new_name@, true);
        }
    }
    r
}

/// Resolve the target to (parent path, old name) and rename the directory
/// there to `new_name`; fails if the target is the root, the parent walk
/// fails, a sibling already bears `new_name`, the child is missing, or it is
/// a file.
pub fn rename_folder(root: &mut Node, current_directory: &[u8], path: &[u8], new_name: &[u8]) -> (r:
    bool)
    ensures
        ({
            let parts = split_spec(resolve_spec(current_directory@, path@));
            if parts.len() == 0 {
                !r && final(root)@ == old(root)@
            } else {
                match fs_rename(old(root)@, parts.drop_last(), parts.last(), new_name@, false) {
                    Some(t) => r && final(root)@ == t,
                    None => !r && final(root)@ == old(root)@,
                }
            }
        }),
        fs_wf(old(root)@) ==> fs_wf(final(root)@),
{
    let ghost t0 = root@;
    let rpath = resolve_path(current_directory, path);
    let mut parts = split_path(rpath.as_slice());
    if parts.len() == 0 {
        return false;
    }
    let ghost all = views_of(parts@);
    let name = parts.pop().unwrap();
    proof {
        assert(views_of(parts@) =~= all.drop_last());
        assert(name@ == all.last());
        assert(views_of(parts@).skip(0) =~= views_of(parts@));
    }
    let r = rename_node(root, parts.as_slice(), 0, name.as_slice(), new_name, false);
    proof {
        if fs_wf(t0) && r {
            lemma_rename_wf(t0, all.drop_last(), all.last(), new_name@, false);
        }
    }
    r
}

/// Resolve the target to (parent path, name) and remove that child of the
/// parent; `true` exactly when a removal occurred.
pub fn delete(root: &mut Node, current_directory: &[u8], path: &[u8]) -> (r: bool)
    ensures
        ({
            let parts = split_spec(resolve_spec(current_directory@, path@));
            if parts.len() == 0 {
                !r && final(root)@ == old(root)@
            } else {
                match fs_delete(old(root)@, parts.drop_last(), parts.last()) {
                    Some(t) => r && final(root)@ == t,
                    None => !r && final(root)@ == old(root)@,
                }
            }
        }),
        fs_wf(old(root)@) ==> fs_wf(final(root)@),
{
    let ghost t0 = root@;
    let rpath = resolve_path(current_directory, path);
    let mut parts = split_path(rpath.as_slice());
    if parts.len() == 0 {
        return false;
    }
    let ghost all = views_of(parts@);
    let name = parts.pop().unwrap();
    proof {
        assert(views_of(parts@) =~= all.drop_last());
        assert(name@ == all.last());
        assert(views_of(parts@).skip(0) =~= views_of(parts@));
    }
    let r = delete_node(root, parts.as_slice(), 0, name.as_slice());
    proof {
        if fs_wf(t0) && r {
            lemma_delete_wf(t0, all.drop_last(), all.last());
        }
    }
    r
}

/// Resolve the target and return the file's content; fails if the walk fails
/// or the node reached is not a file.
pub fn read_file(root: &Node, current_directory: &[u8], path: &[u8]) -> (r: Option<Vec<u8>>)
    ensures
        ({
            let parts = split_spec(resolve_spec(current_directory@, path@));
            match fs_lookup(root@, parts) {
                Some(FsNode::File { data, .. }) => r matches Some(d) && d@ == data,
                _ => r is None,
            }
        }),
{
    let rpath = resolve_path(current_directory, path);
    let parts = split_path(rpath.as_slice());
    proof {
        assert(views_of(parts@).skip(0) =~= views_of(parts@));
    }
    match find_node(root, parts.as_slice(), 0) {
        None => None,
        Some(node) => match &node.node_type {
            NodeType::File { data } => Some(bytes_to_vec(data.as_slice())),
            NodeType::Dir { .. } => None,
        },
    }
}

/// Resolve the target and return its children's names in insertion order;
/// fails if the walk fails or the node reached is not a directory.
pub fn list_dir(root: &Node, current_directory: &[u8], path: &[u8]) -> (r: Option<Vec<Vec<u8>>>)
    ensures
        ({
            let parts = split_spec(resolve_spec(current_directory@, path@));
            match fs_lookup(root@, parts) {
                Some(FsNode::Dir { children, .. }) => r matches Some(names) && views_of(names@)
                    == names_of(children),
                _ => r is None,
            }
        }),
{
    let rpath = resolve_path(current_directory, path);
    let parts = split_path(rpath.as_slice());
    proof {
        assert(views_of(parts@).skip(0) =~= views_of(parts@));
    }
    match find_node(root, parts.as_slice(), 0) {
        None => None,
        Some(node) => match &node.node_type {
            NodeType::File { .. } => None,
            NodeType::Dir { children } => {
                proof {
                    lemma_children_view(children@);
                }
                let ghost cs = children_view(children@);
                let mut names: Vec<Vec<u8>> = Vec::new();
                let mut i: usize = 0;
                while i < children.len()
                    invariant
                        i <= children@.len(),
                        cs == children_view(children@),
                        cs.len() == children@.len(),
                        forall|k: int| 0 <= k < children@.len()
                            ==> cs[k] == node_view(#[trigger] children@[k]),
                        views_of(names@) == names_of(cs).take(i as int),
                    decreases children@.len() - i,
                {
                    let ghost before = names@;
                    let n = bytes_to_vec(children[i].name.as_slice());
                    proof {
                        lemma_views_of_push(before, n);
                        assert(names_of(cs).take(i + 1)
                            =~= names_of(cs).take(i as int) + seq![fs_name(cs[i as int])]);
                    }
                    names.push(n);
                    i += 1;
                }
                proof {
                    assert(names_of(cs).take(cs.len() as int) =~= names_of(cs));
                }
                Some(names)
            },
        },
    }
}

} // verus!
