//! The directory tree of a digest: a node per path prefix, children kept in
//! the order of their names, as a `BTreeMap<String, _>` keeps them.

use vstd::prelude::*;

use crate::path::{components_of, path_components, strings_view};
use crate::walk::{file_paths, CandidateFile};
use crate::text::{strictly_sorted, lemma_sorted_same_elements, push_char, char_vec, chars_less, chars_lt, lemma_chars_lt_irreflexive, lemma_chars_lt_transitive, lemma_chars_lt_total};

verus! {

/// A node of the directory tree: its children by name, and whether the node
/// was created for the last component of a path.
pub struct TreeNode {
    pub children: Vec<(String, TreeNode)>,
    pub is_file: bool,
}

/// The names of a sequence of children.
pub open spec fn child_names(children: Seq<(String, TreeNode)>) -> Seq<Seq<char>> {
    children.map_values(|c: (String, TreeNode)| c.0@)
}

/// The children's names are strictly increasing in the order of `str`.
pub open spec fn names_sorted(children: Seq<(String, TreeNode)>) -> bool {
    forall|i: int, j: int|
        #![trigger children[i], children[j]]
        0 <= i < j < children.len() ==> chars_lt(children[i].0@, children[j].0@)
}

/// `p` is a prefix of `q`.
pub open spec fn is_prefix_of(p: Seq<Seq<char>>, q: Seq<Seq<char>>) -> bool {
    p.len() <= q.len() && q.take(p.len() as int) == p
}

/// A position of a child named `name`, where there is one.
pub open spec fn child_position(children: Seq<(String, TreeNode)>, name: Seq<char>) -> int {
    choose|i: int| 0 <= i < children.len() && #[trigger] children[i].0@ == name
}

/// The child named `name`, if there is one.
pub open spec fn child_named(children: Seq<(String, TreeNode)>, name: Seq<char>) -> Option<TreeNode> {
    if exists|i: int| 0 <= i < children.len() && #[trigger] children[i].0@ == name {
        Some(children[child_position(children, name)].1)
    } else {
        None
    }
}

impl TreeNode {
    /// A directory node without children.
    pub fn directory() -> (n: Self)
        ensures
            n.children@.len() == 0,
            !n.is_file,
    {
        TreeNode { children: Vec::new(), is_file: false }
    }

    /// A file node without children.
    pub fn file() -> (n: Self)
        ensures
            n.children@.len() == 0,
            n.is_file,
    {
        TreeNode { children: Vec::new(), is_file: true }
    }

    /// Children sorted by name at every level.
    pub open spec fn well_formed(self) -> bool
        decreases self,
    {
        &&& names_sorted(self.children@)
        &&& forall|i: int|
            0 <= i < self.children@.len() ==> (#[trigger] self.children@[i]).1.well_formed()
    }

    /// The node reached from this one by following the names in `path`:
    /// `Some` of whether it is a file, or `None` where there is no such node.
    pub open spec fn flag_at(self, path: Seq<Seq<char>>) -> Option<bool>
        decreases path.len(),
    {
        if path.len() == 0 {
            Some(self.is_file)
        } else {
            match child_named(self.children@, path[0]) {
                Some(c) => c.flag_at(path.drop_first()),
                None => None,
            }
        }
    }
}

/// What the tree of `paths` (component sequences, inserted in order) holds
/// at `p`: the root is a directory; another node exists for each non-empty
/// prefix of a path, and it is a file when the first path that has it as a
/// prefix ends there.
pub open spec fn expected_flag(paths: Seq<Seq<Seq<char>>>, p: Seq<Seq<char>>) -> Option<bool>
    decreases paths.len(),
{
    if p.len() == 0 {
        Some(false)
    } else if paths.len() == 0 {
        None
    } else {
        let earlier = expected_flag(paths.drop_last(), p);
        if earlier is Some {
            earlier
        } else if is_prefix_of(p, paths.last()) {
            Some(p.len() == paths.last().len())
        } else {
            None
        }
    }
}

/// The flags after inserting `q` into a tree whose flags were `old`.
pub open spec fn flag_after_insert(old: Option<bool>, p: Seq<Seq<char>>, q: Seq<Seq<char>>) -> Option<bool> {
    if old is Some {
        old
    } else if p.len() > 0 && is_prefix_of(p, q) {
        Some(p.len() == q.len())
    } else {
        None
    }
}

/// Inserting a path a second time changes no node.
pub proof fn law_insert_twice(old: Option<bool>, p: Seq<Seq<char>>, q: Seq<Seq<char>>)
    ensures
        flag_after_insert(flag_after_insert(old, p, q), p, q) == flag_after_insert(old, p, q),
{
}

/// Inserting two paths, neither a proper prefix of the other, in either
/// order gives the same nodes.
pub proof fn law_insert_commutes(old: Option<bool>, p: Seq<Seq<char>>, q1: Seq<Seq<char>>, q2: Seq<Seq<char>>)
    requires
        is_prefix_of(q1, q2) ==> q1 == q2,
        is_prefix_of(q2, q1) ==> q1 == q2,
    ensures
        flag_after_insert(flag_after_insert(old, p, q1), p, q2)
            == flag_after_insert(flag_after_insert(old, p, q2), p, q1),
{
    if old is None && p.len() > 0 && is_prefix_of(p, q1) && is_prefix_of(p, q2) {
        if p.len() == q1.len() {
            lemma_prefix_of_equal_length(p, q1);
            assert(is_prefix_of(q1, q2));
        }
        if p.len() == q2.len() {
            lemma_prefix_of_equal_length(p, q2);
            assert(is_prefix_of(q2, q1));
        }
    }
}

pub proof fn lemma_child_named(children: Seq<(String, TreeNode)>, i: int)
    requires
        names_sorted(children),
        0 <= i < children.len(),
    ensures
        child_named(children, children[i].0@) == Some(children[i].1),
{
    let name = children[i].0@;
    assert(0 <= i < children.len() && children[i].0@ == name);
    assert(exists|k: int| 0 <= k < children.len() && #[trigger] children[k].0@ == name);
    let j = child_position(children, name);
    assert(0 <= j < children.len() && children[j].0@ == name);
    if j != i {
        if j < i {
            assert(chars_lt(children[j].0@, children[i].0@));
        } else {
            assert(chars_lt(children[i].0@, children[j].0@));
        }
        lemma_chars_lt_irreflexive(name);
    }
}

pub proof fn lemma_child_named_absent(children: Seq<(String, TreeNode)>, name: Seq<char>)
    requires
        forall|i: int| 0 <= i < children.len() ==> #[trigger] children[i].0@ != name,
    ensures
        child_named(children, name) is None,
{
}


pub proof fn lemma_prefix_step(p: Seq<Seq<char>>, q: Seq<Seq<char>>)
    requires
        p.len() > 0,
        q.len() > 0,
        p[0] == q[0],
    ensures
        is_prefix_of(p, q) == is_prefix_of(p.drop_first(), q.drop_first()),
        (p.len() == q.len()) == (p.drop_first().len() == q.drop_first().len()),
{
    if is_prefix_of(p, q) {
        assert(q.drop_first().take(p.drop_first().len() as int) =~= p.drop_first()) by {
            assert forall|k: int| 0 <= k < p.drop_first().len() implies
                q.drop_first().take(p.drop_first().len() as int)[k] == p.drop_first()[k] by {
                assert(q.take(p.len() as int)[k + 1] == p[k + 1]);
            }
        }
    }
    if is_prefix_of(p.drop_first(), q.drop_first()) {
        assert(q.take(p.len() as int) =~= p) by {
            assert forall|k: int| 0 <= k < p.len() implies q.take(p.len() as int)[k] == p[k] by {
                if k > 0 {
                    assert(q.drop_first().take(p.drop_first().len() as int)[k - 1] == p.drop_first()[k - 1]);
                }
            }
        }
    }
}

/// Flags of a node whose child at `pos` was replaced by `c_new`, where
/// `c_new` is the old child with the rest of `q` inserted.
proof fn lemma_flags_after_update(old: TreeNode, new: TreeNode, pos: int, c_new: TreeNode, q: Seq<Seq<char>>)
    requires
        old.well_formed(),
        0 <= pos < old.children@.len(),
        new.children@ == old.children@.update(pos, (old.children@[pos].0, c_new)),
        new.is_file == old.is_file,
        q.len() > 0,
        q[0] == old.children@[pos].0@,
        c_new.well_formed(),
        forall|r: Seq<Seq<char>>| #[trigger] c_new.flag_at(r) == flag_after_insert(old.children@[pos].1.flag_at(r), r, q.drop_first()),
    ensures
        new.well_formed(),
        forall|p: Seq<Seq<char>>| #[trigger] new.flag_at(p) == flag_after_insert(old.flag_at(p), p, q),
{
    let oc = old.children@;
    let nc = new.children@;
    assert(names_sorted(nc)) by {
        assert forall|i: int, j: int| 0 <= i < j < nc.len() implies chars_lt(#[trigger] nc[i].0@, #[trigger] nc[j].0@) by {
            assert(oc[i].0 == nc[i].0 && oc[j].0 == nc[j].0);
            assert(chars_lt(oc[i].0@, oc[j].0@));
        }
    }
    assert forall|i: int| 0 <= i < nc.len() implies (#[trigger] nc[i]).1.well_formed() by {
        if i != pos {
            assert(nc[i] == oc[i]);
            assert(oc[i].1.well_formed());
        }
    }
    assert(new.well_formed());
    assert forall|p: Seq<Seq<char>>| #[trigger] new.flag_at(p) == flag_after_insert(old.flag_at(p), p, q) by {
        if p.len() > 0 {
            let name = p[0];
            if name == q[0] {
                lemma_child_named(oc, pos);
                lemma_child_named(nc, pos);
                let r = p.drop_first();
                assert(c_new.flag_at(r) == flag_after_insert(oc[pos].1.flag_at(r), r, q.drop_first()));
                lemma_prefix_step(p, q);
                if r.len() == 0 {
                    assert(oc[pos].1.flag_at(r) is Some);
                }
            } else {
                if exists|i: int| 0 <= i < oc.len() && #[trigger] oc[i].0@ == name {
                    let i = child_position(oc, name);
                    lemma_child_named(oc, i);
                    assert(i != pos);
                    assert(nc[i] == oc[i]);
                    lemma_child_named(nc, i);
                } else {
                    assert forall|i: int| 0 <= i < nc.len() implies #[trigger] nc[i].0@ != name by {
                        if i != pos {
                            assert(nc[i] == oc[i]);
                        }
                    }
                    lemma_child_named_absent(nc, name);
                    lemma_child_named_absent(oc, name);
                }
                assert(!is_prefix_of(p, q)) by {
                    if is_prefix_of(p, q) {
                        assert(q.take(p.len() as int)[0] == p[0]);
                    }
                }
            }
        }
    }
}

/// Flags of a node into which a new child `c_new`, named `key`, was
/// inserted at `pos`, where `c_new` is a fresh node with the rest of `q`
/// inserted.
proof fn lemma_flags_after_insert_new(old: TreeNode, new: TreeNode, pos: int, key: String, c_new: TreeNode, q: Seq<Seq<char>>)
    requires
        old.well_formed(),
        0 <= pos <= old.children@.len(),
        forall|j: int| 0 <= j < pos ==> chars_lt((#[trigger] old.children@[j]).0@, key@),
        pos < old.children@.len() ==> chars_lt(key@, old.children@[pos].0@),
        new.children@ == old.children@.insert(pos, (key, c_new)),
        new.is_file == old.is_file,
        q.len() > 0,
        q[0] == key@,
        c_new.well_formed(),
        forall|r: Seq<Seq<char>>| #[trigger] c_new.flag_at(r) == flag_after_insert(
            if r.len() == 0 { Some(q.len() == 1) } else { None::<bool> }, r, q.drop_first()),
    ensures
        new.well_formed(),
        forall|p: Seq<Seq<char>>| #[trigger] new.flag_at(p) == flag_after_insert(old.flag_at(p), p, q),
{
    let oc = old.children@;
    let nc = new.children@;
    assert forall|j: int| pos < j < oc.len() implies chars_lt(key@, #[trigger] oc[j].0@) by {
        assert(chars_lt(oc[pos].0@, oc[j].0@));
        lemma_chars_lt_transitive(key@, oc[pos].0@, oc[j].0@);
    }
    assert(names_sorted(nc)) by {
        assert forall|i: int, j: int| 0 <= i < j < nc.len() implies chars_lt(#[trigger] nc[i].0@, #[trigger] nc[j].0@) by {
            if j < pos {
                assert(nc[i] == oc[i] && nc[j] == oc[j]);
            } else if j == pos {
                assert(nc[i] == oc[i]);
            } else if i < pos {
                assert(nc[i] == oc[i] && nc[j] == oc[j - 1]);
                assert(chars_lt(oc[i].0@, key@));
                assert(chars_lt(key@, oc[j - 1].0@));
                lemma_chars_lt_transitive(oc[i].0@, key@, oc[j - 1].0@);
            } else if i == pos {
                assert(nc[j] == oc[j - 1]);
            } else {
                assert(nc[i] == oc[i - 1] && nc[j] == oc[j - 1]);
            }
        }
    }
    assert forall|i: int| 0 <= i < nc.len() implies (#[trigger] nc[i]).1.well_formed() by {
        if i < pos {
            assert(nc[i] == oc[i]);
            assert(oc[i].1.well_formed());
        } else if i > pos {
            assert(nc[i] == oc[i - 1]);
            assert(oc[i - 1].1.well_formed());
        }
    }
    assert(new.well_formed());
    assert forall|j: int| 0 <= j < oc.len() implies #[trigger] oc[j].0@ != key@ by {
        if j < pos {
            lemma_chars_lt_irreflexive(key@);
        } else {
            if j > pos {
                assert(chars_lt(key@, oc[j].0@));
            }
            lemma_chars_lt_irreflexive(key@);
        }
    }
    assert forall|p: Seq<Seq<char>>| #[trigger] new.flag_at(p) == flag_after_insert(old.flag_at(p), p, q) by {
        if p.len() > 0 {
            let name = p[0];
            if name == key@ {
                lemma_child_named(nc, pos);
                lemma_child_named_absent(oc, name);
                let r = p.drop_first();
                assert(c_new.flag_at(r) == flag_after_insert(
                    if r.len() == 0 { Some(q.len() == 1) } else { None::<bool> }, r, q.drop_first()));
                lemma_prefix_step(p, q);
                if r.len() == 0 {
                    assert(q.take(1) =~= p);
                }
            } else {
                if exists|i: int| 0 <= i < oc.len() && #[trigger] oc[i].0@ == name {
                    let i = child_position(oc, name);
                    lemma_child_named(oc, i);
                    if i < pos {
                        assert(nc[i] == oc[i]);
                        lemma_child_named(nc, i);
                    } else {
                        assert(nc[i + 1] == oc[i]);
                        lemma_child_named(nc, i + 1);
                    }
                } else {
                    assert forall|i: int| 0 <= i < nc.len() implies #[trigger] nc[i].0@ != name by {
                        if i < pos {
                            assert(nc[i] == oc[i]);
                        } else if i > pos {
                            assert(nc[i] == oc[i - 1]);
                        }
                    }
                    lemma_child_named_absent(nc, name);
                    lemma_child_named_absent(oc, name);
                }
                assert(!is_prefix_of(p, q)) by {
                    if is_prefix_of(p, q) {
                        assert(q.take(p.len() as int)[0] == p[0]);
                    }
                }
            }
        }
    }
}

/// Inserts the components `comps[idx..]` below `node`.
fn insert_components(node: &mut TreeNode, comps: &Vec<String>, idx: usize)
    requires
        old(node).well_formed(),
        idx <= comps.len(),
    ensures
        final(node).well_formed(),
        final(node).is_file == old(node).is_file,
        forall|p: Seq<Seq<char>>| #[trigger] final(node).flag_at(p)
            == flag_after_insert(old(node).flag_at(p), p, strings_view(comps@).skip(idx as int)),
    decreases comps.len() - idx,
{
    let ghost q = strings_view(comps@).skip(idx as int);
    if idx == comps.len() {
        assert forall|p: Seq<Seq<char>>| #[trigger] node.flag_at(p)
            == flag_after_insert(node.flag_at(p), p, q) by {
            if p.len() > 0 && node.flag_at(p) is None {
                assert(!is_prefix_of(p, q));
            }
        }
        return;
    }
    let ghost old_node = *node;
    let key = &comps[idx];
    assert(q[0] == key@);
    assert(q.drop_first() =~= strings_view(comps@).skip(idx + 1));
    let key_chars = char_vec(key.as_str());
    let mut pos: usize = 0;
    while pos < node.children.len()
        invariant_except_break
            *node == old_node,
            key_chars@ == key@,
            pos <= node.children.len(),
            forall|j: int| 0 <= j < pos ==> chars_lt((#[trigger] node.children@[j]).0@, key@),
        ensures
            *node == old_node,
            key_chars@ == key@,
            pos <= node.children.len(),
            forall|j: int| 0 <= j < pos ==> chars_lt((#[trigger] node.children@[j]).0@, key@),
            pos < node.children.len() ==> !chars_lt(node.children@[pos as int].0@, key@),
        decreases node.children.len() - pos,
    {
        let name_chars = char_vec(node.children[pos].0.as_str());
        if !chars_less(&name_chars, &key_chars) {
            break;
        }
        pos = pos + 1;
    }
    if pos < node.children.len() && node.children[pos].0 == *key {
        let (name, mut child) = node.children.remove(pos);
        proof {
            assert(old_node.children@[pos as int].1.well_formed());
        }
        insert_components(&mut child, comps, idx + 1);
        node.children.insert(pos, (name, child));
        proof {
            assert(node.children@ =~= old_node.children@.update(pos as int, (old_node.children@[pos as int].0, child)));
            lemma_flags_after_update(old_node, *node, pos as int, child, q);
        }
    } else {
        proof {
            if pos < old_node.children@.len() {
                lemma_chars_lt_total(key@, old_node.children@[pos as int].0@);
            }
        }
        let mut child = if idx + 1 == comps.len() { TreeNode::file() } else { TreeNode::directory() };
        let ghost fresh = child;
        proof {
            assert forall|r: Seq<Seq<char>>| #[trigger] fresh.flag_at(r)
                == (if r.len() == 0 { Some(q.len() == 1) } else { None::<bool> }) by {
                if r.len() > 0 {
                    lemma_child_named_absent(fresh.children@, r[0]);
                }
            }
        }
        insert_components(&mut child, comps, idx + 1);
        let name = key.clone();
        node.children.insert(pos, (name, child));
        proof {
            lemma_flags_after_insert_new(old_node, *node, pos as int, name, child, q);
        }
    }
}


/// Inserts the path `path` into the tree below `root`: every prefix of its
/// components that has no node yet gets one, a file node for the whole path
/// and directory nodes for the shorter prefixes; existing nodes are kept.
pub fn insert_path(root: &mut TreeNode, path: &str)
    requires
        old(root).well_formed(),
    ensures
        final(root).well_formed(),
        final(root).is_file == old(root).is_file,
        forall|p: Seq<Seq<char>>| #[trigger] final(root).flag_at(p)
            == flag_after_insert(old(root).flag_at(p), p, path_components(path@)),
{
    let components = components_of(path);
    assert(strings_view(components@).skip(0) =~= path_components(path@));
    insert_components(root, &components, 0);
}


/// The tree `t` is the tree of `paths`: well formed, and holding exactly
/// the nodes that `expected_flag` describes.
pub open spec fn describes(t: TreeNode, paths: Seq<Seq<Seq<char>>>) -> bool {
    &&& t.well_formed()
    &&& forall|p: Seq<Seq<char>>| #[trigger] t.flag_at(p) == expected_flag(paths, p)
}

/// Builds the directory tree of `files`, inserting their relative paths in order.
pub fn build_tree(files: &[CandidateFile]) -> (root: TreeNode)
    ensures
        describes(root, file_paths(files@)),
{
    let mut root = TreeNode::directory();
    let ghost paths = file_paths(files@);
    proof {
        assert forall|p: Seq<Seq<char>>| #[trigger] root.flag_at(p) == expected_flag(paths.take(0), p) by {
            if p.len() > 0 {
                lemma_child_named_absent(root.children@, p[0]);
            }
        }
    }
    for i in 0..files.len()
        invariant
            paths == file_paths(files@),
            root.well_formed(),
            !root.is_file,
            forall|p: Seq<Seq<char>>| #[trigger] root.flag_at(p) == expected_flag(paths.take(i as int), p),
    {
        let ghost before = root;
        insert_path(&mut root, files[i].relative_path.as_str());
        proof {
            assert forall|p: Seq<Seq<char>>| #[trigger] root.flag_at(p) == expected_flag(paths.take(i + 1), p) by {
                assert(paths.take(i + 1).drop_last() =~= paths.take(i as int));
                assert(paths.take(i + 1).last() == paths[i as int]);
                assert(before.flag_at(p) == expected_flag(paths.take(i as int), p));
            }
        }
    }
    assert(paths.take(files.len() as int) =~= paths);
    root
}

/// The tree of `paths` has a node at each non-empty prefix of a path and at
/// no other non-empty path; such a node is a file exactly when the first
/// path (in order) that has it as a prefix ends there.
pub proof fn lemma_tree_nodes(paths: Seq<Seq<Seq<char>>>, p: Seq<Seq<char>>)
    requires
        p.len() > 0,
    ensures
        (expected_flag(paths, p) is Some) == (exists|i: int| 0 <= i < paths.len() && is_prefix_of(p, #[trigger] paths[i])),
        forall|i: int|
            0 <= i < paths.len() && is_prefix_of(p, #[trigger] paths[i])
            && (forall|j: int| 0 <= j < i ==> !is_prefix_of(p, #[trigger] paths[j]))
            ==> expected_flag(paths, p) == Some(paths[i].len() == p.len()),
    decreases paths.len(),
{
    if paths.len() > 0 {
        let init = paths.drop_last();
        lemma_tree_nodes(init, p);
        assert forall|i: int| 0 <= i < init.len() implies #[trigger] init[i] == paths[i] by {}
        if exists|i: int| 0 <= i < paths.len() && is_prefix_of(p, #[trigger] paths[i]) {
            let i = choose|i: int| 0 <= i < paths.len() && is_prefix_of(p, #[trigger] paths[i]);
            if i < init.len() {
                assert(is_prefix_of(p, init[i]));
            }
        }
        assert forall|i: int|
            0 <= i < paths.len() && is_prefix_of(p, #[trigger] paths[i])
            && (forall|j: int| 0 <= j < i ==> !is_prefix_of(p, #[trigger] paths[j]))
            implies expected_flag(paths, p) == Some(paths[i].len() == p.len()) by {
            if i < init.len() {
                assert(is_prefix_of(p, init[i]));
                assert forall|j: int| 0 <= j < i implies !is_prefix_of(p, #[trigger] init[j]) by {
                    assert(init[j] == paths[j]);
                }
            } else {
                assert forall|j: int| 0 <= j < init.len() implies !is_prefix_of(p, #[trigger] init[j]) by {
                    assert(init[j] == paths[j]);
                }
            }
        }
    }
}


/// The connector drawn before a node's name.
pub open spec fn connector(is_last: bool) -> Seq<char> {
    if is_last { "└── "@ } else { "├── "@ }
}

/// The prefix drawn before the lines of a node's children.
pub open spec fn child_prefix(prefix: Seq<char>, is_last: bool) -> Seq<char> {
    prefix + if is_last { "    "@ } else { "│   "@ }
}

/// The children of a node are drawn one step of four characters further
/// in than the node: four spaces below a last node, a bar and three spaces
/// below another; so a node at depth `d` is drawn after `4 * d` characters.
pub proof fn law_child_prefix_step(prefix: Seq<char>)
    ensures
        child_prefix(prefix, true) == prefix + seq![' ', ' ', ' ', ' '],
        child_prefix(prefix, false) == prefix + seq!['│', ' ', ' ', ' '],
        child_prefix(prefix, true).len() == prefix.len() + 4,
        child_prefix(prefix, false).len() == prefix.len() + 4,
{
    reveal_strlit("    ");
    reveal_strlit("│   ");
    assert("    "@ =~= seq![' ', ' ', ' ', ' ']);
    assert("│   "@ =~= seq!['│', ' ', ' ', ' ']);
}

/// The connectors: a corner before the last child, a tee before the others.
pub proof fn law_connectors()
    ensures
        connector(true) == seq!['└', '─', '─', ' '],
        connector(false) == seq!['├', '─', '─', ' '],
{
    reveal_strlit("└── ");
    reveal_strlit("├── ");
    assert("└── "@ =~= seq!['└', '─', '─', ' ']);
    assert("├── "@ =~= seq!['├', '─', '─', ' ']);
}

/// The line of a node: prefix, connector, name, a `/` for a directory.
pub open spec fn node_line(name: Seq<char>, is_file: bool, prefix: Seq<char>, is_last: bool) -> Seq<char> {
    prefix + connector(is_last) + name + (if is_file { Seq::<char>::empty() } else { seq!['/'] }) + seq!['\n']
}

/// The drawing of `node` named `name`: its line, then the drawings of its
/// children below it.
pub open spec fn rendered_node(node: TreeNode, name: Seq<char>, prefix: Seq<char>, is_last: bool) -> Seq<char>
    decreases node, node.children@.len() + 1,
{
    node_line(name, node.is_file, prefix, is_last)
        + rendered_children(node, child_prefix(prefix, is_last), node.children@.len() as int)
}

/// The drawings of the first `k` children of `node`, each with `prefix`;
/// the last child of `node` is drawn as the last one.
pub open spec fn rendered_children(node: TreeNode, prefix: Seq<char>, k: int) -> Seq<char>
    decreases node, k,
{
    if k <= 0 || k > node.children@.len() {
        Seq::empty()
    } else {
        rendered_children(node, prefix, k - 1) + rendered_node(
            node.children@[k - 1].1,
            node.children@[k - 1].0@,
            prefix,
            k - 1 == node.children@.len() - 1,
        )
    }
}

/// Draws `node`, named `name`, and its children below it.
pub fn render_tree_node(output: &mut String, name: &str, node: &TreeNode, prefix: &str, is_last: bool)
    requires
        node.well_formed(),
    ensures
        final(output)@ == old(output)@ + rendered_node(*node, name@, prefix@, is_last),
    decreases node,
{
    let connector = if is_last { "└── " } else { "├── " };
    output.append(prefix);
    output.append(connector);
    output.append(name);
    if !node.is_file {
        push_char(output, '/');
    }
    push_char(output, '\n');
    let ghost line = node_line(name@, node.is_file, prefix@, is_last);
    assert(output@ =~= old(output)@ + line);
    if node.children.len() == 0 {
        return;
    }
    let mut next_prefix = prefix.to_owned();
    next_prefix.append(if is_last { "    " } else { "│   " });
    assert(next_prefix@ == child_prefix(prefix@, is_last));
    let count = node.children.len();
    for index in 0..count
        invariant
            count == node.children@.len(),
            node.well_formed(),
            next_prefix@ == child_prefix(prefix@, is_last),
            output@ == old(output)@ + line + rendered_children(*node, next_prefix@, index as int),
    {
        let child_is_last = index + 1 == count;
        let entry = &node.children[index];
        assert(node.children@[index as int].1.well_formed());
        render_tree_node(output, entry.0.as_str(), &entry.1, next_prefix.as_str(), child_is_last);
        assert(output@ =~= old(output)@ + line + rendered_children(*node, next_prefix@, index + 1));
    }
}


proof fn lemma_flag_below(t: TreeNode, i: int, r: Seq<Seq<char>>)
    requires
        t.well_formed(),
        0 <= i < t.children@.len(),
    ensures
        t.flag_at(seq![t.children@[i].0@] + r) == t.children@[i].1.flag_at(r),
{
    let p = seq![t.children@[i].0@] + r;
    lemma_child_named(t.children@, i);
    assert(p[0] == t.children@[i].0@);
    assert(p.drop_first() =~= r);
}

proof fn lemma_children_drawing(t1: TreeNode, t2: TreeNode, prefix: Seq<char>, k: int)
    requires
        t1.children@.len() == t2.children@.len(),
        forall|i: int| 0 <= i < t1.children@.len() ==> (#[trigger] t1.children@[i]).0@ == t2.children@[i].0@,
        forall|i: int, name: Seq<char>, pre: Seq<char>, last: bool|
            0 <= i < t1.children@.len() ==> #[trigger] rendered_node(t1.children@[i].1, name, pre, last)
                == rendered_node(t2.children@[i].1, name, pre, last),
    ensures
        rendered_children(t1, prefix, k) == rendered_children(t2, prefix, k),
    decreases k,
{
    if k > 0 && k <= t1.children@.len() {
        lemma_children_drawing(t1, t2, prefix, k - 1);
        let i = k - 1;
        assert(t1.children@[i].0@ == t2.children@[i].0@);
        assert(rendered_node(t1.children@[i].1, t1.children@[i].0@, prefix, i == t1.children@.len() - 1)
            == rendered_node(t2.children@[i].1, t1.children@[i].0@, prefix, i == t1.children@.len() - 1));
    }
}

/// Two well-formed trees with the same nodes have the same drawing.
pub proof fn lemma_same_nodes_same_drawing(t1: TreeNode, t2: TreeNode)
    requires
        t1.well_formed(),
        t2.well_formed(),
        forall|p: Seq<Seq<char>>| #[trigger] t1.flag_at(p) == t2.flag_at(p),
    ensures
        t1.children@.len() == t2.children@.len(),
        forall|name: Seq<char>, prefix: Seq<char>, is_last: bool|
            #[trigger] rendered_node(t1, name, prefix, is_last) == rendered_node(t2, name, prefix, is_last),
        forall|prefix: Seq<char>, k: int|
            #[trigger] rendered_children(t1, prefix, k) == rendered_children(t2, prefix, k),
    decreases t1,
{
    let c1 = t1.children@;
    let c2 = t2.children@;
    let n1 = child_names(c1);
    let n2 = child_names(c2);
    assert(t1.flag_at(Seq::empty()) == t2.flag_at(Seq::empty()));
    assert(strictly_sorted(n1)) by {
        assert forall|i: int, j: int| 0 <= i < j < n1.len() implies chars_lt(#[trigger] n1[i], #[trigger] n1[j]) by {
            assert(c1[i].0@ == n1[i] && c1[j].0@ == n1[j]);
        }
    }
    assert(strictly_sorted(n2)) by {
        assert forall|i: int, j: int| 0 <= i < j < n2.len() implies chars_lt(#[trigger] n2[i], #[trigger] n2[j]) by {
            assert(c2[i].0@ == n2[i] && c2[j].0@ == n2[j]);
        }
    }
    assert forall|x: Seq<char>| n1.contains(x) == n2.contains(x) by {
        let p = seq![x];
        assert(p.drop_first() =~= Seq::<Seq<char>>::empty());
        assert(t1.flag_at(p) == t2.flag_at(p));
        if n1.contains(x) {
            let i = choose|i: int| 0 <= i < n1.len() && n1[i] == x;
            lemma_flag_below(t1, i, Seq::empty());
            assert(seq![c1[i].0@] + Seq::<Seq<char>>::empty() =~= p);
            assert(t2.flag_at(p) is Some);
            assert(child_named(c2, x) is Some);
            let j = child_position(c2, x);
            assert(n2[j] == x);
        }
        if n2.contains(x) {
            let i = choose|i: int| 0 <= i < n2.len() && n2[i] == x;
            lemma_flag_below(t2, i, Seq::empty());
            assert(seq![c2[i].0@] + Seq::<Seq<char>>::empty() =~= p);
            assert(t1.flag_at(p) is Some);
            assert(child_named(c1, x) is Some);
            let j = child_position(c1, x);
            assert(n1[j] == x);
        }
    }
    lemma_sorted_same_elements(n1, n2);
    assert(c1.len() == n1.len() && c2.len() == n2.len());
    assert forall|i: int| 0 <= i < c1.len() implies (#[trigger] c1[i]).0@ == c2[i].0@ by {
        assert(n1[i] == c1[i].0@ && n2[i] == c2[i].0@);
    }
    assert forall|i: int, name: Seq<char>, pre: Seq<char>, last: bool|
        0 <= i < c1.len() implies #[trigger] rendered_node(c1[i].1, name, pre, last)
            == rendered_node(c2[i].1, name, pre, last) by {
        assert(c1[i].1.well_formed() && c2[i].1.well_formed());
        assert forall|r: Seq<Seq<char>>| #[trigger] c1[i].1.flag_at(r) == c2[i].1.flag_at(r) by {
            lemma_flag_below(t1, i, r);
            lemma_flag_below(t2, i, r);
            assert(c1[i].0@ == c2[i].0@);
            assert(t1.flag_at(seq![c1[i].0@] + r) == t2.flag_at(seq![c1[i].0@] + r));
        }
        lemma_same_nodes_same_drawing(c1[i].1, c2[i].1);
    }
    assert forall|prefix: Seq<char>, k: int|
        #[trigger] rendered_children(t1, prefix, k) == rendered_children(t2, prefix, k) by {
        lemma_children_drawing(t1, t2, prefix, k);
    }
    assert(t1.is_file == t2.is_file);
    assert forall|name: Seq<char>, prefix: Seq<char>, is_last: bool|
        #[trigger] rendered_node(t1, name, prefix, is_last) == rendered_node(t2, name, prefix, is_last) by {
        lemma_children_drawing(t1, t2, child_prefix(prefix, is_last), c1.len() as int);
    }
}


/// No path of `paths` is a proper prefix of another.
pub open spec fn prefix_free(paths: Seq<Seq<Seq<char>>>) -> bool {
    forall|i: int, j: int|
        0 <= i < paths.len() && 0 <= j < paths.len() && is_prefix_of(#[trigger] paths[i], #[trigger] paths[j])
            ==> paths[i] == paths[j]
}

proof fn lemma_prefix_of_equal_length(p: Seq<Seq<char>>, q: Seq<Seq<char>>)
    requires
        is_prefix_of(p, q),
        p.len() == q.len(),
    ensures
        p == q,
{
    assert(q.take(p.len() as int) =~= q);
}

/// Where no path is a proper prefix of another, a node is a file exactly
/// when its path is one of the paths.
proof fn lemma_flag_is_membership(paths: Seq<Seq<Seq<char>>>, p: Seq<Seq<char>>)
    requires
        p.len() > 0,
        prefix_free(paths),
    ensures
        expected_flag(paths, p) is Some ==> expected_flag(paths, p) == Some(paths.contains(p)),
    decreases paths.len(),
{
    if paths.len() > 0 {
        let init = paths.drop_last();
        let last = paths.last();
        assert forall|i: int| 0 <= i < init.len() implies #[trigger] init[i] == paths[i] by {}
        assert(prefix_free(init)) by {
            assert forall|i: int, j: int|
                0 <= i < init.len() && 0 <= j < init.len() && is_prefix_of(#[trigger] init[i], #[trigger] init[j])
                implies init[i] == init[j] by {
                assert(is_prefix_of(paths[i], paths[j]));
            }
        }
        lemma_flag_is_membership(init, p);
        lemma_tree_nodes(init, p);
        let earlier = expected_flag(init, p);
        assert(paths.contains(p) == (init.contains(p) || p == last)) by {
            if paths.contains(p) {
                let k = choose|k: int| 0 <= k < paths.len() && paths[k] == p;
                if k < init.len() {
                    assert(init[k] == p);
                }
            }
            if init.contains(p) {
                let k = choose|k: int| 0 <= k < init.len() && init[k] == p;
                assert(paths[k] == p);
            }
            if p == last {
                assert(paths[paths.len() - 1] == p);
            }
        }
        if earlier is Some {
            if p == last && !init.contains(p) {
                let i = choose|i: int| 0 <= i < init.len() && is_prefix_of(p, #[trigger] init[i]);
                assert(is_prefix_of(paths[paths.len() - 1], paths[i]));
                assert(init[i] == p);
            }
        } else if is_prefix_of(p, last) {
            if p.len() == last.len() {
                lemma_prefix_of_equal_length(p, last);
            }
            if init.contains(p) {
                let k = choose|k: int| 0 <= k < init.len() && init[k] == p;
                assert(is_prefix_of(p, init[k])) by {
                    assert(init[k].take(p.len() as int) =~= p);
                }
            }
        }
    }
}

/// Order and repetition of the paths do not change the tree, where no path
/// is a proper prefix of another: two lists with the same paths give the
/// same nodes.
pub proof fn law_tree_order_independent(paths1: Seq<Seq<Seq<char>>>, paths2: Seq<Seq<Seq<char>>>, p: Seq<Seq<char>>)
    requires
        prefix_free(paths1),
        forall|q: Seq<Seq<char>>| paths1.contains(q) == paths2.contains(q),
    ensures
        expected_flag(paths1, p) == expected_flag(paths2, p),
{
    if p.len() > 0 {
        assert(prefix_free(paths2)) by {
            assert forall|i: int, j: int|
                0 <= i < paths2.len() && 0 <= j < paths2.len() && is_prefix_of(#[trigger] paths2[i], #[trigger] paths2[j])
                implies paths2[i] == paths2[j] by {
                assert(paths2.contains(paths2[i]) && paths2.contains(paths2[j]));
                let a = choose|a: int| 0 <= a < paths1.len() && paths1[a] == paths2[i];
                let b = choose|b: int| 0 <= b < paths1.len() && paths1[b] == paths2[j];
                assert(is_prefix_of(paths1[a], paths1[b]));
            }
        }
        lemma_tree_nodes(paths1, p);
        lemma_tree_nodes(paths2, p);
        lemma_flag_is_membership(paths1, p);
        lemma_flag_is_membership(paths2, p);
        if exists|i: int| 0 <= i < paths1.len() && is_prefix_of(p, #[trigger] paths1[i]) {
            let i = choose|i: int| 0 <= i < paths1.len() && is_prefix_of(p, #[trigger] paths1[i]);
            assert(paths1.contains(paths1[i]));
            let j = choose|j: int| 0 <= j < paths2.len() && paths2[j] == paths1[i];
            assert(is_prefix_of(p, paths2[j]));
        }
        if exists|i: int| 0 <= i < paths2.len() && is_prefix_of(p, #[trigger] paths2[i]) {
            let i = choose|i: int| 0 <= i < paths2.len() && is_prefix_of(p, #[trigger] paths2[i]);
            assert(paths2.contains(paths2[i]));
            let j = choose|j: int| 0 <= j < paths1.len() && paths1[j] == paths2[i];
            assert(is_prefix_of(p, paths1[j]));
        }
    }
}

/// Trees of two lists with the same paths, none a proper prefix of
/// another, are drawn the same.
pub proof fn law_tree_drawing_order_independent(
    t1: TreeNode,
    t2: TreeNode,
    paths1: Seq<Seq<Seq<char>>>,
    paths2: Seq<Seq<Seq<char>>>,
)
    requires
        describes(t1, paths1),
        describes(t2, paths2),
        prefix_free(paths1),
        forall|q: Seq<Seq<char>>| paths1.contains(q) == paths2.contains(q),
    ensures
        t1.children@.len() == t2.children@.len(),
        forall|prefix: Seq<char>, k: int| #[trigger] rendered_children(t1, prefix, k) == rendered_children(t2, prefix, k),
{
    assert forall|p: Seq<Seq<char>>| #[trigger] t1.flag_at(p) == t2.flag_at(p) by {
        law_tree_order_independent(paths1, paths2, p);
    }
    lemma_same_nodes_same_drawing(t1, t2);
}

} // verus!
