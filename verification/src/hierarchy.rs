//! A recursively defined tree of titled directories: each node owns a title,
//! a free-text description, a filesystem path derived from its ancestors'
//! titles, and an ordered list of child nodes. Loading and saving are split
//! from the filesystem: loading consumes a snapshot of a directory listing,
//! and saving produces the list of writes to perform.
use crate::serializable::{trim_str, trimmed_of};
use crate::text::{last_segment, last_segment_str, lemma_last_segment_concat, path_join};
use vstd::prelude::*;

verus! {

broadcast use vstd::seq_lib::group_to_multiset_ensures;

/// A node in a folder hierarchy.
#[derive(Debug, PartialEq)]
pub struct Node {
    /// The node's place on disk: its ancestors' titles under the project
    /// root, joined by path separators. Kept consistent by `rebuild_path`.
    pub path: String,
    /// The directory name, also the stem of the description file's name.
    pub title: String,
    /// Free text stored beside the node's subdirectories.
    pub description: String,
    /// The owned child nodes, kept sorted by title after a load or an
    /// explicit sort.
    pub children: Vec<Node>,
}

/// Code-point order on character sequences.
pub open spec fn lex_le(a: Seq<char>, b: Seq<char>) -> bool
    decreases a.len(),
{
    if a.len() == 0 {
        true
    } else if b.len() == 0 {
        false
    } else if a[0] as u32 == b[0] as u32 {
        lex_le(a.drop_first(), b.drop_first())
    } else {
        (a[0] as u32) < (b[0] as u32)
    }
}

pub proof fn lemma_lex_le_total(a: Seq<char>, b: Seq<char>)
    ensures
        lex_le(a, b) || lex_le(b, a),
    decreases a.len(),
{
    if a.len() == 0 || b.len() == 0 {
    } else if a[0] as u32 == b[0] as u32 {
        lemma_lex_le_total(a.drop_first(), b.drop_first());
    }
}

pub proof fn lemma_lex_le_trans(a: Seq<char>, b: Seq<char>, c: Seq<char>)
    requires
        lex_le(a, b),
        lex_le(b, c),
    ensures
        lex_le(a, c),
    decreases a.len(),
{
    if a.len() == 0 || b.len() == 0 || c.len() == 0 {
    } else if a[0] as u32 == b[0] as u32 && b[0] as u32 == c[0] as u32 {
        lemma_lex_le_trans(a.drop_first(), b.drop_first(), c.drop_first());
    }
}

/// Whether a list of nodes is sorted by title.
pub open spec fn children_sorted(cs: Seq<Node>) -> bool {
    forall|i: int, j: int|
        0 <= i < j < cs.len() ==> lex_le((#[trigger] cs[i]).title@, (#[trigger] cs[j]).title@)
}

/// Whether `a` orders at or before `b` by title, in code-point order.
pub fn title_le(a: &str, b: &str) -> (r: bool)
    ensures
        r == lex_le(a@, b@),
{
    let na = a.unicode_len();
    let nb = b.unicode_len();
    let mut i: usize = 0;
    proof {
        assert(a@.skip(0) =~= a@);
        assert(b@.skip(0) =~= b@);
    }
    loop
        invariant
            i <= na,
            i <= nb,
            na == a@.len(),
            nb == b@.len(),
            lex_le(a@, b@) == lex_le(a@.skip(i as int), b@.skip(i as int)),
        decreases na - i,
    {
        if i == na {
            proof {
                assert(a@.skip(i as int) =~= Seq::<char>::empty());
            }
            return true;
        }
        if i == nb {
            proof {
                assert(b@.skip(i as int) =~= Seq::<char>::empty());
                assert(a@.skip(i as int).len() > 0);
            }
            return false;
        }
        let ca = a.get_char(i);
        let cb = b.get_char(i);
        proof {
            assert(a@.skip(i as int)[0] == a@[i as int]);
            assert(b@.skip(i as int)[0] == b@[i as int]);
            assert(a@.skip(i as int).drop_first() =~= a@.skip(i as int + 1));
            assert(b@.skip(i as int).drop_first() =~= b@.skip(i as int + 1));
        }
        if ca as u32 != cb as u32 {
            return (ca as u32) < (cb as u32);
        }
        i += 1;
    }
}

/// Sorts nodes by title: the result is ordered and holds the same nodes.
fn sort_nodes(v: &mut Vec<Node>)
    ensures
        children_sorted(final(v)@),
        final(v)@.to_multiset() == old(v)@.to_multiset(),
{
    let mut i: usize = 1;
    while i < v.len()
        invariant
            1 <= i,
            children_sorted(v@.subrange(0, if i < v@.len() {
                i as int
            } else {
                v@.len() as int
            })),
            v@.to_multiset() == old(v)@.to_multiset(),
        decreases v.len() - i,
    {
        let ghost before = v@;
        let node = v.remove(i);
        let mut pos: usize = 0;
        while pos < i && title_le(v[pos].title.as_str(), node.title.as_str())
            invariant
                pos <= i,
                i < before.len(),
                v@ == before.remove(i as int),
                node == before[i as int],
                forall|k: int| 0 <= k < pos ==> lex_le((#[trigger] v@[k]).title@, node.title@),
            decreases i - pos,
        {
            pos += 1;
        }
        let ghost removed = v@;
        v.insert(pos, node);
        proof {
            assert(v@ == removed.insert(pos as int, node));
            assert(v@.to_multiset() == removed.to_multiset().insert(node));
            assert(removed.to_multiset() == before.to_multiset().remove(before[i as int]));
            assert(before.to_multiset().count(node) >= 1) by {
                assert(before.contains(node));
            }
            assert(v@.to_multiset() =~= before.to_multiset());
            // the prefix of length i + 1 is sorted
            let sorted_prefix = before.remove(i as int).subrange(0, i as int);
            assert(children_sorted(sorted_prefix)) by {
                assert(sorted_prefix =~= before.subrange(0, i as int));
            }
            if pos < i {
                assert(!lex_le(removed[pos as int].title@, node.title@));
                lemma_lex_le_total(removed[pos as int].title@, node.title@);
            }
            assert forall|x: int, y: int| 0 <= x < y < i + 1 implies lex_le(
                (#[trigger] v@[x]).title@,
                (#[trigger] v@[y]).title@,
            ) by {
                let px = if x < pos {
                    x
                } else {
                    x - 1
                };
                let py = if y < pos {
                    y
                } else {
                    y - 1
                };
                if x == pos {
                    // v[x] is the inserted node
                    if py < i {
                        assert(v@[y] == sorted_prefix[py]);
                        if pos < i {
                            assert(lex_le(node.title@, sorted_prefix[pos as int].title@));
                            if py > pos {
                                lemma_lex_le_trans(
                                    node.title@,
                                    sorted_prefix[pos as int].title@,
                                    sorted_prefix[py].title@,
                                );
                            }
                        }
                    }
                } else if y == pos {
                    assert(v@[x] == sorted_prefix[px]);
                    assert(lex_le(sorted_prefix[px].title@, node.title@));
                } else {
                    assert(v@[x] == sorted_prefix[px]);
                    assert(v@[y] == sorted_prefix[py]);
                }
            }
            assert(children_sorted(v@.subrange(0, i as int + 1)));
        }
        i += 1;
    }
    proof {
        if v@.len() <= 1 {
            assert(children_sorted(v@));
        } else {
            assert(children_sorted(v@.subrange(0, v@.len() as int)));
            assert(v@.subrange(0, v@.len() as int) =~= v@);
        }
    }
}

impl Node {
    /// Creates a new empty node; its path starts as its bare title.
    pub fn new(title: &str, description: &str) -> (r: Node)
        ensures
            r.path@ == title@,
            r.title@ == title@,
            r.description@ == description@,
            r.children@ == Seq::<Node>::empty(),
    {
        let r = Node {
            path: title.to_owned(),
            title: title.to_owned(),
            description: description.to_owned(),
            children: Vec::new(),
        };
        proof {
            assert(r.children@ =~= Seq::<Node>::empty());
        }
        r
    }

    /// Whether the node has no children.
    pub fn is_empty(&self) -> (r: bool)
        ensures
            r == (self.children@.len() == 0),
    {
        self.children.len() == 0
    }

    /// Appends a child node; the caller re-sorts and rebuilds paths
    /// afterwards if those invariants must hold immediately.
    pub fn push(&mut self, node: Node)
        ensures
            final(self).path == old(self).path,
            final(self).title == old(self).title,
            final(self).description == old(self).description,
            final(self).children@ == old(self).children@.push(node),
    {
        self.children.push(node);
    }

    /// Sorts the children by title, keeping exactly the same child nodes.
    pub fn sort_children(&mut self)
        ensures
            final(self).path == old(self).path,
            final(self).title == old(self).title,
            final(self).description == old(self).description,
            children_sorted(final(self).children@),
            final(self).children@.to_multiset() == old(self).children@.to_multiset(),
    {
        sort_nodes(&mut self.children);
    }

    /// The path of the node's description file inside the directory `path`:
    /// a file named after the title.
    pub fn description_path(&self, path: &String) -> (r: String)
        ensures
            r@ == path@ + seq!['/'] + self.title@ + "_description.txt"@,
    {
        let mut r = path_join(path.as_str(), self.title.as_str());
        r.append("_description.txt");
        r
    }
}

/// What rebuilding paths does: under `Some(p)` the node's path becomes
/// `p/title`; under `None` the node's own path stays. Every descendant's
/// path is then rebuilt under its parent's new path.
pub open spec fn is_rebuilt(before: Node, parent: Option<Seq<char>>, after: Node) -> bool
    decreases before,
{
    &&& after.title == before.title
    &&& after.description == before.description
    &&& after.path@ == match parent {
        Some(p) => p + seq!['/'] + before.title@,
        None => before.path@,
    }
    &&& after.children@.len() == before.children@.len()
    &&& forall|i: int|
        0 <= i < before.children@.len() ==> is_rebuilt(
            before.children@[i],
            Some(after.path@),
            #[trigger] after.children@[i],
        )
}

/// Path consistency: every child's path is its parent's path plus its own
/// title, all the way down.
pub open spec fn paths_consistent(n: Node) -> bool
    decreases n,
{
    forall|i: int|
        0 <= i < n.children@.len() ==> {
            &&& (#[trigger] n.children@[i]).path@ == n.path@ + seq!['/'] + n.children@[i].title@
            &&& paths_consistent(n.children@[i])
        }
}

/// Rebuilding below an ancestor path makes the whole subtree's paths
/// consistent, with the root's path the ancestor path plus the root's title.
pub proof fn lemma_rebuilt_paths_consistent(before: Node, parent: Seq<char>, after: Node)
    requires
        is_rebuilt(before, Some(parent), after),
    ensures
        after.path@ == parent + seq!['/'] + after.title@,
        paths_consistent(after),
    decreases before,
{
    assert forall|i: int| 0 <= i < after.children@.len() implies {
        &&& (#[trigger] after.children@[i]).path@ == after.path@ + seq!['/']
            + after.children@[i].title@
        &&& paths_consistent(after.children@[i])
    } by {
        lemma_rebuilt_paths_consistent(before.children@[i], after.path@, after.children@[i]);
    }
}

/// Rebuilding below no ancestor keeps the root's path and still makes every
/// descendant's path consistent.
pub proof fn lemma_rebuilt_root_paths_consistent(before: Node, after: Node)
    requires
        is_rebuilt(before, None, after),
    ensures
        after.path@ == before.path@,
        paths_consistent(after),
{
    assert forall|i: int| 0 <= i < after.children@.len() implies {
        &&& (#[trigger] after.children@[i]).path@ == after.path@ + seq!['/']
            + after.children@[i].title@
        &&& paths_consistent(after.children@[i])
    } by {
        lemma_rebuilt_paths_consistent(before.children@[i], after.path@, after.children@[i]);
    }
}

/// Rebuilds each node of a child list below the given parent path.
fn rebuilt_children(children: &Vec<Node>, parent: &String) -> (r: Vec<Node>)
    ensures
        r@.len() == children@.len(),
        forall|j: int|
            0 <= j < children@.len() ==> is_rebuilt(children@[j], Some(parent@), #[trigger] r@[j]),
    decreases *children,
{
    let mut out: Vec<Node> = Vec::new();
    let mut i: usize = 0;
    while i < children.len()
        invariant
            out@.len() == i,
            i <= children@.len(),
            forall|j: int|
                0 <= j < i ==> is_rebuilt(children@[j], Some(parent@), #[trigger] out@[j]),
        decreases children@.len() - i,
    {
        proof {
            assert(decreases_to!(*children => children[i as int]));
        }
        out.push(rebuilt_node(&children[i], parent));
        i += 1;
    }
    out
}

/// Rebuilds one node and its subtree below the given parent path.
fn rebuilt_node(node: &Node, parent: &String) -> (r: Node)
    ensures
        is_rebuilt(*node, Some(parent@), r),
    decreases *node,
{
    let new_path = path_join(parent.as_str(), node.title.as_str());
    proof {
        assert(decreases_to!(*node => node.children));
    }
    let children = rebuilt_children(&node.children, &new_path);
    Node {
        path: new_path,
        title: node.title.clone(),
        description: node.description.clone(),
        children,
    }
}

impl Node {
    /// Rebuilds the node's path below the given ancestor path, or keeps the
    /// node's own path when none is given, and rebuilds every descendant's
    /// path below its parent's resulting path.
    pub fn rebuild_path(&mut self, path: Option<String>)
        ensures
            is_rebuilt(
                *old(self),
                match path {
                    Some(p) => Some(p@),
                    None => None,
                },
                *final(self),
            ),
    {
        match &path {
            Some(p) => {
                self.path = path_join(p.as_str(), self.title.as_str());
            },
            None => {},
        }
        let new_children = rebuilt_children(&self.children, &self.path);
        self.children = new_children;
    }
}

/// A snapshot of one directory's listing, as the filesystem hands it over:
/// the entry name, the raw contents of the description file when one could
/// be read, and the immediate subdirectories in enumeration order.
#[derive(Debug, PartialEq)]
pub struct DirSnapshot {
    /// The entry name of the directory; at the root of a load the path's
    /// last segment governs instead, and the two coincide when the snapshot
    /// was taken from that same directory.
    pub name: String,
    /// The raw text of the directory's description file, or nothing when it
    /// was absent or unreadable.
    pub description: Option<String>,
    /// The immediate subdirectories, in filesystem enumeration order.
    pub subdirs: Vec<DirSnapshot>,
}

impl DirSnapshot {
    /// A well-formed listing: every subdirectory's name is a nonempty single
    /// path segment, as real directory entries are.
    pub open spec fn wf(self) -> bool
        decreases self,
    {
        forall|i: int|
            0 <= i < self.subdirs@.len() ==> {
                &&& (#[trigger] self.subdirs@[i]).name@.len() > 0
                &&& !self.subdirs@[i].name@.contains('/')
                &&& self.subdirs@[i].wf()
            }
    }
}

/// The description a node loads: the description file's text trimmed, or the
/// placeholder when no file could be read.
pub open spec fn loaded_description(d: Option<String>) -> Seq<char> {
    match d {
        Some(t) => trimmed_of(t@),
        None => "Empty description"@,
    }
}

/// What loading a directory gives: the path itself, the path's last segment
/// as the title, the trimmed description or its placeholder, and one child
/// per subdirectory, loaded below this path and then sorted by title.
pub open spec fn is_loaded(path: Seq<char>, snap: DirSnapshot, node: Node) -> bool
    decreases snap,
{
    &&& node.path@ == path
    &&& node.title@ == last_segment(path)
    &&& node.description@ == loaded_description(snap.description)
    &&& children_sorted(node.children@)
    &&& exists|raw: Seq<Node>|
        #![trigger raw.len()]
        {
            &&& raw.len() == snap.subdirs@.len()
            &&& (forall|i: int|
                0 <= i < raw.len() ==> is_loaded(
                    path + seq!['/'] + (#[trigger] snap.subdirs@[i]).name@,
                    snap.subdirs@[i],
                    raw[i],
                ))
            &&& node.children@.to_multiset() == raw.to_multiset()
        }
}

impl Node {
    /// Loads the hierarchy that a directory snapshot shows at `path`: the
    /// directory name becomes the title, the description file supplies the
    /// description, and the subdirectories become the children, sorted by
    /// title.
    pub fn load(path: &String, snap: &DirSnapshot) -> (r: Node)
        requires
            snap.wf(),
            last_segment(path@).len() > 0,
        ensures
            is_loaded(path@, *snap, r),
        decreases *snap,
    {
        let title = last_segment_str(path.as_str());
        let description = match snap.description.as_ref() {
            Some(d) => trim_str(d.as_str()).to_owned(),
            None => "Empty description".to_owned(),
        };
        let mut children: Vec<Node> = Vec::new();
        let mut i: usize = 0;
        while i < snap.subdirs.len()
            invariant
                snap.wf(),
                last_segment(path@).len() > 0,
                children@.len() == i,
                i <= snap.subdirs@.len(),
                forall|j: int|
                    0 <= j < i ==> is_loaded(
                        path@ + seq!['/'] + (#[trigger] snap.subdirs@[j]).name@,
                        snap.subdirs@[j],
                        children@[j],
                    ),
            decreases snap.subdirs@.len() - i,
        {
            let sub = &snap.subdirs[i];
            let child_path = path_join(path.as_str(), sub.name.as_str());
            proof {
                lemma_last_segment_concat(path@, sub.name@);
                assert(decreases_to!(*snap => snap.subdirs[i as int]));
            }
            let child = Self::load(&child_path, sub);
            children.push(child);
            i += 1;
        }
        let ghost raw = children@;
        sort_nodes(&mut children);
        let r = Node { path: path.clone(), title, description, children };
        proof {
            assert(exists|w: Seq<Node>|
                #![trigger w.len()]
                {
                    &&& w.len() == snap.subdirs@.len()
                    &&& (forall|j: int|
                        0 <= j < w.len() ==> is_loaded(
                            path@ + seq!['/'] + (#[trigger] snap.subdirs@[j]).name@,
                            snap.subdirs@[j],
                            w[j],
                        ))
                    &&& r.children@.to_multiset() == w.to_multiset()
                }) by {
                assert(raw.len() == snap.subdirs@.len());
                assert(r.children@.to_multiset() == raw.to_multiset());
            }
        }
        r
    }
}

/// One write that saving performs: make sure the directory exists, then
/// write the description text into the description file.
#[derive(Debug, Clone, PartialEq)]
pub struct SaveOp {
    /// The directory to create, ancestors included, when it is missing.
    pub dir: String,
    /// The description file to create or truncate inside that directory.
    pub file: String,
    /// The exact text to write into the file.
    pub contents: String,
}

/// The view of one save operation: directory, file, and contents.
pub open spec fn op_view(op: SaveOp) -> (Seq<char>, Seq<char>, Seq<char>) {
    (op.dir@, op.file@, op.contents@)
}

/// The views of a list of save operations.
pub open spec fn ops_view(ops: Seq<SaveOp>) -> Seq<(Seq<char>, Seq<char>, Seq<char>)> {
    ops.map_values(|op: SaveOp| op_view(op))
}

/// The description file's path inside a node's own directory.
pub open spec fn spec_description_path(dir: Seq<char>, title: Seq<char>) -> Seq<char> {
    dir + seq!['/'] + title + "_description.txt"@
}

/// The writes that saving a node performs: its own directory and description
/// file first, then each child's writes in order. Every path comes from the
/// node's own `path` field, so paths must be consistent before saving.
pub open spec fn save_ops(n: Node) -> Seq<(Seq<char>, Seq<char>, Seq<char>)>
    decreases n,
{
    seq![(n.path@, spec_description_path(n.path@, n.title@), n.description@)] + save_ops_children(
        n.children@,
    )
}

/// The writes of a list of nodes, in order.
pub open spec fn save_ops_children(cs: Seq<Node>) -> Seq<(Seq<char>, Seq<char>, Seq<char>)>
    decreases cs,
{
    if cs.len() == 0 {
        Seq::<(Seq<char>, Seq<char>, Seq<char>)>::empty()
    } else {
        save_ops(cs[0]) + save_ops_children(cs.drop_first())
    }
}

proof fn lemma_save_ops_children_snoc(cs: Seq<Node>, i: int)
    requires
        0 <= i < cs.len(),
    ensures
        save_ops_children(cs.subrange(0, i + 1)) == save_ops_children(cs.subrange(0, i))
            + save_ops(cs[i]),
    decreases i,
{
    if i == 0 {
        assert(cs.subrange(0, 1).drop_first() =~= Seq::<Node>::empty());
        assert(cs.subrange(0, 1)[0] == cs[0]);
        assert(save_ops_children(Seq::<Node>::empty()) =~= Seq::<(
            Seq<char>,
            Seq<char>,
            Seq<char>,
        )>::empty());
        assert(save_ops_children(cs.subrange(0, 1)) == save_ops(cs[0]) + save_ops_children(
            Seq::<Node>::empty(),
        ));
        assert(save_ops_children(cs.subrange(0, 1)) =~= save_ops(cs[0]));
        assert(save_ops_children(cs.subrange(0, 0)) =~= Seq::<(
            Seq<char>,
            Seq<char>,
            Seq<char>,
        )>::empty());
        assert(save_ops_children(cs.subrange(0, 1)) =~= save_ops_children(cs.subrange(0, 0))
            + save_ops(cs[0]));
    } else {
        lemma_save_ops_children_snoc(cs.drop_first(), i - 1);
        assert(cs.subrange(0, i + 1).drop_first() =~= cs.drop_first().subrange(0, i));
        assert(cs.subrange(0, i).drop_first() =~= cs.drop_first().subrange(0, i - 1));
        assert(cs.subrange(0, i + 1)[0] == cs[0]);
        assert(cs.subrange(0, i)[0] == cs[0]);
        assert(cs.drop_first()[i - 1] == cs[i]);
        assert(save_ops_children(cs.subrange(0, i + 1)) =~= save_ops_children(cs.subrange(0, i))
            + save_ops(cs[i]));
    }
}

impl Node {
    /// The writes that persist this node and its subtree: its own directory
    /// and description file, then each child's writes, in order. Paths must
    /// already be consistent; callers rebuild them after structural edits.
    pub fn save_plan(&self) -> (r: Vec<SaveOp>)
        ensures
            ops_view(r@) == save_ops(*self),
        decreases *self,
    {
        let file = self.description_path(&self.path);
        let mut ops: Vec<SaveOp> = Vec::new();
        ops.push(SaveOp { dir: self.path.clone(), file, contents: self.description.clone() });
        proof {
            assert(save_ops_children(self.children@.subrange(0, 0)) =~= Seq::<(
                Seq<char>,
                Seq<char>,
                Seq<char>,
            )>::empty());
            assert(ops_view(ops@) =~= seq![
                (self.path@, spec_description_path(self.path@, self.title@), self.description@),
            ] + save_ops_children(self.children@.subrange(0, 0)));
        }
        let mut i: usize = 0;
        while i < self.children.len()
            invariant
                i <= self.children@.len(),
                ops_view(ops@) == seq![
                    (self.path@, spec_description_path(self.path@, self.title@), self.description@),
                ] + save_ops_children(self.children@.subrange(0, i as int)),
            decreases self.children@.len() - i,
        {
            proof {
                assert(decreases_to!(*self => self.children));
                assert(decreases_to!(self.children => self.children[i as int]));
            }
            let ghost before = ops@;
            let mut child_ops = self.children[i].save_plan();
            let ghost child_view = ops_view(child_ops@);
            ops.append(&mut child_ops);
            proof {
                assert(ops_view(ops@) =~= ops_view(before) + child_view);
                lemma_save_ops_children_snoc(self.children@, i as int);
                assert(ops_view(ops@) =~= seq![
                    (self.path@, spec_description_path(self.path@, self.title@), self.description@),
                ] + save_ops_children(self.children@.subrange(0, i as int + 1)));
            }
            i += 1;
        }
        proof {
            assert(self.children@.subrange(0, self.children@.len() as int) =~= self.children@);
            assert(ops_view(ops@) =~= save_ops(*self));
        }
        ops
    }
}

} // verus!
