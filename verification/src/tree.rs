//! The source side of a copy: a directory tree and its traversal.
//!
//! A [`Node`] models one filesystem object. Every node carries a canonical
//! identity, the number a real filesystem would give its fully resolved
//! path; the walk compares that identity against the destination's and
//! skips the whole subtree on a match, so a destination nested inside the
//! source is never visited.
//!
//! [`walk_forest`] states what the traversal emits: the sequence of
//! entries — directories first, depth first, children in listing order —
//! that a walk of a list of siblings emits. [`walk_into`] is the
//! executable walker, and [`count_entries`] the counter that sizes a
//! progress indicator.

use vstd::prelude::*;

verus! {

/// One filesystem object on the source side: a file with its bytes, or a
/// directory with its children in listing order. `canon` is the canonical
/// identity of the node's resolved path.
pub enum Node {
    File { name: String, canon: u64, bytes: Vec<u8> },
    Dir { name: String, canon: u64, children: Vec<Node> },
}

/// One entry a walk emits: the mirrored path it should produce, the
/// canonical identity of the source node, and, for a file, its bytes.
pub enum Entry {
    Dir { path: crate::paths::FsPath, canon: u64 },
    File { path: crate::paths::FsPath, canon: u64, bytes: Vec<u8> },
}

/// The mathematical form of an [`Entry`].
pub enum WalkItem {
    Dir { path: Seq<Seq<char>>, canon: u64 },
    File { path: Seq<Seq<char>>, canon: u64, bytes: Seq<u8> },
}

impl View for Entry {
    type V = WalkItem;

    open spec fn view(&self) -> WalkItem {
        match self {
            Entry::Dir { path, canon } => WalkItem::Dir { path: path@, canon: *canon },
            Entry::File { path, canon, bytes } => WalkItem::File {
                path: path@,
                canon: *canon,
                bytes: bytes@,
            },
        }
    }
}

/// The items of a sequence of entries.
pub open spec fn views_of(s: Seq<Entry>) -> Seq<WalkItem> {
    s.map_values(|e: Entry| e@)
}

/// The name a node carries.
pub open spec fn node_name(n: Node) -> Seq<char> {
    match n {
        Node::File { name, .. } => name@,
        Node::Dir { name, .. } => name@,
    }
}

/// A well-formed sibling list, as a real filesystem yields one: no two
/// siblings share a name, at any depth.
pub open spec fn wf_forest(s: Seq<Node>) -> bool
    decreases s,
{
    if s.len() == 0 {
        true
    } else {
        (forall|j: int| 1 <= j < s.len() ==> node_name(#[trigger] s[j]) != node_name(s[0])) && (s[0] is Dir
            ==> wf_forest(s[0]->Dir_children@)) && wf_forest(s.drop_first())
    }
}

/// The canonical identity a node carries.
pub open spec fn canon_of(n: Node) -> u64 {
    match n {
        Node::File { canon, .. } => canon,
        Node::Dir { canon, .. } => canon,
    }
}

/// The entries a depth-first walk of the sibling list `s` emits, where
/// `at` is the mirrored path of the directory holding those siblings and
/// `exclude` is the canonical identity whose subtree the walk skips.
///
/// A directory is emitted before its contents; an excluded node
/// contributes nothing at all.
pub open spec fn walk_forest(s: Seq<Node>, at: Seq<Seq<char>>, exclude: u64) -> Seq<WalkItem>
    decreases s,
{
    if s.len() == 0 {
        Seq::<WalkItem>::empty()
    } else {
        let rest = walk_forest(s.drop_first(), at, exclude);
        match s[0] {
            Node::File { name, canon, bytes } => {
                if canon == exclude {
                    rest
                } else {
                    seq![WalkItem::File { path: at.push(name@), canon, bytes: bytes@ }] + rest
                }
            },
            Node::Dir { name, canon, children } => {
                if canon == exclude {
                    rest
                } else {
                    seq![WalkItem::Dir { path: at.push(name@), canon }] + walk_forest(
                        children@,
                        at.push(name@),
                        exclude,
                    ) + rest
                }
            },
        }
    }
}

/// Walking a concatenation of sibling lists emits the first list's
/// entries, then the second's.
pub proof fn lemma_walk_append(a: Seq<Node>, b: Seq<Node>, at: Seq<Seq<char>>, exclude: u64)
    ensures
        walk_forest(a + b, at, exclude) == walk_forest(a, at, exclude) + walk_forest(
            b,
            at,
            exclude,
        ),
    decreases a,
{
    if a.len() == 0 {
        assert(a + b =~= b);
        assert(walk_forest(a, at, exclude) + walk_forest(b, at, exclude) =~= walk_forest(
            b,
            at,
            exclude,
        ));
    } else {
        let ab = a + b;
        assert(ab[0] == a[0]);
        assert(ab.drop_first() =~= a.drop_first() + b);
        lemma_walk_append(a.drop_first(), b, at, exclude);
        match a[0] {
            Node::File { name, canon, bytes } => {
                if canon != exclude {
                    let item = seq![
                        WalkItem::File { path: at.push(name@), canon, bytes: bytes@ },
                    ];
                    assert(item + (walk_forest(a.drop_first(), at, exclude) + walk_forest(
                        b,
                        at,
                        exclude,
                    )) =~= (item + walk_forest(a.drop_first(), at, exclude)) + walk_forest(
                        b,
                        at,
                        exclude,
                    ));
                }
            },
            Node::Dir { name, canon, children } => {
                if canon != exclude {
                    let item = seq![WalkItem::Dir { path: at.push(name@), canon }];
                    let sub = walk_forest(children@, at.push(name@), exclude);
                    assert(item + sub + (walk_forest(a.drop_first(), at, exclude) + walk_forest(
                        b,
                        at,
                        exclude,
                    )) =~= (item + sub + walk_forest(a.drop_first(), at, exclude)) + walk_forest(
                        b,
                        at,
                        exclude,
                    ));
                }
            },
        }
    }
}

/// An exact copy of a byte vector.
pub(crate) fn clone_bytes(b: &Vec<u8>) -> (r: Vec<u8>)
    ensures
        r@ == b@,
{
    let mut r: Vec<u8> = Vec::new();
    let n = b.len();
    for i in 0..n
        invariant
            n == b.len(),
            r@.len() == i,
            forall|j: int| 0 <= j < i ==> r@[j] == b@[j],
    {
        r.push(b[i]);
    }
    proof {
        assert(r@ =~= b@);
    }
    r
}

/// The executable walker. Appends to `out` exactly the entries that
/// [`walk_forest`] gives for the sibling list `nodes` mirrored at `at`,
/// skipping every node whose canonical identity is `exclude`.
pub fn walk_into(nodes: &Vec<Node>, at: &crate::paths::FsPath, exclude: u64, out: &mut Vec<Entry>)
    ensures
        views_of(final(out)@) == views_of(old(out)@) + walk_forest(nodes@, at@, exclude),
    decreases nodes@,
{
    let n = nodes.len();
    proof {
        assert(nodes@.take(0) =~= Seq::<Node>::empty());
        reveal_with_fuel(walk_forest, 2);
        assert(views_of(out@) =~= views_of(out@) + walk_forest(nodes@.take(0), at@, exclude));
    }
    for i in 0..n
        invariant
            n == nodes.len(),
            views_of(out@) == views_of(old(out)@) + walk_forest(
                nodes@.take(i as int),
                at@,
                exclude,
            ),
    {
        let ghost prev = out@;
        let ghost nd = nodes@[i as int];
        proof {
            reveal_with_fuel(walk_forest, 3);
            assert(nodes@.take(i + 1) =~= nodes@.take(i as int) + seq![nd]);
            lemma_walk_append(nodes@.take(i as int), seq![nd], at@, exclude);
            assert(seq![nd].drop_first() =~= Seq::<Node>::empty());
        }
        let ghost walked = walk_forest(seq![nd], at@, exclude);
        match &nodes[i] {
            Node::File { name, canon, bytes } => {
                proof {
                    assert(nd == Node::File { name: *name, canon: *canon, bytes: *bytes });
                }
                if *canon != exclude {
                    let ghost item = WalkItem::File {
                        path: at@.push(name@),
                        canon: *canon,
                        bytes: bytes@,
                    };
                    let e = Entry::File {
                        path: at.child(name),
                        canon: *canon,
                        bytes: clone_bytes(bytes),
                    };
                    proof {
                        assert(e@ == item);
                    }
                    out.push(e);
                    proof {
                        assert(walked =~= seq![item]);
                        assert(views_of(out@) =~= views_of(prev).push(item));
                        assert(views_of(out@) =~= views_of(old(out)@) + walk_forest(
                            nodes@.take(i + 1),
                            at@,
                            exclude,
                        ));
                    }
                } else {
                    proof {
                        assert(walked =~= Seq::<WalkItem>::empty());
                        assert(views_of(out@) =~= views_of(old(out)@) + walk_forest(
                            nodes@.take(i + 1),
                            at@,
                            exclude,
                        ));
                    }
                }
            },
            Node::Dir { name, canon, children } => {
                proof {
                    assert(nd == Node::Dir {
                        name: *name,
                        canon: *canon,
                        children: *children,
                    });
                }
                if *canon != exclude {
                    let sub = at.child(name);
                    let ghost item = WalkItem::Dir { path: at@.push(name@), canon: *canon };
                    let e = Entry::Dir { path: sub.copy_of(), canon: *canon };
                    proof {
                        assert(e@ == item);
                    }
                    out.push(e);
                    let ghost mid = out@;
                    proof {
                        assert(views_of(mid) =~= views_of(prev).push(item));
                        assert(decreases_to!(nodes@ => nd));
                        assert(decreases_to!(nd => nd->Dir_children));
                        assert(decreases_to!(nd->Dir_children => nd->Dir_children@));
                        assert(nd->Dir_children@ == children@);
                        assert(decreases_to!(nodes@ => children@));
                    }
                    walk_into(children, &sub, exclude, out);
                    proof {
                        let subw = walk_forest(children@, at@.push(name@), exclude);
                        assert(views_of(out@) == views_of(mid) + subw);
                        assert(walked =~= seq![item] + subw);
                        assert(views_of(out@) =~= views_of(prev) + walked);
                        assert(views_of(out@) =~= views_of(old(out)@) + walk_forest(
                            nodes@.take(i + 1),
                            at@,
                            exclude,
                        ));
                    }
                } else {
                    proof {
                        assert(walked =~= Seq::<WalkItem>::empty());
                        assert(views_of(out@) =~= views_of(old(out)@) + walk_forest(
                            nodes@.take(i + 1),
                            at@,
                            exclude,
                        ));
                    }
                }
            },
        }
    }
    proof {
        assert(nodes@.take(n as int) =~= nodes@);
    }
}

/// How many of the items are files.
pub open spec fn file_count(items: Seq<WalkItem>) -> nat
    decreases items,
{
    if items.len() == 0 {
        0
    } else {
        file_count(items.drop_last()) + if items.last() is File {
            1nat
        } else {
            0nat
        }
    }
}

/// Counts the file entries in a walk's output.
pub fn count_entries(entries: &Vec<Entry>) -> (r: usize)
    ensures
        r == file_count(views_of(entries@)),
{
    let mut r: usize = 0;
    let n = entries.len();
    proof {
        assert(views_of(entries@.take(0)) =~= Seq::<WalkItem>::empty());
    }
    for i in 0..n
        invariant
            n == entries.len(),
            r <= i,
            r == file_count(views_of(entries@.take(i as int))),
    {
        proof {
            assert(views_of(entries@.take(i + 1)).drop_last() =~= views_of(
                entries@.take(i as int),
            ));
            assert(views_of(entries@.take(i + 1)).last() == entries@[i as int]@);
        }
        match &entries[i] {
            Entry::File { .. } => {
                r = r + 1;
            },
            Entry::Dir { .. } => {
            },
        }
    }
    proof {
        assert(entries@.take(n as int) =~= entries@);
    }
    r
}

/// The model of the background counter: how many files a walk of the
/// sibling list `nodes`, mirrored at `at` and excluding `exclude`, would
/// visit. The real counter feeds this number to the progress indicator
/// while the copy runs.
pub fn count_files(nodes: &Vec<Node>, at: &crate::paths::FsPath, exclude: u64) -> (r: usize)
    ensures
        r == file_count(walk_forest(nodes@, at@, exclude)),
{
    let mut out: Vec<Entry> = Vec::new();
    walk_into(nodes, at, exclude, &mut out);
    proof {
        assert(views_of(out@) =~= walk_forest(nodes@, at@, exclude));
    }
    count_entries(&out)
}

} // verus!
