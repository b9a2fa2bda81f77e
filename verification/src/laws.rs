//! What the copy engine guarantees, stated over whole walks: coverage of
//! every emitted file and directory, idempotence of a repeated run, the
//! replacement of stale files, and the exclusion of the destination's
//! subtree from the walk.

use vstd::prelude::*;
use crate::engine::apply_all;
use crate::engine::tree_plan;
use crate::engine::apply_one;
use crate::engine::write_count;
use crate::engine::writes;
use crate::store::StoreView;
use crate::tree::Node;
use crate::tree::WalkItem;
use crate::tree::canon_of;
use crate::tree::node_name;
use crate::tree::walk_forest;
use crate::tree::wf_forest;

verus! {

/// No two file entries of the walk name the same target, as a walk of a
/// real directory tree cannot.
pub open spec fn distinct_file_paths(items: Seq<WalkItem>) -> bool {
    forall|i: int, j: int|
        0 <= i < j < items.len() && items[i] is File && items[j] is File
            ==> items[i]->File_path != items[j]->File_path
}

/// The destination holds no trap for the size-based skip: wherever a
/// destination file already has a source file's size, it already has its
/// bytes too.
pub open spec fn unpolluted(sv: StoreView, items: Seq<WalkItem>) -> bool {
    forall|i: int|
        0 <= i < items.len() && items[i] is File && sv.files.contains_key(items[i]->File_path)
            && sv.files[items[i]->File_path].len() == items[i]->File_bytes.len()
            ==> sv.files[items[i]->File_path] == items[i]->File_bytes
}

/// Every entry of the walk is already satisfied: each file stands at its
/// path with the source's size, each directory exists.
pub open spec fn all_satisfied(sv: StoreView, items: Seq<WalkItem>) -> bool {
    forall|i: int|
        0 <= i < items.len() ==> match #[trigger] items[i] {
            WalkItem::File { path, bytes, .. } => {
                sv.files.contains_key(path) && sv.files[path].len() == bytes.len()
            },
            WalkItem::Dir { path, .. } => sv.dirs.contains(path),
        }
}

/// A path no file entry names is untouched by the run, and existing
/// directories are kept.
pub proof fn lemma_apply_frame(sv: StoreView, items: Seq<WalkItem>, p: Seq<Seq<char>>)
    requires
        forall|i: int|
            0 <= i < items.len() && items[i] is File ==> items[i]->File_path != p,
    ensures
        apply_all(sv, items).files.contains_key(p) == sv.files.contains_key(p),
        sv.files.contains_key(p) ==> apply_all(sv, items).files[p] == sv.files[p],
    decreases items,
{
    if items.len() > 0 {
        let rest = items.drop_first();
        assert(forall|i: int| 0 <= i < rest.len() ==> rest[i] == items[i + 1]);
        lemma_apply_frame(apply_one(sv, items[0]), rest, p);
    }
}

/// A run never removes a directory.
pub proof fn lemma_dirs_monotone(sv: StoreView, items: Seq<WalkItem>, p: Seq<Seq<char>>)
    requires
        sv.dirs.contains(p),
    ensures
        apply_all(sv, items).dirs.contains(p),
    decreases items,
{
    if items.len() > 0 {
        lemma_dirs_monotone(apply_one(sv, items[0]), items.drop_first(), p);
    }
}

/// Coverage: after a run, every file the walk emits stands at its
/// mirrored path with the source file's size — and with its exact bytes,
/// wherever the destination held no same-size file of other bytes — and
/// every directory the walk emits exists.
pub proof fn law_copy_covers(sv: StoreView, items: Seq<WalkItem>)
    requires
        distinct_file_paths(items),
    ensures
        forall|i: int|
            0 <= i < items.len() && items[i] is File ==> apply_all(sv, items).files.contains_key(
                #[trigger] items[i]->File_path,
            ) && apply_all(sv, items).files[items[i]->File_path].len()
                == items[i]->File_bytes.len(),
        unpolluted(sv, items) ==> forall|i: int|
            0 <= i < items.len() && items[i] is File ==> apply_all(sv, items).files[
                #[trigger] items[i]->File_path
            ] == items[i]->File_bytes,
        forall|i: int|
            0 <= i < items.len() && items[i] is Dir ==> apply_all(sv, items).dirs.contains(
                #[trigger] items[i]->Dir_path,
            ),
    decreases items,
{
    if items.len() > 0 {
        let it = items[0];
        let rest = items.drop_first();
        let sv1 = apply_one(sv, it);
        let after = apply_all(sv, items);
        assert(forall|i: int| 0 <= i < rest.len() ==> rest[i] == items[i + 1]);
        assert(distinct_file_paths(rest));
        law_copy_covers(sv1, rest);
        assert(after == apply_all(sv1, rest));
        if unpolluted(sv, items) {
            assert(unpolluted(sv1, rest)) by {
                assert forall|i: int|
                    0 <= i < rest.len() && rest[i] is File && sv1.files.contains_key(
                        rest[i]->File_path,
                    ) && sv1.files[rest[i]->File_path].len() == rest[i]->File_bytes.len() implies sv1.files[
                    rest[i]->File_path
                ] == rest[i]->File_bytes by {
                    let q = rest[i]->File_path;
                    if it is File {
                        assert(it->File_path != q);
                        assert(sv1.files.contains_key(q) == sv.files.contains_key(q));
                        if sv.files.contains_key(q) {
                            assert(sv1.files[q] == sv.files[q]);
                        }
                    }
                }
            }
        }
        match it {
            WalkItem::File { path, bytes, .. } => {
                assert(sv1.files.contains_key(path) && sv1.files[path].len() == bytes.len());
                assert(forall|i: int|
                    0 <= i < rest.len() && rest[i] is File ==> rest[i]->File_path != path);
                lemma_apply_frame(sv1, rest, path);
                if unpolluted(sv, items) {
                    assert(sv1.files[path] == bytes);
                }
            },
            WalkItem::Dir { path, .. } => {
                assert(sv1.dirs.contains(path));
                lemma_dirs_monotone(sv1, rest, path);
            },
        }
        assert forall|i: int| 0 <= i < items.len() && items[i] is File implies after.files.contains_key(
            #[trigger] items[i]->File_path,
        ) && after.files[items[i]->File_path].len() == items[i]->File_bytes.len() by {
            if i > 0 {
                assert(items[i] == rest[i - 1]);
                assert(after.files.contains_key(rest[i - 1]->File_path) && after.files[
                    rest[i - 1]->File_path
                ].len() == rest[i - 1]->File_bytes.len());
            }
        }
        if unpolluted(sv, items) {
            assert forall|i: int| 0 <= i < items.len() && items[i] is File implies after.files[
                #[trigger] items[i]->File_path
            ] == items[i]->File_bytes by {
                if i > 0 {
                    assert(items[i] == rest[i - 1]);
                    assert(after.files[rest[i - 1]->File_path] == rest[i - 1]->File_bytes);
                }
            }
        }
        assert forall|i: int| 0 <= i < items.len() && items[i] is Dir implies after.dirs.contains(
            #[trigger] items[i]->Dir_path,
        ) by {
            if i > 0 {
                assert(items[i] == rest[i - 1]);
                assert(after.dirs.contains(rest[i - 1]->Dir_path));
            }
        }
    }
}

/// A run whose every entry is already satisfied changes nothing and
/// writes nothing.
pub proof fn lemma_satisfied_run_is_noop(sv: StoreView, items: Seq<WalkItem>)
    requires
        all_satisfied(sv, items),
    ensures
        apply_all(sv, items) == sv,
        write_count(sv, items) == 0,
    decreases items,
{
    if items.len() > 0 {
        let it = items[0];
        let rest = items.drop_first();
        assert(forall|i: int| 0 <= i < rest.len() ==> rest[i] == items[i + 1]);
        match it {
            WalkItem::File { path, bytes, .. } => {
                assert(!writes(sv, it));
                assert(apply_one(sv, it) == sv);
            },
            WalkItem::Dir { path, .. } => {
                assert(sv.dirs.insert(path) =~= sv.dirs);
                assert(apply_one(sv, it) =~= sv);
                assert(apply_one(sv, it) == sv);
            },
        }
        assert(all_satisfied(sv, rest));
        lemma_satisfied_run_is_noop(sv, rest);
    }
}

/// Idempotence: a second run over the same walk leaves the destination
/// exactly as the first left it, and writes no file at all.
pub proof fn law_idempotent(sv: StoreView, items: Seq<WalkItem>)
    requires
        distinct_file_paths(items),
    ensures
        apply_all(apply_all(sv, items), items) == apply_all(sv, items),
        write_count(apply_all(sv, items), items) == 0,
{
    let after = apply_all(sv, items);
    law_copy_covers(sv, items);
    assert(all_satisfied(after, items)) by {
        assert forall|i: int| 0 <= i < items.len() implies match #[trigger] items[i] {
            WalkItem::File { path, bytes, .. } => {
                after.files.contains_key(path) && after.files[path].len() == bytes.len()
            },
            WalkItem::Dir { path, .. } => after.dirs.contains(path),
        } by {
            if items[i] is File {
                assert(after.files.contains_key(items[i]->File_path) && after.files[
                    items[i]->File_path
                ].len() == items[i]->File_bytes.len());
            } else {
                assert(after.dirs.contains(items[i]->Dir_path));
            }
        }
    }
    lemma_satisfied_run_is_noop(after, items);
}

/// A destination file whose size differs from the source's is written:
/// after the step it holds exactly the source's bytes.
pub proof fn law_replace_stale(sv: StoreView, it: WalkItem)
    requires
        it is File,
        sv.files.contains_key(it->File_path),
        sv.files[it->File_path].len() != it->File_bytes.len(),
    ensures
        writes(sv, it),
        apply_one(sv, it).files[it->File_path] == it->File_bytes,
{
}

/// An excluded node contributes nothing at all: the walk of a sibling
/// list equals the walk of the list without that node, so none of the
/// excluded directory's own files or subdirectories is ever visited or
/// copied — a destination nested inside the source never feeds itself.
pub proof fn law_excluded_contributes_nothing(
    s: Seq<Node>,
    k: int,
    at: Seq<Seq<char>>,
    exclude: u64,
)
    requires
        0 <= k < s.len(),
        canon_of(s[k]) == exclude,
    ensures
        walk_forest(s, at, exclude) == walk_forest(s.remove(k), at, exclude),
    decreases k,
{
    if k == 0 {
        assert(s.remove(0) =~= s.drop_first());
    } else {
        let tail = s.drop_first();
        assert(tail[k - 1] == s[k]);
        law_excluded_contributes_nothing(tail, k - 1, at, exclude);
        assert(s.remove(k)[0] == s[0]);
        assert(s.remove(k).drop_first() =~= tail.remove(k - 1));
        assert(s.remove(k).len() > 0);
    }
}

/// The path an entry names.
pub open spec fn item_path(it: WalkItem) -> Seq<Seq<char>> {
    match it {
        WalkItem::Dir { path, .. } => path,
        WalkItem::File { path, .. } => path,
    }
}

/// The entry's path lies strictly below `at`.
pub open spec fn extends_at(it: WalkItem, at: Seq<Seq<char>>) -> bool {
    item_path(it).len() > at.len() && item_path(it).subrange(0, at.len() as int) == at
}

/// No two entries of the walk name the same path.
pub open spec fn distinct_paths(items: Seq<WalkItem>) -> bool {
    forall|i: int, j: int|
        0 <= i < j < items.len() ==> item_path(items[i]) != item_path(items[j])
}

/// A walk of a well-formed sibling list emits pairwise distinct paths,
/// all strictly below `at`, each starting with the name of one of the
/// siblings.
pub proof fn lemma_walk_distinct(s: Seq<Node>, at: Seq<Seq<char>>, exclude: u64)
    requires
        wf_forest(s),
    ensures
        distinct_paths(walk_forest(s, at, exclude)),
        forall|i: int|
            0 <= i < walk_forest(s, at, exclude).len() ==> extends_at(
                #[trigger] walk_forest(s, at, exclude)[i],
                at,
            ),
        forall|i: int|
            0 <= i < walk_forest(s, at, exclude).len() ==> exists|j: int|
                0 <= j < s.len() && item_path(#[trigger] walk_forest(s, at, exclude)[i])[
                    at.len() as int
                ] == node_name(s[j]),
    decreases s,
{
    if s.len() > 0 {
        let items = walk_forest(s, at, exclude);
        let tail = s.drop_first();
        let rest = walk_forest(tail, at, exclude);
        assert(wf_forest(tail));
        lemma_walk_distinct(tail, at, exclude);
        assert(forall|j: int| 0 <= j < tail.len() ==> tail[j] == s[j + 1]);
        match s[0] {
            Node::File { name, canon, bytes } => {
                if canon == exclude {
                    assert(items == rest);
                    assert forall|i: int| 0 <= i < items.len() implies exists|j: int|
                        0 <= j < s.len() && item_path(#[trigger] items[i])[at.len() as int]
                            == node_name(s[j]) by {
                        let j0 = choose|j0: int|
                            0 <= j0 < tail.len() && item_path(rest[i])[at.len() as int]
                                == node_name(tail[j0]);
                        assert(item_path(items[i])[at.len() as int] == node_name(s[j0 + 1]));
                    }
                } else {
                    let head = WalkItem::File { path: at.push(name@), canon, bytes: bytes@ };
                    let single = seq![head];
                    assert(items == single + rest);
                    assert(item_path(head) == at.push(name@));
                    assert(extends_at(head, at)) by {
                        assert(at.push(name@).subrange(0, at.len() as int) =~= at);
                    }
                    assert(item_path(head)[at.len() as int] == node_name(s[0]));
                    assert(single + Seq::<WalkItem>::empty() + rest =~= single + rest);
                    lemma_split_facts(s, at, exclude, single, Seq::<WalkItem>::empty(), rest, name@);
                }
            },
            Node::Dir { name, canon, children } => {
                if canon == exclude {
                    assert(items == rest);
                    assert forall|i: int| 0 <= i < items.len() implies exists|j: int|
                        0 <= j < s.len() && item_path(#[trigger] items[i])[at.len() as int]
                            == node_name(s[j]) by {
                        let j0 = choose|j0: int|
                            0 <= j0 < tail.len() && item_path(rest[i])[at.len() as int]
                                == node_name(tail[j0]);
                        assert(item_path(items[i])[at.len() as int] == node_name(s[j0 + 1]));
                    }
                } else {
                    let head = WalkItem::Dir { path: at.push(name@), canon };
                    let single = seq![head];
                    let below = at.push(name@);
                    let sub = walk_forest(children@, below, exclude);
                    assert(wf_forest(children@));
                    lemma_walk_distinct(children@, below, exclude);
                    assert(items == single + sub + rest);
                    assert(extends_at(head, at)) by {
                        assert(at.push(name@).subrange(0, at.len() as int) =~= at);
                    }
                    assert forall|i: int| 0 <= i < sub.len() implies extends_at(
                        #[trigger] sub[i],
                        at,
                    ) && item_path(sub[i])[at.len() as int] == name@ && item_path(sub[i]).len()
                        > at.len() + 1 by {
                        assert(extends_at(sub[i], below));
                        let p = item_path(sub[i]);
                        assert(p.subrange(0, below.len() as int) == below);
                        assert(p.subrange(0, at.len() as int) =~= at) by {
                            assert(forall|k: int|
                                0 <= k < below.len() ==> p.subrange(0, below.len() as int)[k] == p[
                                    k
                                ]);
                        }
                        assert(p[at.len() as int] == p.subrange(0, below.len() as int)[
                            at.len() as int
                        ]);
                    }
                    lemma_split_facts(s, at, exclude, single, sub, rest, name@);
                }
            },
        }
    }
}

/// The split of one walk step: the head entry, the head's subtree
/// entries, then the remaining siblings' entries, with everything the
/// induction needs to tell them apart.
proof fn lemma_split_facts(
    s: Seq<Node>,
    at: Seq<Seq<char>>,
    exclude: u64,
    single: Seq<WalkItem>,
    sub: Seq<WalkItem>,
    rest: Seq<WalkItem>,
    head_name: Seq<char>,
)
    requires
        s.len() > 0,
        walk_forest(s, at, exclude) == single + sub + rest,
        single.len() <= 1,
        forall|i: int| 0 <= i < single.len() ==> item_path(#[trigger] single[i]) == at.push(
            head_name,
        ),
        forall|i: int|
            0 <= i < sub.len() ==> extends_at(#[trigger] sub[i], at) && item_path(sub[i])[
                at.len() as int
            ] == head_name && item_path(sub[i]).len() > at.len() + 1,
        distinct_paths(sub),
        rest == walk_forest(s.drop_first(), at, exclude),
        distinct_paths(rest),
        forall|i: int| 0 <= i < rest.len() ==> extends_at(#[trigger] rest[i], at),
        forall|i: int|
            0 <= i < rest.len() ==> exists|j: int|
                0 <= j < s.drop_first().len() && item_path(#[trigger] rest[i])[at.len() as int]
                    == node_name(s.drop_first()[j]),
        head_name == node_name(s[0]),
        forall|j: int| 1 <= j < s.len() ==> node_name(#[trigger] s[j]) != node_name(s[0]),
    ensures
        distinct_paths(walk_forest(s, at, exclude)),
        forall|i: int|
            0 <= i < walk_forest(s, at, exclude).len() ==> extends_at(
                #[trigger] walk_forest(s, at, exclude)[i],
                at,
            ),
        forall|i: int|
            0 <= i < walk_forest(s, at, exclude).len() ==> exists|j: int|
                0 <= j < s.len() && item_path(#[trigger] walk_forest(s, at, exclude)[i])[
                    at.len() as int
                ] == node_name(s[j]),
{
    let items = walk_forest(s, at, exclude);
    let tail = s.drop_first();
    assert(forall|j: int| 0 <= j < tail.len() ==> tail[j] == s[j + 1]);
    let a = single.len() as int;
    let b = a + sub.len() as int;
    assert forall|i: int| 0 <= i < items.len() implies extends_at(#[trigger] items[i], at) by {
        if i < a {
            assert(items[i] == single[i]);
            assert(at.push(head_name).subrange(0, at.len() as int) =~= at);
        } else if i < b {
            assert(items[i] == (single + sub)[i]);
            assert(items[i] == sub[i - a]);
        } else {
            assert(items[i] == rest[i - b]);
        }
    }
    assert forall|i: int| 0 <= i < items.len() implies item_path(#[trigger] items[i])[
        at.len() as int
    ] == if i < b {
        head_name
    } else {
        item_path(rest[i - b])[at.len() as int]
    } by {
        if i < a {
            assert(items[i] == single[i]);
        } else if i < b {
            assert(items[i] == (single + sub)[i]);
            assert(items[i] == sub[i - a]);
        } else {
            assert(items[i] == rest[i - b]);
        }
    }
    assert forall|i: int| 0 <= i < items.len() implies exists|j: int|
        0 <= j < s.len() && item_path(#[trigger] items[i])[at.len() as int] == node_name(
            s[j],
        ) by {
        if i < b {
            assert(item_path(items[i])[at.len() as int] == node_name(s[0]));
        } else {
            let j0 = choose|j0: int|
                0 <= j0 < tail.len() && item_path(rest[i - b])[at.len() as int] == node_name(
                    tail[j0],
                );
            assert(item_path(items[i])[at.len() as int] == node_name(s[j0 + 1]));
        }
    }
    assert forall|i: int, j: int| 0 <= i < j < items.len() implies item_path(items[i])
        != item_path(items[j]) by {
        if j < b {
            if i < a {
                assert(items[i] == single[i]);
                assert(items[j] == (single + sub)[j]);
                assert(items[j] == sub[j - a]);
                assert(item_path(items[i]).len() == at.len() + 1);
                assert(item_path(items[j]).len() > at.len() + 1);
            } else {
                assert(items[i] == (single + sub)[i]);
                assert(items[i] == sub[i - a]);
                assert(items[j] == (single + sub)[j]);
                assert(items[j] == sub[j - a]);
                assert(item_path(sub[i - a]) != item_path(sub[j - a]));
            }
        } else if i < b {
            let jr = j - b;
            let j0 = choose|j0: int|
                0 <= j0 < tail.len() && item_path(rest[jr])[at.len() as int] == node_name(
                    tail[j0],
                );
            assert(item_path(items[j])[at.len() as int] == node_name(s[j0 + 1]));
            assert(node_name(s[j0 + 1]) != head_name);
            assert(item_path(items[i])[at.len() as int] == head_name);
        } else {
            assert(items[i] == rest[i - b]);
            assert(items[j] == rest[j - b]);
            assert(item_path(rest[i - b]) != item_path(rest[j - b]));
        }
    }
}

/// Distinct paths give distinct file paths.
pub proof fn lemma_distinct_files(items: Seq<WalkItem>)
    requires
        distinct_paths(items),
    ensures
        distinct_file_paths(items),
{
    assert forall|i: int, j: int|
        0 <= i < j < items.len() && items[i] is File && items[j] is File implies items[
        i
    ]->File_path != items[j]->File_path by {
        assert(item_path(items[i]) != item_path(items[j]));
    }
}

/// The canonical identity an entry carries.
pub open spec fn item_canon(it: WalkItem) -> u64 {
    match it {
        WalkItem::Dir { canon, .. } => canon,
        WalkItem::File { canon, .. } => canon,
    }
}

/// Exclusion: the walk never emits an entry of the excluded object —
/// a destination nested inside the source is never visited, so a copy
/// never feeds the destination into itself.
pub proof fn law_walk_excludes(s: Seq<Node>, at: Seq<Seq<char>>, exclude: u64)
    ensures
        forall|i: int|
            0 <= i < walk_forest(s, at, exclude).len() ==> item_canon(
                #[trigger] walk_forest(s, at, exclude)[i],
            ) != exclude,
    decreases s,
{
    if s.len() > 0 {
        let items = walk_forest(s, at, exclude);
        let rest = walk_forest(s.drop_first(), at, exclude);
        law_walk_excludes(s.drop_first(), at, exclude);
        match s[0] {
            Node::File { name, canon, bytes } => {
                if canon != exclude {
                    let single = seq![
                        WalkItem::File { path: at.push(name@), canon, bytes: bytes@ },
                    ];
                    assert(items == single + rest);
                    assert forall|i: int| 0 <= i < items.len() implies item_canon(
                        #[trigger] items[i],
                    ) != exclude by {
                        if i == 0 {
                            assert(items[i] == single[0]);
                        } else {
                            assert(items[i] == rest[i - 1]);
                        }
                    }
                }
            },
            Node::Dir { name, canon, children } => {
                if canon != exclude {
                    let sub = walk_forest(children@, at.push(name@), exclude);
                    law_walk_excludes(children@, at.push(name@), exclude);
                    let single = seq![WalkItem::Dir { path: at.push(name@), canon }];
                    assert(items == single + sub + rest);
                    assert forall|i: int| 0 <= i < items.len() implies item_canon(
                        #[trigger] items[i],
                    ) != exclude by {
                        if i == 0 {
                            assert(items[i] == single[0]);
                        } else if i <= sub.len() {
                            assert(items[i] == (single + sub)[i]);
                            assert(items[i] == sub[i - 1]);
                        } else {
                            assert(items[i] == rest[i - 1 - sub.len()]);
                        }
                    }
                }
            },
        }
    }
}

/// A whole tree copy of a well-formed tree has distinct file targets:
/// the mirrored root is a directory, and the walk below it never names
/// one path twice.
pub proof fn lemma_tree_plan_distinct(source: Node, dest: Seq<Seq<char>>, exclude: u64)
    requires
        source is Dir,
        wf_forest(source->Dir_children@),
    ensures
        distinct_file_paths(tree_plan(source, dest, exclude)),
{
    let plan = tree_plan(source, dest, exclude);
    let root = dest.push(source->Dir_name@);
    let sub = walk_forest(source->Dir_children@, root, exclude);
    lemma_walk_distinct(source->Dir_children@, root, exclude);
    lemma_distinct_files(sub);
    assert forall|i: int, j: int|
        0 <= i < j < plan.len() && plan[i] is File && plan[j] is File implies plan[i]->File_path
        != plan[j]->File_path by {
        assert(plan[i] == sub[i - 1]);
        assert(plan[j] == sub[j - 1]);
    }
}

/// Coverage of a whole tree copy: after the engine copies a well-formed
/// directory tree, every file its walk emits stands at its mirrored path
/// under the destination with the source file's size — with its exact
/// bytes wherever the destination held no same-size file of other bytes
/// — and every directory, the mirrored root included, exists.
pub proof fn law_tree_copy_covers(sv: StoreView, source: Node, dest: Seq<Seq<char>>, exclude: u64)
    requires
        source is Dir,
        wf_forest(source->Dir_children@),
    ensures
        forall|i: int|
            0 <= i < tree_plan(source, dest, exclude).len() && tree_plan(source, dest, exclude)[i] is File
                ==> apply_all(sv, tree_plan(source, dest, exclude)).files.contains_key(
                #[trigger] tree_plan(source, dest, exclude)[i]->File_path,
            ) && apply_all(sv, tree_plan(source, dest, exclude)).files[
                tree_plan(source, dest, exclude)[i]->File_path
            ].len() == tree_plan(source, dest, exclude)[i]->File_bytes.len(),
        unpolluted(sv, tree_plan(source, dest, exclude)) ==> forall|i: int|
            0 <= i < tree_plan(source, dest, exclude).len() && tree_plan(source, dest, exclude)[i] is File
                ==> apply_all(sv, tree_plan(source, dest, exclude)).files[
                #[trigger] tree_plan(source, dest, exclude)[i]->File_path
            ] == tree_plan(source, dest, exclude)[i]->File_bytes,
        forall|i: int|
            0 <= i < tree_plan(source, dest, exclude).len() && tree_plan(source, dest, exclude)[i] is Dir
                ==> apply_all(sv, tree_plan(source, dest, exclude)).dirs.contains(
                #[trigger] tree_plan(source, dest, exclude)[i]->Dir_path,
            ),
{
    lemma_tree_plan_distinct(source, dest, exclude);
    law_copy_covers(sv, tree_plan(source, dest, exclude));
}

/// Idempotence of a whole tree copy: running the engine a second time
/// over the same well-formed tree leaves the destination exactly as the
/// first run left it, and writes no file at all.
pub proof fn law_tree_idempotent(sv: StoreView, source: Node, dest: Seq<Seq<char>>, exclude: u64)
    requires
        source is Dir,
        wf_forest(source->Dir_children@),
    ensures
        apply_all(apply_all(sv, tree_plan(source, dest, exclude)), tree_plan(source, dest, exclude))
            == apply_all(sv, tree_plan(source, dest, exclude)),
        write_count(apply_all(sv, tree_plan(source, dest, exclude)), tree_plan(source, dest, exclude))
            == 0,
{
    lemma_tree_plan_distinct(source, dest, exclude);
    law_idempotent(sv, tree_plan(source, dest, exclude));
}

} // verus!
