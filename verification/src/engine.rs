//! The copy engine: applies a walk's entries to the destination.
//!
//! [`apply_one`] states what one step does — create a directory,
//! or copy a file under the size-based skip policy — and [`apply_all`]
//! folds a whole walk. [`copy_entries`] executes that fold;
//! [`copy_tree`] is the whole directory copy, mirrored-root creation
//! included; [`copy_single`] is the plain-file copy the orchestrator
//! dispatches for a non-directory source.

use vstd::prelude::*;
use crate::paths::FsPath;
use crate::policy::FileAction;
use crate::policy::plan_file;
use crate::progress::Progress;
use crate::store::DirStore;
use crate::store::StoreView;
use crate::tree::Entry;
use crate::tree::Node;
use crate::tree::WalkItem;
use crate::tree::canon_of;
use crate::tree::clone_bytes;
use crate::tree::file_count;
use crate::tree::views_of;
use crate::tree::walk_forest;
use crate::tree::walk_into;

verus! {

/// The destination after one walk entry: a directory is created (one
/// that already exists is kept), and a file is copied — skipped when a
/// file of the same size already stands at the target, removed and
/// copied anew when one of another size does.
pub open spec fn apply_one(sv: StoreView, it: WalkItem) -> StoreView {
    match it {
        WalkItem::Dir { path, .. } => StoreView { dirs: sv.dirs.insert(path), ..sv },
        WalkItem::File { path, bytes, .. } => {
            if sv.files.contains_key(path) && sv.files[path].len() == bytes.len() {
                sv
            } else {
                StoreView { files: sv.files.insert(path, bytes), ..sv }
            }
        },
    }
}

/// Whether applying `it` writes bytes, or is a skip or a directory.
pub open spec fn writes(sv: StoreView, it: WalkItem) -> bool {
    match it {
        WalkItem::Dir { .. } => false,
        WalkItem::File { path, bytes, .. } => {
            !(sv.files.contains_key(path) && sv.files[path].len() == bytes.len())
        },
    }
}

/// The destination after a whole walk, entry by entry in walk order.
pub open spec fn apply_all(sv: StoreView, items: Seq<WalkItem>) -> StoreView
    decreases items,
{
    if items.len() == 0 {
        sv
    } else {
        apply_all(apply_one(sv, items[0]), items.drop_first())
    }
}

/// How many of the entries write bytes when applied in walk order.
pub open spec fn write_count(sv: StoreView, items: Seq<WalkItem>) -> nat
    decreases items,
{
    if items.len() == 0 {
        0
    } else {
        (if writes(sv, items[0]) {
            1nat
        } else {
            0nat
        }) + write_count(apply_one(sv, items[0]), items.drop_first())
    }
}

/// A walk extended by one entry applies that entry last.
pub proof fn lemma_apply_snoc(sv: StoreView, items: Seq<WalkItem>, it: WalkItem)
    ensures
        apply_all(sv, items.push(it)) == apply_one(apply_all(sv, items), it),
        write_count(sv, items.push(it)) == write_count(sv, items) + (if writes(
            apply_all(sv, items),
            it,
        ) {
            1nat
        } else {
            0nat
        }),
    decreases items,
{
    reveal_with_fuel(apply_all, 3);
    reveal_with_fuel(write_count, 3);
    if items.len() == 0 {
        assert(items.push(it).drop_first() =~= Seq::<WalkItem>::empty());
    } else {
        assert(items.push(it)[0] == items[0]);
        assert(items.push(it).drop_first() =~= items.drop_first().push(it));
        lemma_apply_snoc(apply_one(sv, items[0]), items.drop_first(), it);
    }
}

/// A prefix of a walk holds no more files than the walk.
pub proof fn lemma_file_count_take_le(items: Seq<WalkItem>, i: int)
    requires
        0 <= i <= items.len(),
    ensures
        file_count(items.take(i)) <= file_count(items),
    decreases items.len() - i,
{
    if i == items.len() {
        assert(items.take(i) =~= items);
    } else {
        assert(items.take(i + 1).drop_last() =~= items.take(i));
        assert(items.take(i + 1).last() == items[i]);
        lemma_file_count_take_le(items, i + 1);
    }
}

/// An entry put before a walk adds one to its file count if it is a
/// file, nothing if it is a directory.
pub proof fn lemma_file_count_cons(it: WalkItem, items: Seq<WalkItem>)
    ensures
        file_count(seq![it] + items) == file_count(items) + (if it is File {
            1nat
        } else {
            0nat
        }),
    decreases items,
{
    reveal_with_fuel(file_count, 3);
    if items.len() == 0 {
        assert((seq![it] + items) =~= seq![it]);
        assert(seq![it].drop_last() =~= Seq::<WalkItem>::empty());
    } else {
        assert((seq![it] + items).drop_last() =~= seq![it] + items.drop_last());
        assert((seq![it] + items).last() == items.last());
        lemma_file_count_cons(it, items.drop_last());
    }
}

/// Executes a walk's entries against the destination, in order: creates
/// each directory, copies each file under the size-skip policy, and, when
/// progress display is on, refreshes the indicator's length from the
/// counter's value before each copy and advances its position after.
/// Returns how many files were actually written.
pub fn copy_entries(
    store: &mut DirStore,
    entries: &Vec<Entry>,
    progress: &mut Progress,
    counter: u64,
    show_progress: bool,
) -> (copied: usize)
    requires
        old(store).wf(),
        old(progress).position + file_count(views_of(entries@)) <= u64::MAX,
    ensures
        final(store).wf(),
        final(store)@ == apply_all(old(store)@, views_of(entries@)),
        copied == write_count(old(store)@, views_of(entries@)),
        final(progress).position == old(progress).position + (if show_progress {
            file_count(views_of(entries@))
        } else {
            0nat
        }),
        show_progress && file_count(views_of(entries@)) > 0 ==> final(progress).length == counter,
        !(show_progress && file_count(views_of(entries@)) > 0) ==> final(progress).length == old(
            progress,
        ).length,
{
    let ghost items = views_of(entries@);
    let mut copied: usize = 0;
    let n = entries.len();
    proof {
        assert(items.take(0) =~= Seq::<WalkItem>::empty());
    }
    for i in 0..n
        invariant
            n == entries.len(),
            items == views_of(entries@),
            old(progress).position + file_count(items) <= u64::MAX,
            store.wf(),
            store@ == apply_all(old(store)@, items.take(i as int)),
            copied == write_count(old(store)@, items.take(i as int)),
            copied <= i,
            progress.position == old(progress).position + (if show_progress {
                file_count(items.take(i as int))
            } else {
                0nat
            }),
            show_progress && file_count(items.take(i as int)) > 0 ==> progress.length == counter,
            !(show_progress && file_count(items.take(i as int)) > 0) ==> progress.length == old(
                progress,
            ).length,
    {
        let ghost it = items[i as int];
        let ghost sv = store@;
        proof {
            assert(entries@[i as int]@ == it);
            assert(items.take(i + 1) =~= items.take(i as int).push(it));
            lemma_apply_snoc(old(store)@, items.take(i as int), it);
            assert(items.take(i + 1).drop_last() =~= items.take(i as int));
            assert(items.take(i + 1).last() == it);
            lemma_file_count_take_le(items, i + 1);
        }
        match &entries[i] {
            Entry::Dir { path, .. } => {
                store.create_dir(path);
                proof {
                    assert(store@ =~= apply_one(sv, it));
                }
            },
            Entry::File { path, bytes, .. } => {
                if show_progress {
                    progress.set_length(counter);
                }
                let dest_size = store.file_size(path);
                let act = plan_file(bytes.len(), dest_size);
                let mut wrote = false;
                match act {
                    FileAction::Skip => {
                        proof {
                            assert(store@ =~= apply_one(sv, it));
                        }
                    },
                    FileAction::Fresh => {
                        store.write_new_file(path, clone_bytes(bytes));
                        wrote = true;
                        proof {
                            assert(store@ =~= apply_one(sv, it));
                        }
                    },
                    FileAction::Replace => {
                        store.remove_file(path);
                        store.write_new_file(path, clone_bytes(bytes));
                        wrote = true;
                        proof {
                            assert(sv.files.remove(path@).insert(path@, bytes@) =~= sv.files.insert(
                                path@,
                                bytes@,
                            ));
                            assert(store@ =~= apply_one(sv, it));
                        }
                    },
                }
                proof {
                    assert(wrote == writes(sv, it));
                }
                if wrote {
                    copied = copied + 1;
                }
                if show_progress {
                    progress.advance();
                }
            },
        }
    }
    proof {
        assert(items.take(n as int) =~= items);
    }
    copied
}

/// The entries a copy of the directory `source` into the directory
/// `dest` processes: the mirrored root `dest/<name of source>`, then the
/// walk of the source's children below that root.
pub open spec fn tree_plan(source: Node, dest: Seq<Seq<char>>, exclude: u64) -> Seq<WalkItem> {
    seq![
        WalkItem::Dir { path: dest.push(source->Dir_name@), canon: canon_of(source) },
    ] + walk_forest(source->Dir_children@, dest.push(source->Dir_name@), exclude)
}

/// The whole directory copy. Creates the mirrored root under `dest`
/// (one that already exists is kept), then walks `source` — skipping the
/// subtree whose canonical identity is `exclude`, the destination's —
/// creating each subdirectory and copying each file under the size-skip
/// policy. Returns how many files were actually written.
pub fn copy_tree(
    store: &mut DirStore,
    source: &Node,
    dest: &FsPath,
    exclude: u64,
    progress: &mut Progress,
    counter: u64,
    show_progress: bool,
) -> (copied: usize)
    requires
        old(store).wf(),
        *source is Dir,
        canon_of(*source) != exclude,
        old(progress).position + file_count(tree_plan(*source, dest@, exclude)) <= u64::MAX,
    ensures
        final(store).wf(),
        final(store)@ == apply_all(old(store)@, tree_plan(*source, dest@, exclude)),
        copied == write_count(old(store)@, tree_plan(*source, dest@, exclude)),
        final(progress).position == old(progress).position + (if show_progress {
            file_count(tree_plan(*source, dest@, exclude))
        } else {
            0nat
        }),
        show_progress && file_count(tree_plan(*source, dest@, exclude)) > 0
            ==> final(progress).length == counter,
        !(show_progress && file_count(tree_plan(*source, dest@, exclude)) > 0)
            ==> final(progress).length == old(progress).length,
{
    let ghost plan = tree_plan(*source, dest@, exclude);
    match source {
        Node::Dir { name, canon, children } => {
            let ghost root_item = WalkItem::Dir { path: dest@.push(name@), canon: *canon };
            let ghost sv0 = store@;
            let root = dest.child(name);
            store.create_dir(&root);
            let ghost sv1 = store@;
            proof {
                assert(plan[0] == root_item);
                assert(plan.drop_first() =~= walk_forest(children@, dest@.push(name@), exclude));
                assert(sv1 =~= apply_one(sv0, root_item));
                lemma_file_count_cons(root_item, walk_forest(children@, dest@.push(name@), exclude));
            }
            let mut entries: Vec<Entry> = Vec::new();
            walk_into(children, &root, exclude, &mut entries);
            proof {
                assert(views_of(entries@) =~= walk_forest(children@, dest@.push(name@), exclude));
            }
            let copied = copy_entries(store, &entries, progress, counter, show_progress);
            proof {
                assert(apply_all(sv0, plan) == apply_all(apply_one(sv0, root_item), plan.drop_first()));
                assert(write_count(sv0, plan) == write_count(apply_one(sv0, root_item), plan.drop_first()));
            }
            copied
        },
        Node::File { .. } => {
            proof {
                assert(false);
            }
            0
        },
    }
}

/// The target of a plain-file copy: the source's relative path re-rooted
/// inside a destination directory, or the destination path itself.
pub open spec fn single_target(
    source_rel: Seq<Seq<char>>,
    dest: Seq<Seq<char>>,
    dest_is_dir: bool,
) -> Seq<Seq<char>> {
    if dest_is_dir {
        dest + source_rel
    } else {
        dest
    }
}

/// The plain-file copy the orchestrator dispatches for a non-directory
/// source: the bytes overwrite whatever stands at the target.
pub fn copy_single(
    store: &mut DirStore,
    source_rel: &FsPath,
    bytes: &Vec<u8>,
    dest: &FsPath,
    dest_is_dir: bool,
)
    requires
        old(store).wf(),
    ensures
        final(store).wf(),
        final(store)@.files == old(store)@.files.insert(
            single_target(source_rel@, dest@, dest_is_dir),
            bytes@,
        ),
        final(store)@.dirs == old(store)@.dirs,
{
    let target = if dest_is_dir {
        dest.concat(source_rel)
    } else {
        dest.copy_of()
    };
    let ghost sv0 = store@;
    match store.file_size(&target) {
        Option::Some(_) => {
            store.remove_file(&target);
            store.write_new_file(&target, clone_bytes(bytes));
            proof {
                assert(sv0.files.remove(target@).insert(target@, bytes@) =~= sv0.files.insert(
                    target@,
                    bytes@,
                ));
            }
        },
        Option::None => {
            store.write_new_file(&target, clone_bytes(bytes));
        },
    }
}

} // verus!
