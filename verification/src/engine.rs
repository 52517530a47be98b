use vstd::prelude::*;

use crate::record::{
    path_of, path_view, paths_view, delete_action, Action, ActionKind, FileRecord,
};
use crate::level::{make_diff, spec_level_diff};

verus! {

/// `p` names a direct child of the directory `dir`: one component longer,
/// and equal to `dir` up to its last component.
pub open spec fn is_child(p: Seq<Seq<char>>, dir: Seq<Seq<char>>) -> bool {
    p.len() == dir.len() + 1 && p.drop_last() == dir
}

/// Splits a tree into the direct children of `dir` and the rest, both in
/// the order they stand in the tree.
pub open spec fn spec_extract(tree: Seq<FileRecord>, dir: Seq<Seq<char>>) -> (
    Seq<FileRecord>,
    Seq<FileRecord>,
)
    decreases tree.len(),
{
    if tree.len() == 0 {
        (Seq::<FileRecord>::empty(), Seq::<FileRecord>::empty())
    } else {
        let rest = spec_extract(tree.drop_first(), dir);
        if is_child(path_of(tree[0]), dir) {
            (seq![tree[0]] + rest.0, rest.1)
        } else {
            (rest.0, seq![tree[0]] + rest.1)
        }
    }
}

/// Extraction splits a tree without losing or inventing entries.
pub proof fn lemma_extract_len(tree: Seq<FileRecord>, dir: Seq<Seq<char>>)
    ensures
        spec_extract(tree, dir).0.len() + spec_extract(tree, dir).1.len() == tree.len(),
    decreases tree.len(),
{
    if tree.len() > 0 {
        lemma_extract_len(tree.drop_first(), dir);
    }
}

/// A level of the diff enqueues at most one sub-directory per source record.
pub proof fn lemma_subdirs_bound(src: Seq<FileRecord>, dst: Seq<FileRecord>)
    ensures
        spec_level_diff(src, dst).2.len() <= src.len(),
    decreases src.len(),
{
    if src.len() > 0 {
        let s = src[0];
        match crate::level::first_match(dst, path_of(s)) {
            None => {
                lemma_subdirs_bound(src.drop_first(), dst);
            },
            Some(i) => {
                lemma_subdirs_bound(src.drop_first(), dst.remove(i));
            },
        }
    }
}

/// The delete actions for the stale destination records, in order.
pub open spec fn delete_actions(rem: Seq<FileRecord>) -> Seq<Action> {
    rem.map_values(|d: FileRecord| delete_action(d))
}

/// The whole run of the diff engine, as a mathematical function: the queue
/// of directory pairs still to compare is drained from the front, each level
/// is diffed, its copy and update actions are followed by the deletes for
/// its stale destination records, and the source sub-directories found at
/// the level are appended to the back of the queue (breadth first).
pub open spec fn spec_drive(
    queue: Seq<Seq<Seq<char>>>,
    src: Seq<FileRecord>,
    dst: Seq<FileRecord>,
) -> Seq<Action>
    decreases src.len(), queue.len(),
    via spec_drive_decreases
{
    if queue.len() == 0 {
        Seq::<Action>::empty()
    } else {
        let dir = queue[0];
        let ex_s = spec_extract(src, dir);
        let ex_d = spec_extract(dst, dir);
        let lvl = spec_level_diff(ex_s.0, ex_d.0);
        lvl.1 + delete_actions(lvl.0) + spec_drive(queue.drop_first() + lvl.2, ex_s.1, ex_d.1)
    }
}

#[via_fn]
proof fn spec_drive_decreases(
    queue: Seq<Seq<Seq<char>>>,
    src: Seq<FileRecord>,
    dst: Seq<FileRecord>,
) {
    if queue.len() > 0 {
        let dir = queue[0];
        lemma_extract_len(src, dir);
        lemma_subdirs_bound(spec_extract(src, dir).0, spec_extract(dst, dir).0);
    }
}

/// The action list that mirrors the source tree into the destination tree:
/// the run of the engine seeded with the pair of tree roots.
pub open spec fn spec_diff_tree(src: Seq<FileRecord>, dst: Seq<FileRecord>) -> Seq<Action> {
    spec_drive(seq![Seq::<Seq<char>>::empty()], src, dst)
}

/// Removes and returns the direct children of `dir`, keeping the order of
/// both the children and the rest.
pub fn extract_children(tree: &mut Vec<FileRecord>, dir: &Vec<String>) -> (children: Vec<
    FileRecord,
>)
    ensures
        children@ == spec_extract(old(tree)@, path_view(dir@)).0,
        final(tree)@ == spec_extract(old(tree)@, path_view(dir@)).1,
{
    let ghost tree0 = old(tree)@;
    let ghost key = path_view(dir@);
    let mut children: Vec<FileRecord> = Vec::new();
    let mut i: usize = 0;
    proof {
        assert(tree@.skip(0) =~= tree0);
        assert(children@ + spec_extract(tree0, key).0 =~= spec_extract(tree0, key).0);
        assert(tree@.take(0) =~= Seq::<FileRecord>::empty());
        assert(tree@.take(0) + spec_extract(tree0, key).1 =~= spec_extract(tree0, key).1);
    }
    while i < tree.len()
        invariant
            i <= tree.len(),
            key == path_view(dir@),
            spec_extract(tree0, key).0 == children@ + spec_extract(tree@.skip(i as int), key).0,
            spec_extract(tree0, key).1 == tree@.take(i as int) + spec_extract(
                tree@.skip(i as int),
                key,
            ).1,
            forall|j: int| 0 <= j < i ==> !is_child(path_of(tree@[j]), key),
        decreases tree.len() - i,
    {
        let ghost tree_pre = tree@;
        let child = is_child_of(&tree[i].relative_path, dir);
        proof {
            assert(tree_pre.skip(i as int)[0] == tree_pre[i as int]);
            assert(tree_pre.skip(i as int).drop_first() =~= tree_pre.skip(i as int + 1));
        }
        if child {
            let r = tree.remove(i);
            children.push(r);
            proof {
                assert(tree@ =~= tree_pre.remove(i as int));
                assert(tree@.skip(i as int) =~= tree_pre.skip(i as int + 1));
                assert(tree@.take(i as int) =~= tree_pre.take(i as int));
                assert(children@ =~= children@.drop_last() + seq![r]);
                assert(children@.drop_last() + (seq![r] + spec_extract(
                    tree@.skip(i as int),
                    key,
                ).0) =~= children@ + spec_extract(tree@.skip(i as int), key).0);
            }
        } else {
            i += 1;
            proof {
                assert(tree@.take(i as int) =~= tree@.take(i as int - 1) + seq![
                    tree@[i as int - 1],
                ]);
                assert((tree@.take(i as int - 1) + seq![tree@[i as int - 1]]) + spec_extract(
                    tree@.skip(i as int),
                    key,
                ).1 =~= tree@.take(i as int - 1) + (seq![tree@[i as int - 1]] + spec_extract(
                    tree@.skip(i as int),
                    key,
                ).1));
            }
        }
    }
    proof {
        assert(tree@.skip(i as int) =~= Seq::<FileRecord>::empty());
        assert(children@ + spec_extract(tree@.skip(i as int), key).0 =~= children@);
        assert(tree@.take(i as int) =~= tree@);
        assert(tree@ + spec_extract(tree@.skip(i as int), key).1 =~= tree@);
    }
    children
}

/// Whether `p` names a direct child of the directory `dir`.
pub fn is_child_of(p: &Vec<String>, dir: &Vec<String>) -> (r: bool)
    ensures
        r == is_child(path_view(p@), path_view(dir@)),
{
    if p.len() == 0 || p.len() - 1 != dir.len() {
        return false;
    }
    let mut i: usize = 0;
    while i < dir.len()
        invariant
            i <= dir.len(),
            p@.len() == dir@.len() + 1,
            forall|j: int| 0 <= j < i ==> path_view(p@)[j] == path_view(dir@)[j],
        decreases dir.len() - i,
    {
        if !(p[i] == dir[i]) {
            proof {
                assert(path_view(p@).drop_last()[i as int] != path_view(dir@)[i as int]);
            }
            return false;
        }
        i += 1;
    }
    proof {
        assert(path_view(p@).drop_last() =~= path_view(dir@));
    }
    true
}

/// Computes the ordered action list that mirrors the source tree into the
/// destination tree. The two arguments are full recursive scans of the two
/// roots; the result is the list an executor applies in order: creations
/// and updates level by level from the roots downward, each level's deletes
/// after its other actions.
pub fn diff_tree(source: Vec<FileRecord>, destination: Vec<FileRecord>) -> (r: Vec<Action>)
    ensures
        r@ == spec_diff_tree(source@, destination@),
{
    let mut src = source;
    let mut dst = destination;
    let mut actions: Vec<Action> = Vec::new();
    let mut queue: Vec<Vec<String>> = Vec::new();
    let root: Vec<String> = Vec::new();
    queue.push(root);
    proof {
        assert(paths_view(queue@) =~~= seq![Seq::<Seq<char>>::empty()]);
        assert(actions@ + spec_drive(paths_view(queue@), src@, dst@) =~= spec_drive(
            paths_view(queue@),
            src@,
            dst@,
        ));
    }
    while queue.len() > 0
        invariant
            spec_diff_tree(source@, destination@) == actions@ + spec_drive(
                paths_view(queue@),
                src@,
                dst@,
            ),
        decreases src.len(), queue.len(),
    {
        let ghost queue_pre = queue@;
        let ghost src_pre = src@;
        let ghost dst_pre = dst@;
        let ghost actions_pre = actions@;
        let dir = queue.remove(0);
        proof {
            assert(paths_view(queue@) =~= paths_view(queue_pre).drop_first());
            assert(path_view(dir@) == paths_view(queue_pre)[0]);
        }
        let src_level = extract_children(&mut src, &dir);
        let dst_level = extract_children(&mut dst, &dir);
        proof {
            lemma_extract_len(src_pre, path_view(dir@));
            lemma_subdirs_bound(src_level@, dst_level@);
        }
        let (remaining, mut acts, mut subs) = make_diff(src_level, dst_level);
        actions.append(&mut acts);
        let mut rem = remaining;
        let ghost rem0 = rem@;
        let ghost actions_mid = actions@;
        proof {
            assert(rem0.take(0) =~= Seq::<FileRecord>::empty());
            assert(delete_actions(rem0.take(0)) =~= Seq::<Action>::empty());
            assert(actions_mid + delete_actions(rem0.take(0)) =~= actions_mid);
            assert(rem@ =~= rem0.skip(0));
        }
        while rem.len() > 0
            invariant
                rem@.len() <= rem0.len(),
                actions@ == actions_mid + delete_actions(rem0.take(
                    rem0.len() - rem@.len(),
                )),
                rem@ =~= rem0.skip(rem0.len() - rem@.len()),
            decreases rem.len(),
        {
            let ghost done = rem0.len() - rem@.len();
            let ghost rem_pre = rem@;
            let d = rem.remove(0);
            let is_dir = d.is_directory;
            actions.push(Action { kind: ActionKind::DeleteFile, target: d, is_directory: is_dir });
            proof {
                assert(d == rem0[done]);
                assert(rem@ =~= rem_pre.drop_first());
                assert(rem@ =~= rem0.skip(done + 1));
                assert(rem0.take(done + 1) =~= rem0.take(done) + seq![rem0[done]]);
                assert(delete_actions(rem0.take(done + 1)) =~= delete_actions(rem0.take(done))
                    + seq![delete_action(rem0[done])]);
            }
        }
        queue.append(&mut subs);
        proof {
            assert(rem0.take(rem0.len() as int) =~= rem0);
            let lvl = spec_level_diff(spec_extract(src_pre, path_view(dir@)).0, spec_extract(
                dst_pre,
                path_view(dir@),
            ).0);
            assert(paths_view(queue@) =~= paths_view(queue_pre).drop_first() + lvl.2);
            assert(spec_drive(paths_view(queue_pre), src_pre, dst_pre) == lvl.1 + delete_actions(
                lvl.0,
            ) + spec_drive(paths_view(queue@), src@, dst@));
            assert(actions@ =~= actions_pre + lvl.1 + delete_actions(lvl.0));
            assert(actions@ + spec_drive(paths_view(queue@), src@, dst@) =~= actions_pre
                + spec_drive(paths_view(queue_pre), src_pre, dst_pre));
        }
    }
    proof {
        assert(actions@ + spec_drive(paths_view(queue@), src@, dst@) =~= actions@);
    }
    actions
}

} // verus!
