use vstd::prelude::*;

use crate::record::{
    path_of, path_view, paths_view, copy_action, update_action, Action, ActionKind, FileRecord,
    path_eq, clone_path, ts_newer,
};

verus! {

/// The index of the first record in `dst` whose relative path is `key`,
/// or `None` when no record has it.
pub open spec fn first_match(dst: Seq<FileRecord>, key: Seq<Seq<char>>) -> Option<int>
    decreases dst.len(),
{
    if dst.len() == 0 {
        None
    } else if path_of(dst[0]) == key {
        Some(0)
    } else {
        match first_match(dst.drop_first(), key) {
            None => None,
            Some(i) => Some(i + 1),
        }
    }
}

/// Some record in `s` has the relative path `key`.
pub open spec fn has_path(s: Seq<FileRecord>, key: Seq<Seq<char>>) -> bool {
    exists|i: int| 0 <= i < s.len() && path_of(s[i]) == key
}

/// The source and destination records agree in size and modification time,
/// so the destination copy is already current.
pub open spec fn same_meta(s: FileRecord, d: FileRecord) -> bool {
    d.size == s.size && d.modified_time == s.modified_time
}

/// One level of the diff, as a mathematical function. Source records are
/// taken in order; each is matched against the first destination record
/// sharing its relative path. The result is, in order:
/// - the destination records never matched by any source record (they are
///   stale and will be deleted),
/// - the copy and update actions for this level, in source order,
/// - the relative paths of the source records that are directories, in
///   source order (the sub-directory pairs still to be compared).
///
/// A matched pair with equal size and modification time needs no work; a
/// matched pair whose source is strictly newer yields an update; a matched
/// pair that is neither (the destination is not older, or only the sizes
/// differ) yields no action at all - the conservative no-op that keeps a
/// newer destination copy safe from a destructive overwrite.
pub open spec fn spec_level_diff(src: Seq<FileRecord>, dst: Seq<FileRecord>) -> (
    Seq<FileRecord>,
    Seq<Action>,
    Seq<Seq<Seq<char>>>,
)
    decreases src.len(),
{
    if src.len() == 0 {
        (dst, Seq::<Action>::empty(), Seq::<Seq<Seq<char>>>::empty())
    } else {
        let s = src[0];
        let subs0 = if s.is_directory {
            seq![path_of(s)]
        } else {
            Seq::<Seq<Seq<char>>>::empty()
        };
        match first_match(dst, path_of(s)) {
            None => {
                let r = spec_level_diff(src.drop_first(), dst);
                (r.0, seq![copy_action(s)] + r.1, subs0 + r.2)
            },
            Some(i) => {
                let d = dst[i];
                let r = spec_level_diff(src.drop_first(), dst.remove(i));
                if same_meta(s, d) {
                    (r.0, r.1, subs0 + r.2)
                } else if ts_newer(s.modified_time, d.modified_time) {
                    (r.0, seq![update_action(s)] + r.1, subs0 + r.2)
                } else {
                    (r.0, r.1, subs0 + r.2)
                }
            },
        }
    }
}

/// When everything before `k` mismatches and `dst[k]` matches, `k` is the
/// first match.
pub proof fn lemma_first_match_at(dst: Seq<FileRecord>, key: Seq<Seq<char>>, k: int)
    requires
        0 <= k < dst.len(),
        path_of(dst[k]) == key,
        forall|j: int| 0 <= j < k ==> path_of(dst[j]) != key,
    ensures
        first_match(dst, key) == Some(k),
    decreases k,
{
    if k == 0 {
    } else {
        assert(path_of(dst[0]) != key);
        assert(dst.drop_first()[k - 1] == dst[k]);
        assert(forall|j: int| 0 <= j < k - 1 ==> dst.drop_first()[j] == dst[j + 1]);
        lemma_first_match_at(dst.drop_first(), key, k - 1);
    }
}

/// When no record matches, there is no first match.
pub proof fn lemma_first_match_none(dst: Seq<FileRecord>, key: Seq<Seq<char>>)
    requires
        forall|j: int| 0 <= j < dst.len() ==> path_of(dst[j]) != key,
    ensures
        first_match(dst, key) == None::<int>,
    decreases dst.len(),
{
    if dst.len() == 0 {
    } else {
        assert(forall|j: int| 0 <= j < dst.len() - 1 ==> dst.drop_first()[j] == dst[j + 1]);
        lemma_first_match_none(dst.drop_first(), key);
    }
}

/// One level of the diff. Returns, in order: the stale destination records,
/// the copy and update actions, and the relative paths of the source
/// directories still to be recursed into.
pub fn make_diff(source_files: Vec<FileRecord>, destination_files: Vec<FileRecord>) -> (r: (
    Vec<FileRecord>,
    Vec<Action>,
    Vec<Vec<String>>,
))
    ensures
        r.0@ == spec_level_diff(source_files@, destination_files@).0,
        r.1@ == spec_level_diff(source_files@, destination_files@).1,
        paths_view(r.2@) == spec_level_diff(source_files@, destination_files@).2,
{
    let ghost src0 = source_files@;
    let ghost dst0 = destination_files@;
    let mut src = source_files;
    let mut dst = destination_files;
    let mut actions: Vec<Action> = Vec::new();
    let mut subdirs: Vec<Vec<String>> = Vec::new();
    while src.len() > 0
        invariant
            spec_level_diff(src0, dst0).0 == spec_level_diff(src@, dst@).0,
            spec_level_diff(src0, dst0).1 == actions@ + spec_level_diff(src@, dst@).1,
            spec_level_diff(src0, dst0).2 == paths_view(subdirs@) + spec_level_diff(src@, dst@).2,
        decreases src.len(),
    {
        let ghost src_pre = src@;
        let ghost dst_pre = dst@;
        let ghost actions_pre = actions@;
        let ghost subdirs_pre = subdirs@;
        let s = src.remove(0);
        proof {
            assert(src@ =~= src_pre.drop_first());
        }
        let is_dir = s.is_directory;
        if is_dir {
            subdirs.push(clone_path(&s.relative_path));
        }
        let mut found: bool = false;
        let mut k: usize = 0;
        while k < dst.len() && !found
            invariant
                k <= dst.len(),
                dst@ == dst_pre,
                forall|j: int| 0 <= j < k ==> path_of(dst@[j]) != path_of(s),
                found ==> k < dst.len() && path_of(dst@[k as int]) == path_of(s),
            decreases dst.len() - k + (if found {
                0int
            } else {
                1int
            }),
        {
            if path_eq(&dst[k].relative_path, &s.relative_path) {
                found = true;
            } else {
                k += 1;
            }
        }
        if !found {
            proof {
                lemma_first_match_none(dst_pre, path_of(s));
            }
            actions.push(Action { kind: ActionKind::CopyFile, target: s, is_directory: is_dir });
        } else {
            proof {
                lemma_first_match_at(dst_pre, path_of(s), k as int);
            }
            let d = dst.remove(k);
            proof {
                assert(d == dst_pre[k as int]);
            }
            if d.size == s.size && d.modified_time == s.modified_time {
                // Already current: accounted for, no action.
            } else if s.modified_time.newer_than(&d.modified_time) {
                actions.push(
                    Action { kind: ActionKind::UpdateFile, target: s, is_directory: is_dir },
                );
            } else {
                // Matched, but the destination is not older: conservative no-op.
            }
        }
        proof {
            let step = spec_level_diff(src_pre, dst_pre);
            let rest = spec_level_diff(src@, dst@);
            let emitted = actions@.skip(actions_pre.len() as int);
            let sub_emitted = paths_view(subdirs@).skip(subdirs_pre.len() as int);
            assert(step.0 == rest.0);
            assert(step.1 =~= emitted + rest.1);
            assert(actions@ =~= actions_pre + emitted);
            assert(step.2 =~= sub_emitted + rest.2);
            assert(paths_view(subdirs@) =~= paths_view(subdirs_pre) + sub_emitted);
            assert(spec_level_diff(src0, dst0).1 =~= actions@ + rest.1);
            assert(spec_level_diff(src0, dst0).2 =~= paths_view(subdirs@) + rest.2);
        }
    }
    proof {
        assert(spec_level_diff(src@, dst@).0 == dst@);
        assert(actions@ + spec_level_diff(src@, dst@).1 =~= actions@);
        assert(paths_view(subdirs@) + spec_level_diff(src@, dst@).2 =~= paths_view(subdirs@));
    }
    (dst, actions, subdirs)
}

} // verus!
