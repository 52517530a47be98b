use vstd::prelude::*;

use crate::record::{
    path_of, copy_action, update_action, wf_record, Action, ActionKind, FileRecord, ts_newer,
};
use crate::level::{first_match, has_path, same_meta, spec_level_diff};
use crate::engine::{
    delete_actions, lemma_extract_len, lemma_subdirs_bound, spec_diff_tree, spec_drive,
    spec_extract,
};

verus! {

/// How many actions in `acts` have the given kind and target path.
pub open spec fn count_matching(acts: Seq<Action>, kind: ActionKind, key: Seq<Seq<char>>) -> nat
    decreases acts.len(),
{
    if acts.len() == 0 {
        0
    } else {
        (if acts[0].kind == kind && path_of(acts[0].target) == key {
            1nat
        } else {
            0nat
        }) + count_matching(acts.drop_first(), kind, key)
    }
}

/// How many records in `s` have the given path.
pub open spec fn count_paths(s: Seq<FileRecord>, key: Seq<Seq<char>>) -> nat
    decreases s.len(),
{
    if s.len() == 0 {
        0
    } else {
        (if path_of(s[0]) == key {
            1nat
        } else {
            0nat
        }) + count_paths(s.drop_first(), key)
    }
}

/// No two records of `s` share a relative path; the invariant a directory
/// listing guarantees.
pub open spec fn uniq_paths(s: Seq<FileRecord>) -> bool {
    forall|i: int, j: int| 0 <= i < j < s.len() ==> path_of(s[i]) != path_of(s[j])
}

/// Counting splits over concatenation.
proof fn lemma_count_matching_add(a: Seq<Action>, b: Seq<Action>, kind: ActionKind, key: Seq<
    Seq<char>,
>)
    ensures
        count_matching(a + b, kind, key) == count_matching(a, kind, key) + count_matching(
            b,
            kind,
            key,
        ),
    decreases a.len(),
{
    if a.len() == 0 {
        assert(a + b =~= b);
    } else {
        assert((a + b).drop_first() =~= a.drop_first() + b);
        lemma_count_matching_add(a.drop_first(), b, kind, key);
    }
}

/// Removing one record lowers the count of its path by one and keeps the
/// counts of every other path.
proof fn lemma_count_paths_remove(s: Seq<FileRecord>, m: int, key: Seq<Seq<char>>)
    requires
        0 <= m < s.len(),
    ensures
        count_paths(s.remove(m), key) + (if path_of(s[m]) == key {
            1nat
        } else {
            0nat
        }) == count_paths(s, key),
    decreases s.len(),
{
    if m == 0 {
        assert(s.remove(0) =~= s.drop_first());
    } else {
        assert(s.remove(m).drop_first() =~= s.drop_first().remove(m - 1));
        assert(s.remove(m)[0] == s[0]);
        lemma_count_paths_remove(s.drop_first(), m - 1, key);
    }
}

/// In a listing without repeated paths, a path that occurs occurs once.
proof fn lemma_count_paths_uniq(s: Seq<FileRecord>, j: int)
    requires
        uniq_paths(s),
        0 <= j < s.len(),
    ensures
        count_paths(s, path_of(s[j])) == 1,
    decreases s.len(),
{
    let key = path_of(s[j]);
    if j == 0 {
        assert(forall|i: int| 0 <= i < s.drop_first().len() ==> s.drop_first()[i] == s[i + 1]);
        lemma_count_paths_absent(s.drop_first(), key);
    } else {
        assert(forall|i: int| 0 <= i < s.drop_first().len() ==> s.drop_first()[i] == s[i + 1]);
        assert(s.drop_first()[j - 1] == s[j]);
        lemma_count_paths_uniq(s.drop_first(), j - 1);
    }
}

/// A path held by no record is counted zero times.
proof fn lemma_count_paths_absent(s: Seq<FileRecord>, key: Seq<Seq<char>>)
    requires
        !has_path(s, key),
    ensures
        count_paths(s, key) == 0,
    decreases s.len(),
{
    if s.len() > 0 {
        assert(forall|i: int| 0 <= i < s.drop_first().len() ==> s.drop_first()[i] == s[i + 1]);
        assert(!has_path(s.drop_first(), key));
        lemma_count_paths_absent(s.drop_first(), key);
    }
}

/// When some record has the path, the first match finds one, and everything
/// before it mismatches.
proof fn lemma_first_match_found(dst: Seq<FileRecord>, key: Seq<Seq<char>>)
    requires
        has_path(dst, key),
    ensures
        first_match(dst, key) is Some,
        ({
            let m = first_match(dst, key)->Some_0;
            0 <= m < dst.len() && path_of(dst[m]) == key && forall|j: int|
                0 <= j < m ==> path_of(dst[j]) != key
        }),
    decreases dst.len(),
{
    if path_of(dst[0]) == key {
    } else {
        assert(forall|i: int| 0 <= i < dst.drop_first().len() ==> dst.drop_first()[i] == dst[i + 1]);
        let w = choose|n: int| 0 <= n < dst.len() && path_of(dst[n]) == key;
        assert(dst.drop_first()[w - 1] == dst[w]);
        assert(has_path(dst.drop_first(), key));
        lemma_first_match_found(dst.drop_first(), key);
        let m = first_match(dst, key)->Some_0;
        assert(dst.drop_first()[m - 1] == dst[m]);
        assert forall|j: int| 0 <= j < m implies path_of(dst[j]) != key by {
            if j > 0 {
                assert(dst.drop_first()[j - 1] == dst[j]);
                assert(path_of(dst.drop_first()[j - 1]) != key);
            }
        }
    }
}

/// Whatever the first match points at is in range, has the path, and is
/// the earliest record with it.
proof fn lemma_first_match_some(dst: Seq<FileRecord>, key: Seq<Seq<char>>)
    requires
        first_match(dst, key) is Some,
    ensures
        ({
            let m = first_match(dst, key)->Some_0;
            0 <= m < dst.len() && path_of(dst[m]) == key && forall|j: int|
                0 <= j < m ==> path_of(dst[j]) != key
        }),
    decreases dst.len(),
{
    if dst.len() > 0 && path_of(dst[0]) != key {
        assert(forall|i: int| 0 <= i < dst.drop_first().len() ==> dst.drop_first()[i] == dst[i + 1]);
        lemma_first_match_some(dst.drop_first(), key);
        let m = first_match(dst, key)->Some_0;
        assert(dst.drop_first()[m - 1] == dst[m]);
        assert forall|j: int| 0 <= j < m implies path_of(dst[j]) != key by {
            if j > 0 {
                assert(dst.drop_first()[j - 1] == dst[j]);
                assert(path_of(dst.drop_first()[j - 1]) != key);
            }
        }
    }
}

/// Removing a record keeps the listing free of repeated paths.
proof fn lemma_uniq_remove(s: Seq<FileRecord>, m: int)
    requires
        uniq_paths(s),
        0 <= m < s.len(),
    ensures
        uniq_paths(s.remove(m)),
{
    assert(forall|i: int|
        0 <= i < s.remove(m).len() ==> s.remove(m)[i] == (if i < m {
            s[i]
        } else {
            s[i + 1]
        }));
}

/// Dropping the first record keeps the listing free of repeated paths.
proof fn lemma_uniq_drop_first(s: Seq<FileRecord>)
    requires
        uniq_paths(s),
        s.len() > 0,
    ensures
        uniq_paths(s.drop_first()),
{
    assert(forall|i: int| 0 <= i < s.drop_first().len() ==> s.drop_first()[i] == s[i + 1]);
}

/// A level emits no copy or update action for a path that no source record
/// has: its actions' targets all come from the source listing.
proof fn lemma_level_no_foreign_actions(
    src: Seq<FileRecord>,
    dst: Seq<FileRecord>,
    kind: ActionKind,
    key: Seq<Seq<char>>,
)
    requires
        forall|i: int| 0 <= i < src.len() ==> path_of(src[i]) != key,
    ensures
        count_matching(spec_level_diff(src, dst).1, kind, key) == 0,
    decreases src.len(),
{
    if src.len() > 0 {
        let s = src[0];
        assert(forall|i: int| 0 <= i < src.drop_first().len() ==> src.drop_first()[i] == src[i + 1]);
        match first_match(dst, path_of(s)) {
            None => {
                lemma_level_no_foreign_actions(src.drop_first(), dst, kind, key);
                let r = spec_level_diff(src.drop_first(), dst);
                assert((seq![copy_action(s)] + r.1).drop_first() =~= r.1);
            },
            Some(m) => {
                lemma_level_no_foreign_actions(src.drop_first(), dst.remove(m), kind, key);
                let r = spec_level_diff(src.drop_first(), dst.remove(m));
                assert((seq![update_action(s)] + r.1).drop_first() =~= r.1);
            },
        }
    }
}

/// A destination path matched by no source record survives the level with
/// its count unchanged: the level only ever removes matched records.
proof fn lemma_level_rem_count(src: Seq<FileRecord>, dst: Seq<FileRecord>, key: Seq<Seq<char>>)
    requires
        forall|i: int| 0 <= i < src.len() ==> path_of(src[i]) != key,
    ensures
        count_paths(spec_level_diff(src, dst).0, key) == count_paths(dst, key),
    decreases src.len(),
{
    if src.len() > 0 {
        let s = src[0];
        assert(forall|i: int| 0 <= i < src.drop_first().len() ==> src.drop_first()[i] == src[i + 1]);
        match first_match(dst, path_of(s)) {
            None => {
                lemma_level_rem_count(src.drop_first(), dst, key);
            },
            Some(m) => {
                lemma_first_match_some(dst, path_of(s));
                lemma_count_paths_remove(dst, m, key);
                lemma_level_rem_count(src.drop_first(), dst.remove(m), key);
            },
        }
    }
}

/// Completeness at one level: a source record whose path the destination
/// does not hold yields exactly one copy action, and that action carries the
/// record itself.
pub proof fn lemma_level_completeness(src: Seq<FileRecord>, dst: Seq<FileRecord>, i: int)
    requires
        uniq_paths(src),
        0 <= i < src.len(),
        !has_path(dst, path_of(src[i])),
    ensures
        count_matching(spec_level_diff(src, dst).1, ActionKind::CopyFile, path_of(src[i])) == 1,
        count_matching(spec_level_diff(src, dst).1, ActionKind::UpdateFile, path_of(src[i])) == 0,
        spec_level_diff(src, dst).1.contains(copy_action(src[i])),
    decreases i,
{
    let key = path_of(src[i]);
    let s = src[0];
    assert(forall|j: int| 0 <= j < src.drop_first().len() ==> src.drop_first()[j] == src[j + 1]);
    if i == 0 {
        lemma_first_match_none_of_absent(dst, key);
        let r = spec_level_diff(src.drop_first(), dst);
        assert(forall|j: int| 0 <= j < src.drop_first().len() ==> path_of(src.drop_first()[j]) != key);
        lemma_level_no_foreign_actions(src.drop_first(), dst, ActionKind::CopyFile, key);
        lemma_level_no_foreign_actions(src.drop_first(), dst, ActionKind::UpdateFile, key);
        assert((seq![copy_action(s)] + r.1).drop_first() =~= r.1);
        assert((seq![copy_action(s)] + r.1)[0] == copy_action(src[i]));
    } else {
        lemma_uniq_drop_first(src);
        match first_match(dst, path_of(s)) {
            None => {
                lemma_level_completeness(src.drop_first(), dst, i - 1);
                let r = spec_level_diff(src.drop_first(), dst);
                assert((seq![copy_action(s)] + r.1).drop_first() =~= r.1);
                assert(r.1.contains(copy_action(src[i])));
                let w = choose|n: int| 0 <= n < r.1.len() && r.1[n] == copy_action(src[i]);
                assert((seq![copy_action(s)] + r.1)[w + 1] == copy_action(src[i]));
            },
            Some(m) => {
                lemma_first_match_some(dst, path_of(s));
                assert(forall|j: int|
                    0 <= j < dst.remove(m).len() ==> dst.remove(m)[j] == (if j < m {
                        dst[j]
                    } else {
                        dst[j + 1]
                    }));
                assert(forall|j: int|
                    0 <= j < dst.remove(m).len() ==> path_of(dst.remove(m)[j]) != key);
                lemma_level_completeness(src.drop_first(), dst.remove(m), i - 1);
                let r = spec_level_diff(src.drop_first(), dst.remove(m));
                assert((seq![update_action(s)] + r.1).drop_first() =~= r.1);
                assert(r.1.contains(copy_action(src[i])));
                let w = choose|n: int| 0 <= n < r.1.len() && r.1[n] == copy_action(src[i]);
                if same_meta(s, dst[m]) || !ts_newer(s.modified_time, dst[m].modified_time) {
                } else {
                    assert((seq![update_action(s)] + r.1)[w + 1] == copy_action(src[i]));
                }
            },
        }
    }
}

/// A path held by no destination record has no first match.
proof fn lemma_first_match_none_of_absent(dst: Seq<FileRecord>, key: Seq<Seq<char>>)
    requires
        !has_path(dst, key),
    ensures
        first_match(dst, key) == None::<int>,
{
    crate::level::lemma_first_match_none(dst, key);
}

/// Staleness correctness at one level: for a destination record sharing its
/// path with a source record, an update action is emitted exactly when the
/// source's modification time is strictly newer, and a copy action never is;
/// a pair with equal size and modification time yields no action.
pub proof fn lemma_level_staleness(src: Seq<FileRecord>, dst: Seq<FileRecord>, i: int, j: int)
    requires
        uniq_paths(src),
        uniq_paths(dst),
        0 <= i < src.len(),
        0 <= j < dst.len(),
        path_of(src[i]) == path_of(dst[j]),
    ensures
        count_matching(spec_level_diff(src, dst).1, ActionKind::UpdateFile, path_of(src[i])) == (
        if ts_newer(src[i].modified_time, dst[j].modified_time) {
            1nat
        } else {
            0nat
        }),
        count_matching(spec_level_diff(src, dst).1, ActionKind::CopyFile, path_of(src[i])) == 0,
    decreases i,
{
    let key = path_of(src[i]);
    let s = src[0];
    assert(forall|n: int| 0 <= n < src.drop_first().len() ==> src.drop_first()[n] == src[n + 1]);
    if i == 0 {
        assert(has_path(dst, key)) by {
            assert(0 <= j < dst.len() && path_of(dst[j]) == key);
        }
        lemma_first_match_found(dst, key);
        let m = first_match(dst, key)->Some_0;
        assert(m == j) by {
            if m != j {
                assert(path_of(dst[m]) == path_of(dst[j]));
            }
        }
        let d = dst[j];
        assert(forall|n: int| 0 <= n < src.drop_first().len() ==> path_of(src.drop_first()[n])
            != key);
        lemma_level_no_foreign_actions(
            src.drop_first(),
            dst.remove(j),
            ActionKind::UpdateFile,
            key,
        );
        lemma_level_no_foreign_actions(src.drop_first(), dst.remove(j), ActionKind::CopyFile, key);
        let r = spec_level_diff(src.drop_first(), dst.remove(j));
        assert((seq![update_action(s)] + r.1).drop_first() =~= r.1);
        if same_meta(s, d) {
            assert(!ts_newer(s.modified_time, d.modified_time));
        }
    } else {
        lemma_uniq_drop_first(src);
        assert(path_of(s) != key);
        match first_match(dst, path_of(s)) {
            None => {
                lemma_level_staleness(src.drop_first(), dst, i - 1, j);
                let r = spec_level_diff(src.drop_first(), dst);
                assert((seq![copy_action(s)] + r.1).drop_first() =~= r.1);
            },
            Some(m) => {
                lemma_first_match_some(dst, path_of(s));
                assert(m != j);
                lemma_uniq_remove(dst, m);
                assert(forall|n: int|
                    0 <= n < dst.remove(m).len() ==> dst.remove(m)[n] == (if n < m {
                        dst[n]
                    } else {
                        dst[n + 1]
                    }));
                let jj = if j < m {
                    j
                } else {
                    j - 1
                };
                assert(dst.remove(m)[jj] == dst[j]);
                lemma_level_staleness(src.drop_first(), dst.remove(m), i - 1, jj);
                let r = spec_level_diff(src.drop_first(), dst.remove(m));
                assert((seq![update_action(s)] + r.1).drop_first() =~= r.1);
            },
        }
    }
}

/// Deletion correctness at one level: a destination record whose path no
/// source record has survives as exactly one stale record, so exactly one
/// delete action will be emitted for it; and a destination path that some
/// source record does have is never left stale, so it is never deleted.
pub proof fn lemma_level_deletion(src: Seq<FileRecord>, dst: Seq<FileRecord>, j: int)
    requires
        uniq_paths(dst),
        0 <= j < dst.len(),
        !has_path(src, path_of(dst[j])),
    ensures
        count_paths(spec_level_diff(src, dst).0, path_of(dst[j])) == 1,
{
    let key = path_of(dst[j]);
    assert(forall|i: int| 0 <= i < src.len() ==> path_of(src[i]) != key);
    lemma_level_rem_count(src, dst, key);
    lemma_count_paths_uniq(dst, j);
}

/// No deletion for a path present on both sides: a destination path that
/// some source record has is removed from the stale list by the match, so
/// the level leaves no stale record with it.
pub proof fn lemma_level_no_delete_for_present(
    src: Seq<FileRecord>,
    dst: Seq<FileRecord>,
    key: Seq<Seq<char>>,
)
    requires
        uniq_paths(src),
        uniq_paths(dst),
        has_path(src, key),
    ensures
        !has_path(spec_level_diff(src, dst).0, key),
    decreases src.len(),
{
    let s = src[0];
    assert(forall|n: int| 0 <= n < src.drop_first().len() ==> src.drop_first()[n] == src[n + 1]);
    if !has_path(dst, key) {
        lemma_level_rem_absent(src, dst, key);
    } else {
        if path_of(s) == key {
            lemma_first_match_found(dst, key);
            let m = first_match(dst, path_of(s))->Some_0;
            assert(forall|n: int|
                0 <= n < dst.remove(m).len() ==> dst.remove(m)[n] == (if n < m {
                    dst[n]
                } else {
                    dst[n + 1]
                }));
            assert(forall|n: int|
                0 <= n < dst.remove(m).len() ==> path_of(dst.remove(m)[n]) != key);
            lemma_level_rem_absent(src.drop_first(), dst.remove(m), key);
        } else {
            lemma_uniq_drop_first(src);
            assert(has_path(src.drop_first(), key)) by {
                let w = choose|n: int| 0 <= n < src.len() && path_of(src[n]) == key;
                assert(src.drop_first()[w - 1] == src[w]);
            }
            match first_match(dst, path_of(s)) {
                None => {
                    lemma_level_no_delete_for_present(src.drop_first(), dst, key);
                },
                Some(m) => {
                    lemma_first_match_some(dst, path_of(s));
                    lemma_uniq_remove(dst, m);
                    assert(forall|n: int|
                        0 <= n < dst.remove(m).len() ==> dst.remove(m)[n] == (if n < m {
                            dst[n]
                        } else {
                            dst[n + 1]
                        }));
                    assert(has_path(src.drop_first(), key));
                    assert(has_path(dst.remove(m), key)) by {
                        let w = choose|n: int| 0 <= n < dst.len() && path_of(dst[n]) == key;
                        if w < m {
                            assert(dst.remove(m)[w] == dst[w]);
                        } else {
                            assert(dst.remove(m)[w - 1] == dst[w]);
                        }
                    }
                    lemma_level_no_delete_for_present(src.drop_first(), dst.remove(m), key);
                },
            }
        }
    }
}

/// How many components the action's target path has: how deep in the tree
/// the action lands.
pub open spec fn action_depth(a: Action) -> int {
    path_of(a.target).len() as int
}

/// `q` lies strictly below the directory path `p`.
pub open spec fn is_under(q: Seq<Seq<char>>, p: Seq<Seq<char>>) -> bool {
    p.len() < q.len() && q.take(p.len() as int) == p
}

/// A breadth-first frontier: directory depths never decrease along the
/// queue and never exceed the head's depth by more than one.
pub open spec fn frontier_ok(queue: Seq<Seq<Seq<char>>>) -> bool {
    (forall|i: int, j: int|
        #![trigger queue[i], queue[j]]
        0 <= i < j < queue.len() ==> queue[i].len() <= queue[j].len()) && (forall|i: int|
        #![trigger queue[i]]
        0 <= i < queue.len() ==> queue[i].len() <= queue[0].len() + 1)
}

/// Every record a level reads lies at one depth, so every action the level
/// emits, every stale record it leaves and every sub-directory it enqueues
/// lies at that depth too.
proof fn lemma_level_depths(src: Seq<FileRecord>, dst: Seq<FileRecord>, l: int)
    requires
        forall|i: int| 0 <= i < src.len() ==> path_of(src[i]).len() == l,
        forall|i: int| 0 <= i < dst.len() ==> path_of(dst[i]).len() == l,
    ensures
        forall|i: int|
            0 <= i < spec_level_diff(src, dst).1.len() ==> action_depth(
                spec_level_diff(src, dst).1[i],
            ) == l,
        forall|i: int|
            0 <= i < spec_level_diff(src, dst).0.len() ==> path_of(
                spec_level_diff(src, dst).0[i],
            ).len() == l,
        forall|i: int|
            0 <= i < spec_level_diff(src, dst).2.len() ==> spec_level_diff(src, dst).2[i].len()
                == l,
    decreases src.len(),
{
    if src.len() > 0 {
        let s = src[0];
        let lvl = spec_level_diff(src, dst);
        assert(forall|n: int| 0 <= n < src.drop_first().len() ==> src.drop_first()[n] == src[n
            + 1]);
        match first_match(dst, path_of(s)) {
            None => {
                lemma_level_depths(src.drop_first(), dst, l);
                let r = spec_level_diff(src.drop_first(), dst);
                assert forall|n: int| 0 <= n < lvl.1.len() implies action_depth(lvl.1[n]) == l by {
                    if n == 0 {
                        assert(lvl.1[0] == copy_action(s));
                    } else {
                        assert(lvl.1[n] == r.1[n - 1]);
                    }
                }
                assert forall|n: int| 0 <= n < lvl.2.len() implies lvl.2[n].len() == l by {
                    if s.is_directory {
                        if n == 0 {
                            assert(lvl.2[0] == path_of(s));
                        } else {
                            assert(lvl.2[n] == r.2[n - 1]);
                        }
                    } else {
                        assert(lvl.2[n] == r.2[n]);
                    }
                }
            },
            Some(m) => {
                lemma_first_match_some(dst, path_of(s));
                assert(forall|n: int|
                    0 <= n < dst.remove(m).len() ==> dst.remove(m)[n] == (if n < m {
                        dst[n]
                    } else {
                        dst[n + 1]
                    }));
                lemma_level_depths(src.drop_first(), dst.remove(m), l);
                let r = spec_level_diff(src.drop_first(), dst.remove(m));
                assert forall|n: int| 0 <= n < lvl.1.len() implies action_depth(lvl.1[n]) == l by {
                    if !same_meta(s, dst[m]) && ts_newer(s.modified_time, dst[m].modified_time) {
                        if n == 0 {
                            assert(lvl.1[0] == update_action(s));
                        } else {
                            assert(lvl.1[n] == r.1[n - 1]);
                        }
                    } else {
                        assert(lvl.1[n] == r.1[n]);
                    }
                }
                assert forall|n: int| 0 <= n < lvl.2.len() implies lvl.2[n].len() == l by {
                    if s.is_directory {
                        if n == 0 {
                            assert(lvl.2[0] == path_of(s));
                        } else {
                            assert(lvl.2[n] == r.2[n - 1]);
                        }
                    } else {
                        assert(lvl.2[n] == r.2[n]);
                    }
                }
            },
        }
    }
}

/// Every direct child of a directory lies one component deeper than it.
proof fn lemma_extract_depth(tree: Seq<FileRecord>, dir: Seq<Seq<char>>)
    ensures
        forall|i: int|
            0 <= i < spec_extract(tree, dir).0.len() ==> path_of(
                spec_extract(tree, dir).0[i],
            ).len() == dir.len() + 1,
    decreases tree.len(),
{
    if tree.len() > 0 {
        lemma_extract_depth(tree.drop_first(), dir);
        let r = spec_extract(tree.drop_first(), dir);
        let ex = spec_extract(tree, dir);
        assert forall|n: int| 0 <= n < ex.0.len() implies path_of(ex.0[n]).len() == dir.len()
            + 1 by {
            if crate::engine::is_child(path_of(tree[0]), dir) {
                if n == 0 {
                    assert(ex.0[0] == tree[0]);
                } else {
                    assert(ex.0[n] == r.0[n - 1]);
                }
            } else {
                assert(ex.0[n] == r.0[n]);
            }
        }
    }
}

/// Driven breadth first from a well-formed frontier, the engine emits
/// actions whose depths never decrease along the list, and all of them lie
/// below the frontier's head.
proof fn lemma_drive_depths(queue: Seq<Seq<Seq<char>>>, src: Seq<FileRecord>, dst: Seq<FileRecord>)
    requires
        frontier_ok(queue),
    ensures
        forall|i: int, j: int|
            0 <= i < j < spec_drive(queue, src, dst).len() ==> action_depth(
                spec_drive(queue, src, dst)[i],
            ) <= action_depth(spec_drive(queue, src, dst)[j]),
        forall|i: int|
            0 <= i < spec_drive(queue, src, dst).len() ==> queue.len() > 0 && action_depth(
                spec_drive(queue, src, dst)[i],
            ) >= queue[0].len() + 1,
    decreases src.len(), queue.len(),
{
    if queue.len() > 0 {
        let dir = queue[0];
        let ex_s = spec_extract(src, dir);
        let ex_d = spec_extract(dst, dir);
        let lvl = spec_level_diff(ex_s.0, ex_d.0);
        lemma_extract_len(src, dir);
        lemma_extract_depth(src, dir);
        lemma_extract_depth(dst, dir);
        lemma_subdirs_bound(ex_s.0, ex_d.0);
        lemma_level_depths(ex_s.0, ex_d.0, dir.len() as int + 1);
        let queue2 = queue.drop_first() + lvl.2;
        let tail_len = queue.len() - 1;
        assert(forall|n: int| 0 <= n < tail_len ==> queue2[n] == queue[n + 1]);
        assert(forall|n: int| tail_len <= n < queue2.len() ==> queue2[n] == lvl.2[n - tail_len]);
        assert forall|n: int| #![trigger queue2[n]] 0 <= n < queue2.len() implies dir.len()
            <= queue2[n].len() <= dir.len() + 1 by {
            if n < tail_len {
                assert(queue2[n] == queue[n + 1]);
            } else {
                assert(queue2[n] == lvl.2[n - tail_len]);
            }
        }
        assert forall|n: int, p: int| #![trigger queue2[n], queue2[p]]
        0 <= n < p < queue2.len() implies queue2[n].len() <= queue2[p].len() by {
            if p < tail_len {
                assert(queue2[n] == queue[n + 1]);
                assert(queue2[p] == queue[p + 1]);
            } else {
                assert(queue2[p].len() == dir.len() + 1);
            }
        }
        assert(frontier_ok(queue2));
        lemma_drive_depths(queue2, ex_s.1, ex_d.1);
        let front = lvl.1 + delete_actions(lvl.0);
        let rec = spec_drive(queue2, ex_s.1, ex_d.1);
        assert(spec_drive(queue, src, dst) == front + rec);
        assert(forall|n: int|
            0 <= n < delete_actions(lvl.0).len() ==> delete_actions(lvl.0)[n].target == lvl.0[n]);
        assert(forall|n: int| 0 <= n < front.len() ==> action_depth(front[n]) == dir.len() + 1);
        if queue2.len() > 0 {
            assert(queue2[0].len() >= dir.len());
        }
        assert forall|i: int| 0 <= i < (front + rec).len() implies action_depth((front + rec)[i])
            >= queue[0].len() + 1 by {
            if i < front.len() {
                assert((front + rec)[i] == front[i]);
            } else {
                assert((front + rec)[i] == rec[i - front.len()]);
            }
        }
        assert forall|i: int, j: int| 0 <= i < j < (front + rec).len() implies action_depth(
            (front + rec)[i],
        ) <= action_depth((front + rec)[j]) by {
            if j < front.len() {
                assert((front + rec)[i] == front[i]);
                assert((front + rec)[j] == front[j]);
            } else if i < front.len() {
                assert((front + rec)[i] == front[i]);
                assert((front + rec)[j] == rec[j - front.len()]);
            } else {
                assert((front + rec)[i] == rec[i - front.len()]);
                assert((front + rec)[j] == rec[j - front.len()]);
            }
        }
    }
}

/// Ordering invariant: an action whose target path lies strictly below
/// another action's target path stands later in the list. In particular a
/// directory's own copy or update action precedes every action on the
/// directory's descendants.
pub proof fn lemma_ordering(src: Seq<FileRecord>, dst: Seq<FileRecord>, i: int, j: int)
    requires
        0 <= i < spec_diff_tree(src, dst).len(),
        0 <= j < spec_diff_tree(src, dst).len(),
        is_under(
            path_of(spec_diff_tree(src, dst)[j].target),
            path_of(spec_diff_tree(src, dst)[i].target),
        ),
    ensures
        i < j,
{
    let q0 = seq![Seq::<Seq<char>>::empty()];
    assert(frontier_ok(q0));
    lemma_drive_depths(q0, src, dst);
    let acts = spec_diff_tree(src, dst);
    assert(action_depth(acts[i]) < action_depth(acts[j]));
    if j < i {
        assert(action_depth(acts[j]) <= action_depth(acts[i]));
    }
}

/// The destination level after the level's actions are applied, at the
/// granularity the diff reads: a copied or updated entry carries the source
/// record's path, size and times; an entry already current, or kept by the
/// conservative no-op, stays as it was; stale entries are gone.
pub open spec fn apply_level(src: Seq<FileRecord>, dst: Seq<FileRecord>) -> Seq<FileRecord>
    decreases src.len(),
{
    if src.len() == 0 {
        Seq::<FileRecord>::empty()
    } else {
        let s = src[0];
        match first_match(dst, path_of(s)) {
            None => seq![s] + apply_level(src.drop_first(), dst),
            Some(m) => {
                let d = dst[m];
                if same_meta(s, d) {
                    seq![d] + apply_level(src.drop_first(), dst.remove(m))
                } else if ts_newer(s.modified_time, d.modified_time) {
                    seq![s] + apply_level(src.drop_first(), dst.remove(m))
                } else {
                    seq![d] + apply_level(src.drop_first(), dst.remove(m))
                }
            },
        }
    }
}

/// Convergence at one level: once a level's actions have been applied,
/// diffing the same source level against the new destination level yields
/// no action and leaves nothing stale, whatever the two levels were.
pub proof fn lemma_level_convergence(src: Seq<FileRecord>, dst: Seq<FileRecord>)
    ensures
        spec_level_diff(src, apply_level(src, dst)).0 == Seq::<FileRecord>::empty(),
        spec_level_diff(src, apply_level(src, dst)).1 == Seq::<Action>::empty(),
    decreases src.len(),
{
    if src.len() > 0 {
        let s = src[0];
        let ap = apply_level(src, dst);
        match first_match(dst, path_of(s)) {
            None => {
                let rest = apply_level(src.drop_first(), dst);
                assert(ap == seq![s] + rest);
                assert(ap[0] == s);
                assert(first_match(ap, path_of(s)) == Some(0int));
                assert(ap.remove(0) =~= rest);
                lemma_level_convergence(src.drop_first(), dst);
            },
            Some(m) => {
                lemma_first_match_some(dst, path_of(s));
                let d = dst[m];
                let rest = apply_level(src.drop_first(), dst.remove(m));
                let h = if same_meta(s, d) || !ts_newer(s.modified_time, d.modified_time) {
                    d
                } else {
                    s
                };
                assert(ap == seq![h] + rest);
                assert(ap[0] == h);
                assert(path_of(h) == path_of(s));
                assert(first_match(ap, path_of(s)) == Some(0int));
                assert(ap.remove(0) =~= rest);
                lemma_level_convergence(src.drop_first(), dst.remove(m));
            },
        }
    }
}

/// A destination path held by no destination record cannot be left stale.
proof fn lemma_level_rem_absent(src: Seq<FileRecord>, dst: Seq<FileRecord>, key: Seq<Seq<char>>)
    requires
        !has_path(dst, key),
    ensures
        !has_path(spec_level_diff(src, dst).0, key),
    decreases src.len(),
{
    if src.len() == 0 {
    } else {
        let s = src[0];
        match first_match(dst, path_of(s)) {
            None => {
                lemma_level_rem_absent(src.drop_first(), dst, key);
            },
            Some(m) => {
                lemma_first_match_some(dst, path_of(s));
                assert(forall|n: int|
                    0 <= n < dst.remove(m).len() ==> dst.remove(m)[n] == (if n < m {
                        dst[n]
                    } else {
                        dst[n + 1]
                    }));
                assert(forall|n: int|
                    0 <= n < dst.remove(m).len() ==> path_of(dst.remove(m)[n]) != key);
                lemma_level_rem_absent(src.drop_first(), dst.remove(m), key);
            },
        }
    }
}

/// A record with the path occurs in the listing exactly when the path is
/// counted at least once.
proof fn lemma_count_paths_has(s: Seq<FileRecord>, key: Seq<Seq<char>>)
    ensures
        has_path(s, key) <==> count_paths(s, key) >= 1,
    decreases s.len(),
{
    if s.len() > 0 {
        assert(forall|i: int| 0 <= i < s.drop_first().len() ==> s.drop_first()[i] == s[i + 1]);
        lemma_count_paths_has(s.drop_first(), key);
        if has_path(s, key) && path_of(s[0]) != key {
            let w = choose|n: int| 0 <= n < s.len() && path_of(s[n]) == key;
            assert(s.drop_first()[w - 1] == s[w]);
        }
        if has_path(s.drop_first(), key) {
            let w = choose|n: int|
                0 <= n < s.drop_first().len() && path_of(s.drop_first()[n]) == key;
            assert(s[w + 1] == s.drop_first()[w]);
        }
    }
}

/// In a listing without repeated paths, every path is counted at most once.
proof fn lemma_count_le_one(s: Seq<FileRecord>, key: Seq<Seq<char>>)
    requires
        uniq_paths(s),
    ensures
        count_paths(s, key) <= 1,
{
    lemma_count_paths_has(s, key);
    if count_paths(s, key) >= 1 {
        let w = choose|n: int| 0 <= n < s.len() && path_of(s[n]) == key;
        lemma_count_paths_uniq(s, w);
    }
}

/// The delete actions of a stale list carry exactly its paths, and no
/// copy or update is among them.
proof fn lemma_delete_counts(rem: Seq<FileRecord>, kind: ActionKind, key: Seq<Seq<char>>)
    ensures
        count_matching(delete_actions(rem), kind, key) == (if kind == ActionKind::DeleteFile {
            count_paths(rem, key)
        } else {
            0nat
        }),
    decreases rem.len(),
{
    if rem.len() > 0 {
        assert(delete_actions(rem).drop_first() =~= delete_actions(rem.drop_first()));
        assert(delete_actions(rem)[0] == crate::record::delete_action(rem[0]));
        lemma_delete_counts(rem.drop_first(), kind, key);
    } else {
        assert(delete_actions(rem) =~= Seq::<Action>::empty());
    }
}

/// Extraction splits each path's count between the two parts, children of
/// the directory on one side and everything else on the other.
proof fn lemma_extract_counts(tree: Seq<FileRecord>, dir: Seq<Seq<char>>, key: Seq<Seq<char>>)
    ensures
        count_paths(spec_extract(tree, dir).0, key) + count_paths(spec_extract(tree, dir).1, key)
            == count_paths(tree, key),
        crate::engine::is_child(key, dir) ==> count_paths(spec_extract(tree, dir).1, key) == 0,
        !crate::engine::is_child(key, dir) ==> count_paths(spec_extract(tree, dir).0, key) == 0,
    decreases tree.len(),
{
    if tree.len() > 0 {
        lemma_extract_counts(tree.drop_first(), dir, key);
        let r = spec_extract(tree.drop_first(), dir);
        let ex = spec_extract(tree, dir);
        if crate::engine::is_child(path_of(tree[0]), dir) {
            assert(ex.0.drop_first() =~= r.0);
            assert(ex.0[0] == tree[0]);
        } else {
            assert(ex.1.drop_first() =~= r.1);
            assert(ex.1[0] == tree[0]);
        }
    }
}

/// Every record of a tree lands, unchanged, in the part of the extraction
/// its path selects.
proof fn lemma_extract_membership(tree: Seq<FileRecord>, dir: Seq<Seq<char>>, n: int)
    requires
        0 <= n < tree.len(),
    ensures
        crate::engine::is_child(path_of(tree[n]), dir) ==> spec_extract(tree, dir).0.contains(
            tree[n],
        ),
        !crate::engine::is_child(path_of(tree[n]), dir) ==> spec_extract(tree, dir).1.contains(
            tree[n],
        ),
    decreases n,
{
    let ex = spec_extract(tree, dir);
    let r = spec_extract(tree.drop_first(), dir);
    if n == 0 {
        if crate::engine::is_child(path_of(tree[0]), dir) {
            assert(ex.0[0] == tree[0]);
        } else {
            assert(ex.1[0] == tree[0]);
        }
    } else {
        assert(tree.drop_first()[n - 1] == tree[n]);
        lemma_extract_membership(tree.drop_first(), dir, n - 1);
        if crate::engine::is_child(path_of(tree[n]), dir) {
            let w = choose|m: int| 0 <= m < r.0.len() && r.0[m] == tree[n];
            if crate::engine::is_child(path_of(tree[0]), dir) {
                assert(ex.0[w + 1] == r.0[w]);
            } else {
                assert(ex.0[w] == r.0[w]);
            }
        } else {
            let w = choose|m: int| 0 <= m < r.1.len() && r.1[m] == tree[n];
            if !crate::engine::is_child(path_of(tree[0]), dir) {
                assert(ex.1[w + 1] == r.1[w]);
            } else {
                assert(ex.1[w] == r.1[w]);
            }
        }
    }
}

/// Two listing positions with one path mean the path is counted twice.
proof fn lemma_count_ge_two(s: Seq<FileRecord>, i: int, j: int)
    requires
        0 <= i < j < s.len(),
        path_of(s[i]) == path_of(s[j]),
    ensures
        count_paths(s, path_of(s[i])) >= 2,
    decreases i,
{
    assert(forall|n: int| 0 <= n < s.drop_first().len() ==> s.drop_first()[n] == s[n + 1]);
    if i == 0 {
        lemma_count_paths_has(s.drop_first(), path_of(s[i]));
        assert(s.drop_first()[j - 1] == s[j]);
    } else {
        lemma_count_ge_two(s.drop_first(), i - 1, j - 1);
    }
}

/// Extraction keeps both parts free of repeated paths.
proof fn lemma_extract_uniq(tree: Seq<FileRecord>, dir: Seq<Seq<char>>)
    requires
        uniq_paths(tree),
    ensures
        uniq_paths(spec_extract(tree, dir).0),
        uniq_paths(spec_extract(tree, dir).1),
{
    let ex = spec_extract(tree, dir);
    assert forall|i: int, j: int| 0 <= i < j < ex.0.len() implies path_of(ex.0[i]) != path_of(
        ex.0[j],
    ) by {
        if path_of(ex.0[i]) == path_of(ex.0[j]) {
            lemma_count_ge_two(ex.0, i, j);
            lemma_extract_counts(tree, dir, path_of(ex.0[i]));
            lemma_count_le_one(tree, path_of(ex.0[i]));
        }
    }
    assert forall|i: int, j: int| 0 <= i < j < ex.1.len() implies path_of(ex.1[i]) != path_of(
        ex.1[j],
    ) by {
        if path_of(ex.1[i]) == path_of(ex.1[j]) {
            lemma_count_ge_two(ex.1, i, j);
            lemma_extract_counts(tree, dir, path_of(ex.1[i]));
            lemma_count_le_one(tree, path_of(ex.1[i]));
        }
    }
}

/// A level's sub-directory list carries the path of every source record
/// that is a directory.
proof fn lemma_subdirs_complete(src: Seq<FileRecord>, dst: Seq<FileRecord>, n: int)
    requires
        0 <= n < src.len(),
        src[n].is_directory,
    ensures
        spec_level_diff(src, dst).2.contains(path_of(src[n])),
    decreases n,
{
    let s = src[0];
    let lvl = spec_level_diff(src, dst);
    assert(forall|m: int| 0 <= m < src.drop_first().len() ==> src.drop_first()[m] == src[m + 1]);
    let dst2 = match first_match(dst, path_of(s)) {
        None => dst,
        Some(m) => dst.remove(m),
    };
    let r = spec_level_diff(src.drop_first(), dst2);
    if n == 0 {
        assert(lvl.2[0] == path_of(s));
    } else {
        lemma_subdirs_complete(src.drop_first(), dst2, n - 1);
        let w = choose|m: int| 0 <= m < r.2.len() && r.2[m] == path_of(src[n]);
        if s.is_directory {
            assert(lvl.2[w + 1] == r.2[w]);
        } else {
            assert(lvl.2[w] == r.2[w]);
        }
    }
}

/// The tree lists a directory record at path `p`.
pub open spec fn has_dir_at(src: Seq<FileRecord>, p: Seq<Seq<char>>) -> bool {
    exists|i: int| 0 <= i < src.len() && path_of(src[i]) == p && src[i].is_directory
}

/// The engine, driven from this queue over this source residue, will
/// eventually compare the directory pair at `p`: either `p` is queued
/// already, or its parent will be compared and the source directory record
/// at `p` will enqueue it then.
pub open spec fn anchored(
    queue: Seq<Seq<Seq<char>>>,
    src: Seq<FileRecord>,
    p: Seq<Seq<char>>,
) -> bool
    decreases p.len(),
{
    queue.contains(p) || (p.len() > 0 && has_dir_at(src, p) && anchored(
        queue,
        src,
        p.drop_last(),
    ))
}

/// Nothing is anchored to an empty queue.
proof fn lemma_anchored_nonempty(queue: Seq<Seq<Seq<char>>>, src: Seq<FileRecord>, p: Seq<
    Seq<char>,
>)
    requires
        anchored(queue, src, p),
    ensures
        queue.len() > 0,
    decreases p.len(),
{
    if !queue.contains(p) {
        lemma_anchored_nonempty(queue, src, p.drop_last());
    }
}

/// One step of the drive keeps every other directory pair anchored: a
/// queued path moves up the queue, and a child of the compared directory
/// moves from the source residue into the queue.
proof fn lemma_anchored_step(
    queue: Seq<Seq<Seq<char>>>,
    src: Seq<FileRecord>,
    dst: Seq<FileRecord>,
    p: Seq<Seq<char>>,
)
    requires
        queue.len() > 0,
        anchored(queue, src, p),
        p != queue[0],
    ensures
        anchored(
            queue.drop_first() + spec_level_diff(
                spec_extract(src, queue[0]).0,
                spec_extract(dst, queue[0]).0,
            ).2,
            spec_extract(src, queue[0]).1,
            p,
        ),
    decreases p.len(),
{
    let dir = queue[0];
    let lvl2 = spec_level_diff(spec_extract(src, dir).0, spec_extract(dst, dir).0).2;
    let queue2 = queue.drop_first() + lvl2;
    if queue.contains(p) {
        let w = choose|i: int| 0 <= i < queue.len() && queue[i] == p;
        assert(queue2[w - 1] == queue.drop_first()[w - 1]);
        assert(queue.drop_first()[w - 1] == queue[w]);
        assert(queue2.contains(p));
    } else {
        let e = choose|i: int|
            0 <= i < src.len() && path_of(src[i]) == p && src[i].is_directory;
        lemma_extract_membership(src, dir, e);
        if crate::engine::is_child(p, dir) {
            let lv = spec_extract(src, dir).0;
            let w = choose|m: int| 0 <= m < lv.len() && lv[m] == src[e];
            lemma_subdirs_complete(lv, spec_extract(dst, dir).0, w);
            let w2 = choose|m: int| 0 <= m < lvl2.len() && lvl2[m] == p;
            assert(queue2[queue.len() - 1 + w2] == lvl2[w2]);
            assert(queue2.contains(p));
        } else {
            let ex1 = spec_extract(src, dir).1;
            let w = choose|m: int| 0 <= m < ex1.len() && ex1[m] == src[e];
            assert(has_dir_at(ex1, p));
            assert(p.drop_last().len() == p.len() - 1);
            if p.drop_last() == dir {
                assert(crate::engine::is_child(p, dir));
            }
            lemma_anchored_step(queue, src, dst, p.drop_last());
        }
    }
}

/// A path absent from both residues never again appears in any action the
/// drive emits, whatever its kind.
proof fn lemma_drive_foreign(
    queue: Seq<Seq<Seq<char>>>,
    src: Seq<FileRecord>,
    dst: Seq<FileRecord>,
    kind: ActionKind,
    key: Seq<Seq<char>>,
)
    requires
        !has_path(src, key),
        !has_path(dst, key),
    ensures
        count_matching(spec_drive(queue, src, dst), kind, key) == 0,
    decreases src.len(), queue.len(),
{
    if queue.len() > 0 {
        let dir = queue[0];
        let ex_s = spec_extract(src, dir);
        let ex_d = spec_extract(dst, dir);
        lemma_extract_len(src, dir);
        lemma_subdirs_bound(ex_s.0, ex_d.0);
        let lvl = spec_level_diff(ex_s.0, ex_d.0);
        lemma_count_paths_has(src, key);
        lemma_count_paths_has(dst, key);
        lemma_extract_counts(src, dir, key);
        lemma_extract_counts(dst, dir, key);
        lemma_count_paths_has(ex_s.0, key);
        lemma_count_paths_has(ex_s.1, key);
        lemma_count_paths_has(ex_d.0, key);
        lemma_count_paths_has(ex_d.1, key);
        assert(forall|i: int| 0 <= i < ex_s.0.len() ==> path_of(ex_s.0[i]) != key);
        lemma_level_no_foreign_actions(ex_s.0, ex_d.0, kind, key);
        lemma_level_rem_absent(ex_s.0, ex_d.0, key);
        lemma_count_paths_has(lvl.0, key);
        lemma_delete_counts(lvl.0, kind, key);
        lemma_drive_foreign(queue.drop_first() + lvl.2, ex_s.1, ex_d.1, kind, key);
        lemma_count_matching_add(lvl.1, delete_actions(lvl.0), kind, key);
        lemma_count_matching_add(
            lvl.1 + delete_actions(lvl.0),
            spec_drive(queue.drop_first() + lvl.2, ex_s.1, ex_d.1),
            kind,
        key);
    }
}

/// What the whole drive emits for one path, provided the level holding it
/// is anchored: one copy when only the source has it, one update when both
/// have it and the source is strictly newer, one delete when only the
/// destination has it, and nothing else.
proof fn lemma_drive_key(
    queue: Seq<Seq<Seq<char>>>,
    src: Seq<FileRecord>,
    dst: Seq<FileRecord>,
    key: Seq<Seq<char>>,
    si: int,
    dj: int,
)
    requires
        uniq_paths(src),
        uniq_paths(dst),
        key.len() >= 1,
        anchored(queue, src, key.drop_last()),
        si >= 0 ==> si < src.len() && path_of(src[si]) == key,
        si < 0 ==> !has_path(src, key),
        dj >= 0 ==> dj < dst.len() && path_of(dst[dj]) == key,
        dj < 0 ==> !has_path(dst, key),
        si >= 0 || dj >= 0,
    ensures
        count_matching(spec_drive(queue, src, dst), ActionKind::CopyFile, key) == (if si >= 0
            && dj < 0 {
            1nat
        } else {
            0nat
        }),
        count_matching(spec_drive(queue, src, dst), ActionKind::UpdateFile, key) == (if si >= 0
            && dj >= 0 && ts_newer(src[si].modified_time, dst[dj].modified_time) {
            1nat
        } else {
            0nat
        }),
        count_matching(spec_drive(queue, src, dst), ActionKind::DeleteFile, key) == (if si < 0
            && dj >= 0 {
            1nat
        } else {
            0nat
        }),
    decreases src.len(), queue.len(),
{
    lemma_anchored_nonempty(queue, src, key.drop_last());
    let dir = queue[0];
    let ex_s = spec_extract(src, dir);
    let ex_d = spec_extract(dst, dir);
    lemma_extract_len(src, dir);
    lemma_subdirs_bound(ex_s.0, ex_d.0);
    let lvl = spec_level_diff(ex_s.0, ex_d.0);
    let queue2 = queue.drop_first() + lvl.2;
    let rec = spec_drive(queue2, ex_s.1, ex_d.1);
    lemma_extract_uniq(src, dir);
    lemma_extract_uniq(dst, dir);
    lemma_extract_counts(src, dir, key);
    lemma_extract_counts(dst, dir, key);
    lemma_count_paths_has(src, key);
    lemma_count_paths_has(dst, key);
    lemma_count_paths_has(ex_s.0, key);
    lemma_count_paths_has(ex_s.1, key);
    lemma_count_paths_has(ex_d.0, key);
    lemma_count_paths_has(ex_d.1, key);
    if si >= 0 {
        lemma_count_paths_uniq(src, si);
        lemma_extract_membership(src, dir, si);
    }
    if dj >= 0 {
        lemma_count_paths_uniq(dst, dj);
        lemma_extract_membership(dst, dir, dj);
    }
    if crate::engine::is_child(key, dir) {
        if si >= 0 && dj < 0 {
            let li = choose|m: int| 0 <= m < ex_s.0.len() && ex_s.0[m] == src[si];
            lemma_level_completeness(ex_s.0, ex_d.0, li);
            lemma_level_rem_absent(ex_s.0, ex_d.0, key);
            lemma_count_paths_has(lvl.0, key);
        } else if si >= 0 && dj >= 0 {
            let li = choose|m: int| 0 <= m < ex_s.0.len() && ex_s.0[m] == src[si];
            let lj = choose|m: int| 0 <= m < ex_d.0.len() && ex_d.0[m] == dst[dj];
            lemma_level_staleness(ex_s.0, ex_d.0, li, lj);
            lemma_level_no_delete_for_present(ex_s.0, ex_d.0, key);
            lemma_count_paths_has(lvl.0, key);
        } else {
            assert(forall|i: int| 0 <= i < ex_s.0.len() ==> path_of(ex_s.0[i]) != key);
            lemma_level_no_foreign_actions(ex_s.0, ex_d.0, ActionKind::CopyFile, key);
            lemma_level_no_foreign_actions(ex_s.0, ex_d.0, ActionKind::UpdateFile, key);
            lemma_level_rem_count(ex_s.0, ex_d.0, key);
        }
        lemma_level_actions_no_delete(ex_s.0, ex_d.0, key);
        lemma_delete_counts(lvl.0, ActionKind::CopyFile, key);
        lemma_delete_counts(lvl.0, ActionKind::UpdateFile, key);
        lemma_delete_counts(lvl.0, ActionKind::DeleteFile, key);
        lemma_drive_foreign(queue2, ex_s.1, ex_d.1, ActionKind::CopyFile, key);
        lemma_drive_foreign(queue2, ex_s.1, ex_d.1, ActionKind::UpdateFile, key);
        lemma_drive_foreign(queue2, ex_s.1, ex_d.1, ActionKind::DeleteFile, key);
    } else {
        assert(forall|i: int| 0 <= i < ex_s.0.len() ==> path_of(ex_s.0[i]) != key);
        lemma_level_no_foreign_actions(ex_s.0, ex_d.0, ActionKind::CopyFile, key);
        lemma_level_no_foreign_actions(ex_s.0, ex_d.0, ActionKind::UpdateFile, key);
        lemma_level_no_foreign_actions(ex_s.0, ex_d.0, ActionKind::DeleteFile, key);
        lemma_level_rem_absent(ex_s.0, ex_d.0, key);
        lemma_count_paths_has(lvl.0, key);
        lemma_delete_counts(lvl.0, ActionKind::CopyFile, key);
        lemma_delete_counts(lvl.0, ActionKind::UpdateFile, key);
        lemma_delete_counts(lvl.0, ActionKind::DeleteFile, key);
        let si2: int = if si >= 0 {
            choose|m: int| 0 <= m < ex_s.1.len() && ex_s.1[m] == src[si]
        } else {
            -1
        };
        let dj2: int = if dj >= 0 {
            choose|m: int| 0 <= m < ex_d.1.len() && ex_d.1[m] == dst[dj]
        } else {
            -1
        };
        assert(key.drop_last().len() == key.len() - 1);
        if key.drop_last() == dir {
            assert(crate::engine::is_child(key, dir));
        }
        lemma_anchored_step(queue, src, dst, key.drop_last());
        lemma_drive_key(queue2, ex_s.1, ex_d.1, key, si2, dj2);
    }
    lemma_count_matching_add(lvl.1, delete_actions(lvl.0), ActionKind::CopyFile, key);
    lemma_count_matching_add(lvl.1, delete_actions(lvl.0), ActionKind::UpdateFile, key);
    lemma_count_matching_add(lvl.1, delete_actions(lvl.0), ActionKind::DeleteFile, key);
    lemma_count_matching_add(lvl.1 + delete_actions(lvl.0), rec, ActionKind::CopyFile, key);
    lemma_count_matching_add(lvl.1 + delete_actions(lvl.0), rec, ActionKind::UpdateFile, key);
    lemma_count_matching_add(lvl.1 + delete_actions(lvl.0), rec, ActionKind::DeleteFile, key);
}

/// The copy-and-update list of a level never holds a delete: deletes come
/// only from the stale list.
proof fn lemma_level_actions_no_delete(
    src: Seq<FileRecord>,
    dst: Seq<FileRecord>,
    key: Seq<Seq<char>>,
)
    ensures
        count_matching(spec_level_diff(src, dst).1, ActionKind::DeleteFile, key) == 0,
    decreases src.len(),
{
    if src.len() > 0 {
        let s = src[0];
        match first_match(dst, path_of(s)) {
            None => {
                lemma_level_actions_no_delete(src.drop_first(), dst, key);
                let r = spec_level_diff(src.drop_first(), dst);
                assert((seq![copy_action(s)] + r.1).drop_first() =~= r.1);
            },
            Some(m) => {
                lemma_level_actions_no_delete(src.drop_first(), dst.remove(m), key);
                let r = spec_level_diff(src.drop_first(), dst.remove(m));
                assert((seq![update_action(s)] + r.1).drop_first() =~= r.1);
            },
        }
    }
}

/// A whole-tree scan is well formed: every record is (its path non-empty
/// and ending in its own name), no two records share a path, and every
/// record below the first level lies in a directory the scan also lists.
/// Scans of real directory trees have all three.
pub open spec fn wf_tree(t: Seq<FileRecord>) -> bool {
    uniq_paths(t) && (forall|i: int| 0 <= i < t.len() ==> wf_record(#[trigger] t[i])) && (forall|
        i: int,
    |
        0 <= i < t.len() && path_of(t[i]).len() >= 2 ==> has_dir_at(t, path_of(t[i]).drop_last()))
}

/// In a well-formed tree every listed directory's pair is anchored to the
/// root queue: its chain of parents consists of listed directories.
proof fn lemma_wf_anchored(src: Seq<FileRecord>, p: Seq<Seq<char>>)
    requires
        wf_tree(src),
        p.len() == 0 || has_dir_at(src, p),
    ensures
        anchored(seq![Seq::<Seq<char>>::empty()], src, p),
    decreases p.len(),
{
    let q0 = seq![Seq::<Seq<char>>::empty()];
    if p.len() == 0 {
        assert(p =~= Seq::<Seq<char>>::empty());
        assert(q0[0] == p);
        assert(q0.contains(p));
    } else {
        let e = choose|i: int|
            0 <= i < src.len() && path_of(src[i]) == p && src[i].is_directory;
        if p.len() >= 2 {
            assert(has_dir_at(src, path_of(src[e]).drop_last()));
        }
        lemma_wf_anchored(src, p.drop_last());
    }
}

/// Completeness: a source entry whose path the destination tree holds
/// nowhere yields exactly one copy action, and neither an update nor a
/// delete.
pub proof fn lemma_tree_completeness(src: Seq<FileRecord>, dst: Seq<FileRecord>, i: int)
    requires
        wf_tree(src),
        wf_tree(dst),
        0 <= i < src.len(),
        !has_path(dst, path_of(src[i])),
    ensures
        count_matching(spec_diff_tree(src, dst), ActionKind::CopyFile, path_of(src[i])) == 1,
        count_matching(spec_diff_tree(src, dst), ActionKind::UpdateFile, path_of(src[i])) == 0,
        count_matching(spec_diff_tree(src, dst), ActionKind::DeleteFile, path_of(src[i])) == 0,
{
    let key = path_of(src[i]);
    if key.len() >= 2 {
        assert(has_dir_at(src, key.drop_last()));
    }
    lemma_wf_anchored(src, key.drop_last());
    lemma_drive_key(seq![Seq::<Seq<char>>::empty()], src, dst, key, i, -1);
}

/// Staleness correctness: for a path both trees hold, exactly one update
/// action is emitted when the source's modification time is strictly newer
/// and none otherwise; the path is never copied and never deleted. In
/// particular a pair with equal size and modification time, and a pair
/// whose destination is not older, yield no action at all.
pub proof fn lemma_tree_staleness(src: Seq<FileRecord>, dst: Seq<FileRecord>, i: int, j: int)
    requires
        wf_tree(src),
        wf_tree(dst),
        0 <= i < src.len(),
        0 <= j < dst.len(),
        path_of(src[i]) == path_of(dst[j]),
    ensures
        count_matching(spec_diff_tree(src, dst), ActionKind::UpdateFile, path_of(src[i])) == (
        if ts_newer(src[i].modified_time, dst[j].modified_time) {
            1nat
        } else {
            0nat
        }),
        count_matching(spec_diff_tree(src, dst), ActionKind::CopyFile, path_of(src[i])) == 0,
        count_matching(spec_diff_tree(src, dst), ActionKind::DeleteFile, path_of(src[i])) == 0,
{
    let key = path_of(src[i]);
    if key.len() >= 2 {
        assert(has_dir_at(src, key.drop_last()));
    }
    lemma_wf_anchored(src, key.drop_last());
    lemma_drive_key(seq![Seq::<Seq<char>>::empty()], src, dst, key, i, j);
}

/// Deletion correctness: a destination entry whose path the source tree
/// holds nowhere, and whose own directory the source tree still lists (or
/// which lies at the first level), yields exactly one delete action and
/// nothing else. An entry buried inside a directory that only the
/// destination has is not reached: its whole directory is deleted at the
/// directory's own level instead.
pub proof fn lemma_tree_deletion(src: Seq<FileRecord>, dst: Seq<FileRecord>, j: int)
    requires
        wf_tree(src),
        wf_tree(dst),
        0 <= j < dst.len(),
        !has_path(src, path_of(dst[j])),
        path_of(dst[j]).len() == 1 || has_dir_at(src, path_of(dst[j]).drop_last()),
    ensures
        count_matching(spec_diff_tree(src, dst), ActionKind::DeleteFile, path_of(dst[j])) == 1,
        count_matching(spec_diff_tree(src, dst), ActionKind::CopyFile, path_of(dst[j])) == 0,
        count_matching(spec_diff_tree(src, dst), ActionKind::UpdateFile, path_of(dst[j])) == 0,
{
    let key = path_of(dst[j]);
    lemma_wf_anchored(src, key.drop_last());
    lemma_drive_key(seq![Seq::<Seq<char>>::empty()], src, dst, key, -1, j);
}

/// Extraction sorts children into the first part and everything else into
/// the second.
proof fn lemma_extract_members_child(tree: Seq<FileRecord>, dir: Seq<Seq<char>>)
    ensures
        forall|n: int|
            0 <= n < spec_extract(tree, dir).0.len() ==> crate::engine::is_child(
                path_of(spec_extract(tree, dir).0[n]),
                dir,
            ),
        forall|n: int|
            0 <= n < spec_extract(tree, dir).1.len() ==> !crate::engine::is_child(
                path_of(spec_extract(tree, dir).1[n]),
                dir,
            ),
    decreases tree.len(),
{
    if tree.len() > 0 {
        lemma_extract_members_child(tree.drop_first(), dir);
        let r = spec_extract(tree.drop_first(), dir);
        let ex = spec_extract(tree, dir);
        if crate::engine::is_child(path_of(tree[0]), dir) {
            assert(forall|n: int| 1 <= n < ex.0.len() ==> ex.0[n] == r.0[n - 1]);
        } else {
            assert(forall|n: int| 1 <= n < ex.1.len() ==> ex.1[n] == r.1[n - 1]);
        }
    }
}

/// Both parts of an extraction hold only records of the tree itself.
proof fn lemma_extract_submembers(tree: Seq<FileRecord>, dir: Seq<Seq<char>>)
    ensures
        forall|n: int|
            0 <= n < spec_extract(tree, dir).0.len() ==> tree.contains(
                #[trigger] spec_extract(tree, dir).0[n],
            ),
        forall|n: int|
            0 <= n < spec_extract(tree, dir).1.len() ==> tree.contains(
                #[trigger] spec_extract(tree, dir).1[n],
            ),
    decreases tree.len(),
{
    if tree.len() > 0 {
        lemma_extract_submembers(tree.drop_first(), dir);
        let r = spec_extract(tree.drop_first(), dir);
        let ex = spec_extract(tree, dir);
        assert(forall|m: int| 0 <= m < tree.drop_first().len() ==> tree.drop_first()[m] == tree[m
            + 1]);
        assert forall|n: int| 0 <= n < ex.0.len() implies tree.contains(ex.0[n]) by {
            if crate::engine::is_child(path_of(tree[0]), dir) {
                if n == 0 {
                    assert(tree[0] == ex.0[0]);
                } else {
                    assert(ex.0[n] == r.0[n - 1]);
                    let w = choose|m: int|
                        0 <= m < tree.drop_first().len() && tree.drop_first()[m] == r.0[n - 1];
                    assert(tree[w + 1] == r.0[n - 1]);
                }
            } else {
                assert(ex.0[n] == r.0[n]);
                let w = choose|m: int|
                    0 <= m < tree.drop_first().len() && tree.drop_first()[m] == r.0[n];
                assert(tree[w + 1] == r.0[n]);
            }
        }
        assert forall|n: int| 0 <= n < ex.1.len() implies tree.contains(ex.1[n]) by {
            if !crate::engine::is_child(path_of(tree[0]), dir) {
                if n == 0 {
                    assert(tree[0] == ex.1[0]);
                } else {
                    assert(ex.1[n] == r.1[n - 1]);
                    let w = choose|m: int|
                        0 <= m < tree.drop_first().len() && tree.drop_first()[m] == r.1[n - 1];
                    assert(tree[w + 1] == r.1[n - 1]);
                }
            } else {
                assert(ex.1[n] == r.1[n]);
                let w = choose|m: int|
                    0 <= m < tree.drop_first().len() && tree.drop_first()[m] == r.1[n];
                assert(tree[w + 1] == r.1[n]);
            }
        }
    }
}

/// Applying a level keeps only records that stood in one of its two
/// listings.
proof fn lemma_apply_level_members(src: Seq<FileRecord>, dst: Seq<FileRecord>, n: int)
    requires
        0 <= n < apply_level(src, dst).len(),
    ensures
        src.contains(apply_level(src, dst)[n]) || dst.contains(apply_level(src, dst)[n]),
    decreases src.len(),
{
    let ap = apply_level(src, dst);
    let s = src[0];
    assert(forall|m: int| 0 <= m < src.drop_first().len() ==> src.drop_first()[m] == src[m + 1]);
    match first_match(dst, path_of(s)) {
        None => {
            if n == 0 {
                assert(ap[0] == s);
            } else {
                lemma_apply_level_members(src.drop_first(), dst, n - 1);
                let x = apply_level(src.drop_first(), dst)[n - 1];
                assert(ap[n] == x);
                if src.drop_first().contains(x) {
                    let w = choose|m: int|
                        0 <= m < src.drop_first().len() && src.drop_first()[m] == x;
                    assert(src[w + 1] == x);
                }
            }
        },
        Some(m) => {
            lemma_first_match_some(dst, path_of(s));
            let d = dst[m];
            assert(forall|t: int|
                0 <= t < dst.remove(m).len() ==> dst.remove(m)[t] == (if t < m {
                    dst[t]
                } else {
                    dst[t + 1]
                }));
            if n == 0 {
                assert(ap[0] == s || ap[0] == d);
            } else {
                lemma_apply_level_members(src.drop_first(), dst.remove(m), n - 1);
                let x = apply_level(src.drop_first(), dst.remove(m))[n - 1];
                assert(ap[n] == x);
                if src.drop_first().contains(x) {
                    let w = choose|t: int|
                        0 <= t < src.drop_first().len() && src.drop_first()[t] == x;
                    assert(src[w + 1] == x);
                }
                if dst.remove(m).contains(x) {
                    let w = choose|t: int|
                        0 <= t < dst.remove(m).len() && dst.remove(m)[t] == x;
                    assert(dst.contains(x));
                }
            }
        },
    }
}

/// The sub-directories a level enqueues: the paths of the source records
/// that are directories, in order.
pub open spec fn spec_subdirs(src: Seq<FileRecord>) -> Seq<Seq<Seq<char>>>
    decreases src.len(),
{
    if src.len() == 0 {
        Seq::<Seq<Seq<char>>>::empty()
    } else {
        (if src[0].is_directory {
            seq![path_of(src[0])]
        } else {
            Seq::<Seq<Seq<char>>>::empty()
        }) + spec_subdirs(src.drop_first())
    }
}

/// What a level enqueues depends on its source listing alone, never on the
/// destination listing.
proof fn lemma_subdirs_indep(src: Seq<FileRecord>, dst: Seq<FileRecord>)
    ensures
        spec_level_diff(src, dst).2 == spec_subdirs(src),
    decreases src.len(),
{
    if src.len() == 0 {
    } else {
        let s = src[0];
        match first_match(dst, path_of(s)) {
            None => {
                lemma_subdirs_indep(src.drop_first(), dst);
            },
            Some(m) => {
                lemma_subdirs_indep(src.drop_first(), dst.remove(m));
            },
        }
    }
}

/// The destination tree after the whole run is executed, at the metadata
/// granularity the diff reads: each compared level is replaced by its
/// applied image, and whatever level the engine never reaches stays as it
/// was.
pub open spec fn apply_drive(
    queue: Seq<Seq<Seq<char>>>,
    src: Seq<FileRecord>,
    dst: Seq<FileRecord>,
) -> Seq<FileRecord>
    decreases src.len(), queue.len(),
    via apply_drive_decreases
{
    if queue.len() == 0 {
        dst
    } else {
        let dir = queue[0];
        let ex_s = spec_extract(src, dir);
        let ex_d = spec_extract(dst, dir);
        let lvl = spec_level_diff(ex_s.0, ex_d.0);
        apply_level(ex_s.0, ex_d.0) + apply_drive(queue.drop_first() + lvl.2, ex_s.1, ex_d.1)
    }
}

#[via_fn]
proof fn apply_drive_decreases(
    queue: Seq<Seq<Seq<char>>>,
    src: Seq<FileRecord>,
    dst: Seq<FileRecord>,
) {
    if queue.len() > 0 {
        let dir = queue[0];
        lemma_extract_len(src, dir);
        lemma_subdirs_bound(spec_extract(src, dir).0, spec_extract(dst, dir).0);
    }
}

/// The destination tree after one whole run of the pipeline.
pub open spec fn apply_tree(src: Seq<FileRecord>, dst: Seq<FileRecord>) -> Seq<FileRecord> {
    apply_drive(seq![Seq::<Seq<char>>::empty()], src, dst)
}

/// When neither residue holds a child of `dir0`, the applied tree holds
/// none either: applying only rewrites records drawn from the residues.
proof fn lemma_apply_drive_not_children(
    queue: Seq<Seq<Seq<char>>>,
    src: Seq<FileRecord>,
    dst: Seq<FileRecord>,
    dir0: Seq<Seq<char>>,
)
    requires
        forall|n: int| 0 <= n < src.len() ==> !crate::engine::is_child(path_of(src[n]), dir0),
        forall|n: int| 0 <= n < dst.len() ==> !crate::engine::is_child(path_of(dst[n]), dir0),
    ensures
        forall|n: int|
            0 <= n < apply_drive(queue, src, dst).len() ==> !crate::engine::is_child(
                path_of(apply_drive(queue, src, dst)[n]),
                dir0,
            ),
    decreases src.len(), queue.len(),
{
    if queue.len() > 0 {
        let dir = queue[0];
        let ex_s = spec_extract(src, dir);
        let ex_d = spec_extract(dst, dir);
        lemma_extract_len(src, dir);
        lemma_subdirs_bound(ex_s.0, ex_d.0);
        let lvl = spec_level_diff(ex_s.0, ex_d.0);
        let ap = apply_level(ex_s.0, ex_d.0);
        let rest = apply_drive(queue.drop_first() + lvl.2, ex_s.1, ex_d.1);
        lemma_extract_submembers(src, dir);
        lemma_extract_submembers(dst, dir);
        assert forall|n: int| 0 <= n < ap.len() implies !crate::engine::is_child(
            path_of(ap[n]),
            dir0,
        ) by {
            lemma_apply_level_members(ex_s.0, ex_d.0, n);
            if ex_s.0.contains(ap[n]) {
                let w = choose|m: int| 0 <= m < ex_s.0.len() && ex_s.0[m] == ap[n];
                let w2 = choose|m: int| 0 <= m < src.len() && src[m] == ex_s.0[w];
                assert(!crate::engine::is_child(path_of(src[w2]), dir0));
            } else {
                let w = choose|m: int| 0 <= m < ex_d.0.len() && ex_d.0[m] == ap[n];
                let w2 = choose|m: int| 0 <= m < dst.len() && dst[m] == ex_d.0[w];
                assert(!crate::engine::is_child(path_of(dst[w2]), dir0));
            }
        }
        assert forall|n: int| 0 <= n < ex_s.1.len() implies !crate::engine::is_child(
            path_of(ex_s.1[n]),
            dir0,
        ) by {
            let w = choose|m: int| 0 <= m < src.len() && src[m] == ex_s.1[n];
            assert(!crate::engine::is_child(path_of(src[w]), dir0));
        }
        assert forall|n: int| 0 <= n < ex_d.1.len() implies !crate::engine::is_child(
            path_of(ex_d.1[n]),
            dir0,
        ) by {
            let w = choose|m: int| 0 <= m < dst.len() && dst[m] == ex_d.1[n];
            assert(!crate::engine::is_child(path_of(dst[w]), dir0));
        }
        lemma_apply_drive_not_children(queue.drop_first() + lvl.2, ex_s.1, ex_d.1, dir0);
        assert(forall|n: int|
            0 <= n < apply_drive(queue, src, dst).len() ==> apply_drive(queue, src, dst)[n] == (
            if n < ap.len() {
                ap[n]
            } else {
                rest[n - ap.len()]
            }));
    }
}

/// Extracting a directory's children from a tree whose front block holds
/// exactly children and whose back block holds none returns the two blocks
/// unchanged.
proof fn lemma_extract_split(a: Seq<FileRecord>, b: Seq<FileRecord>, dir: Seq<Seq<char>>)
    requires
        forall|n: int| 0 <= n < a.len() ==> crate::engine::is_child(path_of(a[n]), dir),
        forall|n: int| 0 <= n < b.len() ==> !crate::engine::is_child(path_of(b[n]), dir),
    ensures
        spec_extract(a + b, dir).0 == a,
        spec_extract(a + b, dir).1 == b,
    decreases a.len() + b.len(),
{
    if a.len() > 0 {
        assert((a + b).drop_first() =~= a.drop_first() + b);
        assert(forall|m: int| 0 <= m < a.drop_first().len() ==> a.drop_first()[m] == a[m + 1]);
        lemma_extract_split(a.drop_first(), b, dir);
        assert((a + b)[0] == a[0]);
        assert(spec_extract(a + b, dir).0 =~= seq![a[0]] + a.drop_first());
        assert(seq![a[0]] + a.drop_first() =~= a);
    } else if b.len() > 0 {
        assert((a + b).drop_first() =~= Seq::<FileRecord>::empty() + b.drop_first());
        assert(forall|m: int| 0 <= m < b.drop_first().len() ==> b.drop_first()[m] == b[m + 1]);
        lemma_extract_split(Seq::<FileRecord>::empty(), b.drop_first(), dir);
        assert((a + b)[0] == b[0]);
        assert(spec_extract(a + b, dir).1 =~= seq![b[0]] + b.drop_first());
        assert(seq![b[0]] + b.drop_first() =~= b);
        assert(spec_extract(a + b, dir).0 =~= a);
    } else {
        assert(a + b =~= Seq::<FileRecord>::empty());
        assert(spec_extract(a + b, dir).0 =~= a);
        assert(spec_extract(a + b, dir).1 =~= b);
    }
}

/// Convergence of the whole pipeline: once one run's actions have been
/// applied, a second run over the same source tree emits no action at all.
proof fn lemma_drive_convergence(
    queue: Seq<Seq<Seq<char>>>,
    src: Seq<FileRecord>,
    dst: Seq<FileRecord>,
)
    ensures
        spec_drive(queue, src, apply_drive(queue, src, dst)) == Seq::<Action>::empty(),
    decreases src.len(), queue.len(),
{
    if queue.len() > 0 {
        let dir = queue[0];
        let ex_s = spec_extract(src, dir);
        let ex_d = spec_extract(dst, dir);
        lemma_extract_len(src, dir);
        lemma_subdirs_bound(ex_s.0, ex_d.0);
        let lvl = spec_level_diff(ex_s.0, ex_d.0);
        let queue2 = queue.drop_first() + lvl.2;
        let ap = apply_level(ex_s.0, ex_d.0);
        let rest = apply_drive(queue2, ex_s.1, ex_d.1);
        let t = apply_drive(queue, src, dst);
        assert(t == ap + rest);
        lemma_extract_members_child(src, dir);
        lemma_extract_members_child(dst, dir);
        lemma_extract_submembers(src, dir);
        lemma_extract_submembers(dst, dir);
        assert forall|n: int| 0 <= n < ap.len() implies crate::engine::is_child(
            path_of(ap[n]),
            dir,
        ) by {
            lemma_apply_level_members(ex_s.0, ex_d.0, n);
            if ex_s.0.contains(ap[n]) {
                let w = choose|m: int| 0 <= m < ex_s.0.len() && ex_s.0[m] == ap[n];
                assert(crate::engine::is_child(path_of(ex_s.0[w]), dir));
            } else {
                let w = choose|m: int| 0 <= m < ex_d.0.len() && ex_d.0[m] == ap[n];
                assert(crate::engine::is_child(path_of(ex_d.0[w]), dir));
            }
        }
        lemma_apply_drive_not_children(queue2, ex_s.1, ex_d.1, dir);
        lemma_extract_split(ap, rest, dir);
        lemma_level_convergence(ex_s.0, ex_d.0);
        lemma_subdirs_indep(ex_s.0, ex_d.0);
        lemma_subdirs_indep(ex_s.0, ap);
        assert(delete_actions(Seq::<FileRecord>::empty()) =~= Seq::<Action>::empty());
        lemma_drive_convergence(queue2, ex_s.1, ex_d.1);
        assert(spec_drive(queue, src, t) =~= Seq::<Action>::empty());
    }
}

/// Convergence / idempotence: running the diff once, applying its actions,
/// and diffing again with nothing changed in between yields an empty action
/// list the second time.
pub proof fn lemma_tree_convergence(src: Seq<FileRecord>, dst: Seq<FileRecord>)
    ensures
        spec_diff_tree(src, apply_tree(src, dst)) == Seq::<Action>::empty(),
{
    lemma_drive_convergence(seq![Seq::<Seq<char>>::empty()], src, dst);
}

} // verus!
