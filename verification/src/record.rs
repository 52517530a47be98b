use vstd::prelude::*;

verus! {

/// A file timestamp: seconds since the Unix epoch plus a nanosecond part,
/// with at least one-second resolution, as filesystems report access and
/// modification times.
#[derive(Clone, Copy, Debug, PartialEq, Eq, Structural)]
pub struct Timestamp {
    pub seconds: i64,
    pub nanos: u32,
}

/// `a` is strictly later than `b`: seconds first, nanoseconds as tie-break.
pub open spec fn ts_newer(a: Timestamp, b: Timestamp) -> bool {
    a.seconds > b.seconds || (a.seconds == b.seconds && a.nanos > b.nanos)
}

impl Timestamp {
    /// Strict "later than" on timestamps.
    pub fn newer_than(&self, other: &Timestamp) -> (r: bool)
        ensures
            r == ts_newer(*self, *other),
    {
        self.seconds > other.seconds
            || (self.seconds == other.seconds && self.nanos > other.nanos)
    }
}

/// The view of a relative path: the sequence of its components' character
/// sequences. Two paths name the same entry exactly when their views agree.
pub open spec fn path_view(p: Seq<String>) -> Seq<Seq<char>> {
    p.map_values(|s: String| s@)
}

/// The view of a sequence of relative paths.
pub open spec fn paths_view(q: Seq<Vec<String>>) -> Seq<Seq<Seq<char>>> {
    q.map_values(|p: Vec<String>| path_view(p@))
}

/// One entry scanned from a directory level: its identity (the relative
/// path), the metadata the diff rules read, and the absolute path an
/// executor performs I/O against.
#[derive(Debug)]
pub struct FileRecord {
    /// The entry's own name: the last component of `relative_path`.
    pub relative_name: String,
    /// Path relative to the scan root, as name components; the identity key
    /// used to match entries across the two trees.
    pub relative_path: Vec<String>,
    /// Resolved filesystem path at scan time; opaque to the diff rules.
    pub absolute_path: String,
    /// Access time captured at scan time.
    pub access_time: Timestamp,
    /// Modification time captured at scan time.
    pub modified_time: Timestamp,
    /// Byte length at scan time; meaningless for directories.
    pub size: u64,
    /// Whether a filesystem stat reported this entry as a directory.
    pub is_directory: bool,
}

/// The identity key of a record: the view of its relative path.
pub open spec fn path_of(r: FileRecord) -> Seq<Seq<char>> {
    path_view(r.relative_path@)
}

/// A record is well formed when its relative path is non-empty and ends in
/// the record's own name.
pub open spec fn wf_record(r: FileRecord) -> bool {
    r.relative_path@.len() >= 1 && r.relative_path@.last()@ == r.relative_name@
}

/// What kind of work one action asks of the executor.
#[derive(Clone, Copy, Debug, PartialEq, Eq, Structural)]
pub enum ActionKind {
    CopyFile,
    UpdateFile,
    DeleteFile,
}

/// One unit of pending work: create/copy, overwrite, or remove one entry.
#[derive(Debug)]
pub struct Action {
    pub kind: ActionKind,
    /// The record the action applies to: the source-side record for copy and
    /// update, the destination-side record for delete.
    pub target: FileRecord,
    /// Whether the action concerns a directory node.
    pub is_directory: bool,
}

/// The copy action emitted for a source record absent from the destination.
pub open spec fn copy_action(s: FileRecord) -> Action {
    Action { kind: ActionKind::CopyFile, target: s, is_directory: s.is_directory }
}

/// The update action emitted for a stale destination counterpart.
pub open spec fn update_action(s: FileRecord) -> Action {
    Action { kind: ActionKind::UpdateFile, target: s, is_directory: s.is_directory }
}

/// The delete action emitted for an unmatched destination record.
pub open spec fn delete_action(d: FileRecord) -> Action {
    Action { kind: ActionKind::DeleteFile, target: d, is_directory: d.is_directory }
}

/// Equality of two relative paths, component by component.
pub fn path_eq(a: &Vec<String>, b: &Vec<String>) -> (r: bool)
    ensures
        r == (path_view(a@) == path_view(b@)),
{
    if a.len() != b.len() {
        proof {
            assert(path_view(a@).len() != path_view(b@).len());
        }
        return false;
    }
    let mut i: usize = 0;
    while i < a.len()
        invariant
            i <= a.len(),
            a@.len() == b@.len(),
            forall|j: int| 0 <= j < i ==> path_view(a@)[j] == path_view(b@)[j],
        decreases a.len() - i,
    {
        if !(a[i] == b[i]) {
            proof {
                assert(path_view(a@)[i as int] != path_view(b@)[i as int]);
            }
            return false;
        }
        i += 1;
    }
    proof {
        assert(path_view(a@) =~= path_view(b@));
    }
    true
}

/// A copy of a relative path; the copy equals the original.
pub fn clone_path(p: &Vec<String>) -> (r: Vec<String>)
    ensures
        r@ == p@,
{
    let mut r: Vec<String> = Vec::new();
    let mut i: usize = 0;
    while i < p.len()
        invariant
            i <= p.len(),
            r@ =~= p@.take(i as int),
        decreases p.len() - i,
    {
        r.push(p[i].clone());
        i += 1;
    }
    proof {
        assert(r@ =~= p@);
    }
    r
}

} // verus!
