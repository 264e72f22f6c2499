//! Translation of diff hunks into positional line operations.
use vstd::prelude::*;

verus! {

/// How a file changed between two snapshots.
#[derive(Clone, Copy, Debug, PartialEq, Eq, Structural)]
pub enum FileStatus {
    Added,
    Deleted,
    Modified,
    Renamed,
    Copied,
    /// Any other status of the diff (type change, unreadable, ...).
    Other,
}

/// A contiguous span of a zero-context diff, in the diff's 1-based convention.
#[derive(Clone, Copy, Debug, PartialEq, Eq, Structural)]
pub struct Hunk {
    pub old_start: u32,
    pub old_lines: u32,
    pub new_start: u32,
    pub new_lines: u32,
}

/// One positional line operation on one file.
#[derive(Debug)]
pub enum Change {
    /// Insert `length` lines at 0-based position `start`.
    Add { filename: String, start: u32, length: u32 },
    /// Remove `length` lines starting at 0-based position `start`.
    Delete { filename: String, start: u32, length: u32 },
    /// The file and all of its line history are removed.
    DeleteFile { filename: String },
    /// The file is created with `length` lines, replacing any prior entry.
    AddFile { filename: String, length: u32 },
}

/// The mathematical form of a [`Change`].
pub enum Op {
    Add { file: Seq<char>, start: nat, length: nat },
    Delete { file: Seq<char>, start: nat, length: nat },
    DeleteFile { file: Seq<char> },
    AddFile { file: Seq<char>, length: nat },
}

impl Op {
    pub open spec fn file(self) -> Seq<char> {
        match self {
            Op::Add { file, .. } => file,
            Op::Delete { file, .. } => file,
            Op::DeleteFile { file } => file,
            Op::AddFile { file, .. } => file,
        }
    }
}

impl View for Change {
    type V = Op;

    open spec fn view(&self) -> Op {
        match self {
            Change::Add { filename, start, length } => Op::Add {
                file: filename@,
                start: *start as nat,
                length: *length as nat,
            },
            Change::Delete { filename, start, length } => Op::Delete {
                file: filename@,
                start: *start as nat,
                length: *length as nat,
            },
            Change::DeleteFile { filename } => Op::DeleteFile { file: filename@ },
            Change::AddFile { filename, length } => Op::AddFile {
                file: filename@,
                length: *length as nat,
            },
        }
    }
}

/// The operations of a sequence of changes.
pub open spec fn ops_of(changes: Seq<Change>) -> Seq<Op> {
    changes.map_values(|c: Change| c@)
}

/// 0-based start of a modified hunk: a reported start of 0 means "before the first line".
pub open spec fn hunk_start(h: Hunk) -> nat {
    if h.new_start > 0 {
        (h.new_start - 1) as nat
    } else {
        0
    }
}

/// Whether the translator handles a status (renames and copies are not).
pub open spec fn is_supported(status: FileStatus) -> bool {
    status == FileStatus::Added || status == FileStatus::Deleted || status == FileStatus::Modified
}

/// The operations that one hunk of one file stands for.
pub open spec fn translation(status: FileStatus, file: Seq<char>, h: Hunk) -> Seq<Op> {
    match status {
        FileStatus::Added => seq![Op::AddFile { file, length: h.new_lines as nat }],
        FileStatus::Deleted => seq![Op::DeleteFile { file }],
        FileStatus::Modified => {
            let del = if h.old_lines > 0 {
                seq![Op::Delete { file, start: hunk_start(h), length: h.old_lines as nat }]
            } else {
                Seq::empty()
            };
            let add = if h.new_lines > 0 {
                seq![Op::Add { file, start: hunk_start(h), length: h.new_lines as nat }]
            } else {
                Seq::empty()
            };
            del + add
        },
        _ => Seq::empty(),
    }
}

/// The path a hunk is recorded under: the old path for a deleted file, the new one otherwise.
pub open spec fn chosen_path(status: FileStatus, old_path: Seq<char>, new_path: Seq<char>) -> Seq<
    char,
> {
    if status == FileStatus::Deleted {
        old_path
    } else {
        new_path
    }
}

/// Translates one hunk of one file into line operations, Delete before Add.
pub fn translate(status: FileStatus, path: &String, h: &Hunk) -> (r: Vec<Change>)
    ensures
        ops_of(r@) == translation(status, path@, *h),
{
    let mut r: Vec<Change> = Vec::new();
    match status {
        FileStatus::Added => {
            r.push(Change::AddFile { filename: path.clone(), length: h.new_lines });
        },
        FileStatus::Deleted => {
            r.push(Change::DeleteFile { filename: path.clone() });
        },
        FileStatus::Modified => {
            let start: u32 = if h.new_start > 0 {
                h.new_start - 1
            } else {
                0
            };
            if h.old_lines > 0 {
                r.push(Change::Delete { filename: path.clone(), start, length: h.old_lines });
            }
            if h.new_lines > 0 {
                r.push(Change::Add { filename: path.clone(), start, length: h.new_lines });
            }
        },
        _ => {},
    }
    assert(ops_of(r@) =~= translation(status, path@, *h));
    r
}

/// All line operations that take one snapshot to the next.
pub struct Changeset {
    /// Commit time of the later snapshot, in seconds since the Unix epoch.
    pub date_time: i64,
    pub changes: Vec<Change>,
}

/// The mathematical form of a [`Changeset`].
pub struct ChangesetView {
    pub time: int,
    pub ops: Seq<Op>,
}

impl View for Changeset {
    type V = ChangesetView;

    open spec fn view(&self) -> ChangesetView {
        ChangesetView { time: self.date_time as int, ops: ops_of(self.changes@) }
    }
}

impl Changeset {
    pub fn new(dt: i64) -> (r: Changeset)
        ensures
            r.date_time == dt,
            r.changes@.len() == 0,
    {
        Changeset { date_time: dt, changes: Vec::new() }
    }

    /// Appends `cs` to the changes.
    fn push_all(&mut self, cs: Vec<Change>)
        ensures
            final(self).date_time == old(self).date_time,
            final(self).changes@ == old(self).changes@ + cs@,
    {
        let mut cs = cs;
        self.changes.append(&mut cs);
    }

    /// Records a hunk of a newly created file.
    pub fn process_added(&mut self, path: &String, h: &Hunk) -> (r: bool)
        ensures
            r,
            final(self).date_time == old(self).date_time,
            ops_of(final(self).changes@) == ops_of(old(self).changes@) + translation(
                FileStatus::Added,
                path@,
                *h,
            ),
    {
        let cs = translate(FileStatus::Added, path, h);
        self.push_all(cs);
        proof {
            assert(ops_of(self.changes@) =~= ops_of(old(self).changes@) + ops_of(cs@));
        }
        true
    }

    /// Records a hunk of a removed file.
    pub fn process_deleted(&mut self, path: &String, h: &Hunk) -> (r: bool)
        ensures
            r,
            final(self).date_time == old(self).date_time,
            ops_of(final(self).changes@) == ops_of(old(self).changes@) + translation(
                FileStatus::Deleted,
                path@,
                *h,
            ),
    {
        let cs = translate(FileStatus::Deleted, path, h);
        self.push_all(cs);
        proof {
            assert(ops_of(self.changes@) =~= ops_of(old(self).changes@) + ops_of(cs@));
        }
        true
    }

    /// Records a hunk of a modified file.
    pub fn process_modified(&mut self, path: &String, h: &Hunk) -> (r: bool)
        ensures
            r,
            final(self).date_time == old(self).date_time,
            ops_of(final(self).changes@) == ops_of(old(self).changes@) + translation(
                FileStatus::Modified,
                path@,
                *h,
            ),
    {
        let cs = translate(FileStatus::Modified, path, h);
        self.push_all(cs);
        proof {
            assert(ops_of(self.changes@) =~= ops_of(old(self).changes@) + ops_of(cs@));
        }
        true
    }

    /// Records one hunk of a diff. Returns false, recording nothing, for a
    /// status the translator does not handle (rename, copy, ...), so that the
    /// caller can surface it.
    pub fn add_diff_hunk(
        &mut self,
        status: FileStatus,
        old_path: &String,
        new_path: &String,
        h: &Hunk,
    ) -> (r: bool)
        ensures
            r == is_supported(status),
            final(self).date_time == old(self).date_time,
            ops_of(final(self).changes@) == ops_of(old(self).changes@) + translation(
                status,
                chosen_path(status, old_path@, new_path@),
                *h,
            ),
    {
        match status {
            FileStatus::Added => self.process_added(new_path, h),
            FileStatus::Deleted => self.process_deleted(old_path, h),
            FileStatus::Modified => self.process_modified(new_path, h),
            _ => {
                assert(ops_of(self.changes@) =~= ops_of(self.changes@) + translation(
                    status,
                    chosen_path(status, old_path@, new_path@),
                    *h,
                ));
                false
            },
        }
    }
}

} // verus!
