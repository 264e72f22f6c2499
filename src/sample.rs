//! Per-file cohort arrays and the fold of one changeset onto them.
use std::sync::Arc;
use vstd::prelude::*;

use crate::change::{Change, Changeset, Op, ops_of};

verus! {

/// The cohort labels of one file, one per line.
pub type Lines = Seq<Seq<char>>;

/// File name and lines of each tracked file, in the order the files first appeared.
pub type Files = Seq<(Seq<char>, Lines)>;

/// A stored entry: file name and its shared line array.
pub type Entry = (String, Arc<Vec<String>>);

pub open spec fn names_unique(files: Files) -> bool {
    forall|i: int, j: int|
        0 <= i < files.len() && 0 <= j < files.len() && i != j ==> #[trigger] files[i].0
            != #[trigger] files[j].0
}

pub open spec fn has_file(files: Files, f: Seq<char>) -> bool {
    exists|i: int| 0 <= i < files.len() && #[trigger] files[i].0 == f
}

/// Position of the entry for `f` (meaningful when `has_file`).
pub open spec fn index_of(files: Files, f: Seq<char>) -> int {
    choose|i: int| 0 <= i < files.len() && #[trigger] files[i].0 == f
}

/// The lines of `f`; an absent file has none.
pub open spec fn lines_of(files: Files, f: Seq<char>) -> Lines {
    if has_file(files, f) {
        files[index_of(files, f)].1
    } else {
        Seq::empty()
    }
}

/// Replaces the lines of `f`, adding an entry at the end when `f` is absent.
pub open spec fn set_lines(files: Files, f: Seq<char>, lines: Lines) -> Files {
    if has_file(files, f) {
        files.update(index_of(files, f), (f, lines))
    } else {
        files.push((f, lines))
    }
}

/// Removes the entry of `f`, if any.
pub open spec fn remove_file(files: Files, f: Seq<char>) -> Files {
    if has_file(files, f) {
        files.remove(index_of(files, f))
    } else {
        files
    }
}

/// `n` lines of one cohort.
pub open spec fn repeat(label: Seq<char>, n: nat) -> Lines {
    Seq::new(n, |_i: int| label)
}

/// Whether an operation's start lies within the file's current lines.
pub open spec fn op_fits(files: Files, op: Op) -> bool {
    match op {
        Op::Add { file, start, .. } => start <= lines_of(files, file).len(),
        Op::Delete { file, start, .. } => start <= lines_of(files, file).len(),
        _ => true,
    }
}

/// Whether a deletion runs past the end of the file and is cut short there.
pub open spec fn op_clamps(files: Files, op: Op) -> bool {
    match op {
        Op::Delete { file, start, length } => start + length > lines_of(files, file).len(),
        _ => false,
    }
}

/// The lines after inserting `length` lines of `label` at `start`.
pub open spec fn spliced_in(cur: Lines, start: nat, length: nat, label: Seq<char>) -> Lines {
    cur.subrange(0, start as int) + repeat(label, length) + cur.subrange(start as int, cur.len() as int)
}

/// The lines after removing `length` lines at `start`, cut short at the end.
pub open spec fn spliced_out(cur: Lines, start: nat, length: nat) -> Lines {
    let end = if start + length <= cur.len() {
        (start + length) as int
    } else {
        cur.len() as int
    };
    cur.subrange(0, start as int) + cur.subrange(end, cur.len() as int)
}

/// One operation, with new lines labelled `label`.
pub open spec fn apply_op(files: Files, op: Op, label: Seq<char>) -> Files {
    match op {
        Op::Add { file, start, length } => {
            set_lines(files, file, spliced_in(lines_of(files, file), start, length, label))
        },
        Op::Delete { file, start, length } => {
            set_lines(files, file, spliced_out(lines_of(files, file), start, length))
        },
        Op::AddFile { file, length } => set_lines(files, file, repeat(label, length)),
        Op::DeleteFile { file } => remove_file(files, file),
    }
}

/// The operations in order; `None` when one of them starts past the end of its file.
pub open spec fn apply_ops(files: Files, ops: Seq<Op>, label: Seq<char>) -> Option<Files>
    decreases ops.len(),
{
    if ops.len() == 0 {
        Some(files)
    } else {
        match apply_ops(files, ops.drop_last(), label) {
            Some(fs) => if op_fits(fs, ops.last()) {
                Some(apply_op(fs, ops.last(), label))
            } else {
                None
            },
            None => None,
        }
    }
}

/// Positions of the deletions that run past the end of their file and are
/// cut short there, when the operations are applied in order.
pub open spec fn clamped_at(files: Files, ops: Seq<Op>, label: Seq<char>) -> Seq<int>
    decreases ops.len(),
{
    if ops.len() == 0 {
        Seq::empty()
    } else {
        let prev = clamped_at(files, ops.drop_last(), label);
        match apply_ops(files, ops.drop_last(), label) {
            Some(fs) => if op_clamps(fs, ops.last()) {
                prev.push(ops.len() - 1)
            } else {
                prev
            },
            None => prev,
        }
    }
}

/// Whether some operation names `f`.
pub open spec fn touches(ops: Seq<Op>, f: Seq<char>) -> bool {
    exists|i: int| 0 <= i < ops.len() && #[trigger] ops[i].file() == f
}

pub open spec fn entry_view(e: Entry) -> (Seq<char>, Lines) {
    (e.0@, lines_view(e.1@))
}

pub open spec fn lines_view(v: Seq<String>) -> Lines {
    v.map_values(|s: String| s@)
}

pub open spec fn files_view(v: Seq<Entry>) -> Files {
    v.map_values(|e: Entry| entry_view(e))
}

pub proof fn lemma_index_unique(files: Files, f: Seq<char>, i: int)
    requires
        names_unique(files),
        0 <= i < files.len(),
        files[i].0 == f,
    ensures
        has_file(files, f),
        index_of(files, f) == i,
        lines_of(files, f) == files[i].1,
{
    assert(has_file(files, f));
}

pub proof fn lemma_set_lines_unique(files: Files, f: Seq<char>, lines: Lines)
    requires
        names_unique(files),
    ensures
        names_unique(set_lines(files, f, lines)),
        has_file(set_lines(files, f, lines), f),
        lines_of(set_lines(files, f, lines), f) == lines,
        forall|g: Seq<char>|
            g != f ==> #[trigger] has_file(set_lines(files, f, lines), g) == has_file(files, g)
                && lines_of(set_lines(files, f, lines), g) == lines_of(files, g),
{
    let r = set_lines(files, f, lines);
    if has_file(files, f) {
        let k = index_of(files, f);
        assert(names_unique(r));
        lemma_index_unique(r, f, k);
    } else {
        assert(names_unique(r));
        lemma_index_unique(r, f, files.len() as int);
    }
    assert forall|g: Seq<char>| g != f implies #[trigger] has_file(r, g) == has_file(files, g)
        && lines_of(r, g) == lines_of(files, g) by {
        if has_file(files, g) {
            let j = index_of(files, g);
            assert(r[j].0 == g);
            lemma_index_unique(r, g, j);
        }
        if has_file(r, g) {
            let j = index_of(r, g);
            assert(files[j].0 == g);
        }
    }
}

pub proof fn lemma_remove_file_unique(files: Files, f: Seq<char>)
    requires
        names_unique(files),
    ensures
        names_unique(remove_file(files, f)),
        !has_file(remove_file(files, f), f),
        forall|g: Seq<char>|
            g != f ==> #[trigger] has_file(remove_file(files, f), g) == has_file(files, g)
                && lines_of(remove_file(files, f), g) == lines_of(files, g),
{
    let r = remove_file(files, f);
    if has_file(files, f) {
        let k = index_of(files, f);
        assert(names_unique(r)) by {
            assert forall|i: int, j: int|
                0 <= i < r.len() && 0 <= j < r.len() && i != j implies #[trigger] r[i].0
                != #[trigger] r[j].0 by {
                let i2 = if i < k { i } else { i + 1 };
                let j2 = if j < k { j } else { j + 1 };
                assert(r[i] == files[i2]);
                assert(r[j] == files[j2]);
            }
        }
        assert(!has_file(r, f)) by {
            if has_file(r, f) {
                let j = index_of(r, f);
                let j2 = if j < k { j } else { j + 1 };
                assert(r[j] == files[j2]);
            }
        }
        assert forall|g: Seq<char>| g != f implies #[trigger] has_file(r, g) == has_file(
            files,
            g,
        ) && lines_of(r, g) == lines_of(files, g) by {
            if has_file(files, g) {
                let j = index_of(files, g);
                let j2 = if j < k { j } else { j - 1 };
                assert(r[j2] == files[j]);
                lemma_index_unique(r, g, j2);
            }
            if has_file(r, g) {
                let j = index_of(r, g);
                let j2 = if j < k { j } else { j + 1 };
                assert(r[j] == files[j2]);
            }
        }
    }
}

/// Every operation keeps file names unique.
pub proof fn lemma_apply_op_unique(files: Files, op: Op, label: Seq<char>)
    requires
        names_unique(files),
    ensures
        names_unique(apply_op(files, op, label)),
{
    match op {
        Op::Add { file, start, length } => {
            lemma_set_lines_unique(files, file, spliced_in(lines_of(files, file), start, length, label));
        },
        Op::Delete { file, start, length } => {
            lemma_set_lines_unique(files, file, spliced_out(lines_of(files, file), start, length));
        },
        Op::AddFile { file, length } => {
            lemma_set_lines_unique(files, file, repeat(label, length));
        },
        Op::DeleteFile { file } => {
            lemma_remove_file_unique(files, file);
        },
    }
}

/// An operation on one file leaves every other file as it was.
pub proof fn lemma_apply_op_other(files: Files, op: Op, label: Seq<char>, g: Seq<char>)
    requires
        names_unique(files),
        op.file() != g,
    ensures
        has_file(apply_op(files, op, label), g) == has_file(files, g),
        lines_of(apply_op(files, op, label), g) == lines_of(files, g),
{
    match op {
        Op::Add { file, start, length } => {
            lemma_set_lines_unique(files, file, spliced_in(lines_of(files, file), start, length, label));
        },
        Op::Delete { file, start, length } => {
            lemma_set_lines_unique(files, file, spliced_out(lines_of(files, file), start, length));
        },
        Op::AddFile { file, length } => {
            lemma_set_lines_unique(files, file, repeat(label, length));
        },
        Op::DeleteFile { file } => {
            lemma_remove_file_unique(files, file);
        },
    }
}

/// Relies on `Arc::clone`: the new handle points at the same allocation.
#[verifier::external_body]
fn share(a: &Arc<Vec<String>>) -> (r: Arc<Vec<String>>)
    ensures
        r == *a,
{
    Arc::clone(a)
}

/// Relies on `Arc::try_unwrap`: the inner vector when the handle is its only
/// owner, otherwise the same handle back.
#[verifier::external_body]
fn try_unwrap_lines(a: Arc<Vec<String>>) -> (r: Result<Vec<String>, Arc<Vec<String>>>)
    ensures
        match r {
            Ok(v) => v@ == a@,
            Err(b) => b == a,
        },
{
    Arc::try_unwrap(a)
}

/// A copy of `v`, element by element.
fn copy_lines(v: &Vec<String>) -> (r: Vec<String>)
    ensures
        r@ == v@,
{
    let mut r: Vec<String> = Vec::new();
    let mut k: usize = 0;
    while k < v.len()
        invariant
            k <= v@.len(),
            r@ == v@.subrange(0, k as int),
        decreases v@.len() - k,
    {
        r.push(v[k].clone());
        k += 1;
    }
    assert(r@ =~= v@);
    r
}

/// Inserts `n` copies of `label` at `start`.
fn insert_run(lines: &mut Vec<String>, start: usize, n: u32, label: &String)
    requires
        start <= old(lines)@.len(),
    ensures
        lines_view(final(lines)@) == spliced_in(
            lines_view(old(lines)@),
            start as nat,
            n as nat,
            label@,
        ),
{
    let mut tail = lines.split_off(start);
    let ghost head = lines@;
    let mut k: u32 = 0;
    while k < n
        invariant
            k <= n,
            lines@.len() == head.len() + k,
            forall|j: int| 0 <= j < head.len() ==> lines@[j] == head[j],
            forall|j: int| head.len() <= j < lines@.len() ==> #[trigger] lines@[j]@ == label@,
        decreases n - k,
    {
        lines.push(label.clone());
        k += 1;
    }
    let ghost mid = lines@;
    let ghost rest = tail@;
    lines.append(&mut tail);
    proof {
        let want = spliced_in(lines_view(old(lines)@), start as nat, n as nat, label@);
        assert(lines@ == mid + rest);
        assert forall|j: int| 0 <= j < lines@.len() implies lines_view(lines@)[j] == want[j] by {
            if j < head.len() {
                assert(lines@[j] == head[j]);
            } else if j < mid.len() {
                assert(mid[j]@ == label@);
            } else {
                assert(lines@[j] == rest[j - mid.len()]);
            }
        }
        assert(lines_view(lines@) =~= want);
    }
}

/// Removes up to `n` lines at `start`, stopping at the end.
fn cut_run(lines: &mut Vec<String>, start: usize, n: u32)
    requires
        start <= old(lines)@.len(),
    ensures
        lines_view(final(lines)@) == spliced_out(lines_view(old(lines)@), start as nat, n as nat),
{
    let mut tail = lines.split_off(start);
    let cut: usize = if (n as usize) <= tail.len() {
        n as usize
    } else {
        tail.len()
    };
    let mut rest = tail.split_off(cut);
    lines.append(&mut rest);
    assert(lines_view(lines@) =~= spliced_out(
        lines_view(old(lines)@),
        start as nat,
        n as nat,
    ));
}

/// Position of the entry named `name`.
fn find(files: &Vec<Entry>, name: &String) -> (r: Option<usize>)
    requires
        names_unique(files_view(files@)),
    ensures
        match r {
            Some(i) => i < files@.len() && files@[i as int].0@ == name@ && has_file(
                files_view(files@),
                name@,
            ) && index_of(files_view(files@), name@) == i,
            None => !has_file(files_view(files@), name@),
        },
{
    let mut i: usize = 0;
    while i < files.len()
        invariant
            i <= files@.len(),
            names_unique(files_view(files@)),
            forall|j: int| 0 <= j < i ==> (#[trigger] files@[j]).0@ != name@,
        decreases files@.len() - i,
    {
        if files[i].0 == *name {
            proof {
                lemma_index_unique(files_view(files@), name@, i as int);
            }
            return Some(i);
        }
        i += 1;
    }
    proof {
        if has_file(files_view(files@), name@) {
            let j = index_of(files_view(files@), name@);
            assert(files_view(files@)[j].0 == files@[j].0@);
        }
    }
    None
}

/// Takes the lines of entry `i` out for writing: the vector itself when no
/// other sample holds it, else a copy. The entry keeps its name meanwhile.
fn take_lines(files: &mut Vec<Entry>, i: usize) -> (r: Vec<String>)
    requires
        i < old(files)@.len(),
    ensures
        final(files)@.len() == old(files)@.len(),
        final(files)@[i as int].0 == old(files)@[i as int].0,
        forall|j: int| 0 <= j < old(files)@.len() && j != i ==> final(files)@[j] == old(files)@[j],
        r@ == old(files)@[i as int].1@,
{
    let mut slot: Entry = (files[i].0.clone(), Arc::new(Vec::new()));
    files.set_and_swap(i, &mut slot);
    let (_name, arc) = slot;
    match try_unwrap_lines(arc) {
        Ok(v) => v,
        Err(shared) => copy_lines(&*shared),
    }
}

/// Two positions hold the same entry: both are the positions of its name.
proof fn lemma_same_entry(old: Seq<Entry>, new: Seq<Entry>, g: Seq<char>, jo: int, jn: int)
    requires
        names_unique(files_view(old)),
        names_unique(files_view(new)),
        0 <= jo < old.len(),
        0 <= jn < new.len(),
        old[jo].0@ == g,
        new[jn] == old[jo],
    ensures
        has_file(files_view(old), g),
        has_file(files_view(new), g),
        index_of(files_view(old), g) == jo,
        index_of(files_view(new), g) == jn,
{
    assert(files_view(old)[jo].0 == g);
    assert(files_view(new)[jn].0 == g);
    lemma_index_unique(files_view(old), g, jo);
    lemma_index_unique(files_view(new), g, jn);
}

/// The stored entry of file `g`.
pub open spec fn entry_of(files: Seq<Entry>, g: Seq<char>) -> Entry {
    files[index_of(files_view(files), g)]
}

/// Every file other than `f` present in `old` has the very same entry in `new`.
pub open spec fn keeps_others(old: Seq<Entry>, new: Seq<Entry>, f: Seq<char>) -> bool {
    forall|g: Seq<char>|
        g != f && #[trigger] has_file(files_view(old), g) ==> has_file(files_view(new), g)
            && entry_of(new, g) == entry_of(old, g)
}

/// Stores `lines` as the lines of `name`, at `idx` when it has an entry there.
fn store(files: &mut Vec<Entry>, idx: Option<usize>, name: &String, lines: Vec<String>)
    requires
        names_unique(files_view(old(files)@)),
        match idx {
            Some(i) => i < old(files)@.len() && old(files)@[i as int].0@ == name@,
            None => !has_file(files_view(old(files)@), name@),
        },
    ensures
        files_view(final(files)@) == set_lines(
            files_view(old(files)@),
            name@,
            lines_view(lines@),
        ),
        names_unique(files_view(final(files)@)),
        keeps_others(old(files)@, final(files)@, name@),
{
    let ghost v0 = old(files)@;
    let e: Entry = (name.clone(), Arc::new(lines));
    match idx {
        Some(i) => {
            proof {
                lemma_index_unique(files_view(v0), name@, i as int);
            }
            files.set(i, e);
            assert(files_view(files@) =~= files_view(v0).update(i as int, entry_view(e)));
        },
        None => {
            files.push(e);
            assert(files_view(files@) =~= files_view(v0).push(entry_view(e)));
        },
    }
    proof {
        lemma_set_lines_unique(files_view(v0), name@, lines_view(lines@));
        assert forall|g: Seq<char>|
            g != name@ && #[trigger] has_file(files_view(v0), g) implies has_file(
            files_view(files@),
            g,
        ) && entry_of(files@, g) == entry_of(v0, g) by {
            let j = index_of(files_view(v0), g);
            assert(files_view(v0)[j].0 == g);
            assert(files@[j] == v0[j]);
            lemma_same_entry(v0, files@, g, j, j);
        }
    }
}

/// Removes the entry at `i`.
fn drop_entry(files: &mut Vec<Entry>, i: usize, name: &String)
    requires
        names_unique(files_view(old(files)@)),
        i < old(files)@.len(),
        old(files)@[i as int].0@ == name@,
    ensures
        files_view(final(files)@) == remove_file(files_view(old(files)@), name@),
        names_unique(files_view(final(files)@)),
        keeps_others(old(files)@, final(files)@, name@),
{
    let ghost v0 = old(files)@;
    proof {
        lemma_index_unique(files_view(v0), name@, i as int);
    }
    files.remove(i);
    assert(files_view(files@) =~= files_view(v0).remove(i as int));
    proof {
        lemma_remove_file_unique(files_view(v0), name@);
        assert forall|g: Seq<char>|
            g != name@ && #[trigger] has_file(files_view(v0), g) implies has_file(
            files_view(files@),
            g,
        ) && entry_of(files@, g) == entry_of(v0, g) by {
            let j = index_of(files_view(v0), g);
            assert(files_view(v0)[j].0 == g);
            if j < i {
                assert(files@[j] == v0[j]);
                lemma_same_entry(v0, files@, g, j, j);
            } else {
                assert(j != i);
                assert(files@[j - 1] == v0[j]);
                lemma_same_entry(v0, files@, g, j, j - 1);
            }
        }
    }
}

/// Taking the lines of entry `i` out changes nothing that storing them back overwrites.
proof fn lemma_take_keeps(v0: Seq<Entry>, v1: Seq<Entry>, i: int, lines: Lines)
    requires
        names_unique(files_view(v0)),
        0 <= i < v0.len(),
        v1.len() == v0.len(),
        v1[i].0 == v0[i].0,
        forall|j: int| 0 <= j < v0.len() && j != i ==> v1[j] == v0[j],
    ensures
        names_unique(files_view(v1)),
        keeps_others(v0, v1, v0[i].0@),
        set_lines(files_view(v1), v0[i].0@, lines) == set_lines(files_view(v0), v0[i].0@, lines),
{
    let f = v0[i].0@;
    assert(names_unique(files_view(v1))) by {
        assert forall|a: int, b: int|
            0 <= a < v1.len() && 0 <= b < v1.len() && a != b implies #[trigger] files_view(
            v1,
        )[a].0 != #[trigger] files_view(v1)[b].0 by {
            assert(files_view(v1)[a].0 == files_view(v0)[a].0);
            assert(files_view(v1)[b].0 == files_view(v0)[b].0);
        }
    }
    assert(files_view(v0)[i].0 == f);
    assert(files_view(v1)[i].0 == f);
    lemma_index_unique(files_view(v0), f, i);
    lemma_index_unique(files_view(v1), f, i);
    assert(files_view(v1).update(i, (f, lines)) =~= files_view(v0).update(i, (f, lines)));
    assert forall|g: Seq<char>| g != f && #[trigger] has_file(files_view(v0), g) implies has_file(
        files_view(v1),
        g,
    ) && entry_of(v1, g) == entry_of(v0, g) by {
        let j = index_of(files_view(v0), g);
        assert(files_view(v0)[j].0 == g);
        assert(j != i);
        lemma_same_entry(v0, v1, g, j, j);
    }
}

proof fn lemma_keeps_trans(a: Seq<Entry>, b: Seq<Entry>, c: Seq<Entry>, f: Seq<char>)
    requires
        keeps_others(a, b, f),
        keeps_others(b, c, f),
    ensures
        keeps_others(a, c, f),
{
    assert forall|g: Seq<char>| g != f && #[trigger] has_file(files_view(a), g) implies has_file(
        files_view(c),
        g,
    ) && entry_of(c, g) == entry_of(a, g) by {
        assert(has_file(files_view(b), g));
    }
}

/// Whether `c` is a deletion that runs past the end of its file.
fn cut_short(files: &Vec<Entry>, c: &Change) -> (r: bool)
    requires
        names_unique(files_view(files@)),
    ensures
        r == op_clamps(files_view(files@), c@),
{
    match c {
        Change::Delete { filename, start, length } => {
            let len: usize = match find(files, filename) {
                Some(i) => files[i].1.len(),
                None => 0,
            };
            proof {
                let fv = files_view(files@);
                if has_file(fv, filename@) {
                    assert(lines_of(fv, filename@).len() == len);
                }
            }
            (*start as u64) + (*length as u64) > len as u64
        },
        _ => false,
    }
}

/// Applies one change to `files`; false, leaving them as they were, when
/// its start lies past the end of its file.
fn apply_change(files: &mut Vec<Entry>, c: &Change, label: &String) -> (r: bool)
    requires
        names_unique(files_view(old(files)@)),
    ensures
        r == op_fits(files_view(old(files)@), c@),
        r ==> files_view(final(files)@) == apply_op(files_view(old(files)@), c@, label@),
        !r ==> final(files)@ == old(files)@,
        names_unique(files_view(final(files)@)),
        keeps_others(old(files)@, final(files)@, c@.file()),
{
    let ghost v0 = old(files)@;
    match c {
        Change::Add { filename, start, length } => {
            let idx = find(files, filename);
            let mut lines: Vec<String> = match idx {
                Some(i) => {
                    if (*start as usize) > files[i].1.len() {
                        return false;
                    }
                    take_lines(files, i)
                },
                None => {
                    if *start > 0 {
                        return false;
                    }
                    Vec::new()
                },
            };
            proof {
                assert(lines_view(lines@) =~= lines_of(files_view(v0), filename@));
            }
            insert_run(&mut lines, *start as usize, *length, label);
            let ghost v1 = files@;
            proof {
                if idx is Some {
                    lemma_take_keeps(v0, v1, idx.unwrap() as int, lines_view(lines@));
                }
            }
            store(files, idx, filename, lines);
            proof {
                lemma_keeps_trans(v0, v1, files@, filename@);
            }
            true
        },
        Change::Delete { filename, start, length } => {
            let idx = find(files, filename);
            let mut lines: Vec<String> = match idx {
                Some(i) => {
                    if (*start as usize) > files[i].1.len() {
                        return false;
                    }
                    take_lines(files, i)
                },
                None => {
                    if *start > 0 {
                        return false;
                    }
                    Vec::new()
                },
            };
            proof {
                assert(lines_view(lines@) =~= lines_of(files_view(v0), filename@));
            }
            cut_run(&mut lines, *start as usize, *length);
            let ghost v1 = files@;
            proof {
                if idx is Some {
                    lemma_take_keeps(v0, v1, idx.unwrap() as int, lines_view(lines@));
                }
            }
            store(files, idx, filename, lines);
            proof {
                lemma_keeps_trans(v0, v1, files@, filename@);
            }
            true
        },
        Change::AddFile { filename, length } => {
            let idx = find(files, filename);
            let mut lines: Vec<String> = Vec::new();
            insert_run(&mut lines, 0, *length, label);
            proof {
                assert(lines_view(lines@) =~= repeat(label@, *length as nat));
            }
            store(files, idx, filename, lines);
            true
        },
        Change::DeleteFile { filename } => {
            match find(files, filename) {
                Some(i) => {
                    drop_entry(files, i, filename);
                },
                None => {
                    assert(files_view(files@) == remove_file(files_view(v0), filename@));
                },
            }
            true
        },
    }
}

/// An operation that does not fit stops the whole sequence.
pub proof fn lemma_misfit_fails(files: Files, ops: Seq<Op>, label: Seq<char>, k: int)
    requires
        0 <= k < ops.len(),
        apply_ops(files, ops.take(k), label) is Some,
        !op_fits(apply_ops(files, ops.take(k), label).unwrap(), ops[k]),
    ensures
        apply_ops(files, ops, label) is None,
    decreases ops.len(),
{
    if k == ops.len() - 1 {
        assert(ops.drop_last() =~= ops.take(k));
    } else {
        assert(ops.drop_last().take(k) =~= ops.take(k));
        lemma_misfit_fails(files, ops.drop_last(), label, k);
    }
}

/// Why a changeset could not be applied.
#[derive(Clone, Copy, Debug, PartialEq, Eq, Structural)]
pub struct ApplyError {
    /// Timestamp of the changeset.
    pub date_time: i64,
    /// Position in the changeset of the change whose start lies past the end of its file.
    pub change: usize,
}

/// The cumulative cohort state of every tracked file at one snapshot.
pub struct Sample {
    /// Commit time of the snapshot, in seconds since the Unix epoch.
    pub date_time: i64,
    cohort: String,
    files: Vec<Entry>,
    clamped: Vec<usize>,
}

pub struct SampleView {
    pub time: int,
    /// Label of the lines this sample's changeset introduced.
    pub cohort: Seq<char>,
    pub files: Files,
    /// Positions, in this sample's changeset, of the deletions that ran past
    /// the end of their file and were cut short there.
    pub clamped: Seq<int>,
}

impl View for Sample {
    type V = SampleView;

    closed spec fn view(&self) -> SampleView {
        SampleView {
            time: self.date_time as int,
            cohort: self.cohort@,
            files: files_view(self.files@),
            clamped: self.clamped@.map_values(|k: usize| k as int),
        }
    }
}

/// The sample that a changeset with operations `ops` at `time` makes of `files`.
pub open spec fn next_sample(files: Files, time: int, ops: Seq<Op>, label: Seq<char>) -> Option<
    SampleView,
> {
    match apply_ops(files, ops, label) {
        Some(fs) => Some(
            SampleView { time, cohort: label, files: fs, clamped: clamped_at(files, ops, label) },
        ),
        None => None,
    }
}

impl Sample {
    pub open spec fn wf(&self) -> bool {
        names_unique(self@.files)
    }

    /// The stored entries, for stating which line arrays two samples share.
    pub closed spec fn entries(&self) -> Seq<Entry> {
        self.files@
    }

    /// Every file of `prev` other than those `ops` touch has an equal stored
    /// entry (name and shared line array) in `self`: the array is carried
    /// over by sharing it, never by copying it.
    pub open spec fn shares_untouched(&self, prev: &Sample, ops: Seq<Op>) -> bool {
        forall|g: Seq<char>|
            !touches(ops, g) && #[trigger] has_file(prev@.files, g) ==> has_file(self@.files, g)
                && entry_of(self.entries(), g) == entry_of(prev.entries(), g)
    }

    /// An empty sample: no files.
    pub fn new(dt: i64) -> (r: Sample)
        ensures
            r.wf(),
            r@.time == dt,
            r@.cohort.len() == 0,
            r@.files.len() == 0,
            r@.clamped.len() == 0,
    {
        let r = Sample { date_time: dt, cohort: String::new(), files: Vec::new(), clamped: Vec::new() };
        assert(r@.files =~= Seq::empty());
        r
    }

    /// A shallow copy dated `dt`: every file's line array is shared, not copied.
    pub fn clone_and_date(&self, dt: i64) -> (r: Sample)
        requires
            self.wf(),
        ensures
            r.wf(),
            r@ == (SampleView { time: dt as int, ..self@ }),
            r.entries() == self.entries(),
    {
        let mut files: Vec<Entry> = Vec::new();
        let mut k: usize = 0;
        while k < self.files.len()
            invariant
                k <= self.files@.len(),
                files@ == self.files@.subrange(0, k as int),
            decreases self.files@.len() - k,
        {
            files.push((self.files[k].0.clone(), share(&self.files[k].1)));
            k += 1;
        }
        assert(files@ =~= self.files@);
        let mut clamped: Vec<usize> = Vec::new();
        let mut k: usize = 0;
        while k < self.clamped.len()
            invariant
                k <= self.clamped@.len(),
                clamped@ == self.clamped@.subrange(0, k as int),
            decreases self.clamped@.len() - k,
        {
            clamped.push(self.clamped[k]);
            k += 1;
        }
        assert(clamped@ =~= self.clamped@);
        Sample { date_time: dt, cohort: self.cohort.clone(), files, clamped }
    }

    /// Applies a changeset in place, labelling new lines `cohort`.
    /// On an error the changes before the failing one stay applied.
    pub fn add_changeset(&mut self, changeset: &Changeset, cohort: &String) -> (r: Result<
        (),
        ApplyError,
    >)
        requires
            old(self).wf(),
        ensures
            final(self).wf(),
            final(self)@.time == old(self)@.time,
            final(self)@.cohort == cohort@,
            match r {
                Ok(()) => apply_ops(old(self)@.files, ops_of(changeset.changes@), cohort@) == Some(
                    final(self)@.files,
                ) && final(self)@.clamped == clamped_at(
                    old(self)@.files,
                    ops_of(changeset.changes@),
                    cohort@,
                ),
                Err(e) => e.date_time == changeset.date_time && e.change
                    < changeset.changes@.len() && apply_ops(
                    old(self)@.files,
                    ops_of(changeset.changes@).take(e.change as int),
                    cohort@,
                ) == Some(final(self)@.files) && !op_fits(
                    final(self)@.files,
                    ops_of(changeset.changes@)[e.change as int],
                ) && final(self)@.clamped == clamped_at(
                    old(self)@.files,
                    ops_of(changeset.changes@).take(e.change as int),
                    cohort@,
                ),
            },
            r is Err ==> apply_ops(old(self)@.files, ops_of(changeset.changes@), cohort@) is None,
            final(self).shares_untouched(old(self), ops_of(changeset.changes@)),
    {
        let ghost ops = ops_of(changeset.changes@);
        let ghost v0 = self.files@;
        self.cohort = cohort.clone();
        self.clamped = Vec::new();
        let mut i: usize = 0;
        proof {
            assert(self@.clamped =~= clamped_at(files_view(v0), ops.take(0), cohort@));
        }
        while i < changeset.changes.len()
            invariant
                i <= changeset.changes@.len(),
                ops == ops_of(changeset.changes@),
                self.cohort@ == cohort@,
                self.date_time == old(self).date_time,
                v0 == old(self).files@,
                self@.clamped == clamped_at(files_view(v0), ops.take(i as int), cohort@),
                names_unique(files_view(self.files@)),
                apply_ops(files_view(v0), ops.take(i as int), cohort@) == Some(
                    files_view(self.files@),
                ),
                forall|g: Seq<char>|
                    !touches(ops.take(i as int), g) && #[trigger] has_file(files_view(v0), g)
                        ==> has_file(files_view(self.files@), g) && entry_of(self.files@, g)
                        == entry_of(v0, g),
            decreases changeset.changes@.len() - i,
        {
            let ghost before = self.files@;
            let short = cut_short(&self.files, &changeset.changes[i]);
            let ok = apply_change(&mut self.files, &changeset.changes[i], cohort);
            proof {
                assert(ops.take(i as int + 1).drop_last() =~= ops.take(i as int));
                assert(ops[i as int] == changeset.changes@[i as int]@);
            }
            if !ok {
                proof {
                    lemma_misfit_fails(files_view(v0), ops, cohort@, i as int);
                    assert forall|g: Seq<char>|
                        !touches(ops, g) && #[trigger] has_file(files_view(v0), g) implies has_file(
                        files_view(self.files@),
                        g,
                    ) && entry_of(self.files@, g) == entry_of(v0, g) by {
                        if touches(ops.take(i as int), g) {
                            let k = choose|k: int|
                                0 <= k < i && #[trigger] ops.take(i as int)[k].file() == g;
                            assert(ops[k].file() == g);
                        }
                    }
                }
                return Err(ApplyError { date_time: changeset.date_time, change: i });
            }
            if short {
                self.clamped.push(i);
            }
            proof {
                let t1 = ops.take(i as int + 1);
                assert(self@.clamped =~= clamped_at(files_view(v0), t1, cohort@));
                assert forall|g: Seq<char>|
                    !touches(t1, g) && #[trigger] has_file(files_view(v0), g) implies has_file(
                    files_view(self.files@),
                    g,
                ) && entry_of(self.files@, g) == entry_of(v0, g) by {
                    assert(t1[i as int].file() != g);
                    if touches(ops.take(i as int), g) {
                        let k = choose|k: int|
                            0 <= k < i && #[trigger] ops.take(i as int)[k].file() == g;
                        assert(t1[k].file() == g);
                    }
                    assert(has_file(files_view(before), g));
                }
            }
            i += 1;
        }
        proof {
            assert(ops.take(i as int) =~= ops);
        }
        Ok(())
    }

    /// The sample that `changeset` makes of this one; this one is left as it is
    /// and shares with the result every line array the changeset does not touch.
    pub fn apply(&self, changeset: &Changeset, cohort: &String) -> (r: Result<Sample, ApplyError>)
        requires
            self.wf(),
        ensures
            match r {
                Ok(s) => s.wf() && Some(s@) == next_sample(
                    self@.files,
                    changeset.date_time as int,
                    ops_of(changeset.changes@),
                    cohort@,
                ) && s.shares_untouched(self, ops_of(changeset.changes@)),
                Err(e) => next_sample(
                    self@.files,
                    changeset.date_time as int,
                    ops_of(changeset.changes@),
                    cohort@,
                ) is None && e.date_time == changeset.date_time && e.change
                    < changeset.changes@.len() && apply_ops(
                    self@.files,
                    ops_of(changeset.changes@).take(e.change as int),
                    cohort@,
                ) is Some && !op_fits(
                    apply_ops(
                        self@.files,
                        ops_of(changeset.changes@).take(e.change as int),
                        cohort@,
                    ).unwrap(),
                    ops_of(changeset.changes@)[e.change as int],
                ),
            },
    {
        let mut s = self.clone_and_date(changeset.date_time);
        match s.add_changeset(changeset, cohort) {
            Ok(()) => Ok(s),
            Err(e) => Err(e),
        }
    }
}

/// Number of lines labelled `label`.
pub open spec fn count_in(lines: Lines, label: Seq<char>) -> nat
    decreases lines.len(),
{
    if lines.len() == 0 {
        0
    } else {
        count_in(lines.drop_last(), label) + if lines.last() == label {
            1nat
        } else {
            0nat
        }
    }
}

/// Number of lines labelled `label`, over all files.
pub open spec fn count_files(files: Files, label: Seq<char>) -> nat
    decreases files.len(),
{
    if files.len() == 0 {
        0
    } else {
        count_files(files.drop_last(), label) + count_in(files.last().1, label)
    }
}

/// Lines of `v` labelled `label`.
fn count_lines(v: &Vec<String>, label: &String) -> (r: usize)
    ensures
        r == count_in(lines_view(v@), label@),
{
    let mut acc: usize = 0;
    let mut k: usize = 0;
    while k < v.len()
        invariant
            k <= v@.len(),
            acc <= k,
            acc == count_in(lines_view(v@).take(k as int), label@),
        decreases v@.len() - k,
    {
        proof {
            assert(lines_view(v@).take(k as int + 1).drop_last() =~= lines_view(v@).take(k as int));
        }
        if v[k] == *label {
            acc += 1;
        }
        k += 1;
    }
    assert(lines_view(v@).take(k as int) =~= lines_view(v@));
    acc
}

impl Sample {
    /// Lines labelled `cohort`, summed over all files.
    pub fn count_cohort_lines(&self, cohort: &String) -> (r: u128)
        ensures
            r == count_files(self@.files, cohort@),
    {
        let mut acc: u128 = 0;
        let mut i: usize = 0;
        while i < self.files.len()
            invariant
                i <= self.files@.len(),
                acc <= i * (usize::MAX as int),
                acc == count_files(self@.files.take(i as int), cohort@),
            decreases self.files@.len() - i,
        {
            let n = count_lines(&self.files[i].1, cohort);
            proof {
                assert(self@.files.take(i as int + 1).drop_last() =~= self@.files.take(i as int));
                assert(self@.files[i as int].1 == lines_view(self.files@[i as int].1@));
                assert(acc + n <= (i + 1) * (usize::MAX as int)) by (nonlinear_arith)
                    requires
                        acc <= i * (usize::MAX as int),
                        n <= usize::MAX,
                ;
                assert((i + 1) * (usize::MAX as int) <= (usize::MAX as int + 1) * (
                usize::MAX as int)) by (nonlinear_arith)
                    requires
                        i < usize::MAX,
                ;
            }
            acc = acc + n as u128;
            i += 1;
        }
        assert(self@.files.take(i as int) =~= self@.files);
        acc
    }

    /// Label of the lines this sample's changeset introduced.
    pub fn cohort(&self) -> (r: String)
        ensures
            r@ == self@.cohort,
    {
        self.cohort.clone()
    }

    /// Positions, in this sample's changeset, of the deletions that ran past
    /// the end of their file and were cut short there.
    pub fn clamped_changes(&self) -> (r: Vec<usize>)
        ensures
            r@.map_values(|k: usize| k as int) == self@.clamped,
    {
        let mut r: Vec<usize> = Vec::new();
        let mut k: usize = 0;
        while k < self.clamped.len()
            invariant
                k <= self.clamped@.len(),
                r@ == self.clamped@.subrange(0, k as int),
            decreases self.clamped@.len() - k,
        {
            r.push(self.clamped[k]);
            k += 1;
        }
        assert(r@ =~= self.clamped@);
        r
    }

    /// Number of tracked files.
    pub fn file_count(&self) -> (r: usize)
        ensures
            r == self@.files.len(),
    {
        self.files.len()
    }

    /// The shared line array of `name`, if the file is tracked.
    pub fn lines(&self, name: &String) -> (r: Option<Arc<Vec<String>>>)
        requires
            self.wf(),
        ensures
            match r {
                Some(a) => has_file(self@.files, name@) && lines_view(a@) == lines_of(
                    self@.files,
                    name@,
                ) && a == entry_of(self.entries(), name@).1,
                None => !has_file(self@.files, name@),
            },
    {
        match find(&self.files, name) {
            Some(i) => Some(share(&self.files[i].1)),
            None => None,
        }
    }
}

} // verus!
