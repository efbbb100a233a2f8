//! Files with their modification times, ordered file sets, and the diff
//! between a stored set and a freshly discovered one.
use crate::order::{compare_text, lemma_text_lt_irreflexive, lemma_text_lt_transitive, text_lt};
use std::cmp::Ordering;
use vstd::prelude::*;

verus! {

/// A path with its last known modification time, in seconds since the epoch.
#[derive(Clone, Debug)]
pub struct File {
    pub path: String,
    pub mtime: u64,
}

/// A file as a path and a modification time.
pub type FileV = (Seq<char>, u64);

impl View for File {
    type V = FileV;

    open spec fn view(&self) -> FileV {
        (self.path@, self.mtime)
    }
}

impl File {
    pub fn new(path: String, mtime: u64) -> (r: File)
        ensures
            r@ == (path@, mtime),
    {
        File { path, mtime }
    }

    /// A copy of this file.
    pub fn duplicate(&self) -> (r: File)
        ensures
            r@ == self@,
    {
        File { path: self.path.clone(), mtime: self.mtime }
    }
}

pub open spec fn files_view(v: Seq<File>) -> Seq<FileV> {
    v.map_values(|f: File| f@)
}

/// Files ordered strictly by path: paths are unique.
pub open spec fn is_file_set(s: Seq<FileV>) -> bool {
    forall|i: int, j: int| 0 <= i < j < s.len() ==> text_lt(#[trigger] s[i].0, #[trigger] s[j].0)
}

pub open spec fn has_path(s: Seq<FileV>, p: Seq<char>) -> bool {
    exists|i: int| 0 <= i < s.len() && s[i].0 == p
}

/// The modification time recorded for `p`, if the path is there.
pub open spec fn mtime_in(s: Seq<FileV>, p: Seq<char>) -> Option<u64> {
    if has_path(s, p) {
        Some(s[choose|i: int| 0 <= i < s.len() && s[i].0 == p].1)
    } else {
        None
    }
}

/// The set of files that inserting `s` one by one into an empty file set
/// gives: a file whose path is already there is not taken.
pub open spec fn set_of_files(s: Seq<FileV>) -> Set<FileV>
    decreases s.len(),
{
    if s.len() == 0 {
        Set::empty()
    } else if has_path(s.drop_last(), s.last().0) {
        set_of_files(s.drop_last())
    } else {
        set_of_files(s.drop_last()).insert(s.last())
    }
}

pub proof fn lemma_file_set_unique(s: Seq<FileV>, i: int, j: int)
    requires
        is_file_set(s),
        0 <= i < s.len(),
        0 <= j < s.len(),
        s[i].0 == s[j].0,
    ensures
        i == j,
{
    if i < j {
        lemma_text_lt_irreflexive(s[i].0);
    } else if j < i {
        lemma_text_lt_irreflexive(s[i].0);
    }
}

/// Finds the index of the file with path `p`.
pub fn find_path(set: &Vec<File>, p: &String) -> (r: Option<usize>)
    ensures
        match r {
            Some(i) => i < set@.len() && set@[i as int].path@ == p@,
            None => !has_path(files_view(set@), p@),
        },
{
    let mut i: usize = 0;
    while i < set.len()
        invariant
            i <= set@.len(),
            forall|k: int| 0 <= k < i ==> set@[k].path@ != p@,
        decreases set@.len() - i,
    {
        if set[i].path == *p {
            return Some(i);
        }
        i = i + 1;
    }
    proof {
        assert(forall|k: int| 0 <= k < set@.len() ==> files_view(set@)[k].0 == set@[k].path@);
    }
    None
}

/// Adds `f` to the set, unless a file with its path is already there.
pub fn insert_file(set: &mut Vec<File>, f: File)
    requires
        is_file_set(files_view(old(set)@)),
    ensures
        is_file_set(files_view(final(set)@)),
        files_view(final(set)@).to_set() == if has_path(files_view(old(set)@), f@.0) {
            files_view(old(set)@).to_set()
        } else {
            files_view(old(set)@).to_set().insert(f@)
        },
        forall|p: Seq<char>|
            has_path(files_view(final(set)@), p) == (has_path(files_view(old(set)@), p) || p
                == f@.0),
{
    let ghost s0 = files_view(set@);
    let mut i: usize = 0;
    let mut found = false;
    let mut done = false;
    while i < set.len() && !done
        invariant
            s0 == files_view(set@),
            is_file_set(s0),
            i <= set@.len(),
            forall|k: int| 0 <= k < i ==> text_lt(#[trigger] s0[k].0, f@.0),
            done ==> i < set@.len(),
            done && found ==> s0[i as int].0 == f@.0,
            done && !found ==> text_lt(f@.0, s0[i as int].0),
            !done ==> !found,
        decreases set@.len() - i, if done { 0int } else { 1int },
    {
        match compare_text(&set[i].path, &f.path) {
            Ordering::Less => {
                i = i + 1;
            },
            Ordering::Equal => {
                found = true;
                done = true;
            },
            Ordering::Greater => {
                done = true;
            },
        }
    }
    if found {
        proof {
            assert(has_path(s0, f@.0));
        }
        return;
    }
    proof {
        assert forall|k: int| i <= k < s0.len() implies text_lt(f@.0, #[trigger] s0[k].0) by {
            if k > i {
                lemma_text_lt_transitive(f@.0, s0[i as int].0, s0[k].0);
            }
        }
        assert forall|k: int| 0 <= k < s0.len() implies s0[k].0 != f@.0 by {
            lemma_text_lt_irreflexive(f@.0);
        }
    }
    set.insert(i, f);
    proof {
        let s1 = files_view(set@);
        assert(s1 =~= s0.insert(i as int, f@));
        assert forall|a: int, b: int| 0 <= a < b < s1.len() implies text_lt(
            #[trigger] s1[a].0,
            #[trigger] s1[b].0,
        ) by {
            if b == i {
            } else if a == i {
            } else if a < i && b > i {
                lemma_text_lt_transitive(s1[a].0, f@.0, s1[b].0);
            }
        }
        assert(!has_path(s0, f@.0));
        assert(s1.to_set() =~= s0.to_set().insert(f@)) by {
            assert forall|x: FileV| s1.to_set().contains(x) implies s0.to_set().insert(f@).contains(x) by {
                let k = choose|k: int| 0 <= k < s1.len() && s1[k] == x;
                if k < i {
                    assert(s0[k] == x);
                } else if k > i {
                    assert(s0[k - 1] == x);
                }
            }
            assert forall|x: FileV| s0.to_set().insert(f@).contains(x) implies s1.to_set().contains(x) by {
                if x != f@ {
                    let k = choose|k: int| 0 <= k < s0.len() && s0[k] == x;
                    if k < i {
                        assert(s1[k] == x);
                    } else {
                        assert(s1[k + 1] == x);
                    }
                } else {
                    assert(s1[i as int] == x);
                }
            }
        }
        assert forall|p: Seq<char>| has_path(s1, p) == (has_path(s0, p) || p == f@.0) by {
            if has_path(s1, p) {
                let k = choose|k: int| 0 <= k < s1.len() && s1[k].0 == p;
                if k < i {
                    assert(s0[k].0 == p);
                } else if k > i {
                    assert(s0[k - 1].0 == p);
                }
            }
            if has_path(s0, p) {
                let k = choose|k: int| 0 <= k < s0.len() && s0[k].0 == p;
                if k < i {
                    assert(s1[k].0 == p);
                } else {
                    assert(s1[k + 1].0 == p);
                }
            }
            if p == f@.0 {
                assert(s1[i as int].0 == p);
            }
        }
    }
}

/// Builds a file set from files in any order; of two files with one path,
/// the first is kept.
pub fn file_set(files: Vec<File>) -> (r: Vec<File>)
    ensures
        is_file_set(files_view(r@)),
        files_view(r@).to_set() == set_of_files(files_view(files@)),
{
    let ghost input = files_view(files@);
    let mut set: Vec<File> = Vec::new();
    let mut i: usize = 0;
    while i < files.len()
        invariant
            input == files_view(files@),
            i <= files@.len(),
            is_file_set(files_view(set@)),
            files_view(set@).to_set() == set_of_files(input.subrange(0, i as int)),
            forall|p: Seq<char>|
                has_path(files_view(set@), p) == has_path(input.subrange(0, i as int), p),
        decreases files@.len() - i,
    {
        let ghost before = input.subrange(0, i as int);
        let ghost after = input.subrange(0, i + 1);
        proof {
            assert(after.drop_last() =~= before);
            assert(after.last() == input[i as int]);
        }
        let f = files[i].duplicate();
        insert_file(&mut set, f);
        proof {
            assert forall|p: Seq<char>| has_path(files_view(set@), p) == has_path(after, p) by {
                if has_path(after, p) && p != input[i as int].0 {
                    let k = choose|k: int| 0 <= k < after.len() && after[k].0 == p;
                    assert(before[k].0 == p);
                }
                if has_path(before, p) {
                    let k = choose|k: int| 0 <= k < before.len() && before[k].0 == p;
                    assert(after[k].0 == p);
                }
                assert(after[i as int].0 == input[i as int].0);
            }
        }
        i = i + 1;
    }
    proof {
        assert(input.subrange(0, input.len() as int) =~= input);
    }
    set
}

/// One path's change between a stored file set and a discovered one.
#[derive(Debug)]
pub struct FileDiff {
    pub value: File,
    pub modified: bool,
    pub removed: bool,
}

/// A diff record as the file it carries, whether it was modified and whether
/// it was removed.
pub type DiffV = (FileV, bool, bool);

impl View for FileDiff {
    type V = DiffV;

    open spec fn view(&self) -> DiffV {
        (self.value@, self.modified, self.removed)
    }
}

impl FileDiff {
    /// The most recently known value of the file.
    pub fn value(&self) -> (r: &File)
        ensures
            r@ == self@.0,
    {
        &self.value
    }

    /// Whether the file changed since it was last seen (or was never seen).
    pub fn is_modified(&self) -> (r: bool)
        ensures
            r == self@.1,
    {
        self.modified
    }

    /// Whether the file is no longer there.
    pub fn is_removed(&self) -> (r: bool)
        ensures
            r == self@.2,
    {
        self.removed
    }
}

pub open spec fn diffs_view(v: Seq<FileDiff>) -> Seq<DiffV> {
    v.map_values(|d: FileDiff| d@)
}

/// The stored files whose paths were not discovered again, in stored order.
pub open spec fn gone_files(old: Seq<FileV>, new: Seq<FileV>) -> Seq<FileV>
    decreases old.len(),
{
    if old.len() == 0 {
        Seq::empty()
    } else if has_path(new, old.last().0) {
        gone_files(old.drop_last(), new)
    } else {
        gone_files(old.drop_last(), new).push(old.last())
    }
}

/// The diff of a stored file set against a discovered one: first each
/// discovered file, modified unless stored with the same modification time;
/// then each stored file that was not discovered, as modified and removed.
pub open spec fn file_diffs(old: Seq<FileV>, new: Seq<FileV>) -> Seq<DiffV> {
    new.map_values(|f: FileV| (f, mtime_in(old, f.0) != Some(f.1), false)) + gone_files(
        old,
        new,
    ).map_values(|f: FileV| (f, true, true))
}

/// Pairs the stored file set `old` with the discovered file set `new`.
pub fn diff(old: Vec<File>, new: Vec<File>) -> (r: Vec<FileDiff>)
    requires
        is_file_set(files_view(old@)),
        is_file_set(files_view(new@)),
    ensures
        diffs_view(r@) == file_diffs(files_view(old@), files_view(new@)),
{
    let ghost o = files_view(old@);
    let ghost n = files_view(new@);
    let mut out: Vec<FileDiff> = Vec::new();
    let mut i: usize = 0;
    while i < new.len()
        invariant
            o == files_view(old@),
            n == files_view(new@),
            is_file_set(o),
            i <= new@.len(),
            diffs_view(out@) =~= n.subrange(0, i as int).map_values(
                |f: FileV| (f, mtime_in(o, f.0) != Some(f.1), false),
            ),
        decreases new@.len() - i,
    {
        let modified = match find_path(&old, &new[i].path) {
            Some(j) => {
                proof {
                    assert(o[j as int].0 == n[i as int].0);
                    assert(has_path(o, n[i as int].0));
                    let k = choose|k: int| 0 <= k < o.len() && o[k].0 == n[i as int].0;
                    lemma_file_set_unique(o, k, j as int);
                }
                old[j].mtime != new[i].mtime
            },
            None => true,
        };
        let ghost prev = diffs_view(out@);
        out.push(FileDiff { value: new[i].duplicate(), modified, removed: false });
        proof {
            let g = |f: FileV| (f, mtime_in(o, f.0) != Some(f.1), false);
            assert(modified == (mtime_in(o, n[i as int].0) != Some(n[i as int].1)));
            assert(diffs_view(out@) =~= prev.push(g(n[i as int])));
            assert(n.subrange(0, i + 1).map_values(g) =~= n.subrange(0, i as int).map_values(
                g,
            ).push(g(n[i as int])));
        }
        i = i + 1;
    }
    let ghost first = diffs_view(out@);
    proof {
        assert(n.subrange(0, n.len() as int) =~= n);
    }
    let mut j: usize = 0;
    while j < old.len()
        invariant
            o == files_view(old@),
            n == files_view(new@),
            j <= old@.len(),
            diffs_view(out@) =~= first + gone_files(o.subrange(0, j as int), n).map_values(
                |f: FileV| (f, true, true),
            ),
        decreases old@.len() - j,
    {
        proof {
            assert(o.subrange(0, j + 1).drop_last() =~= o.subrange(0, j as int));
        }
        let ghost prev = diffs_view(out@);
        let ghost g = |f: FileV| (f, true, true);
        match find_path(&new, &old[j].path) {
            Some(k) => {
                proof {
                    assert(n[k as int].0 == o[j as int].0);
                    assert(has_path(n, o[j as int].0));
                    assert(gone_files(o.subrange(0, j + 1), n) == gone_files(
                        o.subrange(0, j as int),
                        n,
                    ));
                }
            },
            None => {
                out.push(FileDiff { value: old[j].duplicate(), modified: true, removed: true });
                proof {
                    assert(gone_files(o.subrange(0, j + 1), n) == gone_files(
                        o.subrange(0, j as int),
                        n,
                    ).push(o[j as int]));
                    assert(diffs_view(out@) =~= prev.push(g(o[j as int])));
                    assert(gone_files(o.subrange(0, j + 1), n).map_values(g) =~= gone_files(
                        o.subrange(0, j as int),
                        n,
                    ).map_values(g).push(g(o[j as int])));
                }
            },
        }
        j = j + 1;
    }
    proof {
        assert(o.subrange(0, o.len() as int) =~= o);
    }
    out
}

/// The paths of a file sequence, as a set.
pub open spec fn path_set(s: Seq<FileV>) -> Set<Seq<char>> {
    s.map_values(|f: FileV| f.0).to_set()
}

/// The paths of a diff, in order.
pub open spec fn diff_paths(d: Seq<DiffV>) -> Seq<Seq<char>> {
    d.map_values(|r: DiffV| r.0.0)
}

proof fn lemma_gone_files(old: Seq<FileV>, new: Seq<FileV>)
    ensures
        forall|k: int|
            0 <= k < gone_files(old, new).len() ==> old.contains(
                #[trigger] gone_files(old, new)[k],
            ) && !has_path(new, gone_files(old, new)[k].0),
        forall|i: int|
            0 <= i < old.len() && !has_path(new, old[i].0) ==> gone_files(old, new).contains(
                #[trigger] old[i],
            ),
        is_file_set(old) ==> is_file_set(gone_files(old, new)),
    decreases old.len(),
{
    if old.len() > 0 {
        let rest = old.drop_last();
        lemma_gone_files(rest, new);
        let g0 = gone_files(rest, new);
        let g = gone_files(old, new);
        assert forall|k: int| 0 <= k < g.len() implies old.contains(#[trigger] g[k]) && !has_path(
            new,
            g[k].0,
        ) by {
            if k < g0.len() {
                assert(g[k] == g0[k]);
                let i = choose|i: int| 0 <= i < rest.len() && rest[i] == g0[k];
                assert(old[i] == g[k]);
            } else {
                assert(g[k] == old[old.len() - 1]);
            }
        }
        assert forall|i: int| 0 <= i < old.len() && !has_path(new, old[i].0) implies g.contains(
            #[trigger] old[i],
        ) by {
            if i < old.len() - 1 {
                assert(rest[i] == old[i]);
                assert(g0.contains(rest[i]));
                let k = choose|k: int| 0 <= k < g0.len() && g0[k] == rest[i];
                assert(g[k] == old[i]);
            } else {
                assert(g[g.len() - 1] == old[i]);
            }
        }
        if is_file_set(old) {
            assert(is_file_set(rest)) by {
                assert forall|a: int, b: int| 0 <= a < b < rest.len() implies text_lt(
                    #[trigger] rest[a].0,
                    #[trigger] rest[b].0,
                ) by {
                    assert(rest[a] == old[a] && rest[b] == old[b]);
                }
            }
            assert forall|a: int, b: int| 0 <= a < b < g.len() implies text_lt(
                #[trigger] g[a].0,
                #[trigger] g[b].0,
            ) by {
                if b >= g0.len() {
                    assert(g[a] == g0[a]);
                    let i = choose|i: int| 0 <= i < rest.len() && rest[i] == g0[a];
                    assert(old[i] == g[a]);
                    assert(g[b] == old[old.len() - 1]);
                } else {
                    assert(g[a] == g0[a] && g[b] == g0[b]);
                }
            }
        }
    }
}

proof fn lemma_mtime_in_at(s: Seq<FileV>, i: int)
    requires
        is_file_set(s),
        0 <= i < s.len(),
    ensures
        mtime_in(s, s[i].0) == Some(s[i].1),
{
    assert(has_path(s, s[i].0));
    let k = choose|k: int| 0 <= k < s.len() && s[k].0 == s[i].0;
    lemma_file_set_unique(s, k, i);
}

/// Each path that occurs in either set has exactly one record in the diff,
/// and no other path has one: there are as many records as paths in the
/// union of the two sets.
pub proof fn lemma_diff_one_record_per_path(old: Seq<FileV>, new: Seq<FileV>)
    requires
        is_file_set(old),
        is_file_set(new),
    ensures
        diff_paths(file_diffs(old, new)).no_duplicates(),
        diff_paths(file_diffs(old, new)).to_set() == path_set(old).union(path_set(new)),
        file_diffs(old, new).len() == path_set(old).union(path_set(new)).len(),
{
    lemma_gone_files(old, new);
    let d = file_diffs(old, new);
    let ps = diff_paths(d);
    let g = gone_files(old, new);
    let n = new.len() as int;
    assert forall|k: int| 0 <= k < d.len() implies (k < n ==> #[trigger] ps[k] == new[k].0) && (k
        >= n ==> ps[k] == g[k - n].0) by {}
    assert forall|a: int, b: int| 0 <= a < ps.len() && 0 <= b < ps.len() && a != b implies ps[a]
        != ps[b] by {
        if a < n && b < n {
            if ps[a] == ps[b] {
                lemma_file_set_unique(new, a, b);
            }
        } else if a >= n && b >= n {
            if ps[a] == ps[b] {
                lemma_file_set_unique(g, a - n, b - n);
            }
        } else if a < n {
            assert(!has_path(new, g[b - n].0));
        } else {
            assert(!has_path(new, g[a - n].0));
        }
    }
    assert(ps.to_set() =~= path_set(old).union(path_set(new))) by {
        let po = old.map_values(|f: FileV| f.0);
        let pn = new.map_values(|f: FileV| f.0);
        assert forall|p: Seq<char>| ps.to_set().contains(p) implies path_set(old).union(
            path_set(new),
        ).contains(p) by {
            let k = choose|k: int| 0 <= k < ps.len() && ps[k] == p;
            if k < n {
                assert(pn[k] == p);
            } else {
                let i = choose|i: int| 0 <= i < old.len() && old[i] == g[k - n];
                assert(po[i] == p);
            }
        }
        assert forall|p: Seq<char>| path_set(old).union(path_set(new)).contains(
            p,
        ) implies ps.to_set().contains(p) by {
            if pn.contains(p) {
                let k = choose|k: int| 0 <= k < pn.len() && pn[k] == p;
                assert(ps[k] == p);
            } else {
                let i = choose|i: int| 0 <= i < po.len() && po[i] == p;
                assert(old[i].0 == p);
                if has_path(new, p) {
                    let k = choose|k: int| 0 <= k < new.len() && new[k].0 == p;
                    assert(pn[k] == p);
                }
                assert(g.contains(old[i]));
                let k = choose|k: int| 0 <= k < g.len() && g[k] == old[i];
                assert(ps[k + n] == p);
            }
        }
    }
    ps.unique_seq_to_set();
}

/// A path stored and discovered again with the same modification time is
/// neither modified nor removed.
pub proof fn lemma_diff_unchanged(old: Seq<FileV>, new: Seq<FileV>, k: int)
    requires
        is_file_set(old),
        is_file_set(new),
        0 <= k < file_diffs(old, new).len(),
        has_path(old, file_diffs(old, new)[k].0.0),
        mtime_in(old, file_diffs(old, new)[k].0.0) == mtime_in(new, file_diffs(old, new)[k].0.0),
    ensures
        !file_diffs(old, new)[k].1,
        !file_diffs(old, new)[k].2,
{
    lemma_gone_files(old, new);
    let d = file_diffs(old, new);
    if k < new.len() {
        lemma_mtime_in_at(new, k);
    } else {
        let g = gone_files(old, new);
        assert(d[k].0 == g[k - new.len()]);
        assert(!has_path(new, d[k].0.0));
    }
}

/// A discovered path that was not stored, or was stored with another
/// modification time, is modified and not removed; its record carries the
/// discovered file.
pub proof fn lemma_diff_changed(old: Seq<FileV>, new: Seq<FileV>, k: int)
    requires
        is_file_set(old),
        is_file_set(new),
        0 <= k < file_diffs(old, new).len(),
        has_path(new, file_diffs(old, new)[k].0.0),
        mtime_in(old, file_diffs(old, new)[k].0.0) != mtime_in(new, file_diffs(old, new)[k].0.0),
    ensures
        file_diffs(old, new)[k].1,
        !file_diffs(old, new)[k].2,
        mtime_in(new, file_diffs(old, new)[k].0.0) == Some(file_diffs(old, new)[k].0.1),
{
    lemma_gone_files(old, new);
    let d = file_diffs(old, new);
    if k < new.len() {
        lemma_mtime_in_at(new, k);
    } else {
        let g = gone_files(old, new);
        assert(d[k].0 == g[k - new.len()]);
    }
}

/// A stored path that was not discovered again is modified and removed; its
/// record carries the stored file.
pub proof fn lemma_diff_removed(old: Seq<FileV>, new: Seq<FileV>, k: int)
    requires
        is_file_set(old),
        is_file_set(new),
        0 <= k < file_diffs(old, new).len(),
        !has_path(new, file_diffs(old, new)[k].0.0),
    ensures
        file_diffs(old, new)[k].1,
        file_diffs(old, new)[k].2,
        mtime_in(old, file_diffs(old, new)[k].0.0) == Some(file_diffs(old, new)[k].0.1),
{
    lemma_gone_files(old, new);
    let d = file_diffs(old, new);
    if k < new.len() {
        assert(new[k].0 == d[k].0.0);
    } else {
        let g = gone_files(old, new);
        assert(d[k].0 == g[k - new.len()]);
        let i = choose|i: int| 0 <= i < old.len() && old[i] == g[k - new.len()];
        lemma_mtime_in_at(old, i);
    }
}

} // verus!
