//! The path-state store: for each trigger, the file set it last observed.
use crate::format::{decimal, entry_body, file_of_line, first_colon, is_space, lemma_decimal, lemma_decimal_chars, lemma_first_colon, parse_u64, push_decimal, read_file_line, read_file_text, split_lines, lemma_split_joined_lines, file_of_text, tab_count, trim_end, trimmed_len, trimmed_length, unsigned_part, DbError};
use crate::order::texts_view;
use crate::paths::{diff, diffs_view, file_diffs, files_view, has_path, insert_file, is_file_set, File, FileDiff, FileV};
use vstd::prelude::*;

verus! {

/// The files last observed for one trigger.
#[derive(Debug)]
pub struct TriggerFiles {
    pub name: String,
    pub files: Vec<File>,
}

/// A trigger's record as its name and its files.
pub type EntryV = (Seq<char>, Seq<FileV>);

pub open spec fn entries_view(s: Seq<TriggerFiles>) -> Seq<EntryV> {
    s.map_values(|e: TriggerFiles| (e.name@, files_view(e.files@)))
}

/// The mapping that a sequence of records with unique names stands for.
pub open spec fn entry_map<V>(s: Seq<(Seq<char>, V)>) -> Map<Seq<char>, V>
    decreases s.len(),
{
    if s.len() == 0 {
        Map::empty()
    } else {
        entry_map(s.drop_last()).insert(s.last().0, s.last().1)
    }
}

pub open spec fn unique_names<V>(s: Seq<(Seq<char>, V)>) -> bool {
    forall|i: int, j: int| 0 <= i < s.len() && 0 <= j < s.len() && i != j ==> s[i].0 != s[j].0
}

/// The file set stored for `name`, empty where there is none.
pub open spec fn stored_files(m: Map<Seq<char>, Seq<FileV>>, name: Seq<char>) -> Seq<FileV> {
    if m.contains_key(name) {
        m[name]
    } else {
        Seq::empty()
    }
}

/// A mapping whose every stored set is a file set.
pub open spec fn all_file_sets(m: Map<Seq<char>, Seq<FileV>>) -> bool {
    forall|k: Seq<char>| m.contains_key(k) ==> is_file_set(#[trigger] m[k])
}

pub proof fn lemma_entry_map<V>(s: Seq<(Seq<char>, V)>)
    requires
        unique_names(s),
    ensures
        forall|k: Seq<char>|
            entry_map(s).contains_key(k) <==> exists|i: int| 0 <= i < s.len() && s[i].0 == k,
        forall|i: int| 0 <= i < s.len() ==> entry_map(s)[#[trigger] s[i].0] == s[i].1,
    decreases s.len(),
{
    if s.len() > 0 {
        let rest = s.drop_last();
        assert forall|i: int| 0 <= i < rest.len() implies #[trigger] rest[i] == s[i] by {}
        lemma_entry_map(rest);
        assert forall|k: Seq<char>| entry_map(s).contains_key(k) implies exists|i: int|
            0 <= i < s.len() && s[i].0 == k by {
            if k != s.last().0 {
                assert(entry_map(rest).contains_key(k));
                let i = choose|i: int| 0 <= i < rest.len() && rest[i].0 == k;
                assert(rest[i] == s[i]);
                assert(s[i].0 == k);
            } else {
                assert(s[s.len() - 1].0 == k);
            }
        }
        assert forall|k: Seq<char>| (exists|i: int| 0 <= i < s.len() && s[i].0 == k) implies entry_map(
            s,
        ).contains_key(k) by {
            let i = choose|i: int| 0 <= i < s.len() && s[i].0 == k;
            if i < s.len() - 1 {
                assert(rest[i].0 == k);
            }
        }
        assert forall|i: int| 0 <= i < s.len() implies entry_map(s)[#[trigger] s[i].0] == s[i].1 by {
            if i < s.len() - 1 {
                assert(rest[i] == s[i]);
                assert(s[i].0 != s.last().0);
            }
        }
    }
}

/// A file set after adding `f` as `insert_file` does: unless its path is there.
pub open spec fn add_file(set: Set<FileV>, f: FileV) -> Set<FileV> {
    if exists|g: FileV| set.contains(g) && g.0 == f.0 {
        set
    } else {
        set.insert(f)
    }
}

/// The mapping that reading `lines` gives, with the trigger that the last
/// name line opened; or the first error. A line that starts with a tab
/// adds a file to the open trigger; any other line names a trigger (its
/// trailing whitespace dropped) and opens it.
pub open spec fn load_lines(lines: Seq<Seq<char>>) -> Result<(Map<Seq<char>, Set<FileV>>, Option<Seq<char>>), DbError>
    decreases lines.len(),
{
    if lines.len() == 0 {
        Ok((Map::empty(), None))
    } else {
        match load_lines(lines.drop_last()) {
            Err(e) => Err(e),
            Ok((m, cur)) => {
                let l = lines.last();
                if l.len() > 0 && l[0] == '\t' {
                    match cur {
                        None => Err(DbError::MissingTrigger),
                        Some(name) => match file_of_line(l) {
                            Err(e) => Err(e),
                            Ok(f) => Ok((m.insert(name, add_file(m[name], f)), cur)),
                        },
                    }
                } else {
                    let name = trim_end(l);
                    if m.contains_key(name) {
                        Ok((m, Some(name)))
                    } else {
                        Ok((m.insert(name, Set::empty()), Some(name)))
                    }
                }
            },
        }
    }
}

proof fn lemma_load_err(ls: Seq<Seq<char>>, i: int, e: DbError)
    requires
        0 <= i <= ls.len(),
        load_lines(ls.subrange(0, i)) == Err::<(Map<Seq<char>, Set<FileV>>, Option<Seq<char>>), DbError>(e),
    ensures
        load_lines(ls) == Err::<(Map<Seq<char>, Set<FileV>>, Option<Seq<char>>), DbError>(e),
    decreases ls.len(),
{
    if ls.len() == i {
        assert(ls.subrange(0, i) =~= ls);
    } else {
        assert(ls.drop_last().subrange(0, i) =~= ls.subrange(0, i));
        lemma_load_err(ls.drop_last(), i, e);
    }
}

/// The files of the records, record by record.
pub open spec fn record_files(rs: Seq<EntryV>) -> Seq<FileV> {
    rs.map_values(|e: EntryV| e.1).flatten()
}

/// A store's view holds, under each name, a file set with the files of `m`.
pub open spec fn holds_sets(v: Map<Seq<char>, Seq<FileV>>, m: Map<Seq<char>, Set<FileV>>) -> bool {
    &&& v.dom() == m.dom()
    &&& forall|k: Seq<char>| #[trigger] v.contains_key(k) ==> v[k].to_set() == m[k]
}

/// The text of one file line.
pub open spec fn file_text(f: FileV) -> Seq<char> {
    seq!['\t'] + f.0 + seq![':'] + decimal(f.1 as nat) + seq!['\n']
}

pub open spec fn files_text(fs: Seq<FileV>) -> Seq<char>
    decreases fs.len(),
{
    if fs.len() == 0 {
        Seq::empty()
    } else {
        files_text(fs.drop_last()) + file_text(fs.last())
    }
}

/// The text of the records: for each one whose file set is not empty, its
/// name on a line, then its files.
pub open spec fn records_text(rs: Seq<EntryV>) -> Seq<char>
    decreases rs.len(),
{
    if rs.len() == 0 {
        Seq::empty()
    } else if rs.last().1.len() == 0 {
        records_text(rs.drop_last())
    } else {
        records_text(rs.drop_last()) + rs.last().0 + seq!['\n'] + files_text(rs.last().1)
    }
}

/// The durable mapping from trigger name to the file set it last observed.
#[derive(Debug)]
pub struct PathDb {
    entries: Vec<TriggerFiles>,
}

impl View for PathDb {
    type V = Map<Seq<char>, Seq<FileV>>;

    closed spec fn view(&self) -> Map<Seq<char>, Seq<FileV>> {
        entry_map(entries_view(self.entries@))
    }
}

impl PathDb {
    /// Names are unique and each stored set is a file set.
    pub closed spec fn wf(&self) -> bool {
        &&& unique_names(entries_view(self.entries@))
        &&& forall|i: int|
            0 <= i < self.entries@.len() ==> is_file_set(
                #[trigger] entries_view(self.entries@)[i].1,
            )
    }

    proof fn lemma_wf(&self)
        requires
            self.wf(),
        ensures
            all_file_sets(self@),
            forall|k: Seq<char>|
                self@.contains_key(k) <==> exists|i: int|
                    0 <= i < self.entries@.len() && self.entries@[i].name@ == k,
            forall|i: int|
                0 <= i < self.entries@.len() ==> self@[#[trigger] self.entries@[i].name@]
                    == files_view(self.entries@[i].files@),
    {
        let s = entries_view(self.entries@);
        lemma_entry_map(s);
        assert forall|i: int| 0 <= i < self.entries@.len() implies s[i].0
            == #[trigger] self.entries@[i].name@ && s[i].1 == files_view(
            self.entries@[i].files@,
        ) by {}
        assert forall|k: Seq<char>| self@.contains_key(k) implies is_file_set(#[trigger] self@[k]) by {
            let i = choose|i: int| 0 <= i < s.len() && s[i].0 == k;
        }
        assert forall|k: Seq<char>| self@.contains_key(k) implies exists|i: int|
            0 <= i < self.entries@.len() && self.entries@[i].name@ == k by {
            let i = choose|i: int| 0 <= i < s.len() && s[i].0 == k;
            assert(self.entries@[i].name@ == k);
        }
        assert forall|k: Seq<char>|
            (exists|i: int| 0 <= i < self.entries@.len() && self.entries@[i].name@ == k) implies self@.contains_key(k) by {
            let i = choose|i: int| 0 <= i < self.entries@.len() && self.entries@[i].name@ == k;
            assert(s[i].0 == k);
        }
    }

    /// An empty store.
    pub fn new() -> (r: PathDb)
        ensures
            r.wf(),
            r@ == Map::<Seq<char>, Seq<FileV>>::empty(),
    {
        let r = PathDb { entries: Vec::new() };
        proof {
            assert(entries_view(r.entries@) =~= Seq::empty());
        }
        r
    }

    fn position(&self, name: &String) -> (r: Option<usize>)
        requires
            self.wf(),
        ensures
            match r {
                Some(i) => i < self.entries@.len() && self.entries@[i as int].name@ == name@,
                None => !self@.contains_key(name@),
            },
    {
        proof {
            self.lemma_wf();
        }
        let mut i: usize = 0;
        while i < self.entries.len()
            invariant
                i <= self.entries@.len(),
                forall|k: int| 0 <= k < i ==> self.entries@[k].name@ != name@,
            decreases self.entries@.len() - i,
        {
            if self.entries[i].name == *name {
                return Some(i);
            }
            i = i + 1;
        }
        None
    }

    /// Replaces the file set stored for `name`.
    pub fn insert(&mut self, name: String, set: Vec<File>)
        requires
            old(self).wf(),
            is_file_set(files_view(set@)),
        ensures
            final(self).wf(),
            final(self)@ == old(self)@.insert(name@, files_view(set@)),
    {
        proof {
            self.lemma_wf();
        }
        let ghost s0 = entries_view(self.entries@);
        let ghost key = name@;
        let ghost val = files_view(set@);
        match self.position(&name) {
            Some(i) => {
                self.entries.set(i, TriggerFiles { name, files: set });
                proof {
                    let s1 = entries_view(self.entries@);
                    assert(s1 =~= s0.update(i as int, (key, val)));
                    assert(unique_names(s1)) by {
                        assert forall|a: int, b: int|
                            0 <= a < s1.len() && 0 <= b < s1.len() && a != b implies s1[a].0
                            != s1[b].0 by {
                            assert(s1[a].0 == s0[a].0 && s1[b].0 == s0[b].0);
                        }
                    }
                    lemma_entry_map(s0);
                    lemma_entry_map(s1);
                    assert(entry_map(s1) =~= entry_map(s0).insert(key, val)) by {
                        assert forall|k: Seq<char>| entry_map(s1).contains_key(k) implies entry_map(
                            s1,
                        )[k] == entry_map(s0).insert(key, val)[k] by {
                            let j = choose|j: int| 0 <= j < s1.len() && s1[j].0 == k;
                            assert(entry_map(s1)[s1[j].0] == s1[j].1);
                            if j == i {
                                assert(s1[j] == (key, val));
                            } else {
                                assert(s0[j].0 != s0[i as int].0);
                                assert(s0[j] == s1[j]);
                                assert(entry_map(s0)[s0[j].0] == s0[j].1);
                            }
                        }
                        assert forall|k: Seq<char>| entry_map(s0).insert(key, val).contains_key(
                            k,
                        ) implies entry_map(s1).contains_key(k) by {
                            if k != key {
                                let j = choose|j: int| 0 <= j < s0.len() && s0[j].0 == k;
                                assert(s1[j].0 == k);
                            } else {
                                assert(s1[i as int].0 == k);
                            }
                        }
                    }
                }
            },
            None => {
                self.entries.push(TriggerFiles { name, files: set });
                proof {
                    let s1 = entries_view(self.entries@);
                    assert(s1 =~= s0.push((key, val)));
                    assert(s1.drop_last() =~= s0);
                    lemma_entry_map(s0);
                }
            },
        }
    }

    /// Takes the file set stored for `name` out of the store (empty where
    /// there is none).
    pub fn take(&mut self, name: &String) -> (r: Vec<File>)
        requires
            old(self).wf(),
        ensures
            final(self).wf(),
            final(self)@ == old(self)@.remove(name@),
            files_view(r@) == stored_files(old(self)@, name@),
            is_file_set(files_view(r@)),
    {
        proof {
            self.lemma_wf();
        }
        let ghost s0 = entries_view(self.entries@);
        match self.position(name) {
            Some(i) => {
                let e = self.entries.remove(i);
                proof {
                    let s1 = entries_view(self.entries@);
                    assert(s1 =~= s0.remove(i as int));
                    assert(unique_names(s1)) by {
                        assert forall|a: int, b: int|
                            0 <= a < s1.len() && 0 <= b < s1.len() && a != b implies s1[a].0
                            != s1[b].0 by {
                            let a0 = if a < i { a } else { a + 1 };
                            let b0 = if b < i { b } else { b + 1 };
                            assert(s1[a] == s0[a0] && s1[b] == s0[b0]);
                        }
                    }
                    lemma_entry_map(s0);
                    lemma_entry_map(s1);
                    assert(entry_map(s1) =~= entry_map(s0).remove(name@)) by {
                        assert forall|k: Seq<char>| entry_map(s1).contains_key(k) implies entry_map(
                            s0,
                        ).remove(name@).contains_key(k) && entry_map(s1)[k] == entry_map(s0)[k] by {
                            let j = choose|j: int| 0 <= j < s1.len() && s1[j].0 == k;
                            assert(s0[i as int].0 == name@);
                            if j < i {
                                assert(s0[j] == s1[j]);
                                assert(s0[j].0 != s0[i as int].0);
                                assert(entry_map(s0)[s0[j].0] == s0[j].1);
                            } else {
                                assert(s0[j + 1].0 != s0[i as int].0);
                                assert(s0[j + 1] == s1[j]);
                                assert(entry_map(s0)[s0[j + 1].0] == s0[j + 1].1);
                            }
                            assert(entry_map(s1)[s1[j].0] == s1[j].1);
                        }
                        assert forall|k: Seq<char>| entry_map(s0).remove(name@).contains_key(
                            k,
                        ) implies entry_map(s1).contains_key(k) by {
                            let j = choose|j: int| 0 <= j < s0.len() && s0[j].0 == k;
                            if j < i {
                                assert(s1[j].0 == k);
                            } else {
                                assert(s1[j - 1].0 == k);
                            }
                        }
                    }
                    assert(s0[i as int].1 == files_view(e.files@));
                }
                e.files
            },
            None => {
                proof {
                    assert(self@.remove(name@) =~= self@);
                }
                let r = Vec::new();
                proof {
                    assert(files_view(r@) =~= Seq::empty());
                }
                r
            },
        }
    }

    /// Takes the file set stored for `name` out of the store and pairs it with
    /// the discovered file set `new`. The store keeps no entry for `name`
    /// until the caller inserts one again.
    pub fn extract_diff(&mut self, name: &String, new: Vec<File>) -> (r: Vec<FileDiff>)
        requires
            old(self).wf(),
            is_file_set(files_view(new@)),
        ensures
            final(self).wf(),
            final(self)@ == old(self)@.remove(name@),
            diffs_view(r@) == file_diffs(stored_files(old(self)@, name@), files_view(new@)),
    {
        let old_set = self.take(name);
        diff(old_set, new)
    }
}

impl PathDb {
    /// The records of the store, in their order.
    pub closed spec fn records(&self) -> Seq<EntryV> {
        entries_view(self.entries@)
    }

    /// The records stand for the mapping: names are unique and each holds a file set.
    pub proof fn lemma_records(&self)
        requires
            self.wf(),
        ensures
            unique_names(self.records()),
            self@ == entry_map(self.records()),
            forall|i: int| 0 <= i < self.records().len() ==> is_file_set(#[trigger] self.records()[i].1),
    {
    }

    /// Whether the store has an entry for `name`.
    pub fn contains(&self, name: &String) -> (r: bool)
        requires
            self.wf(),
        ensures
            r == self@.contains_key(name@),
    {
        proof {
            self.lemma_wf();
        }
        match self.position(name) {
            Some(i) => {
                proof {
                    assert(self@.contains_key(self.entries@[i as int].name@));
                }
                true
            },
            None => false,
        }
    }

    /// Reads a store from the lines of its text, each as read with its line
    /// ending.
    pub fn open(lines: &Vec<String>) -> (r: Result<PathDb, DbError>)
        ensures
            match r {
                Ok(db) => db.wf() && load_lines(texts_view(lines@)) is Ok && holds_sets(
                    db@,
                    load_lines(texts_view(lines@))->Ok_0.0,
                ),
                Err(e) => load_lines(texts_view(lines@)) == Err::<
                    (Map<Seq<char>, Set<FileV>>, Option<Seq<char>>),
                    DbError,
                >(e),
            },
    {
        let ghost ls = texts_view(lines@);
        let mut db = PathDb::new();
        let mut cur: Option<String> = None;
        let mut i: usize = 0;
        proof {
            assert(ls.subrange(0, 0) =~= Seq::<Seq<char>>::empty());
        }
        while i < lines.len()
            invariant
                ls == texts_view(lines@),
                i <= lines@.len(),
                db.wf(),
                load_lines(ls.subrange(0, i as int)) is Ok,
                holds_sets(db@, load_lines(ls.subrange(0, i as int))->Ok_0.0),
                load_lines(ls.subrange(0, i as int))->Ok_0.1 == match cur {
                    Some(c) => Some(c@),
                    None => None::<Seq<char>>,
                },
                cur is Some ==> db@.contains_key(cur->Some_0@),
            decreases lines@.len() - i,
        {
            let ghost pre = ls.subrange(0, i as int);
            let ghost m = load_lines(pre)->Ok_0.0;
            proof {
                assert(ls.subrange(0, i + 1).drop_last() =~= pre);
                assert(ls.subrange(0, i + 1).last() == lines@[i as int]@);
            }
            let line = lines[i].as_str();
            let n = line.unicode_len();
            if n > 0 && line.get_char(0) == '\t' {
                proof {
                    assert(line@[0] == '\t');
                }
                let name = match &cur {
                    None => {
                        proof {
                            lemma_load_err(ls, i + 1, DbError::MissingTrigger);
                        }
                        return Err(DbError::MissingTrigger);
                    },
                    Some(c) => c.clone(),
                };
                let f = match read_file_line(line) {
                    Err(e) => {
                        proof {
                            lemma_load_err(ls, i + 1, e);
                        }
                        return Err(e);
                    },
                    Ok(f) => f,
                };
                let ghost old_v = db@;
                let mut files = db.take(&name);
                let ghost fs0 = files_view(files@);
                insert_file(&mut files, f);
                proof {
                    assert(fs0 == old_v[name@]);
                    assert(fs0.to_set() == m[name@]);
                    assert(has_path(fs0, f@.0) == exists|g: FileV| fs0.to_set().contains(g) && g.0
                        == f@.0) by {
                        if has_path(fs0, f@.0) {
                            let k = choose|k: int| 0 <= k < fs0.len() && fs0[k].0 == f@.0;
                            assert(fs0.to_set().contains(fs0[k]));
                        }
                        if exists|g: FileV| fs0.to_set().contains(g) && g.0 == f@.0 {
                            let g = choose|g: FileV| fs0.to_set().contains(g) && g.0 == f@.0;
                            let k = choose|k: int| 0 <= k < fs0.len() && fs0[k] == g;
                        }
                    }
                }
                db.insert(name, files);
                proof {
                    let m1 = load_lines(ls.subrange(0, i + 1))->Ok_0.0;
                    assert(m1 == m.insert(name@, add_file(m[name@], f@)));
                    assert(db@ == old_v.remove(name@).insert(name@, files_view(files@)));
                    assert(db@.dom() =~= m1.dom());
                    assert forall|k: Seq<char>| #[trigger] db@.contains_key(k) implies db@[k].to_set() == m1[k] by {
                        if k != name@ {
                            assert(old_v.contains_key(k));
                        }
                    }
                }
            } else {
                let t = trimmed_length(line);
                let name = String::from_str(line.substring_char(0, t));
                proof {
                    assert(name@ =~= trim_end(lines@[i as int]@));
                }
                if !db.contains(&name) {
                    let ghost old_v = db@;
                    let empty: Vec<File> = Vec::new();
                    proof {
                        assert(files_view(empty@) =~= Seq::<FileV>::empty());
                        assert(Seq::<FileV>::empty().to_set() =~= Set::<FileV>::empty());
                    }
                    db.insert(name.clone(), empty);
                    proof {
                        let m1 = load_lines(ls.subrange(0, i + 1))->Ok_0.0;
                        assert(db@.dom() =~= m1.dom());
                        assert forall|k: Seq<char>| #[trigger] db@.contains_key(k) implies db@[k].to_set() == m1[k] by {
                            if k != name@ {
                                assert(old_v.contains_key(k));
                            }
                        }
                    }
                }
                cur = Some(name);
            }
            i = i + 1;
        }
        proof {
            assert(ls.subrange(0, ls.len() as int) =~= ls);
        }
        Ok(db)
    }

    /// The store's text: each trigger with files, its name on a line and then
    /// one line per file; triggers without files are left out.
    pub fn save(&self) -> (r: String)
        ensures
            r@ == records_text(self.records()),
    {
        let ghost rs = self.records();
        let mut out = String::new();
        let mut i: usize = 0;
        proof {
            assert(rs.subrange(0, 0) =~= Seq::<EntryV>::empty());
        }
        while i < self.entries.len()
            invariant
                rs == self.records(),
                rs == entries_view(self.entries@),
                i <= self.entries@.len(),
                out@ == records_text(rs.subrange(0, i as int)),
            decreases self.entries@.len() - i,
        {
            let e = &self.entries[i];
            proof {
                assert(rs.subrange(0, i + 1).drop_last() =~= rs.subrange(0, i as int));
                assert(rs.subrange(0, i + 1).last() == (e.name@, files_view(e.files@)));
            }
            if e.files.len() > 0 {
                out.append(e.name.as_str());
                out.append("\n");
                let ghost head = out@;
                let ghost fv = files_view(e.files@);
                let mut k: usize = 0;
                proof {
                    reveal_strlit("\n");
                    assert(fv.subrange(0, 0) =~= Seq::<FileV>::empty());
                    assert(head =~= head + files_text(fv.subrange(0, 0)));
                }
                while k < e.files.len()
                    invariant
                        fv == files_view(e.files@),
                        k <= fv.len(),
                        out@ == head + files_text(fv.subrange(0, k as int)),
                    decreases fv.len() - k,
                {
                    let f = &e.files[k];
                    proof {
                        assert(fv.subrange(0, k + 1).drop_last() =~= fv.subrange(0, k as int));
                        assert(fv.subrange(0, k + 1).last() == f@);
                        reveal_strlit("\t");
                        reveal_strlit(":");
                        reveal_strlit("\n");
                    }
                    let ghost before = out@;
                    out.append("\t");
                    f.serialize(&mut out);
                    out.append("\n");
                    proof {
                        assert(out@ =~= before + file_text(f@));
                    }
                    k = k + 1;
                }
                proof {
                    assert(fv.subrange(0, fv.len() as int) =~= fv);
                    assert(out@ =~= records_text(rs.subrange(0, i as int)) + e.name@ + seq!['\n']
                        + files_text(fv));
                }
            }
            i = i + 1;
        }
        proof {
            assert(rs.subrange(0, rs.len() as int) =~= rs);
        }
        out
    }
}

impl PathDb {
    /// Every file of every trigger, trigger by trigger: each stored file
    /// once for each trigger that holds it.
    pub fn files(&self) -> (r: Vec<File>)
        requires
            self.wf(),
        ensures
            files_view(r@) == record_files(self.records()),
            forall|f: FileV|
                files_view(r@).contains(f) <==> exists|k: Seq<char>|
                    #[trigger] self@.contains_key(k) && self@[k].contains(f),
    {
        proof {
            self.lemma_wf();
        }
        let mut out: Vec<File> = Vec::new();
        let mut i: usize = 0;
        while i < self.entries.len()
            invariant
                i <= self.entries@.len(),
                files_view(out@) == record_files(self.records().take(i as int)),
                forall|f: FileV|
                    files_view(out@).contains(f) <==> exists|a: int|
                        0 <= a < i && files_view(self.entries@[a].files@).contains(f),
            decreases self.entries@.len() - i,
        {
            let fs = &self.entries[i].files;
            let mut k: usize = 0;
            let ghost base = files_view(out@);
            while k < fs.len()
                invariant
                    i < self.entries@.len(),
                    *fs == self.entries@[i as int].files,
                    k <= fs@.len(),
                    files_view(out@) =~= base + files_view(fs@).subrange(0, k as int),
                decreases fs@.len() - k,
            {
                let ghost prev = files_view(out@);
                out.push(fs[k].duplicate());
                proof {
                    assert(files_view(out@) =~= prev.push(fs@[k as int]@));
                    assert(files_view(fs@).subrange(0, k + 1) =~= files_view(fs@).subrange(0, k as int).push(fs@[k as int]@));
                }
                k = k + 1;
            }
            proof {
                let fv = files_view(fs@);
                assert(fv.subrange(0, fv.len() as int) =~= fv);
                let rs = self.records();
                let g = |e: EntryV| e.1;
                assert(rs.take(i + 1).map_values(g) =~= rs.take(i as int).map_values(g).push(fv));
                rs.take(i as int).map_values(g).lemma_flatten_push(fv);
                assert forall|f: FileV| files_view(out@).contains(f) <==> exists|a: int|
                    0 <= a < i + 1 && files_view(self.entries@[a].files@).contains(f) by {
                    let o = files_view(out@);
                    if o.contains(f) {
                        let j = choose|j: int| 0 <= j < o.len() && o[j] == f;
                        if j < base.len() {
                            assert(base.contains(f));
                        } else {
                            assert(fv[j - base.len()] == f);
                            assert(files_view(self.entries@[i as int].files@).contains(f));
                        }
                    }
                    if exists|a: int| 0 <= a < i + 1 && files_view(self.entries@[a].files@).contains(f) {
                        let a = choose|a: int| 0 <= a < i + 1 && files_view(self.entries@[a].files@).contains(f);
                        if a < i {
                            assert(base.contains(f));
                            let j = choose|j: int| 0 <= j < base.len() && base[j] == f;
                            assert(o[j] == f);
                        } else {
                            let j = choose|j: int| 0 <= j < fv.len() && fv[j] == f;
                            assert(o[base.len() + j] == f);
                        }
                    }
                }
            }
            i = i + 1;
        }
        proof {
            assert(self.records().take(self.entries@.len() as int) =~= self.records());
            assert forall|f: FileV| files_view(out@).contains(f) <==> exists|k: Seq<char>|
                #[trigger] self@.contains_key(k) && self@[k].contains(f) by {
                if files_view(out@).contains(f) {
                    let a = choose|a: int| 0 <= a < self.entries@.len() && files_view(self.entries@[a].files@).contains(f);
                    assert(self@.contains_key(self.entries@[a].name@));
                }
                if exists|k: Seq<char>| #[trigger] self@.contains_key(k) && self@[k].contains(f) {
                    let k = choose|k: Seq<char>| #[trigger] self@.contains_key(k) && self@[k].contains(f);
                    let a = choose|a: int| 0 <= a < self.entries@.len() && self.entries@[a].name@ == k;
                    assert(self@[self.entries@[a].name@] == files_view(self.entries@[a].files@));
                }
            }
        }
        out
    }
}

impl PathDb {
    /// The modification time stored for `path` under some trigger, if any.
    pub fn find_mtime(&self, path: &String) -> (r: Option<u64>)
        requires
            self.wf(),
        ensures
            match r {
                Some(m) => exists|k: Seq<char>|
                    #[trigger] self@.contains_key(k) && self@[k].contains((path@, m)),
                None => forall|k: Seq<char>, m: u64|
                    self@.contains_key(k) ==> !#[trigger] self@[k].contains((path@, m)),
            },
    {
        let all = self.files();
        let mut i: usize = 0;
        while i < all.len()
            invariant
                i <= all@.len(),
                forall|j: int| 0 <= j < i ==> all@[j].path@ != path@,
                forall|f: FileV|
                    files_view(all@).contains(f) <==> exists|k: Seq<char>|
                        #[trigger] self@.contains_key(k) && self@[k].contains(f),
            decreases all@.len() - i,
        {
            if all[i].path == *path {
                proof {
                    assert(files_view(all@)[i as int] == (path@, all@[i as int].mtime));
                    let f = (path@, all@[i as int].mtime);
                    assert(files_view(all@).contains(f));
                    let k = choose|k: Seq<char>| #[trigger] self@.contains_key(k) && self@[k].contains(f);
                    assert(self@.contains_key(k) && self@[k].contains(f));
                }
                return Some(all[i].mtime);
            }
            i = i + 1;
        }
        proof {
            assert forall|k: Seq<char>, m: u64| self@.contains_key(k) implies !#[trigger] self@[k].contains((path@, m)) by {
                if self@[k].contains((path@, m)) {
                    assert(files_view(all@).contains((path@, m)));
                    let j = choose|j: int| 0 <= j < all@.len() && files_view(all@)[j] == (path@, m);
                    assert(all@[j].path@ == path@);
                }
            }
        }
        None
    }
}

/// Whether a path needs its triggers run again: it is unknown to the store,
/// or its modification time changed.
pub fn is_stale(stored: Option<u64>, current: u64) -> (r: bool)
    ensures
        r == (stored != Some(current)),
{
    match stored {
        Some(m) => m != current,
        None => true,
    }
}

/// A path that its file line carries back unchanged: no line break, no `:`,
/// and no leading tab.
pub open spec fn plain_path(p: Seq<char>) -> bool {
    &&& forall|i: int| 0 <= i < p.len() ==> #[trigger] p[i] != '\n' && p[i] != ':'
    &&& p.len() == 0 || p[0] != '\t'
}

/// A trigger name that its name line carries back unchanged: no line break,
/// no leading tab, no trailing whitespace.
pub open spec fn plain_name(n: Seq<char>) -> bool {
    &&& forall|i: int| 0 <= i < n.len() ==> #[trigger] n[i] != '\n'
    &&& n.len() == 0 || (n[0] != '\t' && !is_space(n.last()))
}

/// A saved file line reads back as the file it was made from.
pub proof fn lemma_file_line_round_trip(f: FileV)
    requires
        plain_path(f.0),
    ensures
        file_of_line(file_text(f)) == Ok::<FileV, DbError>(f),
        file_text(f).len() > 0,
        file_text(f)[0] == '\t',
{
    let dec = decimal(f.1 as nat);
    lemma_decimal(f.1 as nat);
    lemma_decimal_chars(f.1 as nat);
    let t = file_text(f);
    let u = seq!['\t'] + f.0 + seq![':'] + dec;
    assert(t =~= u.push('\n'));
    assert(t.drop_last() =~= u);
    assert(u.last() == dec[dec.len() - 1]);
    assert(trimmed_len(u) == u.len());
    assert(trimmed_len(t) == u.len());
    assert(trim_end(t) =~= u);
    let b = f.0 + seq![':'] + dec;
    assert(u.skip(1) =~= b);
    if f.0.len() > 0 {
        assert(b[0] == f.0[0]);
    }
    assert(tab_count(b) == 0);
    assert(tab_count(u) == 1);
    assert(entry_body(t) =~= b);
    assert forall|k: int| 0 <= k < f.0.len() implies b[k] != ':' by {
        assert(b[k] == f.0[k]);
    }
    lemma_first_colon(b, f.0.len() as int);
    assert(b.skip(f.0.len() + 1 as int) =~= dec);
    assert(unsigned_part(dec) == dec);
    assert(parse_u64(dec) == Some(f.1));
    assert(b.take(f.0.len() as int) =~= f.0);
}

/// The lines of one record: none for an empty file set, else its name line
/// and one line per file.
pub open spec fn record_lines(e: EntryV) -> Seq<Seq<char>> {
    if e.1.len() == 0 {
        Seq::empty()
    } else {
        seq![e.0 + seq!['\n']] + e.1.map_values(|f: FileV| file_text(f))
    }
}

pub open spec fn records_lines(rs: Seq<EntryV>) -> Seq<Seq<char>>
    decreases rs.len(),
{
    if rs.len() == 0 {
        Seq::empty()
    } else {
        records_lines(rs.drop_last()) + record_lines(rs.last())
    }
}

/// The triggers of `m` whose file set is not empty.
pub open spec fn without_empty(m: Map<Seq<char>, Seq<FileV>>) -> Map<Seq<char>, Seq<FileV>> {
    Map::new(|k: Seq<char>| m.contains_key(k) && m[k].len() > 0, |k: Seq<char>| m[k])
}

proof fn lemma_load_files(
    pre: Seq<Seq<char>>,
    m: Map<Seq<char>, Set<FileV>>,
    name: Seq<char>,
    fs: Seq<FileV>,
    j: int,
)
    requires
        load_lines(pre) == Ok::<(Map<Seq<char>, Set<FileV>>, Option<Seq<char>>), DbError>((m, Some(name))),
        m.contains_key(name),
        m[name] == Set::<FileV>::empty(),
        is_file_set(fs),
        forall|i: int| 0 <= i < fs.len() ==> plain_path(#[trigger] fs[i].0),
        0 <= j <= fs.len(),
    ensures
        load_lines(pre + fs.take(j).map_values(|f: FileV| file_text(f))) == Ok::<
            (Map<Seq<char>, Set<FileV>>, Option<Seq<char>>),
            DbError,
        >((m.insert(name, fs.take(j).to_set()), Some(name))),
    decreases j,
{
    let g = |f: FileV| file_text(f);
    if j == 0 {
        assert(pre + fs.take(0).map_values(g) =~= pre);
        assert(fs.take(0).to_set() =~= Set::<FileV>::empty());
        assert(m.insert(name, Set::<FileV>::empty()) =~= m);
    } else {
        lemma_load_files(pre, m, name, fs, j - 1);
        let ls = pre + fs.take(j).map_values(g);
        assert(ls.drop_last() =~= pre + fs.take(j - 1).map_values(g));
        let f = fs[j - 1];
        assert(ls.last() == file_text(f));
        lemma_file_line_round_trip(f);
        let s0 = fs.take(j - 1).to_set();
        assert(!(exists|h: FileV| s0.contains(h) && h.0 == f.0)) by {
            if exists|h: FileV| s0.contains(h) && h.0 == f.0 {
                let h = choose|h: FileV| s0.contains(h) && h.0 == f.0;
                let t = fs.take(j - 1);
                let k = choose|k: int| 0 <= k < t.len() && t[k] == h;
                assert(fs[k] == h);
                crate::paths::lemma_file_set_unique(fs, k, j - 1);
            }
        }
        assert(fs.take(j).to_set() =~= s0.insert(f)) by {
            assert(fs.take(j) =~= fs.take(j - 1).push(f));
            fs.take(j - 1).lemma_push_to_set_commute(f);
        }
        assert(m.insert(name, s0).insert(name, s0.insert(f)) =~= m.insert(name, fs.take(j).to_set()));
    }
}

/// Records whose names and paths their lines carry back unchanged.
pub open spec fn plain_records(rs: Seq<EntryV>) -> bool {
    forall|i: int|
        0 <= i < rs.len() ==> plain_name(#[trigger] rs[i].0) && forall|k: int|
            0 <= k < rs[i].1.len() ==> plain_path(#[trigger] rs[i].1[k].0)
}

proof fn lemma_plain_prefix(rs: Seq<EntryV>)
    requires
        rs.len() > 0,
        plain_records(rs),
    ensures
        plain_records(rs.drop_last()),
{
    let r0 = rs.drop_last();
    assert forall|i: int| 0 <= i < r0.len() implies plain_name(#[trigger] r0[i].0) && forall|k: int|
        0 <= k < r0[i].1.len() ==> plain_path(#[trigger] r0[i].1[k].0) by {
        assert(r0[i] == rs[i]);
        assert(plain_name(rs[i].0));
        assert forall|k: int| 0 <= k < r0[i].1.len() implies plain_path(#[trigger] r0[i].1[k].0) by {
            assert(plain_path(rs[i].1[k].0));
        }
    }
}

proof fn lemma_load_records(rs: Seq<EntryV>)
    requires
        unique_names(rs),
        forall|i: int| 0 <= i < rs.len() ==> is_file_set(#[trigger] rs[i].1),
        plain_records(rs),
    ensures
        load_lines(records_lines(rs)) is Ok,
        forall|k: Seq<char>|
            #[trigger] load_lines(records_lines(rs))->Ok_0.0.contains_key(k) <==> exists|i: int|
                0 <= i < rs.len() && rs[i].0 == k && rs[i].1.len() > 0,
        forall|i: int|
            0 <= i < rs.len() && rs[i].1.len() > 0 ==> load_lines(records_lines(rs))->Ok_0.0[#[trigger] rs[i].0]
                == rs[i].1.to_set(),
    decreases rs.len(),
{
    if rs.len() > 0 {
        let r0 = rs.drop_last();
        assert forall|i: int| 0 <= i < r0.len() implies #[trigger] r0[i] == rs[i] by {}
        lemma_plain_prefix(rs);
        lemma_load_records(r0);
        let e = rs.last();
        let l0 = records_lines(r0);
        let m0 = load_lines(l0)->Ok_0.0;
        assert(rs[rs.len() - 1] == e);
        if e.1.len() == 0 {
            assert(records_lines(rs) =~= l0);
            assert forall|k: Seq<char>|
                #[trigger] load_lines(records_lines(rs))->Ok_0.0.contains_key(k) <==> exists|i: int|
                    0 <= i < rs.len() && rs[i].0 == k && rs[i].1.len() > 0 by {
                if exists|i: int| 0 <= i < rs.len() && rs[i].0 == k && rs[i].1.len() > 0 {
                    let i = choose|i: int| 0 <= i < rs.len() && rs[i].0 == k && rs[i].1.len() > 0;
                    assert(r0[i] == rs[i]);
                }
                if m0.contains_key(k) {
                    let i = choose|i: int| 0 <= i < r0.len() && r0[i].0 == k && r0[i].1.len() > 0;
                    assert(r0[i] == rs[i]);
                }
            }
            assert forall|i: int|
                0 <= i < rs.len() && rs[i].1.len() > 0 implies load_lines(records_lines(rs))->Ok_0.0[#[trigger] rs[i].0]
                    == rs[i].1.to_set() by {
                assert(r0[i] == rs[i]);
            }
        } else {
            let name = e.0;
            let fs = e.1;
            let g = |f: FileV| file_text(f);
            let nl = name + seq!['\n'];
            let pre = l0.push(nl);
            assert(!m0.contains_key(name)) by {
                if m0.contains_key(name) {
                    let i = choose|i: int| 0 <= i < r0.len() && r0[i].0 == name && r0[i].1.len() > 0;
                    assert(rs[i].0 == rs[rs.len() - 1].0);
                }
            }
            assert(plain_name(rs[rs.len() - 1].0));
            if name.len() > 0 {
                assert(nl[0] == name[0]);
            }
            assert(nl.drop_last() =~= name);
            assert(trimmed_len(name) == name.len());
            assert(trim_end(nl) =~= name);
            assert(pre.drop_last() =~= l0);
            let m1 = m0.insert(name, Set::<FileV>::empty());
            assert(load_lines(pre) == Ok::<(Map<Seq<char>, Set<FileV>>, Option<Seq<char>>), DbError>((m1, Some(name))));
            assert forall|i: int| 0 <= i < fs.len() implies plain_path(#[trigger] fs[i].0) by {
                assert(plain_records(rs));
                assert(rs[rs.len() - 1].1 == fs);
            }
            assert(is_file_set(rs[rs.len() - 1].1));
            lemma_load_files(pre, m1, name, fs, fs.len() as int);
            assert(fs.take(fs.len() as int) =~= fs);
            assert(records_lines(rs) =~= pre + fs.map_values(g));
            let m2 = m1.insert(name, fs.to_set());
            assert forall|k: Seq<char>|
                #[trigger] load_lines(records_lines(rs))->Ok_0.0.contains_key(k) <==> exists|i: int|
                    0 <= i < rs.len() && rs[i].0 == k && rs[i].1.len() > 0 by {
                if exists|i: int| 0 <= i < rs.len() && rs[i].0 == k && rs[i].1.len() > 0 {
                    let i = choose|i: int| 0 <= i < rs.len() && rs[i].0 == k && rs[i].1.len() > 0;
                    if i < r0.len() {
                        assert(r0[i] == rs[i]);
                    }
                }
                if m2.contains_key(k) && k != name {
                    let i = choose|i: int| 0 <= i < r0.len() && r0[i].0 == k && r0[i].1.len() > 0;
                    assert(r0[i] == rs[i]);
                }
                if k == name {
                    assert(rs[rs.len() - 1].0 == k);
                }
            }
            assert forall|i: int|
                0 <= i < rs.len() && rs[i].1.len() > 0 implies load_lines(records_lines(rs))->Ok_0.0[#[trigger] rs[i].0]
                    == rs[i].1.to_set() by {
                if i < r0.len() {
                    assert(r0[i] == rs[i]);
                    assert(rs[i].0 != name);
                }
            }
        }
    }
}

proof fn lemma_files_text_lines(fs: Seq<FileV>)
    ensures
        files_text(fs) == fs.map_values(|f: FileV| file_text(f)).flatten(),
    decreases fs.len(),
{
    let g = |f: FileV| file_text(f);
    if fs.len() > 0 {
        lemma_files_text_lines(fs.drop_last());
        assert(fs.map_values(g) =~= fs.drop_last().map_values(g).push(file_text(fs.last())));
        fs.drop_last().map_values(g).lemma_flatten_push(file_text(fs.last()));
    } else {
        assert(fs.map_values(g) =~= Seq::<Seq<char>>::empty());
    }
}

/// The text of the records is their lines, one after the other.
proof fn lemma_records_text_lines(rs: Seq<EntryV>)
    ensures
        records_text(rs) == records_lines(rs).flatten(),
    decreases rs.len(),
{
    if rs.len() > 0 {
        let r0 = rs.drop_last();
        let e = rs.last();
        lemma_records_text_lines(r0);
        vstd::seq_lib::lemma_flatten_concat(records_lines(r0), record_lines(e));
        if e.1.len() == 0 {
            assert(record_lines(e) =~= Seq::<Seq<char>>::empty());
            assert(records_lines(rs) =~= records_lines(r0));
        } else {
            let g = |f: FileV| file_text(f);
            lemma_files_text_lines(e.1);
            let nl = e.0 + seq!['\n'];
            vstd::seq_lib::lemma_flatten_concat(seq![nl], e.1.map_values(g));
            seq![nl].lemma_flatten_singleton();
            assert(seq![nl].flatten() =~= nl);
            assert(records_text(rs) =~= records_text(r0) + nl + files_text(e.1));
        }
    }
}

/// Each line of plain records ends with its one line break.
proof fn lemma_records_line_shape(rs: Seq<EntryV>)
    requires
        plain_records(rs),
    ensures
        forall|i: int|
            0 <= i < records_lines(rs).len() ==> #[trigger] records_lines(rs)[i].len() > 0
                && records_lines(rs)[i].last() == '\n' && forall|j: int|
                0 <= j < records_lines(rs)[i].len() - 1 ==> records_lines(rs)[i][j] != '\n',
    decreases rs.len(),
{
    if rs.len() > 0 {
        let r0 = rs.drop_last();
        assert forall|i: int| 0 <= i < r0.len() implies #[trigger] r0[i] == rs[i] by {}
        lemma_plain_prefix(rs);
        lemma_records_line_shape(r0);
        let e = rs.last();
        assert(rs[rs.len() - 1] == e);
        let ls = records_lines(rs);
        let l0 = records_lines(r0);
        assert forall|i: int| 0 <= i < ls.len() implies #[trigger] ls[i].len() > 0 && ls[i].last() == '\n'
            && forall|j: int| 0 <= j < ls[i].len() - 1 ==> ls[i][j] != '\n' by {
            if i < l0.len() {
                assert(ls[i] == l0[i]);
            } else {
                let r = record_lines(e);
                assert(ls[i] == r[i - l0.len()]);
                let k = i - l0.len();
                if k == 0 {
                    assert(r[0] == e.0 + seq!['\n']);
                    assert(plain_name(e.0));
                    assert forall|j: int| 0 <= j < r[0].len() - 1 implies r[0][j] != '\n' by {
                        assert(r[0][j] == e.0[j]);
                    }
                } else {
                    let f = e.1[k - 1];
                    assert(r[k] == file_text(f));
                    assert(plain_path(e.1[k - 1].0));
                    lemma_decimal_chars(f.1 as nat);
                    let t = file_text(f);
                    assert forall|j: int| 0 <= j < t.len() - 1 implies t[j] != '\n' by {
                        if 1 <= j < 1 + f.0.len() {
                            assert(t[j] == f.0[j - 1]);
                        } else if j > 1 + f.0.len() {
                            assert(t[j] == decimal(f.1 as nat)[j - 2 - f.0.len()]);
                        }
                    }
                }
            }
        }
    }
}

impl PathDb {
    /// Round trip of the text form: the text that `save` returns
    /// (`records_text`), cut into lines as reading it line by line does
    /// (`split_lines`), is what `open` reads (`load_lines`) as a mapping with
    /// exactly the triggers that hold files, each with the same files;
    /// triggers whose file set is empty are not saved. This holds for names
    /// and paths that their lines carry unchanged.
    pub proof fn lemma_save_open_round_trip(&self)
        requires
            self.wf(),
            forall|k: Seq<char>|
                #[trigger] self@.contains_key(k) ==> plain_name(k) && forall|i: int|
                    0 <= i < self@[k].len() ==> plain_path(#[trigger] self@[k][i].0),
        ensures
            records_text(self.records()) == records_lines(self.records()).flatten(),
            split_lines(records_text(self.records())) == records_lines(self.records()),
            forall|i: int|
                0 <= i < records_lines(self.records()).len() ==> #[trigger] records_lines(
                    self.records(),
                )[i].len() > 0 && records_lines(self.records())[i].last() == '\n' && forall|j: int|
                    0 <= j < records_lines(self.records())[i].len() - 1 ==> records_lines(
                        self.records(),
                    )[i][j] != '\n',
            load_lines(records_lines(self.records())) is Ok,
            holds_sets(without_empty(self@), load_lines(records_lines(self.records()))->Ok_0.0),
            load_lines(split_lines(records_text(self.records()))) is Ok,
            holds_sets(
                without_empty(self@),
                load_lines(split_lines(records_text(self.records())))->Ok_0.0,
            ),
    {
        let rs = self.records();
        lemma_records_text_lines(rs);
        self.lemma_wf();
        lemma_entry_map(rs);
        assert forall|i: int| 0 <= i < rs.len() implies is_file_set(#[trigger] rs[i].1) by {}
        assert(plain_records(rs)) by {
            assert forall|i: int| 0 <= i < rs.len() implies plain_name(#[trigger] rs[i].0) && forall|k: int|
                0 <= k < rs[i].1.len() ==> plain_path(#[trigger] rs[i].1[k].0) by {
                assert(self@.contains_key(rs[i].0));
                assert(self@[rs[i].0] == rs[i].1);
            }
        }
        lemma_load_records(rs);
        lemma_records_line_shape(rs);
        lemma_split_joined_lines(records_lines(rs));
        let m = load_lines(records_lines(rs))->Ok_0.0;
        let w = without_empty(self@);
        assert(w.dom() =~= m.dom()) by {
            assert forall|k: Seq<char>| w.contains_key(k) implies m.contains_key(k) by {
                let i = choose|i: int| 0 <= i < rs.len() && rs[i].0 == k;
                assert(self@[rs[i].0] == rs[i].1);
            }
            assert forall|k: Seq<char>| m.contains_key(k) implies w.contains_key(k) by {
                let i = choose|i: int| 0 <= i < rs.len() && rs[i].0 == k && rs[i].1.len() > 0;
                assert(self@[rs[i].0] == rs[i].1);
            }
        }
        assert forall|k: Seq<char>| #[trigger] w.contains_key(k) implies w[k].to_set() == m[k] by {
            let i = choose|i: int| 0 <= i < rs.len() && rs[i].0 == k;
            assert(self@[rs[i].0] == rs[i].1);
        }
    }
}

impl File {
    /// Reads a file from `<path>:<mtime>`, as the text stands: the path ends
    /// at the first `:`, and the rest must be a modification time.
    pub fn deserialize(text: &str) -> (r: Result<File, DbError>)
        ensures
            match r {
                Ok(f) => file_of_text(text@) == Ok::<FileV, DbError>(f@),
                Err(e) => file_of_text(text@) == Err::<FileV, DbError>(e),
            },
    {
        read_file_text(text)
    }

    /// What `serialize` appends reads back, by `deserialize`, as the same
    /// file, for a path without `:`.
    pub proof fn lemma_serialize_deserialize(f: FileV)
        requires
            forall|i: int| 0 <= i < f.0.len() ==> #[trigger] f.0[i] != ':',
        ensures
            file_of_text(f.0 + seq![':'] + decimal(f.1 as nat)) == Ok::<FileV, DbError>(f),
    {
        let dec = decimal(f.1 as nat);
        lemma_decimal(f.1 as nat);
        lemma_decimal_chars(f.1 as nat);
        let b = f.0 + seq![':'] + dec;
        assert forall|k: int| 0 <= k < f.0.len() implies b[k] != ':' by {
            assert(b[k] == f.0[k]);
        }
        lemma_first_colon(b, f.0.len() as int);
        assert(b.skip(f.0.len() + 1 as int) =~= dec);
        assert(unsigned_part(dec) == dec);
        assert(b.take(f.0.len() as int) =~= f.0);
    }

    /// Appends `<path>:<mtime>` to `buf`.
    pub fn serialize(&self, buf: &mut String)
        ensures
            final(buf)@ == old(buf)@ + self.path@ + seq![':'] + decimal(self.mtime as nat),
    {
        buf.append(self.path.as_str());
        proof {
            reveal_strlit(":");
        }
        buf.append(":");
        push_decimal(buf, self.mtime);
        proof {
            assert(buf@ =~= old(buf)@ + self.path@ + seq![':'] + decimal(self.mtime as nat));
        }
    }
}

} // verus!
