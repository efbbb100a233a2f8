//! A flat store of paths and their modification times, with no grouping by
//! trigger.
use crate::store::{entry_map, lemma_entry_map, unique_names};
use vstd::prelude::*;

verus! {

/// One path with its modification time.
#[derive(Clone, Debug)]
pub struct PathTime {
    pub path: String,
    pub mtime: i64,
}

pub open spec fn path_times_view(s: Seq<PathTime>) -> Seq<(Seq<char>, i64)> {
    s.map_values(|e: PathTime| (e.path@, e.mtime))
}

pub open spec fn pairs_view(v: Seq<(String, i64)>) -> Seq<(Seq<char>, i64)> {
    v.map_values(|e: (String, i64)| (e.0@, e.1))
}

/// The (path, mtime) pairs that bincode reads from `bytes`, if it reads any.
pub uninterp spec fn bincode_entries(bytes: Seq<u8>) -> Option<Seq<(Seq<char>, i64)>>;

/// The bytes that bincode writes for a sequence of (path, mtime) pairs.
pub uninterp spec fn bincode_bytes(entries: Seq<(Seq<char>, i64)>) -> Seq<u8>;

/// Relies on `bincode::deserialize` (fixed-width integers, trailing bytes
/// allowed), read as a sequence of (path, mtime) pairs, the layout bincode
/// also gives a map: the result depends on the bytes alone.
#[verifier::external_body]
fn decode_entries(bytes: &[u8]) -> (r: Option<Vec<(String, i64)>>)
    ensures
        match r {
            Some(v) => bincode_entries(bytes@) == Some(pairs_view(v@)),
            None => bincode_entries(bytes@) is None,
        },
{
    bincode::deserialize::<Vec<(String, i64)>>(bytes).ok()
}

/// Relies on `bincode::serialize`: the bytes depend on the pairs alone, and
/// for a vector of pairs it does not fail (the default options set no size
/// limit, a vector always gives its length, and writing into a `Vec<u8>`
/// cannot fail).
#[verifier::external_body]
fn encode_entries(entries: &Vec<(String, i64)>) -> (r: Option<Vec<u8>>)
    ensures
        r is Some,
        match r {
            Some(b) => b@ == bincode_bytes(pairs_view(entries@)),
            None => true,
        },
{
    bincode::serialize(entries).ok()
}

/// The modification time of each known path.
#[derive(Debug)]
pub struct PathTimes {
    map: Vec<PathTime>,
}

impl View for PathTimes {
    type V = Map<Seq<char>, i64>;

    closed spec fn view(&self) -> Map<Seq<char>, i64> {
        entry_map(path_times_view(self.map@))
    }
}

impl PathTimes {
    /// Paths are unique.
    pub closed spec fn wf(&self) -> bool {
        unique_names(path_times_view(self.map@))
    }

    /// An empty store.
    pub fn empty() -> (r: PathTimes)
        ensures
            r.wf(),
            r@ == Map::<Seq<char>, i64>::empty(),
    {
        let r = PathTimes { map: Vec::new() };
        proof {
            assert(path_times_view(r.map@) =~= Seq::empty());
        }
        r
    }

    /// The store holding `entries`, a later entry for a path replacing an earlier one.
    pub fn from_entries(entries: Vec<PathTime>) -> (r: PathTimes)
        ensures
            r.wf(),
            r@ == entry_map(path_times_view(entries@)),
    {
        let mut r = PathTimes::empty();
        let mut i: usize = 0;
        while i < entries.len()
            invariant
                i <= entries@.len(),
                r.wf(),
                r@ == entry_map(path_times_view(entries@).subrange(0, i as int)),
            decreases entries@.len() - i,
        {
            proof {
                let s = path_times_view(entries@);
                assert(s.subrange(0, i + 1).drop_last() =~= s.subrange(0, i as int));
            }
            r.update(entries[i].path.clone(), entries[i].mtime);
            i = i + 1;
        }
        proof {
            let s = path_times_view(entries@);
            assert(s.subrange(0, s.len() as int) =~= s);
        }
        r
    }

    fn position(&self, path: &String) -> (r: Option<usize>)
        ensures
            match r {
                Some(i) => i < self.map@.len() && self.map@[i as int].path@ == path@,
                None => forall|k: int| 0 <= k < self.map@.len() ==> self.map@[k].path@ != path@,
            },
    {
        let mut i: usize = 0;
        while i < self.map.len()
            invariant
                i <= self.map@.len(),
                forall|k: int| 0 <= k < i ==> self.map@[k].path@ != path@,
            decreases self.map@.len() - i,
        {
            if self.map[i].path == *path {
                return Some(i);
            }
            i = i + 1;
        }
        None
    }

    /// Records `mtime` for `path`.
    pub fn update(&mut self, path: String, mtime: i64)
        requires
            old(self).wf(),
        ensures
            final(self).wf(),
            final(self)@ == old(self)@.insert(path@, mtime),
    {
        let ghost s0 = path_times_view(self.map@);
        let ghost key = path@;
        proof {
            lemma_entry_map(s0);
        }
        match self.position(&path) {
            Some(i) => {
                self.map.set(i, PathTime { path, mtime });
                proof {
                    let s1 = path_times_view(self.map@);
                    assert(s1 =~= s0.update(i as int, (key, mtime)));
                    assert(unique_names(s1)) by {
                        assert forall|a: int, b: int|
                            0 <= a < s1.len() && 0 <= b < s1.len() && a != b implies s1[a].0
                            != s1[b].0 by {
                            assert(s1[a].0 == s0[a].0 && s1[b].0 == s0[b].0);
                        }
                    }
                    lemma_entry_map(s1);
                    assert(entry_map(s1) =~= entry_map(s0).insert(key, mtime)) by {
                        assert forall|k: Seq<char>| entry_map(s1).contains_key(k) implies entry_map(
                            s1,
                        )[k] == entry_map(s0).insert(key, mtime)[k] by {
                            let j = choose|j: int| 0 <= j < s1.len() && s1[j].0 == k;
                            assert(entry_map(s1)[s1[j].0] == s1[j].1);
                            if j == i {
                                assert(s1[j] == (key, mtime));
                            } else {
                                assert(s0[j].0 != s0[i as int].0);
                                assert(s0[j] == s1[j]);
                                assert(entry_map(s0)[s0[j].0] == s0[j].1);
                            }
                        }
                        assert forall|k: Seq<char>| entry_map(s0).insert(key, mtime).contains_key(
                            k,
                        ) implies entry_map(s1).contains_key(k) by {
                            if k != key {
                                let j = choose|j: int| 0 <= j < s0.len() && s0[j].0 == k;
                                assert(s1[j].0 == k);
                            } else {
                                assert(s1[i as int].0 == k);
                            }
                        }
                    }
                }
            },
            None => {
                self.map.push(PathTime { path, mtime });
                proof {
                    let s1 = path_times_view(self.map@);
                    assert(s1 =~= s0.push((key, mtime)));
                    assert(s1.drop_last() =~= s0);
                    assert(forall|k: int| 0 <= k < s0.len() ==> s0[k].0 != key);
                }
            },
        }
    }

    /// The modification time recorded for `path`.
    pub fn get(&self, path: &String) -> (r: Option<i64>)
        requires
            self.wf(),
        ensures
            r == if self@.contains_key(path@) {
                Some(self@[path@])
            } else {
                None
            },
    {
        let ghost s = path_times_view(self.map@);
        proof {
            lemma_entry_map(s);
        }
        match self.position(path) {
            Some(i) => {
                proof {
                    assert(s[i as int].0 == path@);
                }
                Some(self.map[i].mtime)
            },
            None => {
                proof {
                    assert(forall|k: int| 0 <= k < s.len() ==> s[k].0 != path@);
                }
                None
            },
        }
    }

    /// Every entry of the store.
    pub fn entries(&self) -> (r: Vec<PathTime>)
        requires
            self.wf(),
        ensures
            entry_map(path_times_view(r@)) == self@,
            unique_names(path_times_view(r@)),
    {
        let mut r: Vec<PathTime> = Vec::new();
        let mut i: usize = 0;
        while i < self.map.len()
            invariant
                i <= self.map@.len(),
                path_times_view(r@) =~= path_times_view(self.map@).subrange(0, i as int),
            decreases self.map@.len() - i,
        {
            let ghost prev = path_times_view(r@);
            r.push(PathTime { path: self.map[i].path.clone(), mtime: self.map[i].mtime });
            proof {
                assert(path_times_view(r@) =~= prev.push(path_times_view(self.map@)[i as int]));
            }
            i = i + 1;
        }
        proof {
            assert(path_times_view(self.map@).subrange(0, self.map@.len() as int) =~= path_times_view(self.map@));
        }
        r
    }
}

impl PathTimes {
    /// The entries of the store, in their order.
    pub closed spec fn records(&self) -> Seq<(Seq<char>, i64)> {
        path_times_view(self.map@)
    }

    /// The entries stand for the mapping, with unique paths.
    pub proof fn lemma_records(&self)
        requires
            self.wf(),
        ensures
            unique_names(self.records()),
            self@ == entry_map(self.records()),
    {
    }

    /// Reads a store from its binary form: (path, mtime) pairs as bincode
    /// writes them, a later pair for a path replacing an earlier one.
    pub fn new(source: &[u8]) -> (r: Option<PathTimes>)
        ensures
            r is Some <==> bincode_entries(source@) is Some,
            match r {
                Some(p) => p.wf() && p@ == entry_map(bincode_entries(source@)->Some_0),
                None => true,
            },
    {
        let pairs = match decode_entries(source) {
            Some(v) => v,
            None => {
                return None;
            },
        };
        let mut entries: Vec<PathTime> = Vec::new();
        let mut i: usize = 0;
        while i < pairs.len()
            invariant
                i <= pairs@.len(),
                path_times_view(entries@) =~= pairs_view(pairs@).subrange(0, i as int),
            decreases pairs@.len() - i,
        {
            let ghost prev = path_times_view(entries@);
            entries.push(PathTime { path: pairs[i].0.clone(), mtime: pairs[i].1 });
            proof {
                assert(path_times_view(entries@) =~= prev.push(pairs_view(pairs@)[i as int]));
            }
            i = i + 1;
        }
        proof {
            assert(pairs_view(pairs@).subrange(0, pairs@.len() as int) =~= pairs_view(pairs@));
        }
        Some(PathTimes::from_entries(entries))
    }

    /// The binary form of the store: its (path, mtime) pairs as bincode
    /// writes them.
    pub fn save(&self) -> (r: Vec<u8>)
        ensures
            r@ == bincode_bytes(self.records()),
    {
        let mut pairs: Vec<(String, i64)> = Vec::new();
        let mut i: usize = 0;
        while i < self.map.len()
            invariant
                i <= self.map@.len(),
                pairs_view(pairs@) =~= path_times_view(self.map@).subrange(0, i as int),
            decreases self.map@.len() - i,
        {
            let ghost prev = pairs_view(pairs@);
            pairs.push((self.map[i].path.clone(), self.map[i].mtime));
            proof {
                assert(pairs_view(pairs@) =~= prev.push(path_times_view(self.map@)[i as int]));
            }
            i = i + 1;
        }
        proof {
            assert(path_times_view(self.map@).subrange(0, self.map@.len() as int) =~= path_times_view(self.map@));
        }
        match encode_entries(&pairs) {
            Some(b) => b,
            None => {
                proof {
                    assert(false);
                }
                Vec::new()
            },
        }
    }
}

} // verus!
