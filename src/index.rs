//! The content index: for each path, the hash of the bytes it currently
//! holds, with a per-hash path count so that "is this content held twice?"
//! is a single map lookup.

use std::collections::HashMap;
use vstd::prelude::*;

verus! {

broadcast use vstd::std_specs::hash::group_hash_axioms;

/// The paths that currently hold content `hash`.
pub open spec fn paths_with(index: Map<Seq<char>, u64>, hash: u64) -> Set<Seq<char>> {
    index.dom().filter(|p: Seq<char>| index[p] == hash)
}

/// Content `hash` is held by two or more distinct paths.
pub open spec fn has_duplicate(index: Map<Seq<char>, u64>, hash: u64) -> bool {
    paths_with(index, hash).len() >= 2
}

/// The text of each string, in order.
pub open spec fn texts(v: Seq<String>) -> Seq<Seq<char>> {
    v.map_values(|s: String| s@)
}

/// `s` lists each member of `members` exactly once, and nothing else.
pub open spec fn lists_exactly(s: Seq<Seq<char>>, members: Set<Seq<char>>) -> bool {
    &&& s.no_duplicates()
    &&& forall|q: Seq<char>| #[trigger] s.contains(q) <==> members.contains(q)
}

/// `rows` holds one `(hash, path)` row for each path of `index`, and no other.
pub open spec fn rows_of(rows: Seq<(u64, String)>, index: Map<Seq<char>, u64>) -> bool {
    &&& rows.len() == index.dom().len()
    &&& forall|k: int|
        0 <= k < rows.len() ==> index.contains_key(#[trigger] rows[k].1@) && index[rows[k].1@]
            == rows[k].0
    &&& forall|k: int, l: int| 0 <= k < l < rows.len() ==> rows[k].1@ != rows[l].1@
}

/// What a sequence holds after one more element is pushed.
pub proof fn lemma_push_contains<A>(s: Seq<A>, x: A)
    ensures
        forall|p: A| #[trigger] s.push(x).contains(p) <==> s.contains(p) || p == x,
{
    assert forall|p: A| #[trigger] s.push(x).contains(p) <==> s.contains(p) || p == x by {
        if s.contains(p) {
            let k = choose|k: int| 0 <= k < s.len() && s[k] == p;
            assert(s.push(x)[k] == p);
        }
        if p == x {
            assert(s.push(x)[s.len() as int] == p);
        }
        if s.push(x).contains(p) && p != x {
            let k = choose|k: int| 0 <= k < s.len() + 1 && s.push(x)[k] == p;
            assert(s[k] == p);
        }
    }
}

/// `rows` holds one `(hash, path)` row for each path whose hash is held by
/// another path too, and no other.
pub open spec fn duplicate_rows(rows: Seq<(u64, String)>, index: Map<Seq<char>, u64>) -> bool {
    &&& forall|k: int|
        0 <= k < rows.len() ==> index.contains_key(#[trigger] rows[k].1@) && index[rows[k].1@]
            == rows[k].0 && has_duplicate(index, rows[k].0)
    &&& forall|k: int, l: int| 0 <= k < l < rows.len() ==> rows[k].1@ != rows[l].1@
    &&& forall|p: Seq<char>|
        #[trigger] index.contains_key(p) && has_duplicate(index, index[p]) ==> exists|k: int|
            0 <= k < rows.len() && rows[k].1@ == p
}

/// Whether `s` is among the strings of `v`.
pub(crate) fn contains_text(v: &Vec<String>, s: &String) -> (r: bool)
    ensures
        r == texts(v@).contains(s@),
{
    let mut i: usize = 0;
    while i < v.len()
        invariant
            i <= v@.len(),
            forall|k: int| 0 <= k < i ==> texts(v@)[k] != s@,
        decreases v@.len() - i,
    {
        if v[i] == *s {
            assert(texts(v@)[i as int] == s@);
            return true;
        }
        i = i + 1;
    }
    false
}

spec fn count_in(counts: Map<u64, usize>, hash: u64) -> nat {
    if counts.contains_key(hash) {
        counts[hash] as nat
    } else {
        0
    }
}

/// Each path's current content hash. A path has at most one entry: adding
/// a path again replaces its previous hash.
pub struct DuplicateDatabase {
    entries: Vec<(String, u64)>,
    counts: HashMap<u64, usize>,
    model: Ghost<Map<Seq<char>, u64>>,
}

impl View for DuplicateDatabase {
    type V = Map<Seq<char>, u64>;

    closed spec fn view(&self) -> Map<Seq<char>, u64> {
        self.model@
    }
}

/// Removing or re-hashing one path changes the path sets of the hashes
/// involved by that one path, and leaves the others as they were.
proof fn lemma_paths_after_insert(m: Map<Seq<char>, u64>, p: Seq<char>, h: u64)
    requires
        m.dom().finite(),
    ensures
        forall|h2: u64|
            #[trigger] paths_with(m.insert(p, h), h2) == if h2 == h {
                paths_with(m, h2).insert(p)
            } else {
                paths_with(m, h2).remove(p)
            },
{
    assert forall|h2: u64| #[trigger]
        paths_with(m.insert(p, h), h2) == if h2 == h {
            paths_with(m, h2).insert(p)
        } else {
            paths_with(m, h2).remove(p)
        } by {
        if h2 == h {
            assert(paths_with(m.insert(p, h), h2) =~= paths_with(m, h2).insert(p));
        } else {
            assert(paths_with(m.insert(p, h), h2) =~= paths_with(m, h2).remove(p));
        }
    }
}

proof fn lemma_paths_after_remove(m: Map<Seq<char>, u64>, p: Seq<char>)
    requires
        m.dom().finite(),
    ensures
        forall|h2: u64| #[trigger] paths_with(m.remove(p), h2) == paths_with(m, h2).remove(p),
{
    assert forall|h2: u64| #[trigger]
        paths_with(m.remove(p), h2) == paths_with(m, h2).remove(p) by {
        assert(paths_with(m.remove(p), h2) =~= paths_with(m, h2).remove(p));
    }
}

proof fn lemma_paths_finite(m: Map<Seq<char>, u64>, h: u64)
    requires
        m.dom().finite(),
    ensures
        paths_with(m, h).finite(),
        paths_with(m, h).len() <= m.dom().len(),
{
    vstd::set_lib::lemma_len_subset(paths_with(m, h), m.dom());
}

impl DuplicateDatabase {
    pub closed spec fn wf(&self) -> bool {
        let m = self.model@;
        let e = self.entries@;
        &&& m.dom().finite()
        &&& m.dom().len() == e.len()
        &&& forall|i: int|
            0 <= i < e.len() ==> m.contains_key((#[trigger] e[i]).0@) && m[e[i].0@] == e[i].1
        &&& forall|p: Seq<char>| #[trigger]
            m.contains_key(p) ==> exists|i: int| 0 <= i < e.len() && (#[trigger] e[i]).0@ == p
        &&& forall|i: int, j: int| 0 <= i < j < e.len() ==> (#[trigger] e[i]).0@ != (#[trigger] e[j]).0@
        &&& forall|h: u64| #[trigger] count_in(self.counts@, h) == paths_with(m, h).len()
    }

    /// A well-formed index holds finitely many paths.
    pub proof fn lemma_finite(&self)
        requires
            self.wf(),
        ensures
            self@.dom().finite(),
    {
    }

    /// An empty index.
    pub fn new() -> (r: Self)
        ensures
            r.wf(),
            r@ == Map::<Seq<char>, u64>::empty(),
    {
        let r = DuplicateDatabase {
            entries: Vec::new(),
            counts: HashMap::new(),
            model: Ghost(Map::empty()),
        };
        proof {
            assert forall|h: u64| #[trigger] count_in(r.counts@, h) == paths_with(r.model@, h).len() by {
                assert(paths_with(r.model@, h) =~= Set::empty());
            }
        }
        r
    }

    fn position_of(&self, path: &String) -> (r: Option<usize>)
        requires
            self.wf(),
        ensures
            match r {
                Some(i) => i < self.entries@.len() && self.entries@[i as int].0@ == path@,
                None => !self@.contains_key(path@),
            },
    {
        let mut i: usize = 0;
        while i < self.entries.len()
            invariant
                self.wf(),
                i <= self.entries@.len(),
                forall|k: int| 0 <= k < i ==> (#[trigger] self.entries@[k]).0@ != path@,
            decreases self.entries@.len() - i,
        {
            if self.entries[i].0 == *path {
                return Some(i);
            }
            i = i + 1;
        }
        None
    }

    /// Records that `full_file_path` now holds content `hash`, replacing
    /// whatever hash it held before.
    pub fn add(&mut self, hash: u64, full_file_path: String)
        requires
            old(self).wf(),
        ensures
            final(self).wf(),
            final(self)@ == old(self)@.insert(full_file_path@, hash),
    {
        let ghost m = self.model@;
        let ghost p = full_file_path@;
        let ghost m2 = m.insert(p, hash);
        proof {
            lemma_paths_after_insert(m, p, hash);
            lemma_paths_finite(m, hash);
        }
        match self.position_of(&full_file_path) {
            Some(i) => {
                let previous = self.entries[i].1;
                if previous == hash {
                    proof {
                        assert(m2 =~= m);
                    }
                    return ;
                }
                proof {
                    lemma_paths_finite(m, previous);
                    assert(paths_with(m, previous).contains(p));
                    vstd::set::axiom_set_contains_len(paths_with(m, previous), p);
                    assert(count_in(self.counts@, previous) == paths_with(m, previous).len());
                    assert(count_in(self.counts@, hash) == paths_with(m, hash).len());
                    assert(!paths_with(m, hash).contains(p));
                    assert(m2.dom() =~= m.dom());
                    lemma_paths_finite(m2, hash);
                }
                self.entries.set(i, (full_file_path, hash));
                self.model = Ghost(m2);
                let dec = match self.counts.get(&previous) {
                    Some(c) => *c,
                    None => 0,
                };
                self.counts.insert(previous, dec - 1);
                let inc = match self.counts.get(&hash) {
                    Some(c) => *c,
                    None => 0,
                };
                let n = self.entries.len();
                assert(inc < n) by {
                    vstd::set_lib::lemma_len_subset(paths_with(m2, hash), m2.dom());
                    assert(paths_with(m2, hash) == paths_with(m, hash).insert(p));
                }
                self.counts.insert(hash, inc + 1);
                proof {
                    let e = self.entries@;
                    assert forall|q: Seq<char>| #[trigger] m2.contains_key(q) implies exists|k: int|
                        0 <= k < e.len() && (#[trigger] e[k]).0@ == q by {
                        assert(m.contains_key(q));
                        let k = choose|k: int| 0 <= k < e.len() && (#[trigger] old(self).entries@[k]).0@ == q;
                        if k == i {
                            assert(e[k].0@ == q);
                        } else {
                            assert(e[k] == old(self).entries@[k]);
                        }
                    }
                    assert forall|h: u64| #[trigger] count_in(self.counts@, h) == paths_with(m2, h).len() by {
                        lemma_paths_finite(m, h);
                        assert(count_in(old(self).counts@, h) == paths_with(m, h).len());
                    }
                }
            },
            None => {
                proof {
                    assert(count_in(self.counts@, hash) == paths_with(m, hash).len());
                    assert(!paths_with(m, hash).contains(p));
                }
                self.entries.push((full_file_path, hash));
                self.model = Ghost(m2);
                let inc = match self.counts.get(&hash) {
                    Some(c) => *c,
                    None => 0,
                };
                let n = self.entries.len();
                proof {
                    assert(m2.dom() =~= m.dom().insert(p));
                }
                assert(inc < n) by {
                    lemma_paths_finite(m2, hash);
                    vstd::set_lib::lemma_len_subset(paths_with(m2, hash), m2.dom());
                    assert(paths_with(m2, hash) == paths_with(m, hash).insert(p));
                }
                self.counts.insert(hash, inc + 1);
                proof {
                    let e = self.entries@;
                    let e0 = old(self).entries@;
                    assert(e[e.len() - 1].0@ == p);
                    assert forall|q: Seq<char>| #[trigger] m2.contains_key(q) implies exists|k: int|
                        0 <= k < e.len() && (#[trigger] e[k]).0@ == q by {
                        if q != p {
                            let k = choose|k: int| 0 <= k < e0.len() && (#[trigger] e0[k]).0@ == q;
                            assert(e[k] == e0[k]);
                        }
                    }
                    assert forall|k: int, l: int| 0 <= k < l < e.len() implies (#[trigger] e[k]).0@
                        != (#[trigger] e[l]).0@ by {
                        if l == e.len() - 1 {
                            assert(e[k] == e0[k]);
                            assert(m.contains_key(e0[k].0@));
                        }
                    }
                    assert forall|h: u64| #[trigger] count_in(self.counts@, h) == paths_with(m2, h).len() by {
                        lemma_paths_finite(m, h);
                        assert(count_in(old(self).counts@, h) == paths_with(m, h).len());
                    }
                }
            },
        }
    }

    /// The hash that `full_file_path` currently holds, if it is indexed.
    pub fn hash_of(&self, full_file_path: &String) -> (r: Option<u64>)
        requires
            self.wf(),
        ensures
            r == if self@.contains_key(full_file_path@) {
                Some(self@[full_file_path@])
            } else {
                None::<u64>
            },
    {
        match self.position_of(full_file_path) {
            None => None,
            Some(i) => Some(self.entries[i].1),
        }
    }

    /// Forgets `full_file_path`. A path that is not indexed is left alone.
    pub fn remove(&mut self, full_file_path: String)
        requires
            old(self).wf(),
        ensures
            final(self).wf(),
            final(self)@ == old(self)@.remove(full_file_path@),
    {
        let ghost m = self.model@;
        let ghost p = full_file_path@;
        let ghost m2 = m.remove(p);
        match self.position_of(&full_file_path) {
            None => {
                proof {
                    assert(m2 =~= m);
                }
            },
            Some(i) => {
                let previous = self.entries[i].1;
                proof {
                    lemma_paths_after_remove(m, p);
                    lemma_paths_finite(m, previous);
                    assert(paths_with(m, previous).contains(p));
                    vstd::set::axiom_set_contains_len(paths_with(m, previous), p);
                    assert(count_in(self.counts@, previous) == paths_with(m, previous).len());
                    assert(m2.dom() =~= m.dom().remove(p));
                }
                self.entries.remove(i);
                self.model = Ghost(m2);
                let dec = match self.counts.get(&previous) {
                    Some(c) => *c,
                    None => 0,
                };
                self.counts.insert(previous, dec - 1);
                proof {
                    let e = self.entries@;
                    let e0 = old(self).entries@;
                    assert forall|k: int| 0 <= k < e.len() implies m2.contains_key(
                        (#[trigger] e[k]).0@,
                    ) && m2[e[k].0@] == e[k].1 by {
                        if k < i {
                            assert(e[k] == e0[k]);
                        } else {
                            assert(e[k] == e0[k + 1]);
                        }
                    }
                    assert forall|q: Seq<char>| #[trigger] m2.contains_key(q) implies exists|k: int|
                        0 <= k < e.len() && (#[trigger] e[k]).0@ == q by {
                        let k = choose|k: int| 0 <= k < e0.len() && (#[trigger] e0[k]).0@ == q;
                        if k < i {
                            assert(e[k] == e0[k]);
                        } else {
                            assert(e[k - 1] == e0[k]);
                        }
                    }
                    assert forall|k: int, l: int| 0 <= k < l < e.len() implies (#[trigger] e[k]).0@
                        != (#[trigger] e[l]).0@ by {
                        let k0 = if k < i { k } else { k + 1 };
                        let l0 = if l < i { l } else { l + 1 };
                        assert(e[k] == e0[k0]);
                        assert(e[l] == e0[l0]);
                    }
                    assert forall|h: u64| #[trigger] count_in(self.counts@, h) == paths_with(m2, h).len() by {
                        lemma_paths_finite(m, h);
                        assert(count_in(old(self).counts@, h) == paths_with(m, h).len());
                    }
                }
            },
        }
    }

    /// Forgets every path.
    pub fn reset(&mut self)
        requires
            old(self).wf(),
        ensures
            final(self).wf(),
            final(self)@ == Map::<Seq<char>, u64>::empty(),
    {
        self.entries.clear();
        self.counts.clear();
        self.model = Ghost(Map::empty());
        proof {
            assert forall|h: u64| #[trigger] count_in(self.counts@, h) == paths_with(self.model@, h).len() by {
                assert(paths_with(self.model@, h) =~= Set::empty());
            }
        }
    }

    /// Whether two or more paths currently hold content `hash`.
    pub fn contains_duplicate_for_hash(&self, hash: u64) -> (r: bool)
        requires
            self.wf(),
        ensures
            r == has_duplicate(self@, hash),
    {
        proof {
            assert(count_in(self.counts@, hash) == paths_with(self@, hash).len());
        }
        match self.counts.get(&hash) {
            Some(c) => *c >= 2,
            None => false,
        }
    }

    /// Every path that currently holds content `hash`, each once.
    pub fn paths_for(&self, hash: u64) -> (r: Vec<String>)
        requires
            self.wf(),
        ensures
            lists_exactly(texts(r@), paths_with(self@, hash)),
    {
        let ghost m = self.model@;
        let mut r: Vec<String> = Vec::new();
        let mut i: usize = 0;
        while i < self.entries.len()
            invariant
                self.wf(),
                i <= self.entries@.len(),
                texts(r@).no_duplicates(),
                forall|q: Seq<char>| #[trigger]
                    texts(r@).contains(q) <==> exists|k: int|
                        0 <= k < i && (#[trigger] self.entries@[k]).0@ == q && self.entries@[k].1
                            == hash,
            decreases self.entries@.len() - i,
        {
            if self.entries[i].1 == hash {
                let ghost before = texts(r@);
                r.push(self.entries[i].0.clone());
                proof {
                    let e = self.entries@;
                    assert(texts(r@) =~= before.push(e[i as int].0@));
                    assert forall|q: Seq<char>| #[trigger] texts(r@).contains(q) <==> exists|k: int|
                        0 <= k < i + 1 && (#[trigger] e[k]).0@ == q && e[k].1 == hash by {
                        if q == e[i as int].0@ {
                            assert(texts(r@)[before.len() as int] == q);
                        }
                        if texts(r@).contains(q) && q != e[i as int].0@ {
                            let j = choose|j: int| 0 <= j < texts(r@).len() && texts(r@)[j] == q;
                            assert(before[j] == q);
                        }
                        if before.contains(q) {
                            let j = choose|j: int| 0 <= j < before.len() && before[j] == q;
                            assert(texts(r@)[j] == q);
                        }
                    }
                    assert(!before.contains(e[i as int].0@));
                }
            }
            i = i + 1;
        }
        proof {
            let e = self.entries@;
            assert forall|q: Seq<char>| #[trigger] texts(r@).contains(q) <==> paths_with(m, hash).contains(q) by {
                if paths_with(m, hash).contains(q) {
                    let k = choose|k: int| 0 <= k < e.len() && (#[trigger] e[k]).0@ == q;
                }
            }
        }
        r
    }

    /// The hash that `full_file_path` holds, with every path that holds the
    /// same content (itself included); `None` when the path is not indexed.
    pub fn debug_key(&self, full_file_path: &String) -> (r: Option<(u64, Vec<String>)>)
        requires
            self.wf(),
        ensures
            match r {
                None => !self@.contains_key(full_file_path@),
                Some((hash, paths)) => {
                    &&& self@.contains_key(full_file_path@)
                    &&& hash == self@[full_file_path@]
                    &&& lists_exactly(texts(paths@), paths_with(self@, hash))
                },
            },
    {
        match self.position_of(full_file_path) {
            None => None,
            Some(i) => {
                let hash = self.entries[i].1;
                Some((hash, self.paths_for(hash)))
            },
        }
    }

    /// One `(hash, path)` row for each path whose content another path holds
    /// too: every current duplicate set, for listing.
    pub fn duplicates(&self) -> (r: Vec<(u64, String)>)
        requires
            self.wf(),
        ensures
            duplicate_rows(r@, self@),
    {
        let mut r: Vec<(u64, String)> = Vec::new();
        let mut i: usize = 0;
        while i < self.entries.len()
            invariant
                self.wf(),
                i <= self.entries@.len(),
                forall|k: int|
                    0 <= k < r@.len() ==> self@.contains_key((#[trigger] r@[k]).1@) && self@[r@[k].1@]
                        == r@[k].0 && has_duplicate(self@, r@[k].0),
                forall|k: int, l: int| 0 <= k < l < r@.len() ==> r@[k].1@ != r@[l].1@,
                forall|q: Seq<char>|
                    #![trigger self@.contains_key(q)]
                    (exists|k: int| 0 <= k < r@.len() && (#[trigger] r@[k]).1@ == q) <==> exists|j: int|
                        0 <= j < i && (#[trigger] self.entries@[j]).0@ == q && has_duplicate(
                            self@,
                            self.entries@[j].1,
                        ),
            decreases self.entries@.len() - i,
        {
            let hash = self.entries[i].1;
            if self.contains_duplicate_for_hash(hash) {
                let ghost before = r@;
                let ghost e = self.entries@;
                r.push((hash, self.entries[i].0.clone()));
                proof {
                    assert(r@[before.len() as int] == (hash, e[i as int].0));
                    assert forall|k: int| 0 <= k < before.len() implies (#[trigger] r@[k]).1@ != e[i as int].0@ by {
                        assert(r@[k] == before[k]);
                        let j = choose|j: int| 0 <= j < i && (#[trigger] e[j]).0@ == before[k].1@ && has_duplicate(self@, e[j].1);
                    }
                    assert forall|q: Seq<char>| #![trigger self@.contains_key(q)]
                        (exists|k: int| 0 <= k < r@.len() && (#[trigger] r@[k]).1@ == q) <==> exists|j: int|
                            0 <= j < i + 1 && (#[trigger] e[j]).0@ == q && has_duplicate(self@, e[j].1) by {
                        if exists|k: int| 0 <= k < r@.len() && (#[trigger] r@[k]).1@ == q {
                            let k = choose|k: int| 0 <= k < r@.len() && (#[trigger] r@[k]).1@ == q;
                            if k < before.len() {
                                assert(r@[k] == before[k]);
                            }
                        }
                        if exists|j: int| 0 <= j < i + 1 && (#[trigger] e[j]).0@ == q && has_duplicate(self@, e[j].1) {
                            let j = choose|j: int| 0 <= j < i + 1 && (#[trigger] e[j]).0@ == q && has_duplicate(self@, e[j].1);
                            if j < i {
                                let k = choose|k: int| 0 <= k < before.len() && (#[trigger] before[k]).1@ == q;
                                assert(r@[k] == before[k]);
                            }
                        }
                    }
                }
            }
            i = i + 1;
        }
        proof {
            let e = self.entries@;
            assert forall|q: Seq<char>| #[trigger] self@.contains_key(q) && has_duplicate(self@, self@[q]) implies exists|k: int|
                0 <= k < r@.len() && (#[trigger] r@[k]).1@ == q by {
                let j = choose|j: int| 0 <= j < e.len() && (#[trigger] e[j]).0@ == q;
            }
        }
        r
    }

    /// One `(hash, path)` row per indexed path, for writing the index out.
    pub fn rows(&self) -> (r: Vec<(u64, String)>)
        requires
            self.wf(),
        ensures
            rows_of(r@, self@),
    {
        let mut r: Vec<(u64, String)> = Vec::new();
        let mut i: usize = 0;
        while i < self.entries.len()
            invariant
                self.wf(),
                i <= self.entries@.len(),
                r@.len() == i,
                forall|k: int|
                    0 <= k < i ==> (#[trigger] r@[k]).1@ == self.entries@[k].0@ && r@[k].0
                        == self.entries@[k].1,
            decreases self.entries@.len() - i,
        {
            r.push((self.entries[i].1, self.entries[i].0.clone()));
            i = i + 1;
        }
        proof {
            let e = self.entries@;
            assert forall|k: int| 0 <= k < r@.len() implies self@.contains_key(
                (#[trigger] r@[k]).1@,
            ) && self@[r@[k].1@] == r@[k].0 by {
                assert(e[k].0@ == r@[k].1@);
            }
            assert forall|k: int, l: int| 0 <= k < l < r@.len() implies r@[k].1@ != r@[l].1@ by {
                assert(e[k].0@ == r@[k].1@);
                assert(e[l].0@ == r@[l].1@);
            }
        }
        r
    }
}

/// Two distinct paths added with the same hash make that hash a duplicate,
/// whatever the index held before.
pub proof fn lemma_two_holders_duplicate(index: Map<Seq<char>, u64>, hash: u64, first: Seq<char>, second: Seq<char>)
    requires
        index.dom().finite(),
        first != second,
    ensures
        has_duplicate(index.insert(first, hash).insert(second, hash), hash),
{
    let after = index.insert(first, hash).insert(second, hash);
    assert(after.dom() =~= index.dom().insert(first).insert(second));
    lemma_paths_finite(after, hash);
    assert(set![first, second].subset_of(paths_with(after, hash)));
    vstd::set_lib::lemma_len_subset(set![first, second], paths_with(after, hash));
    assert(set![first, second].len() == 2) by {
        assert(set![first, second] == Set::<Seq<char>>::empty().insert(first).insert(second));
    }
}

/// Of two paths that share a content, removing one leaves that content held
/// by the other alone, so it is no longer a duplicate.
pub proof fn lemma_remove_from_pair(index: Map<Seq<char>, u64>, hash: u64, gone: Seq<char>, kept: Seq<char>)
    requires
        index.dom().finite(),
        gone != kept,
        paths_with(index, hash) == set![gone, kept],
    ensures
        paths_with(index.remove(gone), hash) == set![kept],
        !has_duplicate(index.remove(gone), hash),
{
    lemma_paths_after_remove(index, gone);
    assert(set![gone, kept].remove(gone) =~= set![kept]);
    assert(set![kept].len() == 1) by {
        assert(set![kept] == Set::<Seq<char>>::empty().insert(kept));
    }
}

/// Adding the same path with the same hash a second time changes nothing.
pub proof fn lemma_add_twice(index: Map<Seq<char>, u64>, hash: u64, path: Seq<char>)
    ensures
        index.insert(path, hash).insert(path, hash) == index.insert(path, hash),
{
    assert(index.insert(path, hash).insert(path, hash) =~= index.insert(path, hash));
}

/// A path added with hash `first` and then with hash `second` holds
/// `second` alone: it is among the paths of no other hash.
pub proof fn lemma_add_replaces(index: Map<Seq<char>, u64>, path: Seq<char>, first: u64, second: u64)
    ensures
        ({
            let after = index.insert(path, first).insert(path, second);
            &&& after.contains_key(path)
            &&& after[path] == second
            &&& paths_with(after, second).contains(path)
            &&& forall|h: u64| h != second ==> !(#[trigger] paths_with(after, h)).contains(path)
        }),
{
}

} // verus!
