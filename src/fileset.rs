//! A set of archive files: each path, unique, with its payload bytes.
use vstd::prelude::*;
use crate::bytes::{bytes_eq, copy_bytes};

verus! {

/// The map that a sequence of (key, value) pairs describes; a later pair
/// overrides an earlier one with the same key.
pub open spec fn pairs_map<V>(s: Seq<(Seq<u8>, V)>) -> Map<Seq<u8>, V>
    decreases s.len(),
{
    if s.len() == 0 {
        Map::empty()
    } else {
        pairs_map(s.drop_last()).insert(s.last().0, s.last().1)
    }
}

pub open spec fn keys_unique<V>(s: Seq<(Seq<u8>, V)>) -> bool {
    forall|i: int, j: int|
        0 <= i < s.len() && 0 <= j < s.len() && i != j ==> #[trigger] s[i].0 != #[trigger] s[j].0
}

pub proof fn lemma_pairs_map_dom<V>(s: Seq<(Seq<u8>, V)>, k: Seq<u8>)
    ensures
        pairs_map(s).contains_key(k) <==> exists|i: int| 0 <= i < s.len() && #[trigger] s[i].0 == k,
    decreases s.len(),
{
    if s.len() > 0 {
        let p = s.drop_last();
        lemma_pairs_map_dom(p, k);
        if pairs_map(s).contains_key(k) && k != s.last().0 {
            let i = choose|i: int| 0 <= i < p.len() && #[trigger] p[i].0 == k;
            assert(s[i].0 == k);
        }
        if exists|i: int| 0 <= i < s.len() && #[trigger] s[i].0 == k {
            let i = choose|i: int| 0 <= i < s.len() && #[trigger] s[i].0 == k;
            if i < s.len() - 1 {
                assert(p[i].0 == k);
            }
        }
    }
}

pub proof fn lemma_pairs_map_value<V>(s: Seq<(Seq<u8>, V)>, k: Seq<u8>)
    requires
        pairs_map(s).contains_key(k),
    ensures
        exists|i: int| 0 <= i < s.len() && #[trigger] s[i].0 == k && pairs_map(s)[k] == s[i].1,
    decreases s.len(),
{
    let p = s.drop_last();
    if s.last().0 == k {
        assert(s[s.len() - 1].0 == k);
    } else {
        lemma_pairs_map_value(p, k);
        let i = choose|i: int| 0 <= i < p.len() && #[trigger] p[i].0 == k && pairs_map(p)[k] == p[i].1;
        assert(s[i] == p[i]);
    }
}

pub proof fn lemma_pairs_map_index<V>(s: Seq<(Seq<u8>, V)>, i: int)
    requires
        keys_unique(s),
        0 <= i < s.len(),
    ensures
        pairs_map(s).contains_key(s[i].0),
        pairs_map(s)[s[i].0] == s[i].1,
    decreases s.len(),
{
    if i < s.len() - 1 {
        let p = s.drop_last();
        assert(keys_unique(p)) by {
            assert forall|a: int, b: int|
                0 <= a < p.len() && 0 <= b < p.len() && a != b implies #[trigger] p[a].0
                != #[trigger] p[b].0 by {
                assert(p[a] == s[a] && p[b] == s[b]);
            }
        }
        lemma_pairs_map_index(p, i);
        assert(p[i] == s[i]);
        assert(s[i].0 != s[s.len() - 1].0);
    }
}

pub proof fn lemma_pairs_map_update<V>(s: Seq<(Seq<u8>, V)>, i: int, v: V)
    requires
        keys_unique(s),
        0 <= i < s.len(),
    ensures
        pairs_map(s.update(i, (s[i].0, v))) == pairs_map(s).insert(s[i].0, v),
    decreases s.len(),
{
    let t = s.update(i, (s[i].0, v));
    let p = s.drop_last();
    if i == s.len() - 1 {
        assert(t.drop_last() =~= p);
        assert(pairs_map(t) =~= pairs_map(s).insert(s[i].0, v));
    } else {
        assert(keys_unique(p)) by {
            assert forall|a: int, b: int|
                0 <= a < p.len() && 0 <= b < p.len() && a != b implies #[trigger] p[a].0
                != #[trigger] p[b].0 by {
                assert(p[a] == s[a] && p[b] == s[b]);
            }
        }
        assert(t.drop_last() =~= p.update(i, (s[i].0, v)));
        lemma_pairs_map_update(p, i, v);
        assert(s[i].0 != s[s.len() - 1].0);
        assert(pairs_map(t) =~= pairs_map(s).insert(s[i].0, v));
    }
}

pub proof fn lemma_pairs_map_len<V>(s: Seq<(Seq<u8>, V)>)
    requires
        keys_unique(s),
    ensures
        pairs_map(s).dom().finite(),
        pairs_map(s).len() == s.len(),
    decreases s.len(),
{
    if s.len() > 0 {
        let p = s.drop_last();
        assert(keys_unique(p)) by {
            assert forall|a: int, b: int|
                0 <= a < p.len() && 0 <= b < p.len() && a != b implies #[trigger] p[a].0
                != #[trigger] p[b].0 by {
                assert(p[a] == s[a] && p[b] == s[b]);
            }
        }
        lemma_pairs_map_len(p);
        lemma_pairs_map_dom(p, s.last().0);
        if exists|i: int| 0 <= i < p.len() && #[trigger] p[i].0 == s.last().0 {
            let i = choose|i: int| 0 <= i < p.len() && #[trigger] p[i].0 == s.last().0;
            assert(s[i].0 == s[s.len() - 1].0);
        }
    }
}

/// One file of an archive: its logical path and its payload.
pub struct FileEntry {
    pub path: Vec<u8>,
    pub data: Vec<u8>,
}

/// Files keyed by logical path. No path occurs twice.
pub struct FileSet {
    pub entries: Vec<FileEntry>,
}

impl View for FileSet {
    type V = Map<Seq<u8>, Seq<u8>>;

    open spec fn view(&self) -> Map<Seq<u8>, Seq<u8>> {
        pairs_map(self.pairs())
    }
}

impl FileSet {
    pub open spec fn pairs(&self) -> Seq<(Seq<u8>, Seq<u8>)> {
        self.entries@.map_values(|e: FileEntry| (e.path@, e.data@))
    }

    pub open spec fn wf(&self) -> bool {
        keys_unique(self.pairs())
    }

    pub fn new() -> (r: FileSet)
        ensures
            r.wf(),
            r@ == Map::<Seq<u8>, Seq<u8>>::empty(),
    {
        let r = FileSet { entries: Vec::new() };
        assert(r.pairs() =~= Seq::<(Seq<u8>, Seq<u8>)>::empty());
        r
    }

    /// The number of files.
    pub fn len(&self) -> (r: usize)
        requires
            self.wf(),
        ensures
            self@.dom().finite(),
            r == self@.len(),
    {
        proof {
            lemma_pairs_map_len(self.pairs());
        }
        self.entries.len()
    }

    /// Where `path` stands among the entries, if it is there.
    pub fn position(&self, path: &[u8]) -> (r: Option<usize>)
        requires
            self.wf(),
        ensures
            r is None <==> !self@.contains_key(path@),
            r matches Some(i) ==> i < self.entries@.len() && self.entries@[i as int].path@ == path@,
    {
        let mut i: usize = 0;
        while i < self.entries.len()
            invariant
                i <= self.entries@.len(),
                forall|j: int| 0 <= j < i ==> self.entries@[j].path@ != path@,
            decreases self.entries@.len() - i,
        {
            if bytes_eq(self.entries[i].path.as_slice(), path) {
                proof {
                    assert(self.pairs()[i as int].0 == path@);
                    lemma_pairs_map_dom(self.pairs(), path@);
                }
                return Some(i);
            }
            i = i + 1;
        }
        proof {
            lemma_pairs_map_dom(self.pairs(), path@);
            assert forall|j: int| 0 <= j < self.pairs().len() implies #[trigger] self.pairs()[j].0
                != path@ by {
                assert(self.pairs()[j].0 == self.entries@[j].path@);
            }
        }
        None
    }

    pub fn contains_key(&self, path: &[u8]) -> (r: bool)
        requires
            self.wf(),
        ensures
            r == self@.contains_key(path@),
    {
        self.position(path).is_some()
    }

    /// The payload stored under `path`.
    pub fn get(&self, path: &[u8]) -> (r: Option<&Vec<u8>>)
        requires
            self.wf(),
        ensures
            r is Some <==> self@.contains_key(path@),
            r matches Some(d) ==> d@ == self@[path@],
    {
        match self.position(path) {
            Some(i) => {
                proof {
                    lemma_pairs_map_index(self.pairs(), i as int);
                }
                Some(&self.entries[i].data)
            },
            None => None,
        }
    }

    /// Stores every file of `other`, replacing files of the same path.
    pub fn extend_from(&mut self, other: &FileSet)
        requires
            old(self).wf(),
        ensures
            final(self).wf(),
            final(self)@ == old(self)@.union_prefer_right(other@),
    {
        let ghost s = other.pairs();
        let n = other.entries.len();
        let mut j: usize = 0;
        assert(s.subrange(0, 0) =~= Seq::<(Seq<u8>, Seq<u8>)>::empty());
        assert(old(self)@.union_prefer_right(Map::<Seq<u8>, Seq<u8>>::empty()) =~= old(self)@);
        while j < n
            invariant
                j <= n == other.entries@.len(),
                s == other.pairs(),
                self.wf(),
                self@ == old(self)@.union_prefer_right(pairs_map(s.subrange(0, j as int))),
            decreases n - j,
        {
            let ghost pre = s.subrange(0, j as int);
            let ghost key = other.entries@[j as int].path@;
            let ghost val = other.entries@[j as int].data@;
            assert(s[j as int] == (key, val));
            assert(s.subrange(0, j + 1).drop_last() =~= pre);
            assert(pairs_map(s.subrange(0, j + 1)) == pairs_map(pre).insert(key, val));
            self.insert(copy_bytes(&other.entries[j].path), copy_bytes(&other.entries[j].data));
            assert(self@ =~= old(self)@.union_prefer_right(pairs_map(s.subrange(0, j + 1))));
            j = j + 1;
        }
        assert(s.subrange(0, n as int) =~= s);
    }

    /// Stores `data` under `path`, replacing what was there.
    pub fn insert(&mut self, path: Vec<u8>, data: Vec<u8>)
        requires
            old(self).wf(),
        ensures
            final(self).wf(),
            final(self)@ == old(self)@.insert(path@, data@),
    {
        match self.position(path.as_slice()) {
            Some(i) => {
                let ghost s = self.pairs();
                let ghost pv = path@;
                let ghost dv = data@;
                self.entries.set(i, FileEntry { path, data });
                proof {
                    assert(self.pairs() =~= s.update(i as int, (s[i as int].0, dv)));
                    lemma_pairs_map_update(s, i as int, dv);
                }
            },
            None => {
                let ghost s = self.pairs();
                let ghost pv = path@;
                let ghost dv = data@;
                self.entries.push(FileEntry { path, data });
                proof {
                    assert(self.pairs() =~= s.push((pv, dv)));
                    assert(self.pairs().drop_last() =~= s);
                    lemma_pairs_map_dom(s, pv);
                    assert forall|a: int, b: int|
                        0 <= a < self.pairs().len() && 0 <= b < self.pairs().len() && a != b
                        implies #[trigger] self.pairs()[a].0 != #[trigger] self.pairs()[b].0 by {
                        if a < s.len() && b < s.len() {
                            assert(self.pairs()[a] == s[a] && self.pairs()[b] == s[b]);
                        } else if a < s.len() {
                            assert(self.pairs()[a] == s[a]);
                        } else {
                            assert(self.pairs()[b] == s[b]);
                        }
                    }
                }
            },
        }
    }
}

} // verus!
