//! The filesystem model: the slice of the real filesystem that the backend
//! owns, held as explicit data.
//!
//! A model holds a finite collection of entries, each a component path
//! bound to a directory or to a file with its contents. Its mathematical
//! value is a `Map` from path views to entry views, and every operation
//! states its effect on that map. The thin I/O shell mirrors each operation
//! onto the real disk; everything decided here is verified.

use vstd::prelude::*;
use vstd::pervasive::VecAdditionalExecFns;
use crate::paths::path_eq;
use crate::paths::path_prefix;

verus! {

/// The mathematical value of one filesystem entry: a directory, or a file
/// with its contents.
pub enum Ent {
    Dir,
    File(Seq<u8>),
}

/// One concrete filesystem entry: a directory, or a file with its contents.
pub enum NodeKind {
    Dir,
    File(Vec<u8>),
}

impl View for NodeKind {
    type V = Ent;

    open spec fn view(&self) -> Ent {
        match self {
            NodeKind::Dir => Ent::Dir,
            NodeKind::File(d) => Ent::File(d@),
        }
    }
}

impl NodeKind {
    /// A fresh copy of the entry's value.
    pub fn dup(&self) -> (r: NodeKind)
        ensures
            r@ == self@,
    {
        match self {
            NodeKind::Dir => NodeKind::Dir,
            NodeKind::File(d) => NodeKind::File(vstd::slice::slice_to_vec(d.as_slice())),
        }
    }
}

/// A path bound to what stands at that path.
pub struct FsEntry {
    pub path: Vec<String>,
    pub kind: NodeKind,
}

/// The map denoted by a sequence of entries; a later entry for the same
/// path supersedes an earlier one.
pub open spec fn map_of(s: Seq<FsEntry>) -> Map<Seq<Seq<char>>, Ent>
    decreases s.len(),
{
    if s.len() == 0 {
        Map::empty()
    } else {
        map_of(s.drop_last()).insert(s.last().path.deep_view(), s.last().kind@)
    }
}

/// No two entries name the same path.
pub open spec fn unique_paths(s: Seq<FsEntry>) -> bool {
    forall|i: int, j: int|
        0 <= i < j < s.len() ==> s[i].path.deep_view() != s[j].path.deep_view()
}

/// A path is in the map's domain exactly when some entry names it.
pub proof fn lemma_map_of_dom(s: Seq<FsEntry>)
    ensures
        forall|k: Seq<Seq<char>>|
            #[trigger] map_of(s).dom().contains(k) <==> exists|i: int|
                0 <= i < s.len() && #[trigger] s[i].path.deep_view() == k,
    decreases s.len(),
{
    if s.len() > 0 {
        lemma_map_of_dom(s.drop_last());
        assert forall|k: Seq<Seq<char>>| #[trigger] map_of(s).dom().contains(k) implies exists|i: int|
            0 <= i < s.len() && #[trigger] s[i].path.deep_view() == k by {
            if k == s.last().path.deep_view() {
                assert(s[s.len() - 1].path.deep_view() == k);
            } else {
                assert(map_of(s.drop_last()).dom().contains(k));
                let i = choose|i: int|
                    0 <= i < s.drop_last().len() && #[trigger] s.drop_last()[i].path.deep_view()
                        == k;
                assert(s[i].path.deep_view() == k);
            }
        }
        assert forall|k: Seq<Seq<char>>|
            (exists|i: int| 0 <= i < s.len() && #[trigger] s[i].path.deep_view() == k) implies
            #[trigger] map_of(s).dom().contains(k) by {
            let i = choose|i: int| 0 <= i < s.len() && #[trigger] s[i].path.deep_view() == k;
            if i < s.len() - 1 {
                assert(s.drop_last()[i].path.deep_view() == k);
                assert(map_of(s.drop_last()).dom().contains(k));
                assert(map_of(s).dom() =~= map_of(s.drop_last()).dom().insert(
                    s.last().path.deep_view(),
                ));
            } else {
                assert(s[i] == s.last());
                assert(map_of(s).dom().contains(s.last().path.deep_view()));
            }
        }
    }
}

/// With unique paths, the map sends each named path to its entry's value.
pub proof fn lemma_map_of_index(s: Seq<FsEntry>, i: int)
    requires
        unique_paths(s),
        0 <= i < s.len(),
    ensures
        map_of(s).dom().contains(s[i].path.deep_view()),
        map_of(s)[s[i].path.deep_view()] == s[i].kind@,
    decreases s.len(),
{
    lemma_map_of_dom(s);
    if i < s.len() - 1 {
        assert(unique_paths(s.drop_last()));
        lemma_map_of_index(s.drop_last(), i);
        assert(s.drop_last()[i] == s[i]);
        assert(s[i].path.deep_view() != s.last().path.deep_view());
    }
}

/// Updating the entry at a named path updates the map at that path alone.
pub proof fn lemma_map_of_update(s: Seq<FsEntry>, i: int, e: FsEntry)
    requires
        unique_paths(s),
        0 <= i < s.len(),
        e.path.deep_view() == s[i].path.deep_view(),
    ensures
        map_of(s.update(i, e)) =~= map_of(s).insert(e.path.deep_view(), e.kind@),
    decreases s.len(),
{
    let t = s.update(i, e);
    if i == s.len() - 1 {
        assert(t.drop_last() =~= s.drop_last());
        assert(t.last() == e);
    } else {
        assert(t.last() == s.last());
        assert(t.drop_last() =~= s.drop_last().update(i, e));
        assert(unique_paths(s.drop_last()));
        lemma_map_of_update(s.drop_last(), i, e);
        assert(s[i].path.deep_view() != s.last().path.deep_view());
    }
}

/// The directories that creating `p` "with parents" adds to `m`: every
/// non-empty prefix of `p` at which `m` holds nothing yet.
pub open spec fn dirs_along(m: Map<Seq<Seq<char>>, Ent>, p: Seq<Seq<char>>) -> Map<
    Seq<Seq<char>>,
    Ent,
> {
    Map::new(
        |q: Seq<Seq<char>>|
            1 <= q.len() <= p.len() && q == p.take(q.len() as int) && !m.dom().contains(q),
        |q: Seq<Seq<char>>| Ent::Dir,
    )
}

/// As `dirs_along`, cut off at prefixes of length at most `b`.
pub open spec fn dirs_along_upto(m: Map<Seq<Seq<char>>, Ent>, p: Seq<Seq<char>>, b: int) -> Map<
    Seq<Seq<char>>,
    Ent,
> {
    Map::new(
        |q: Seq<Seq<char>>|
            1 <= q.len() <= b && q.len() <= p.len() && q == p.take(q.len() as int)
                && !m.dom().contains(q),
        |q: Seq<Seq<char>>| Ent::Dir,
    )
}

/// The filesystem model: the backend's directories and files as data.
pub struct FsModel {
    pub entries: Vec<FsEntry>,
}

impl View for FsModel {
    type V = Map<Seq<Seq<char>>, Ent>;

    open spec fn view(&self) -> Map<Seq<Seq<char>>, Ent> {
        map_of(self.entries@)
    }
}

impl FsModel {
    /// Internal consistency: entry paths are pairwise distinct.
    pub open spec fn wf(&self) -> bool {
        unique_paths(self.entries@)
    }

    /// An empty filesystem.
    pub fn new() -> (fs: FsModel)
        ensures
            fs.wf(),
            fs@ == Map::<Seq<Seq<char>>, Ent>::empty(),
    {
        FsModel { entries: Vec::new() }
    }

    /// The position of the entry at `path`, if any.
    fn find_index(&self, path: &Vec<String>) -> (r: Option<usize>)
        ensures
            match r {
                Some(i) => i < self.entries@.len() && self.entries@[i as int].path.deep_view()
                    == path.deep_view(),
                None => forall|i: int|
                    0 <= i < self.entries@.len() ==> self.entries@[i].path.deep_view()
                        != path.deep_view(),
            },
    {
        let n = self.entries.len();
        for i in 0..n
            invariant
                n == self.entries@.len(),
                forall|j: int|
                    0 <= j < i ==> self.entries@[j].path.deep_view() != path.deep_view(),
        {
            if path_eq(&self.entries[i].path, path) {
                return Some(i);
            }
        }
        None
    }

    /// Whether anything (a directory or a file) stands at `path`.
    pub fn contains_path(&self, path: &Vec<String>) -> (r: bool)
        ensures
            r == self@.dom().contains(path.deep_view()),
    {
        let r = self.find_index(path);
        proof {
            lemma_map_of_dom(self.entries@);
        }
        r.is_some()
    }

    /// Whether a directory stands at `path`.
    pub fn has_dir(&self, path: &Vec<String>) -> (r: bool)
        requires
            self.wf(),
        ensures
            r == (self@.dom().contains(path.deep_view()) && self@[path.deep_view()] is Dir),
    {
        proof {
            lemma_map_of_dom(self.entries@);
        }
        match self.find_index(path) {
            Some(i) => {
                proof {
                    lemma_map_of_index(self.entries@, i as int);
                }
                match &self.entries[i].kind {
                    NodeKind::Dir => true,
                    NodeKind::File(_) => false,
                }
            },
            None => false,
        }
    }

    /// The contents of the file at `path`; `None` when nothing stands there
    /// or a directory does.
    pub fn read_file(&self, path: &Vec<String>) -> (r: Option<Vec<u8>>)
        requires
            self.wf(),
        ensures
            match r {
                Some(d) => self@.dom().contains(path.deep_view()) && self@[path.deep_view()]
                    == Ent::File(d@),
                None => !self@.dom().contains(path.deep_view()) || self@[path.deep_view()] is Dir,
            },
    {
        proof {
            lemma_map_of_dom(self.entries@);
        }
        match self.find_index(path) {
            Some(i) => {
                proof {
                    lemma_map_of_index(self.entries@, i as int);
                }
                match &self.entries[i].kind {
                    NodeKind::Dir => None,
                    NodeKind::File(d) => Some(vstd::slice::slice_to_vec(d.as_slice())),
                }
            },
            None => None,
        }
    }

    /// Places `kind` at `path`, replacing whatever stood there.
    pub fn put(&mut self, path: &Vec<String>, kind: NodeKind)
        requires
            old(self).wf(),
        ensures
            final(self).wf(),
            final(self)@ == old(self)@.insert(path.deep_view(), kind@),
    {
        let owned_path = path_prefix(path, path.len());
        proof {
            assert(path.deep_view().take(path.len() as int) =~= path.deep_view());
        }
        let e = FsEntry { path: owned_path, kind };
        match self.find_index(path) {
            Some(i) => {
                let ghost s = self.entries@;
                self.entries.set(i, e);
                proof {
                    lemma_map_of_update(s, i as int, self.entries@[i as int]);
                }
            },
            None => {
                let ghost s = self.entries@;
                self.entries.push(e);
                proof {
                    assert(self.entries@.drop_last() =~= s);
                    lemma_map_of_dom(s);
                    assert forall|i: int, j: int| 0 <= i < j < self.entries@.len() implies
                        self.entries@[i].path.deep_view() != self.entries@[j].path.deep_view() by {
                        if j == self.entries@.len() - 1 {
                            assert(self.entries@[i] == s[i]);
                        } else {
                            assert(self.entries@[i] == s[i] && self.entries@[j] == s[j]);
                        }
                    }
                }
            },
        }
    }

    /// Creates a directory at `path`, with its missing parents, leaving
    /// every existing entry as it was.
    pub fn mkdir_p(&mut self, path: &Vec<String>)
        requires
            old(self).wf(),
        ensures
            final(self).wf(),
            final(self)@ == old(self)@.union_prefer_right(
                dirs_along(old(self)@, path.deep_view()),
            ),
    {
        let ghost m0 = self@;
        let ghost pv = path.deep_view();
        proof {
            assert(self@ =~= m0.union_prefer_right(dirs_along_upto(m0, pv, 0)));
        }
        let n = path.len();
        for i in 0..n
            invariant
                n == path.len(),
                pv == path.deep_view(),
                self.wf(),
                self@ == m0.union_prefer_right(dirs_along_upto(m0, pv, i as int)),
        {
            let pre = path_prefix(path, i + 1);
            if !self.contains_path(&pre) {
                self.put(&pre, NodeKind::Dir);
            }
            proof {
                assert(pre.deep_view().len() == i + 1);
                assert(self@ =~= m0.union_prefer_right(dirs_along_upto(m0, pv, i + 1)));
            }
        }
        proof {
            assert(dirs_along_upto(m0, pv, n as int) =~= dirs_along(m0, pv));
        }
    }
}

} // verus!
