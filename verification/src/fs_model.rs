//! In-memory model of a directory tree.
//!
//! A snapshot [`Fs`] holds one entry per path; its mathematical view is a
//! `Map` from the path (a sequence of name components, each a sequence of
//! characters) to the kind of node found there. All scanning and migration
//! logic of this crate is specified over that map.

use vstd::prelude::*;

verus! {

/// The kind of node a path points at.
#[derive(Clone, Copy, PartialEq, Eq, Structural, Debug)]
pub enum FsKind {
    File,
    Dir,
}

/// A path relative to the scanned root, as a list of name components.
/// The root itself is the empty path.
#[derive(Debug)]
pub struct FsPath {
    pub segments: Vec<String>,
}

impl View for FsPath {
    type V = Seq<Seq<char>>;

    open spec fn view(&self) -> Seq<Seq<char>> {
        Seq::new(self.segments@.len(), |i: int| self.segments@[i]@)
    }
}

impl Clone for FsPath {
    fn clone(&self) -> (r: Self)
        ensures
            r@ == self@,
    {
        let mut segments: Vec<String> = Vec::new();
        let mut i: usize = 0;
        while i < self.segments.len()
            invariant
                i <= self.segments.len(),
                segments@.len() == i as int,
                forall|j: int| 0 <= j < i as int ==> segments@[j]@ == self.segments@[j]@,
            decreases self.segments.len() - i,
        {
            segments.push(self.segments[i].clone());
            i = i + 1;
        }
        let r = FsPath { segments };
        proof {
            assert(r@ =~= self@);
        }
        r
    }
}

impl FsPath {
    /// The empty path, standing for the scanned root directory.
    pub fn root() -> (r: FsPath)
        ensures
            r@ == Seq::<Seq<char>>::empty(),
    {
        let r = FsPath { segments: Vec::new() };
        proof {
            assert(r@ =~= Seq::<Seq<char>>::empty());
        }
        r
    }

    /// Appends one component.
    pub fn push_segment(&mut self, segment: String)
        ensures
            final(self)@ == old(self)@.push(segment@),
    {
        self.segments.push(segment);
        proof {
            assert(self@ =~= old(self)@.push(segment@));
        }
    }

    /// Drops the last component.
    pub fn pop_segment(&mut self)
        requires
            old(self)@.len() > 0,
        ensures
            final(self)@ == old(self)@.drop_last(),
    {
        self.segments.pop();
        proof {
            assert(self@ =~= old(self)@.drop_last());
        }
    }

    /// Component-wise equality of two paths.
    pub fn equals(&self, other: &FsPath) -> (r: bool)
        ensures
            r == (self@ == other@),
    {
        if self.segments.len() != other.segments.len() {
            proof {
                assert(self@.len() != other@.len());
            }
            return false;
        }
        let mut i: usize = 0;
        while i < self.segments.len()
            invariant
                i <= self.segments.len(),
                self.segments@.len() == other.segments@.len(),
                forall|j: int| 0 <= j < i as int ==> self@[j] == other@[j],
            decreases self.segments.len() - i,
        {
            if !self.segments[i].eq(&other.segments[i]) {
                proof {
                    assert(self@[i as int] == self.segments@[i as int]@);
                    assert(other@[i as int] == other.segments@[i as int]@);
                }
                return false;
            }
            i = i + 1;
        }
        proof {
            assert(self@ =~= other@);
        }
        true
    }
}

/// True when the runtime string holds exactly the given literal.
pub(crate) fn string_is(s: &String, lit: &str) -> (r: bool)
    ensures
        r == (s@ == lit@),
{
    let l: String = lit.to_owned();
    s.eq(&l)
}

/// One node of the snapshot: a path and what is found there.
pub(crate) struct FsEntry {
    pub(crate) path: FsPath,
    pub(crate) kind: FsKind,
}

/// The view of a snapshot: path to node kind.
pub type FsMap = Map<Seq<Seq<char>>, FsKind>;

/// Folds a list of entries into a map; a later entry for the same path
/// would win, but well-formed snapshots never hold two entries per path.
pub(crate) open spec fn map_of(s: Seq<FsEntry>) -> FsMap
    decreases s.len(),
{
    if s.len() == 0 {
        Map::empty()
    } else {
        map_of(s.drop_last()).insert(s.last().path@, s.last().kind)
    }
}

/// `p` is a file of the snapshot.
pub open spec fn is_file_at(m: FsMap, p: Seq<Seq<char>>) -> bool {
    m.contains_key(p) && m[p] == FsKind::File
}

/// `p` is a directory of the snapshot.
pub open spec fn is_dir_at(m: FsMap, p: Seq<Seq<char>>) -> bool {
    m.contains_key(p) && m[p] == FsKind::Dir
}

/// Every proper prefix of a listed entry appears, as a directory,
/// earlier in the listing.
pub(crate) open spec fn entries_closed(s: Seq<FsEntry>) -> bool {
    forall|i: int, q: Seq<Seq<char>>|
        0 <= i < s.len() && #[trigger] q.is_prefix_of(s[i].path@) && 1 <= q.len()
            < s[i].path@.len() ==> exists|j: int|
            0 <= j < i && (#[trigger] s[j]).path@ == q && s[j].kind == FsKind::Dir
}

/// The same, over the pair listing a snapshot exposes.
pub(crate) open spec fn listing_closed(vs: Seq<(Seq<Seq<char>>, FsKind)>) -> bool {
    forall|i: int, q: Seq<Seq<char>>|
        0 <= i < vs.len() && #[trigger] q.is_prefix_of(vs[i].0) && 1 <= q.len() < vs[i].0.len()
            ==> exists|j: int| 0 <= j < i && (#[trigger] vs[j]).0 == q && vs[j].1 == FsKind::Dir
}

/// A snapshot of a directory tree, relative to a fixed root directory.
pub struct Fs {
    pub(crate) entries: Vec<FsEntry>,
}

impl View for Fs {
    type V = FsMap;

    closed spec fn view(&self) -> FsMap {
        map_of(self.entries@)
    }
}

impl Fs {
    /// One entry per path, no entry for the root itself, and every proper
    /// prefix of an entry recorded, as a directory, earlier in the
    /// listing — as a parent-first walk of a real tree yields.
    pub closed spec fn wf(&self) -> bool {
        &&& forall|i: int, j: int|
            0 <= i < j < self.entries@.len() ==> self.entries@[i].path@ != self.entries@[j].path@
        &&& forall|i: int| 0 <= i < self.entries@.len() ==> self.entries@[i].path@.len() > 0
        &&& entries_closed(self.entries@)
    }

    /// The snapshot of an empty (or absent) root directory.
    pub fn new() -> (r: Fs)
        ensures
            r.wf(),
            r@ == Map::<Seq<Seq<char>>, FsKind>::empty(),
    {
        Fs { entries: Vec::new() }
    }

    pub(crate) open spec fn entry_views(&self) -> Seq<(Seq<Seq<char>>, FsKind)> {
        Seq::new(self.entries@.len(), |i: int| (self.entries@[i].path@, self.entries@[i].kind))
    }

    /// How the list of entries and the map view correspond.
    #[verifier::rlimit(50)]
    pub(crate) proof fn lemma_view_facts(&self)
        requires
            self.wf(),
        ensures
            forall|i: int, j: int|
                0 <= i < j < self.entry_views().len() ==> self.entry_views()[i].0
                    != self.entry_views()[j].0,
            forall|i: int|
                0 <= i < self.entry_views().len() ==> (#[trigger] self.entry_views()[i]).0.len() > 0
                    && self@.contains_key(self.entry_views()[i].0)
                    && self@[self.entry_views()[i].0] == self.entry_views()[i].1,
            forall|p: Seq<Seq<char>>|
                self@.contains_key(p) ==> exists|i: int|
                    0 <= i < self.entry_views().len() && (#[trigger] self.entry_views()[i]).0 == p,
            listing_closed(self.entry_views()),
    {
        self.lemma_entries_map();
        assert forall|p: Seq<Seq<char>>| self@.contains_key(p) implies exists|i: int|
            0 <= i < self.entry_views().len() && (#[trigger] self.entry_views()[i]).0 == p by {
            let i = choose|i: int| 0 <= i < self.entries@.len() && self.entries@[i].path@ == p;
            assert(self.entry_views()[i].0 == p);
        }
        let vs = self.entry_views();
        assert forall|i: int, q: Seq<Seq<char>>|
            0 <= i < vs.len() && #[trigger] q.is_prefix_of(vs[i].0) && 1 <= q.len()
                < vs[i].0.len() implies exists|j: int|
            0 <= j < i && (#[trigger] vs[j]).0 == q && vs[j].1 == FsKind::Dir by {
            assert(vs[i].0 == self.entries@[i].path@);
            assert(q.is_prefix_of(self.entries@[i].path@));
            let j = choose|j: int|
                0 <= j < i && (#[trigger] self.entries@[j]).path@ == q && self.entries@[j].kind
                    == FsKind::Dir;
            assert(vs[j].0 == q);
            assert(vs[j].1 == FsKind::Dir);
        }
        assert(listing_closed(vs));
    }

    /// In a well-formed snapshot every proper prefix of a present path is
    /// a directory, as in a real tree.
    pub(crate) proof fn lemma_prefix_closed(&self)
        requires
            self.wf(),
        ensures
            forall|p: Seq<Seq<char>>, k: int|
                self@.contains_key(p) && 1 <= k < p.len() ==> is_dir_at(self@, #[trigger] p.take(k)),
    {
        self.lemma_entries_map();
        assert(entries_closed(self.entries@));
        assert forall|p: Seq<Seq<char>>, k: int|
            self@.contains_key(p) && 1 <= k < p.len() implies is_dir_at(
            self@,
            #[trigger] p.take(k),
        ) by {
            let i = choose|i: int| 0 <= i < self.entries@.len() && self.entries@[i].path@ == p;
            assert(p.take(k) =~= p.subrange(0, k));
            assert(p.take(k).is_prefix_of(self.entries@[i].path@));
            let j = choose|j: int|
                0 <= j < i && (#[trigger] self.entries@[j]).path@ == p.take(k)
                    && self.entries@[j].kind == FsKind::Dir;
            assert(self@[self.entries@[j].path@] == self.entries@[j].kind);
        }
    }

    /// How many entries the snapshot holds.
    pub(crate) fn entry_count(&self) -> (n: usize)
        ensures
            n as int == self.entry_views().len(),
    {
        self.entries.len()
    }

    /// The path and kind of one entry.
    pub(crate) fn entry_at(&self, i: usize) -> (r: (FsPath, FsKind))
        requires
            (i as int) < self.entry_views().len(),
        ensures
            r.0@ == self.entry_views()[i as int].0,
            r.1 == self.entry_views()[i as int].1,
    {
        (self.entries[i].path.clone(), self.entries[i].kind)
    }

    /// Moves the file at `src` to the free spot `dst`: the one mutation of
    /// the model, mirroring an atomic rename. The destination's parent must
    /// already be a directory; with the snapshot parent-first, every deeper
    /// ancestor then is one too, before the move and after it.
    #[verifier::rlimit(80)]
    pub(crate) fn relocate(&mut self, src: &FsPath, dst: &FsPath)
        requires
            old(self).wf(),
            is_file_at(old(self)@, src@),
            !old(self)@.contains_key(dst@),
            dst@.len() > 0,
            dst@.len() == 1 || is_dir_at(old(self)@, dst@.drop_last()),
        ensures
            final(self).wf(),
            final(self)@ == old(self)@.remove(src@).insert(dst@, FsKind::File),
            forall|k: int| 1 <= k < dst@.len() ==> is_dir_at(final(self)@, #[trigger] dst@.take(k)),
    {
        proof {
            self.lemma_entries_map();
        }
        let mut i: usize = 0;
        let mut found: bool = false;
        while i < self.entries.len() && !found
            invariant
                self.wf(),
                *self == *old(self),
                i <= self.entries.len(),
                !found ==> forall|j: int| 0 <= j < i as int ==> self.entries@[j].path@ != src@,
                found ==> (i as int) < self.entries@.len() && self.entries@[i as int].path@
                    == src@,
            decreases self.entries.len() - i + if found { 0int } else { 1int },
        {
            if self.entries[i].path.equals(src) {
                found = true;
            } else {
                i = i + 1;
            }
        }
        proof {
            self.lemma_entries_map();
            self.lemma_prefix_closed();
            if !found {
                assert(!self@.contains_key(src@));
            }
            assert(found);
            assert(self.entries@[i as int].kind == FsKind::File);
            Self::lemma_map_of_remove(self.entries@, i as int);
        }
        self.entries.remove(i);
        let entry = FsEntry { path: dst.clone(), kind: FsKind::File };
        proof {
            let pushed = self.entries@.push(entry);
            assert(pushed.drop_last() =~= self.entries@);
            assert forall|j: int| 0 <= j < self.entries@.len() implies self.entries@[j].path@
                != dst@ by {
                assert(old(self)@.contains_key(self.entries@[j].path@));
            }
        }
        self.entries.push(entry);
        proof {
            let s_old = old(self).entries@;
            let r = i as int;
            assert(self@ =~= old(self)@.remove(src@).insert(dst@, FsKind::File));
            assert(s_old[r].kind == FsKind::File);
            let s_new = self.entries@;
            assert forall|ii: int, q: Seq<Seq<char>>|
                0 <= ii < s_new.len() && #[trigger] q.is_prefix_of(s_new[ii].path@) && 1 <= q.len()
                    < s_new[ii].path@.len() implies exists|j: int|
                0 <= j < ii && (#[trigger] s_new[j]).path@ == q && s_new[j].kind
                    == FsKind::Dir by {
                if ii < s_new.len() - 1 {
                    let oi = if ii < r { ii } else { ii + 1 };
                    assert(s_new[ii] == s_old[oi]);
                    assert(q.is_prefix_of(s_old[oi].path@));
                    let j2 = choose|j2: int|
                        0 <= j2 < oi && (#[trigger] s_old[j2]).path@ == q && s_old[j2].kind
                            == FsKind::Dir;
                    assert(j2 != r);
                    let nj = if j2 < r { j2 } else { j2 - 1 };
                    assert(s_new[nj] == s_old[j2]);
                    assert(nj < ii);
                } else {
                    assert(s_new[ii].path@ == dst@);
                    assert(is_dir_at(old(self)@, dst@.drop_last()));
                    let jp = choose|jp: int|
                        0 <= jp < s_old.len() && s_old[jp].path@ == dst@.drop_last();
                    assert(old(self)@[dst@.drop_last()] == s_old[jp].kind);
                    assert(jp != r);
                    if q.len() == dst@.len() - 1 {
                        assert(q =~= dst@.drop_last());
                        let njp = if jp < r { jp } else { jp - 1 };
                        assert(s_new[njp] == s_old[jp]);
                        assert(s_new[njp].path@ == q);
                    } else {
                        assert(q =~= dst@.drop_last().subrange(0, q.len() as int));
                        assert(q.is_prefix_of(s_old[jp].path@));
                        let j2 = choose|j2: int|
                            0 <= j2 < jp && (#[trigger] s_old[j2]).path@ == q && s_old[j2].kind
                                == FsKind::Dir;
                        assert(j2 != r);
                        let nj2 = if j2 < r { j2 } else { j2 - 1 };
                        assert(s_new[nj2] == s_old[j2]);
                        assert(s_new[nj2].path@ == q);
                    }
                }
            }
            assert(entries_closed(s_new));
            assert forall|k: int| 1 <= k < dst@.len() implies is_dir_at(
                self@,
                #[trigger] dst@.take(k),
            ) by {
                let x = dst@.take(k);
                if k == dst@.len() - 1 {
                    assert(x =~= dst@.drop_last());
                    assert(is_dir_at(old(self)@, x));
                } else {
                    assert(old(self)@.contains_key(dst@.drop_last()));
                    assert(dst@.drop_last().take(k) =~= x);
                    assert(is_dir_at(old(self)@, dst@.drop_last().take(k)));
                }
                assert(x != src@);
                assert(x != dst@);
            }
        }
    }

    proof fn lemma_map_of_remove(s: Seq<FsEntry>, idx: int)
        requires
            forall|i: int, j: int| 0 <= i < j < s.len() ==> s[i].path@ != s[j].path@,
            0 <= idx < s.len(),
        ensures
            map_of(s.remove(idx)) == map_of(s).remove(s[idx].path@),
            forall|i: int, j: int|
                0 <= i < j < s.remove(idx).len() ==> s.remove(idx)[i].path@
                    != s.remove(idx)[j].path@,
            forall|i: int|
                0 <= i < s.remove(idx).len() ==> exists|k: int|
                    0 <= k < s.len() && k != idx && (#[trigger] s.remove(idx)[i]) == s[k],
        decreases s.len(),
    {
        Self::lemma_map_of(s);
        Self::lemma_map_of(s.drop_last());
        if idx == s.len() - 1 {
            assert(s.remove(idx) =~= s.drop_last());
            assert(!map_of(s.drop_last()).contains_key(s[idx].path@));
            assert(map_of(s.drop_last()) =~= map_of(s).remove(s[idx].path@));
            assert forall|i: int| 0 <= i < s.remove(idx).len() implies exists|k: int|
                0 <= k < s.len() && k != idx && (#[trigger] s.remove(idx)[i]) == s[k] by {
                assert(s.remove(idx)[i] == s[i]);
            }
        } else {
            let t = s.drop_last();
            assert forall|i: int, j: int| 0 <= i < j < t.len() implies t[i].path@ != t[j].path@ by {
                assert(s[i].path@ != s[j].path@);
            }
            Self::lemma_map_of_remove(t, idx);
            assert(s.remove(idx).drop_last() =~= t.remove(idx));
            assert(s.remove(idx).last() == s.last());
            assert(map_of(s.remove(idx)) == map_of(t.remove(idx)).insert(
                s.last().path@,
                s.last().kind,
            ));
            assert(s[idx].path@ != s.last().path@);
            assert(map_of(t).remove(s[idx].path@).insert(s.last().path@, s.last().kind)
                =~= map_of(t).insert(s.last().path@, s.last().kind).remove(s[idx].path@));
            assert forall|i: int| 0 <= i < s.remove(idx).len() implies exists|k: int|
                0 <= k < s.len() && k != idx && (#[trigger] s.remove(idx)[i]) == s[k] by {
                if i < idx {
                    assert(s.remove(idx)[i] == s[i]);
                } else {
                    assert(s.remove(idx)[i] == s[i + 1]);
                }
            }
        }
    }

    /// Every entry is in the map, and the map holds nothing else.
    proof fn lemma_entries_map(&self)
        requires
            self.wf(),
        ensures
            forall|p: Seq<Seq<char>>|
                self@.contains_key(p) <==> exists|i: int|
                    0 <= i < self.entries@.len() && self.entries@[i].path@ == p,
            forall|i: int|
                0 <= i < self.entries@.len() ==> self@.contains_key(#[trigger] self.entries@[i].path@)
                    && self@[self.entries@[i].path@] == self.entries@[i].kind,
    {
        Self::lemma_map_of(self.entries@);
    }

    proof fn lemma_map_of(s: Seq<FsEntry>)
        ensures
            forall|p: Seq<Seq<char>>|
                map_of(s).contains_key(p) <==> exists|i: int| 0 <= i < s.len() && s[i].path@ == p,
            (forall|i: int, j: int| 0 <= i < j < s.len() ==> s[i].path@ != s[j].path@)
                ==> forall|i: int|
                0 <= i < s.len() ==> map_of(s).contains_key(#[trigger] s[i].path@)
                    && map_of(s)[s[i].path@] == s[i].kind,
        decreases s.len(),
    {
        if s.len() > 0 {
            Self::lemma_map_of(s.drop_last());
            assert forall|p: Seq<Seq<char>>| map_of(s).contains_key(p) implies exists|i: int|
                0 <= i < s.len() && s[i].path@ == p by {
                if p == s.last().path@ {
                    assert(s[s.len() - 1].path@ == p);
                } else {
                    let i = choose|i: int| 0 <= i < s.drop_last().len() && s.drop_last()[i].path@ == p;
                    assert(s[i].path@ == p);
                }
            }
            assert forall|p: Seq<Seq<char>>|
                exists|i: int| 0 <= i < s.len() && s[i].path@ == p implies map_of(s).contains_key(
                p,
            ) by {
                let i = choose|i: int| 0 <= i < s.len() && s[i].path@ == p;
                if i == s.len() - 1 {
                    assert(map_of(s).contains_key(s.last().path@));
                } else {
                    assert(s.drop_last()[i].path@ == p);
                }
            }
            if forall|i: int, j: int| 0 <= i < j < s.len() ==> s[i].path@ != s[j].path@ {
                assert forall|i: int, j: int|
                    0 <= i < j < s.drop_last().len() implies s.drop_last()[i].path@
                    != s.drop_last()[j].path@ by {
                    assert(s[i].path@ != s[j].path@);
                }
                assert forall|i: int| 0 <= i < s.len() implies map_of(s).contains_key(
                    #[trigger] s[i].path@,
                ) && map_of(s)[s[i].path@] == s[i].kind by {
                    if i < s.len() - 1 {
                        assert(s.drop_last()[i].path@ == s[i].path@);
                        assert(s.drop_last()[i].kind == s[i].kind);
                        assert(s[i].path@ != s.last().path@);
                    }
                }
            }
        }
    }

    /// Looks a path up in the snapshot.
    pub fn lookup(&self, p: &FsPath) -> (r: Option<FsKind>)
        requires
            self.wf(),
        ensures
            match r {
                Option::Some(k) => self@.contains_key(p@) && self@[p@] == k,
                Option::None => !self@.contains_key(p@),
            },
    {
        proof {
            self.lemma_entries_map();
        }
        let mut i: usize = 0;
        while i < self.entries.len()
            invariant
                self.wf(),
                i <= self.entries.len(),
                forall|j: int| 0 <= j < i as int ==> self.entries@[j].path@ != p@,
                forall|jj: int|
                    0 <= jj < self.entries@.len() ==> self@.contains_key(
                        #[trigger] self.entries@[jj].path@,
                    ) && self@[self.entries@[jj].path@] == self.entries@[jj].kind,
                forall|q: Seq<Seq<char>>|
                    self@.contains_key(q) <==> exists|jj: int|
                        0 <= jj < self.entries@.len() && self.entries@[jj].path@ == q,
            decreases self.entries.len() - i,
        {
            if self.entries[i].path.equals(p) {
                return Some(self.entries[i].kind);
            }
            i = i + 1;
        }
        proof {
            if self@.contains_key(p@) {
                let jj = choose|jj: int|
                    0 <= jj < self.entries@.len() && self.entries@[jj].path@ == p@;
                assert(false);
            }
        }
        None
    }

    /// `p` is a file of the snapshot.
    pub fn is_file(&self, p: &FsPath) -> (r: bool)
        requires
            self.wf(),
        ensures
            r == is_file_at(self@, p@),
    {
        match self.lookup(p) {
            Some(k) => k == FsKind::File,
            None => false,
        }
    }

    /// `p` is a directory of the snapshot.
    pub fn is_dir(&self, p: &FsPath) -> (r: bool)
        requires
            self.wf(),
        ensures
            r == is_dir_at(self@, p@),
    {
        match self.lookup(p) {
            Some(k) => k == FsKind::Dir,
            None => false,
        }
    }

    /// Some node (file or directory) sits at `p`.
    pub fn has_entry(&self, p: &FsPath) -> (r: bool)
        requires
            self.wf(),
        ensures
            r == self@.contains_key(p@),
    {
        self.lookup(p).is_some()
    }

    /// Records a file at `p`; an existing node there is left as it is.
    /// Entries are added parent-first: the parent directory must already
    /// be recorded, as a walk of a real tree records it.
    pub fn add_file(&mut self, p: &FsPath)
        requires
            old(self).wf(),
            p@.len() > 0,
            p@.len() == 1 || is_dir_at(old(self)@, p@.drop_last()),
        ensures
            final(self).wf(),
            final(self)@ == if old(self)@.contains_key(p@) {
                old(self)@
            } else {
                old(self)@.insert(p@, FsKind::File)
            },
    {
        self.add_entry(p, FsKind::File);
    }

    /// Records a directory at `p`; an existing node there is left as it
    /// is. Entries are added parent-first: the parent directory must
    /// already be recorded, as a walk of a real tree records it.
    pub fn add_dir(&mut self, p: &FsPath)
        requires
            old(self).wf(),
            p@.len() > 0,
            p@.len() == 1 || is_dir_at(old(self)@, p@.drop_last()),
        ensures
            final(self).wf(),
            final(self)@ == if old(self)@.contains_key(p@) {
                old(self)@
            } else {
                old(self)@.insert(p@, FsKind::Dir)
            },
    {
        self.add_entry(p, FsKind::Dir);
    }

    #[verifier::rlimit(50)]
    fn add_entry(&mut self, p: &FsPath, kind: FsKind)
        requires
            old(self).wf(),
            p@.len() > 0,
            p@.len() == 1 || is_dir_at(old(self)@, p@.drop_last()),
        ensures
            final(self).wf(),
            final(self)@ == if old(self)@.contains_key(p@) {
                old(self)@
            } else {
                old(self)@.insert(p@, kind)
            },
    {
        proof {
            self.lemma_entries_map();
        }
        if self.has_entry(p) {
            return;
        }
        let entry = FsEntry { path: p.clone(), kind };
        proof {
            let pushed = self.entries@.push(entry);
            assert(pushed.drop_last() =~= self.entries@);
        }
        self.entries.push(entry);
        proof {
            assert forall|i: int, j: int| 0 <= i < j < self.entries@.len() implies self
                .entries@[i].path@ != self.entries@[j].path@ by {
                if j == self.entries@.len() - 1 {
                    if self.entries@[i].path@ == p@ {
                        assert(old(self)@.contains_key(p@));
                    }
                }
            }
            let s_new = self.entries@;
            let s_old = old(self).entries@;
            assert forall|i: int, q: Seq<Seq<char>>|
                0 <= i < s_new.len() && #[trigger] q.is_prefix_of(s_new[i].path@) && 1 <= q.len()
                    < s_new[i].path@.len() implies exists|j: int|
                0 <= j < i && (#[trigger] s_new[j]).path@ == q && s_new[j].kind == FsKind::Dir by {
                if i < s_new.len() - 1 {
                    assert(s_new[i] == s_old[i]);
                    assert(q.is_prefix_of(s_old[i].path@));
                    let j = choose|j: int|
                        0 <= j < i && (#[trigger] s_old[j]).path@ == q && s_old[j].kind
                            == FsKind::Dir;
                    assert(s_new[j] == s_old[j]);
                } else {
                    assert(s_new[i].path@ == p@);
                    assert(is_dir_at(old(self)@, p@.drop_last()));
                    let jp = choose|jp: int|
                        0 <= jp < s_old.len() && s_old[jp].path@ == p@.drop_last();
                    assert(old(self)@[p@.drop_last()] == s_old[jp].kind);
                    if q.len() == p@.len() - 1 {
                        assert(q =~= p@.drop_last());
                        assert(s_new[jp] == s_old[jp]);
                        assert(s_new[jp].path@ == q);
                    } else {
                        assert(q =~= p@.drop_last().subrange(0, q.len() as int));
                        assert(q.is_prefix_of(s_old[jp].path@));
                        let j2 = choose|j2: int|
                            0 <= j2 < jp && (#[trigger] s_old[j2]).path@ == q && s_old[j2].kind
                                == FsKind::Dir;
                        assert(s_new[j2] == s_old[j2]);
                        assert(s_new[j2].path@ == q);
                    }
                }
            }
            assert(entries_closed(s_new));
        }
    }
}

} // verus!
