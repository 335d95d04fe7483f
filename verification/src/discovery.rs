//! Package discovery: find every directory of the snapshot that is a
//! package root, walking depth-first but never descending into a
//! directory named `src`, so that a package's own source tree is not
//! searched for further packages.

use vstd::prelude::*;

use crate::fs_model::Fs;
use crate::fs_model::FsKind;
use crate::fs_model::FsMap;
use crate::fs_model::FsPath;
use crate::fs_model::is_dir_at;
use crate::fs_model::is_file_at;
use crate::fs_model::listing_closed;
use crate::fs_model::string_is;

verus! {

/// Name of the source subdirectory the walk never descends into.
pub open spec fn src_dir_name() -> Seq<char> {
    "src"@
}

/// Name of the manifest file marking a package root.
pub open spec fn manifest_file_name() -> Seq<char> {
    "Cargo.toml"@
}

/// The walk starting at the root reaches `p`: every step goes through a
/// directory, and no step enters a component named `src`.
pub open spec fn visited_dir(m: FsMap, p: Seq<Seq<char>>) -> bool {
    forall|j: int| #![trigger p[j]] 0 <= j < p.len() ==> p[j] != src_dir_name() && is_dir_at(m, p.take(j + 1))
}

/// `p` holds a manifest file and a source subdirectory.
pub open spec fn is_pkg_root(m: FsMap, p: Seq<Seq<char>>) -> bool {
    is_file_at(m, p.push(manifest_file_name())) && is_dir_at(m, p.push(src_dir_name()))
}

/// `p` is reported by the discovery walk.
pub open spec fn discovered(m: FsMap, p: Seq<Seq<char>>) -> bool {
    visited_dir(m, p) && is_pkg_root(m, p)
}

/// The views of a list of paths.
pub open spec fn paths_view(s: Seq<FsPath>) -> Seq<Seq<Seq<char>>> {
    Seq::new(s.len(), |i: int| s[i]@)
}

/// No path occurs twice.
pub open spec fn distinct_paths(ps: Seq<Seq<Seq<char>>>) -> bool {
    forall|i: int, j: int| 0 <= i < j < ps.len() ==> ps[i] != ps[j]
}

/// Every listed path is a discovered package root.
pub open spec fn all_discovered(m: FsMap, ps: Seq<Seq<Seq<char>>>) -> bool {
    forall|i: int| 0 <= i < ps.len() ==> discovered(m, #[trigger] ps[i])
}

/// An ancestor root is listed before every root below it: each root is
/// reported before the walk descends.
pub open spec fn ancestors_first(ps: Seq<Seq<Seq<char>>>) -> bool {
    forall|i: int, j: int|
        0 <= i < j < ps.len() ==> !(#[trigger] ps[j]).is_prefix_of(#[trigger] ps[i])
}

/// Every discovered package root is listed.
pub open spec fn covers_discovered(m: FsMap, ps: Seq<Seq<Seq<char>>>) -> bool {
    forall|q: Seq<Seq<char>>| #[trigger] discovered(m, q) ==> ps.contains(q)
}

/// Collects the package roots of a snapshot.
pub struct CratesScanner(pub(crate) Vec<FsPath>);

impl View for CratesScanner {
    type V = Seq<Seq<Seq<char>>>;

    closed spec fn view(&self) -> Seq<Seq<Seq<char>>> {
        paths_view(self.0@)
    }
}

impl Default for CratesScanner {
    fn default() -> (r: Self)
        ensures
            r@ == Seq::<Seq<Seq<char>>>::empty(),
    {
        let r = CratesScanner(Vec::new());
        proof {
            assert(r@ =~= Seq::<Seq<Seq<char>>>::empty());
        }
        r
    }
}

/// Whether `p` holds a manifest file and a source subdirectory.
fn pkg_root_here(fs: &Fs, p: &FsPath) -> (r: bool)
    requires
        fs.wf(),
    ensures
        r == is_pkg_root(fs@, p@),
{
    let mut manifest = p.clone();
    manifest.push_segment("Cargo.toml".to_owned());
    if !fs.is_file(&manifest) {
        return false;
    }
    let mut src = p.clone();
    src.push_segment("src".to_owned());
    fs.is_dir(&src)
}

/// Whether the walk reaches `p`.
fn walk_reaches(fs: &Fs, p: &FsPath) -> (r: bool)
    requires
        fs.wf(),
    ensures
        r == visited_dir(fs@, p@),
{
    let mut prefix = FsPath::root();
    let mut k: usize = 0;
    while k < p.segments.len()
        invariant
            fs.wf(),
            k <= p.segments.len(),
            prefix@ == p@.take(k as int),
            forall|j: int| #![trigger p@[j]]
                0 <= j < k as int ==> p@[j] != src_dir_name() && is_dir_at(
                    fs@,
                    p@.take(j + 1),
                ),
        decreases p.segments.len() - k,
    {
        let seg = p.segments[k].clone();
        proof {
            assert(seg@ == p@[k as int]);
        }
        if string_is(&seg, "src") {
            proof {
                assert(!visited_dir(fs@, p@)) by {
                    if visited_dir(fs@, p@) {
                        assert(p@[k as int] != src_dir_name());
                        assert(false);
                    }
                }
            }
            return false;
        }
        prefix.push_segment(seg);
        proof {
            assert(prefix@ =~= p@.take(k as int + 1));
        }
        if !fs.is_dir(&prefix) {
            proof {
                assert(!visited_dir(fs@, p@)) by {
                    if visited_dir(fs@, p@) {
                        assert(p@[k as int] != src_dir_name());
                        assert(is_dir_at(fs@, p@.take(k as int + 1)));
                        assert(false);
                    }
                }
            }
            return false;
        }
        proof {
            assert forall|j: int| #![trigger p@[j]] 0 <= j < k as int + 1 implies (p@[j]
                != src_dir_name() && is_dir_at(fs@, p@.take(j + 1))) by {
                if j == k as int {
                    assert(p@[j] == seg@);
                    assert(p@.take(j + 1) =~= prefix@);
                    assert(p@[j] != src_dir_name());
                    assert(is_dir_at(fs@, p@.take(j + 1)));
                } else {
                    assert(0 <= j < k as int);
                    assert(p@[j] != src_dir_name());
                    assert(is_dir_at(fs@, p@.take(j + 1)));
                }
            }
        }
        k = k + 1;
    }
    proof {
        assert(p@.len() == p.segments@.len());
    }
    true
}

impl CratesScanner {
    /// Walks the snapshot and appends every package root: a directory with
    /// a manifest file and a source subdirectory, reachable without ever
    /// stepping into a directory named `src`. The appended paths are
    /// exactly the discovered roots, each listed once.
    pub fn scan(&mut self, fs: &Fs)
        requires
            fs.wf(),
        ensures
            final(self)@.len() >= old(self)@.len(),
            forall|i: int| 0 <= i < old(self)@.len() ==> final(self)@[i] == old(self)@[i],
            all_discovered(fs@, final(self)@.skip(old(self)@.len() as int)),
            covers_discovered(fs@, final(self)@.skip(old(self)@.len() as int)),
            distinct_paths(final(self)@.skip(old(self)@.len() as int)),
            ancestors_first(final(self)@.skip(old(self)@.len() as int)),
    {
        let ghost m = fs@;
        let ghost n0 = self.0@.len() as int;
        proof {
            fs.lemma_view_facts();
            assert(visited_dir(m, Seq::<Seq<char>>::empty()));
        }
        let root = FsPath::root();
        if pkg_root_here(fs, &root) {
            let ghost before = self@;
            self.0.push(root);
            proof {
                assert(self@ =~= before.push(Seq::<Seq<char>>::empty()));
                assert(before.skip(n0) =~= Seq::<Seq<Seq<char>>>::empty());
                assert(self@.skip(n0) =~= before.skip(n0).push(Seq::<Seq<char>>::empty()));
                assert(self@.skip(n0)[0] == Seq::<Seq<char>>::empty());
                assert(self@.skip(n0).contains(Seq::<Seq<char>>::empty()));
            }
        }
        let mut idx: usize = 0;
        let n = fs.entry_count();
        while idx < n
            invariant
                fs.wf(),
                m == fs@,
                n as int == fs.entry_views().len(),
                idx <= n,
                self.0@.len() >= n0 >= 0,
                forall|i: int| 0 <= i < n0 ==> self.0@[i] == old(self).0@[i],
                all_discovered(m, self@.skip(n0)),
                distinct_paths(self@.skip(n0)),
                ancestors_first(self@.skip(n0)),
                forall|j: int|
                    n0 <= j < self@.len() ==> self@[j].len() == 0 || exists|k: int|
                        0 <= k < idx as int && (#[trigger] fs.entry_views()[k]).0 == self@[j],
                discovered(m, Seq::<Seq<char>>::empty()) ==> self@.skip(n0).contains(
                    Seq::<Seq<char>>::empty(),
                ),
                forall|k: int|
                    0 <= k < idx as int && discovered(m, (#[trigger] fs.entry_views()[k]).0)
                        ==> self@.skip(n0).contains(fs.entry_views()[k].0),
            decreases n - idx,
        {
            proof {
                fs.lemma_view_facts();
            }
            let (path, kind) = fs.entry_at(idx);
            if kind == FsKind::Dir && walk_reaches(fs, &path) && pkg_root_here(fs, &path) {
                let ghost before = self@;
                self.0.push(path);
                proof {
                    assert(self@ =~= before.push(fs.entry_views()[idx as int].0));
                    assert(self@.skip(n0) =~= before.skip(n0).push(
                        fs.entry_views()[idx as int].0,
                    ));
                    assert forall|q: Seq<Seq<char>>| before.skip(n0).contains(
                        q,
                    ) implies self@.skip(n0).contains(q) by {
                        let j = choose|j: int|
                            0 <= j < before.skip(n0).len() && before.skip(n0)[j] == q;
                        assert(self@.skip(n0)[j] == q);
                    }
                    let added = self@.skip(n0);
                    assert forall|j: int|
                        n0 <= j < self@.len() implies self@[j].len() == 0 || exists|k: int|
                        0 <= k < idx as int + 1 && (#[trigger] fs.entry_views()[k]).0
                            == self@[j] by {
                        if j < self@.len() - 1 {
                            assert(self@[j] == before[j]);
                        } else {
                            assert((fs.entry_views()[idx as int]).0 == self@[j]);
                        }
                    }
                    assert forall|i: int, j: int| 0 <= i < j < added.len() implies added[i]
                        != added[j] by {
                        if j == added.len() - 1 {
                            if added[i].len() == 0 {
                                assert(fs.entry_views()[idx as int].0.len() > 0);
                            } else {
                                let k = choose|k: int|
                                    0 <= k < idx as int && (#[trigger] fs.entry_views()[k]).0
                                        == before.skip(n0)[i];
                                assert(fs.entry_views()[k].0 != fs.entry_views()[idx as int].0);
                            }
                        }
                    }
                    assert forall|x: int, y: int|
                        0 <= x < y < self@.skip(n0).len() implies !(#[trigger] self@.skip(n0)[y]).is_prefix_of(
                        #[trigger] self@.skip(n0)[x],
                    ) by {
                        if y < self@.skip(n0).len() - 1 {
                            assert(self@.skip(n0)[x] == before.skip(n0)[x]);
                            assert(self@.skip(n0)[y] == before.skip(n0)[y]);
                        } else {
                            let pnew = fs.entry_views()[idx as int].0;
                            assert(self@.skip(n0)[y] == pnew);
                            let a = self@.skip(n0)[x];
                            assert(a == before.skip(n0)[x]);
                            assert(a == before[n0 + x]);
                            if pnew.is_prefix_of(a) {
                                assert(pnew.len() > 0);
                                assert(a.len() > 0);
                                let k_i = choose|k: int|
                                    0 <= k < idx as int && (#[trigger] fs.entry_views()[k]).0
                                        == before[n0 + x];
                                if pnew.len() == a.len() {
                                    assert(pnew =~= a);
                                    assert(fs.entry_views()[k_i].0 != fs.entry_views()[idx as int].0);
                                    assert(false);
                                } else {
                                    assert(pnew.is_prefix_of(fs.entry_views()[k_i].0));
                                    assert(1 <= pnew.len() < fs.entry_views()[k_i].0.len());
                                    let j2 = choose|j2: int|
                                        0 <= j2 < k_i && (#[trigger] fs.entry_views()[j2]).0 == pnew
                                            && fs.entry_views()[j2].1 == FsKind::Dir;
                                    assert(fs.entry_views()[j2].0
                                        != fs.entry_views()[idx as int].0);
                                    assert(false);
                                }
                            }
                        }
                    }
                    assert(ancestors_first(self@.skip(n0)));
                    assert forall|k: int|
                        0 <= k < idx as int + 1 && discovered(
                            m,
                            (#[trigger] fs.entry_views()[k]).0,
                        ) implies self@.skip(n0).contains(fs.entry_views()[k].0) by {
                        if k < idx as int {
                            let jj = choose|jj: int|
                                0 <= jj < before.skip(n0).len() && before.skip(n0)[jj]
                                    == fs.entry_views()[k].0;
                            assert(self@.skip(n0)[jj] == fs.entry_views()[k].0);
                        } else {
                            assert(self@.skip(n0)[self@.skip(n0).len() - 1]
                                == fs.entry_views()[idx as int].0);
                        }
                    }
                }
            } else {
                proof {
                    let p = fs.entry_views()[idx as int];
                    if discovered(m, p.0) {
                        assert(p.0[p.0.len() - 1] == p.0.last());
                        assert(is_dir_at(m, p.0.take(p.0.len() - 1 + 1)));
                        assert(p.0.take(p.0.len() - 1 + 1) =~= p.0);
                        assert(m[p.0] == p.1);
                        assert(p.1 == FsKind::Dir);
                        assert(visited_dir(m, path@));
                        assert(is_pkg_root(m, path@));
                        assert(false);
                    }
                }
            }
            idx = idx + 1;
        }
        proof {
            fs.lemma_view_facts();
            let added = self@.skip(n0);
            assert forall|q: Seq<Seq<char>>| #[trigger] discovered(m, q) implies added.contains(
                q,
            ) by {
                if q.len() == 0 {
                    assert(q =~= Seq::<Seq<char>>::empty());
                } else {
                    assert(q[q.len() - 1] == q.last());
                    assert(is_dir_at(m, q.take(q.len() - 1 + 1)));
                    assert(q.take(q.len() - 1 + 1) =~= q);
                    assert(m.contains_key(q));
                    let k = choose|k: int|
                        0 <= k < fs.entry_views().len() && (#[trigger] fs.entry_views()[k]).0 == q;
                    assert(added.contains(fs.entry_views()[k].0));
                }
            }
        }
    }

    /// Hands the collected package roots out.
    pub fn into_inner(self) -> (r: Vec<FsPath>)
        ensures
            paths_view(r@) == self@,
    {
        self.0
    }
}

} // verus!
