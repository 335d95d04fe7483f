//! Flat-module scanning: inside each package's source subtree, find every
//! file `foo.rs` with a sibling directory `foo/` that does not yet hold a
//! root file `foo/mod.rs`, and pair it with that destination.

use vstd::prelude::*;
use vstd::string::*;

use crate::discovery::CratesScanner;
use crate::discovery::all_discovered;
use crate::discovery::ancestors_first;
use crate::discovery::covers_discovered;
use crate::discovery::discovered;
use crate::discovery::distinct_paths;
use crate::discovery::paths_view;
use crate::discovery::src_dir_name;
use crate::discovery::visited_dir;
use crate::fs_model::Fs;
use crate::fs_model::FsKind;
use crate::fs_model::FsMap;
use crate::fs_model::FsPath;
use crate::fs_model::is_dir_at;
use crate::fs_model::is_file_at;
use crate::fs_model::string_is;

verus! {

/// Name of a directory's canonical root file.
pub open spec fn mod_rs_name() -> Seq<char> {
    "mod.rs"@
}

/// The stem reserved for a root file.
pub open spec fn mod_stem() -> Seq<char> {
    "mod"@
}

/// `name` ends in the source extension `.rs`, with a nonempty stem.
pub open spec fn has_rs_extension(name: Seq<char>) -> bool {
    name.len() >= 4 && name[name.len() - 3] == '.' && name[name.len() - 2] == 'r' && name[name.len()
        - 1] == 's'
}

/// `name` without its three-character extension.
pub open spec fn stem_of(name: Seq<char>) -> Seq<char> {
    name.take(name.len() - 3)
}

/// `name` is a source file that may play the role of a flat module.
pub open spec fn rust_module_file(name: Seq<char>) -> bool {
    has_rs_extension(name) && stem_of(name) != mod_stem()
}

/// The directory, next to the file at `p`, named after its stem.
pub open spec fn sibling_of(p: Seq<Seq<char>>) -> Seq<Seq<char>> {
    p.drop_last().push(stem_of(p.last()))
}

/// Where the flat module at `p` would move.
pub open spec fn dst_of(p: Seq<Seq<char>>) -> Seq<Seq<char>> {
    sibling_of(p).push(mod_rs_name())
}

/// The source subtree scanned for a package root.
pub open spec fn base_of(root: Seq<Seq<char>>) -> Seq<Seq<char>> {
    root.push(src_dir_name())
}

/// `p` is an eligible flat module strictly below `base`: a source file
/// whose stem is not reserved, whose sibling directory exists, and whose
/// destination root file does not.
pub open spec fn is_module_candidate(m: FsMap, base: Seq<Seq<char>>, p: Seq<Seq<char>>) -> bool {
    &&& is_file_at(m, p)
    &&& base.is_prefix_of(p)
    &&& base.len() < p.len()
    &&& rust_module_file(p.last())
    &&& is_dir_at(m, sibling_of(p))
    &&& !m.contains_key(dst_of(p))
}

/// The views of a list of candidate pairs.
pub open spec fn pairs_view(s: Seq<(FsPath, FsPath)>) -> Seq<(Seq<Seq<char>>, Seq<Seq<char>>)> {
    Seq::new(s.len(), |i: int| (s[i].0@, s[i].1@))
}

/// Some pair in `cs` has `p` as its source.
pub open spec fn contains_src(cs: Seq<(Seq<Seq<char>>, Seq<Seq<char>>)>, p: Seq<Seq<char>>) -> bool {
    exists|j: int| 0 <= j < cs.len() && (#[trigger] cs[j]).0 == p
}

/// No source path occurs twice among the pairs.
pub open spec fn sources_distinct(cs: Seq<(Seq<Seq<char>>, Seq<Seq<char>>)>) -> bool {
    forall|i: int, j: int| 0 <= i < j < cs.len() ==> (#[trigger] cs[i]).0 != (#[trigger] cs[j]).0
}

/// Every pair is an eligible candidate below `base`, paired with its
/// computed destination.
pub open spec fn cands_sound(
    m: FsMap,
    base: Seq<Seq<char>>,
    cs: Seq<(Seq<Seq<char>>, Seq<Seq<char>>)>,
) -> bool {
    forall|i: int|
        0 <= i < cs.len() ==> is_module_candidate(m, base, (#[trigger] cs[i]).0) && cs[i].1
            == dst_of(cs[i].0)
}

/// Every eligible candidate below `base` appears among the pairs.
pub open spec fn cands_complete(
    m: FsMap,
    base: Seq<Seq<char>>,
    cs: Seq<(Seq<Seq<char>>, Seq<Seq<char>>)>,
) -> bool {
    forall|p: Seq<Seq<char>>|
        #[trigger] is_module_candidate(m, base, p) ==> contains_src(cs, p)
}

/// No path is an eligible candidate below two different listed roots.
pub open spec fn no_shared_candidates(m: FsMap, roots: Seq<FsPath>) -> bool {
    forall|k: int, l: int, p: Seq<Seq<char>>|
        #![trigger is_module_candidate(m, base_of(roots[k]@), p), is_module_candidate(m, base_of(roots[l]@), p)]
        0 <= k < l < roots.len() && is_module_candidate(m, base_of(roots[k]@), p)
            ==> !is_module_candidate(m, base_of(roots[l]@), p)
}

/// `bounds` cuts a candidate list of length `upto` into `n` consecutive
/// blocks: block `x` is the index range `bounds[x]..bounds[x+1]`.
pub open spec fn block_bounds(n: int, upto: int, bounds: Seq<int>) -> bool {
    &&& bounds.len() == n + 1
    &&& 0 <= n
    &&& bounds[0] == 0
    &&& bounds[n] == upto
    &&& forall|x: int| 0 <= x <= n ==> 0 <= #[trigger] bounds[x] <= upto
    &&& forall|x: int| 0 <= x < n ==> #[trigger] bounds[x] <= bounds[x + 1]
}

/// Root `x`'s block of the candidate list.
pub open spec fn crate_block(
    cs: Seq<(Seq<Seq<char>>, Seq<Seq<char>>)>,
    bounds: Seq<int>,
    x: int,
) -> Seq<(Seq<Seq<char>>, Seq<Seq<char>>)> {
    cs.subrange(bounds[x], bounds[x + 1])
}

/// The candidate list is one contiguous block per listed root, in
/// root-list order; each block holds exactly (sound, complete, each
/// source once) the eligible flat modules below that root's source
/// subtree.
pub open spec fn grouped_by_roots(
    m: FsMap,
    roots: Seq<Seq<Seq<char>>>,
    cs: Seq<(Seq<Seq<char>>, Seq<Seq<char>>)>,
) -> bool {
    exists|bounds: Seq<int>|
        block_bounds(roots.len() as int, cs.len() as int, bounds) && (forall|x: int|
            0 <= x < roots.len() ==> (cands_sound(
                m,
                base_of(#[trigger] roots[x]),
                crate_block(cs, bounds, x),
            ) && cands_complete(m, base_of(roots[x]), crate_block(cs, bounds, x))
                && sources_distinct(crate_block(cs, bounds, x))))
}

/// A successful full scan's candidate list, beyond being exactly the
/// eligible set: it is grouped into one block per discovered root, the
/// roots listed each once, ancestors first, every discovered root among
/// them.
pub open spec fn scan_result_ordered(m: FsMap, cs: Seq<(Seq<Seq<char>>, Seq<Seq<char>>)>) -> bool {
    exists|roots: Seq<Seq<Seq<char>>>|
        all_discovered(m, roots) && covers_discovered(m, roots) && distinct_paths(roots)
            && ancestors_first(roots) && #[trigger] grouped_by_roots(m, roots, cs)
}

/// The error of a full scan: no package root anywhere under the root.
#[derive(Clone, Copy, PartialEq, Eq, Structural, Debug)]
pub enum ScanError {
    NotFound,
}

/// Whether the file name carries the source extension.
pub fn is_rust_file(name: &String) -> (r: bool)
    ensures
        r == has_rs_extension(name@),
{
    let n = name.as_str().unicode_len();
    if n < 4 {
        return false;
    }
    let c1 = name.as_str().get_char(n - 3);
    let c2 = name.as_str().get_char(n - 2);
    let c3 = name.as_str().get_char(n - 1);
    c1 == '.' && c2 == 'r' && c3 == 's'
}

/// The stem of an eligible flat-module file name, or nothing when the
/// name lacks the extension or carries the reserved stem.
fn get_stem_rs(name: &String) -> (r: Option<String>)
    ensures
        match r {
            Option::Some(stem) => rust_module_file(name@) && stem@ == stem_of(name@),
            Option::None => !rust_module_file(name@),
        },
{
    if !is_rust_file(name) {
        return None;
    }
    let n = name.as_str().unicode_len();
    let stem = name.as_str().substring_char(0, n - 3).to_owned();
    proof {
        assert(stem@ =~= stem_of(name@));
    }
    if string_is(&stem, "mod") {
        None
    } else {
        Some(stem)
    }
}

/// Whether `base` is a proper prefix of `p`.
fn is_proper_prefix(base: &FsPath, p: &FsPath) -> (r: bool)
    ensures
        r == (base@.is_prefix_of(p@) && base@.len() < p@.len()),
{
    if base.segments.len() >= p.segments.len() {
        return false;
    }
    let mut j: usize = 0;
    while j < base.segments.len()
        invariant
            j <= base.segments.len(),
            base.segments@.len() < p.segments@.len(),
            forall|i: int| 0 <= i < j as int ==> base@[i] == p@[i],
        decreases base.segments.len() - j,
    {
        if !base.segments[j].eq(&p.segments[j]) {
            proof {
                assert(base@[j as int] == base.segments@[j as int]@);
                assert(p@[j as int] == p.segments@[j as int]@);
                assert(base@[j as int] != p@.subrange(0, base@.len() as int)[j as int]);
            }
            return false;
        }
        j = j + 1;
    }
    proof {
        assert(base@ =~= p@.subrange(0, base@.len() as int));
    }
    true
}

/// Collects eligible flat modules, paired with their destinations.
pub struct FlatModuleScanner(pub(crate) Vec<(FsPath, FsPath)>);

impl View for FlatModuleScanner {
    type V = Seq<(Seq<Seq<char>>, Seq<Seq<char>>)>;

    closed spec fn view(&self) -> Seq<(Seq<Seq<char>>, Seq<Seq<char>>)> {
        pairs_view(self.0@)
    }
}

impl Default for FlatModuleScanner {
    fn default() -> (r: Self)
        ensures
            r@ == Seq::<(Seq<Seq<char>>, Seq<Seq<char>>)>::empty(),
    {
        let r = FlatModuleScanner(Vec::new());
        proof {
            assert(r@ =~= Seq::<(Seq<Seq<char>>, Seq<Seq<char>>)>::empty());
        }
        r
    }
}

impl FlatModuleScanner {
    /// Appends every eligible flat module strictly below `base`, each one
    /// once, paired with its destination.
    fn scan(&mut self, fs: &Fs, base: &FsPath)
        requires
            fs.wf(),
        ensures
            final(self)@.len() >= old(self)@.len(),
            forall|i: int| 0 <= i < old(self)@.len() ==> final(self)@[i] == old(self)@[i],
            cands_sound(fs@, base@, final(self)@.skip(old(self)@.len() as int)),
            cands_complete(fs@, base@, final(self)@.skip(old(self)@.len() as int)),
            sources_distinct(final(self)@.skip(old(self)@.len() as int)),
    {
        let ghost m = fs@;
        let ghost n0 = self.0@.len() as int;
        let mut idx: usize = 0;
        let n = fs.entry_count();
        while idx < n
            invariant
                fs.wf(),
                m == fs@,
                n as int == fs.entry_views().len(),
                idx <= n,
                self@.len() >= n0 >= 0,
                forall|i: int| 0 <= i < n0 ==> self@[i] == old(self)@[i],
                cands_sound(m, base@, self@.skip(n0)),
                sources_distinct(self@.skip(n0)),
                forall|j: int| #![trigger self@[j]]
                    n0 <= j < self@.len() ==> exists|k2: int|
                        0 <= k2 < idx as int && (#[trigger] fs.entry_views()[k2]).0 == self@[j].0,
                forall|k2: int|
                    0 <= k2 < idx as int && is_module_candidate(
                        m,
                        base@,
                        (#[trigger] fs.entry_views()[k2]).0,
                    ) ==> contains_src(self@.skip(n0), fs.entry_views()[k2].0),
            decreases n - idx,
        {
            proof {
                fs.lemma_view_facts();
            }
            let (path, kind) = fs.entry_at(idx);
            let ghost pv = fs.entry_views()[idx as int].0;
            if kind == FsKind::File && is_proper_prefix(base, &path) {
                let name_idx = path.segments.len() - 1;
                proof {
                    assert(path@.len() == path.segments@.len());
                    assert(path@[name_idx as int] == path.segments@[name_idx as int]@);
                    assert(path@.last() == pv.last());
                }
                match get_stem_rs(&path.segments[name_idx]) {
                    Some(stem) => {
                        proof {
                            assert(stem@ == stem_of(pv.last()));
                        }
                        let mut sibling = path.clone();
                        sibling.pop_segment();
                        sibling.push_segment(stem);
                        proof {
                            assert(sibling@ =~= sibling_of(pv));
                        }
                        if fs.is_dir(&sibling) {
                            let mut dstp = sibling;
                            dstp.push_segment("mod.rs".to_owned());
                            proof {
                                assert(dstp@ =~= dst_of(pv));
                            }
                            if !fs.has_entry(&dstp) {
                                proof {
                                    assert(is_module_candidate(m, base@, pv));
                                }
                                let ghost before = self@;
                                self.0.push((path, dstp));
                                proof {
                                    assert(self@ =~= before.push((pv, dst_of(pv))));
                                    assert(self@.skip(n0) =~= before.skip(n0).push(
                                        (pv, dst_of(pv)),
                                    ));
                                    assert forall|q: Seq<Seq<char>>|
                                        contains_src(before.skip(n0), q) implies contains_src(
                                        self@.skip(n0),
                                        q,
                                    ) by {
                                        let j = choose|j: int|
                                            0 <= j < before.skip(n0).len() && (#[trigger] before.skip(
                                                n0,
                                            )[j]).0 == q;
                                        assert((self@.skip(n0)[j]).0 == q);
                                    }
                                    assert((self@.skip(n0)[self@.skip(n0).len() - 1]).0 == pv);
                                    assert(contains_src(self@.skip(n0), pv));
                                    assert forall|i: int, j: int|
                                        0 <= i < j < self@.skip(n0).len() implies (#[trigger] self@.skip(
                                        n0,
                                    )[i]).0 != (#[trigger] self@.skip(n0)[j]).0 by {
                                        if j == self@.skip(n0).len() - 1 {
                                            assert(self@[n0 + i] == before[n0 + i]);
                                            let k2 = choose|k2: int|
                                                0 <= k2 < idx as int && (#[trigger] fs.entry_views()[k2]).0
                                                    == before[n0 + i].0;
                                            assert(fs.entry_views()[k2].0
                                                != fs.entry_views()[idx as int].0);
                                        }
                                    }
                                }
                            } else {
                                proof {
                                    assert(!is_module_candidate(m, base@, pv));
                                }
                            }
                        } else {
                            proof {
                                assert(!is_module_candidate(m, base@, pv));
                            }
                        }
                    },
                    None => {
                        proof {
                            assert(!is_module_candidate(m, base@, pv));
                        }
                    },
                }
            } else {
                proof {
                    if is_module_candidate(m, base@, pv) {
                        assert(m.contains_key(pv) && m[pv] == FsKind::File);
                        assert(m[pv] == fs.entry_views()[idx as int].1);
                        assert(base@.is_prefix_of(pv) && base@.len() < pv.len());
                        assert(false);
                    }
                }
            }
            idx = idx + 1;
        }
        proof {
            fs.lemma_view_facts();
            assert forall|p: Seq<Seq<char>>| #[trigger] is_module_candidate(
                m,
                base@,
                p,
            ) implies contains_src(self@.skip(n0), p) by {
                assert(m.contains_key(p));
                let k = choose|k: int|
                    0 <= k < fs.entry_views().len() && (#[trigger] fs.entry_views()[k]).0 == p;
                assert(is_module_candidate(m, base@, fs.entry_views()[k].0));
            }
        }
    }

    /// Scans the source subtree of each listed package root in turn.
    pub fn scan_crates(&mut self, fs: &Fs, crates: &[FsPath])
        requires
            fs.wf(),
        ensures
            final(self)@.len() >= old(self)@.len(),
            forall|i: int| 0 <= i < old(self)@.len() ==> final(self)@[i] == old(self)@[i],
            forall|i: int|
                old(self)@.len() <= i < final(self)@.len() ==> ((#[trigger] final(self)@[i]).1
                    == dst_of(final(self)@[i].0) && exists|k: int|
                    0 <= k < crates@.len() && is_module_candidate(
                        fs@,
                        base_of((#[trigger] crates@[k])@),
                        final(self)@[i].0,
                    )),
            forall|k: int, p: Seq<Seq<char>>|
                #![trigger is_module_candidate(fs@, base_of(crates@[k]@), p)]
                0 <= k < crates@.len() && is_module_candidate(fs@, base_of(crates@[k]@), p)
                    ==> contains_src(final(self)@.skip(old(self)@.len() as int), p),
            no_shared_candidates(fs@, crates@) ==> sources_distinct(
                final(self)@.skip(old(self)@.len() as int),
            ),
            grouped_by_roots(fs@, paths_view(crates@), final(self)@.skip(old(self)@.len() as int)),
    {
        let ghost m = fs@;
        let ghost n0 = self.0@.len() as int;
        let ghost mut bounds: Seq<int> = Seq::<int>::empty().push(0);
        let mut k: usize = 0;
        while k < crates.len()
            invariant
                fs.wf(),
                m == fs@,
                k <= crates@.len(),
                self@.len() >= n0 >= 0,
                forall|i: int| 0 <= i < n0 ==> self@[i] == old(self)@[i],
                forall|i: int|
                    n0 <= i < self@.len() ==> ((#[trigger] self@[i]).1 == dst_of(self@[i].0)
                        && exists|k2: int|
                        0 <= k2 < k as int && is_module_candidate(
                            m,
                            base_of((#[trigger] crates@[k2])@),
                            self@[i].0,
                        )),
                forall|k2: int, p: Seq<Seq<char>>|
                    #![trigger is_module_candidate(m, base_of(crates@[k2]@), p)]
                    0 <= k2 < k as int && is_module_candidate(m, base_of(crates@[k2]@), p)
                        ==> contains_src(self@.skip(n0), p),
                no_shared_candidates(m, crates@) ==> sources_distinct(self@.skip(n0)),
                bounds.len() == k as int + 1,
                bounds[0] == 0,
                bounds[k as int] == self@.len() - n0,
                forall|x: int| 0 <= x <= k as int ==> 0 <= #[trigger] bounds[x] <= self@.len() - n0,
                forall|x: int| 0 <= x < k as int ==> #[trigger] bounds[x] <= bounds[x + 1],
                forall|x: int|
                    0 <= x < k as int ==> (cands_sound(
                        m,
                        base_of(crates@[x]@),
                        #[trigger] crate_block(self@.skip(n0), bounds, x),
                    ) && cands_complete(m, base_of(crates@[x]@), crate_block(self@.skip(n0), bounds, x))
                        && sources_distinct(crate_block(self@.skip(n0), bounds, x))),
            decreases crates@.len() - k,
        {
            let mut base = crates[k].clone();
            base.push_segment("src".to_owned());
            proof {
                assert(base@ == base_of(crates@[k as int]@));
            }
            let ghost mid = self@;
            self.scan(fs, &base);
            let ghost bprev = bounds;
            proof {
                bounds = bprev.push(self@.len() - n0);
                let batch = self@.skip(mid.len() as int);
                assert forall|i: int| n0 <= i < self@.len() implies ((#[trigger] self@[i]).1
                    == dst_of(self@[i].0) && exists|k2: int|
                    0 <= k2 < k as int + 1 && is_module_candidate(
                        m,
                        base_of((#[trigger] crates@[k2])@),
                        self@[i].0,
                    )) by {
                    if i < mid.len() {
                        assert(self@[i] == mid[i]);
                        assert((mid[i]).1 == dst_of(mid[i].0));
                        let k2 = choose|k2: int|
                            0 <= k2 < k as int && is_module_candidate(
                                m,
                                base_of((#[trigger] crates@[k2])@),
                                mid[i].0,
                            );
                        assert(is_module_candidate(m, base_of(crates@[k2]@), self@[i].0));
                    } else {
                        assert(batch[i - mid.len()] == self@[i]);
                        assert(is_module_candidate(m, base@, self@[i].0));
                        assert(self@[i].1 == dst_of(self@[i].0));
                        assert(is_module_candidate(m, base_of(crates@[k as int]@), self@[i].0));
                    }
                }
                assert forall|k2: int, p: Seq<Seq<char>>|
                    #![trigger is_module_candidate(m, base_of(crates@[k2]@), p)]
                    0 <= k2 < k as int + 1 && is_module_candidate(m, base_of(crates@[k2]@), p)
                        implies contains_src(self@.skip(n0), p) by {
                    if k2 < k as int {
                        let j = choose|j: int|
                            0 <= j < mid.skip(n0).len() && (#[trigger] mid.skip(n0)[j]).0 == p;
                        assert((self@.skip(n0)[j]).0 == p);
                    } else {
                        assert(is_module_candidate(m, base@, p));
                        let j = choose|j: int|
                            0 <= j < batch.len() && (#[trigger] batch[j]).0 == p;
                        assert((self@.skip(n0)[mid.len() - n0 + j]).0 == p);
                    }
                }
                if no_shared_candidates(m, crates@) {
                    assert forall|i: int, j: int|
                        0 <= i < j < self@.skip(n0).len() implies (#[trigger] self@.skip(
                        n0,
                    )[i]).0 != (#[trigger] self@.skip(n0)[j]).0 by {
                        let a = n0 + i;
                        let b = n0 + j;
                        if b < mid.len() {
                            assert(mid.skip(n0)[i] == self@.skip(n0)[i]);
                            assert(mid.skip(n0)[j] == self@.skip(n0)[j]);
                            assert((mid.skip(n0)[i]).0 != (mid.skip(n0)[j]).0);
                        } else if a >= mid.len() {
                            assert(batch[a - mid.len()] == self@[a]);
                            assert(batch[b - mid.len()] == self@[b]);
                            assert((batch[a - mid.len()]).0 != (batch[b - mid.len()]).0);
                        } else {
                            assert(self@[a] == mid[a]);
                            let k2 = choose|k2: int|
                                0 <= k2 < k as int && is_module_candidate(
                                    m,
                                    base_of((#[trigger] crates@[k2])@),
                                    mid[a].0,
                                );
                            assert(batch[b - mid.len()] == self@[b]);
                            assert(is_module_candidate(m, base_of(crates@[k as int]@), self@[b].0));
                            if (self@[a]).0 == (self@[b]).0 {
                                assert(is_module_candidate(
                                    m,
                                    base_of(crates@[k2]@),
                                    self@[b].0,
                                ));
                                assert(false);
                            }
                        }
                    }
                }
                let added_old = mid.skip(n0);
                let added_new = self@.skip(n0);
                assert forall|x: int| 0 <= x < k as int implies (cands_sound(
                    m,
                    base_of(crates@[x]@),
                    #[trigger] crate_block(added_new, bounds, x),
                ) && cands_complete(m, base_of(crates@[x]@), crate_block(added_new, bounds, x))
                    && sources_distinct(crate_block(added_new, bounds, x))) by {
                    assert(bounds[x] == bprev[x]);
                    assert(bounds[x + 1] == bprev[x + 1]);
                    assert(crate_block(added_new, bounds, x) =~= crate_block(added_old, bprev, x));
                    assert(cands_sound(m, base_of(crates@[x]@), crate_block(added_old, bprev, x)));
                    assert(cands_complete(
                        m,
                        base_of(crates@[x]@),
                        crate_block(added_old, bprev, x),
                    ));
                    assert(sources_distinct(crate_block(added_old, bprev, x)));
                }
                assert(crate_block(added_new, bounds, k as int) =~= self@.skip(mid.len() as int));
                assert(cands_sound(m, base@, crate_block(added_new, bounds, k as int)));
                assert(cands_complete(m, base@, crate_block(added_new, bounds, k as int)));
                assert(sources_distinct(crate_block(added_new, bounds, k as int)));
            }
            k = k + 1;
        }
        proof {
            assert(k as int == crates@.len());
            let added = self@.skip(n0);
            let pv = paths_view(crates@);
            assert(block_bounds(pv.len() as int, added.len() as int, bounds));
            assert forall|x: int| 0 <= x < pv.len() implies (cands_sound(
                m,
                base_of(#[trigger] pv[x]),
                crate_block(added, bounds, x),
            ) && cands_complete(m, base_of(pv[x]), crate_block(added, bounds, x))
                && sources_distinct(crate_block(added, bounds, x))) by {
                assert(pv[x] == crates@[x]@);
                assert(cands_sound(m, base_of(crates@[x]@), crate_block(added, bounds, x)));
                assert(cands_complete(m, base_of(crates@[x]@), crate_block(added, bounds, x)));
                assert(sources_distinct(crate_block(added, bounds, x)));
            }
            assert(grouped_by_roots(m, pv, added));
        }
    }

    /// Hands the collected pairs out.
    pub fn into_inner(self) -> (r: Vec<(FsPath, FsPath)>)
        ensures
            pairs_view(r@) == self@,
    {
        self.0
    }
}

/// What a successful full scan guarantees of its candidate list: every
/// pair is an eligible flat module below some discovered package root with
/// its computed destination, every such module appears, and no source is
/// listed twice.
pub open spec fn scan_result_ok(m: FsMap, cs: Seq<(Seq<Seq<char>>, Seq<Seq<char>>)>) -> bool {
    &&& forall|i: int|
        0 <= i < cs.len() ==> ((#[trigger] cs[i]).1 == dst_of(cs[i].0) && exists|r: Seq<Seq<char>>|
            discovered(m, r) && is_module_candidate(m, #[trigger] base_of(r), cs[i].0))
    &&& forall|r: Seq<Seq<char>>, p: Seq<Seq<char>>|
        discovered(m, r) && #[trigger] is_module_candidate(m, base_of(r), p) ==> contains_src(cs, p)
    &&& sources_distinct(cs)
}

/// No two distinct discovered roots share an eligible candidate: one
/// root's source subtree never lies inside another discovered root's.
proof fn lemma_distinct_roots_no_shared(m: FsMap, roots: Seq<FsPath>)
    requires
        all_discovered(m, paths_view(roots)),
        distinct_paths(paths_view(roots)),
    ensures
        no_shared_candidates(m, roots),
{
    assert forall|k: int, l: int, p: Seq<Seq<char>>|
        #![trigger is_module_candidate(m, base_of(roots[k]@), p), is_module_candidate(m, base_of(roots[l]@), p)]
        0 <= k < l < roots.len() && is_module_candidate(m, base_of(roots[k]@), p) implies
        !is_module_candidate(m, base_of(roots[l]@), p) by {
        if is_module_candidate(m, base_of(roots[l]@), p) {
            let r1 = roots[k]@;
            let r2 = roots[l]@;
            assert(paths_view(roots)[k] == r1);
            assert(paths_view(roots)[l] == r2);
            assert(discovered(m, r1));
            assert(discovered(m, r2));
            assert(r1 != r2);
            let b1 = base_of(r1);
            let b2 = base_of(r2);
            assert(b1 =~= p.subrange(0, b1.len() as int));
            assert(b2 =~= p.subrange(0, b2.len() as int));
            if b1.len() == b2.len() {
                assert(b1 =~= b2);
                assert(r1 =~= b1.drop_last());
                assert(r2 =~= b2.drop_last());
                assert(false);
            } else if b1.len() < b2.len() {
                let i = r1.len() as int;
                assert(b1[i] == src_dir_name());
                assert(p[i] == src_dir_name());
                assert(i < r2.len());
                assert(r2[i] == b2[i]);
                assert(r2[i] == src_dir_name());
                assert(visited_dir(m, r2));
                assert(r2[i] != src_dir_name());
                assert(false);
            } else {
                let i = r2.len() as int;
                assert(b2[i] == src_dir_name());
                assert(p[i] == src_dir_name());
                assert(i < r1.len());
                assert(r1[i] == b1[i]);
                assert(r1[i] == src_dir_name());
                assert(visited_dir(m, r1));
                assert(r1[i] != src_dir_name());
                assert(false);
            }
        }
    }
}

/// Runs discovery and then candidate scanning over the whole snapshot.
/// Fails exactly when no package root is discovered; otherwise returns
/// the full candidate list, one pair per eligible flat module.
#[verifier::rlimit(100)]
#[verifier::spinoff_prover]
pub fn scan(fs: &Fs) -> (r: Result<Vec<(FsPath, FsPath)>, ScanError>)
    requires
        fs.wf(),
    ensures
        match r {
            Result::Ok(cs) => (exists|q: Seq<Seq<char>>| discovered(fs@, q)) && scan_result_ok(
                fs@,
                pairs_view(cs@),
            ) && scan_result_ordered(fs@, pairs_view(cs@)),
            Result::Err(e) => e == ScanError::NotFound && (forall|q: Seq<Seq<char>>|
                !discovered(fs@, q)),
        },
{
    let ghost m = fs@;
    let mut crates_scanner = CratesScanner::default();
    crates_scanner.scan(fs);
    let ghost roots = crates_scanner@;
    let crates = crates_scanner.into_inner();
    proof {
        assert(paths_view(crates@) == roots);
        assert(roots.skip(0) =~= roots);
    }
    if crates.is_empty() {
        proof {
            assert forall|q: Seq<Seq<char>>| !discovered(m, q) by {
                if discovered(m, q) {
                    assert(roots.contains(q));
                    let i = choose|i: int| 0 <= i < roots.len() && roots[i] == q;
                    assert(false);
                }
            }
        }
        return Err(ScanError::NotFound);
    }
    let mut modules = FlatModuleScanner::default();
    modules.scan_crates(fs, crates.as_slice());
    proof {
        lemma_distinct_roots_no_shared(m, crates@);
    }
    let result = modules.into_inner();
    proof {
        let cs = pairs_view(result@);
        assert(cs =~= modules@);
        assert(cs.skip(0) =~= cs);
        assert(paths_view(crates@)[0] == crates@[0]@);
        assert(discovered(m, crates@[0]@));
        assert forall|i: int| 0 <= i < cs.len() implies ((#[trigger] cs[i]).1 == dst_of(cs[i].0)
            && exists|r2: Seq<Seq<char>>|
            discovered(m, r2) && is_module_candidate(m, #[trigger] base_of(r2), cs[i].0)) by {
            assert(cs[i] == modules@[i]);
            let k = choose|k: int|
                0 <= k < crates@.len() && is_module_candidate(
                    m,
                    base_of((#[trigger] crates@[k])@),
                    modules@[i].0,
                );
            assert(paths_view(crates@)[k] == crates@[k]@);
            assert(discovered(m, crates@[k]@));
            assert(is_module_candidate(m, base_of(crates@[k]@), cs[i].0));
        }
        assert forall|r2: Seq<Seq<char>>, p: Seq<Seq<char>>|
            discovered(m, r2) && #[trigger] is_module_candidate(m, base_of(r2), p) implies
            contains_src(cs, p) by {
            assert(roots.contains(r2));
            let k = choose|k: int| 0 <= k < roots.len() && roots[k] == r2;
            assert(paths_view(crates@)[k] == crates@[k]@);
            assert(is_module_candidate(m, base_of(crates@[k]@), p));
            assert(contains_src(modules@.skip(0), p));
            let j = choose|j: int|
                0 <= j < modules@.skip(0).len() && (#[trigger] modules@.skip(0)[j]).0 == p;
            assert(cs[j].0 == p);
        }
        assert(sources_distinct(modules@.skip(0)));
        assert forall|i: int, j: int| 0 <= i < j < cs.len() implies (#[trigger] cs[i]).0
            != (#[trigger] cs[j]).0 by {
            assert(modules@.skip(0)[i] == cs[i]);
            assert(modules@.skip(0)[j] == cs[j]);
        }
        assert(all_discovered(m, roots));
        assert(covers_discovered(m, roots));
        assert(distinct_paths(roots));
        assert(ancestors_first(roots));
        assert(modules@.skip(0) =~= modules@);
        assert(cs == modules@);
        assert(grouped_by_roots(m, roots, cs));
        assert(scan_result_ordered(m, cs));
        assert(scan_result_ordered(fs@, pairs_view(result@)));
    }
    Ok(result)
}

} // verus!
