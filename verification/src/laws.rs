//! The guarantees of the pipeline, stated and proved once over the
//! snapshot model: what a scan reports, what it never reports, and that a
//! second scan after migrating everything reports nothing.

use vstd::prelude::*;

use crate::discovery::discovered;
use crate::discovery::is_pkg_root;
use crate::discovery::manifest_file_name;
use crate::discovery::src_dir_name;
use crate::discovery::visited_dir;
use crate::fs_model::FsKind;
use crate::fs_model::FsMap;
use crate::fs_model::is_dir_at;
use crate::fs_model::is_file_at;
use crate::scanner::base_of;
use crate::scanner::contains_src;
use crate::scanner::dst_of;
use crate::scanner::has_rs_extension;
use crate::scanner::is_module_candidate;
use crate::scanner::mod_rs_name;
use crate::scanner::mod_stem;
use crate::scanner::rust_module_file;
use crate::scanner::scan_result_ok;
use crate::scanner::sibling_of;
use crate::scanner::sources_distinct;
use crate::scanner::stem_of;

verus! {

/// Some pair in `cs` has `q` as its destination.
pub open spec fn contains_dst(cs: Seq<(Seq<Seq<char>>, Seq<Seq<char>>)>, q: Seq<Seq<char>>) -> bool {
    exists|j: int| 0 <= j < cs.len() && (#[trigger] cs[j]).1 == q
}

/// The snapshot after the whole candidate list has been migrated, first
/// pair first: each move removes the source and adds the destination file.
pub open spec fn apply_batch(m: FsMap, cs: Seq<(Seq<Seq<char>>, Seq<Seq<char>>)>) -> FsMap
    decreases cs.len(),
{
    if cs.len() == 0 {
        m
    } else {
        apply_batch(m.remove(cs[0].0).insert(cs[0].1, FsKind::File), cs.skip(1))
    }
}

proof fn lemma_mod_rs_facts()
    ensures
        mod_rs_name().len() == 6,
        has_rs_extension(mod_rs_name()),
        stem_of(mod_rs_name()) == mod_stem(),
        !rust_module_file(mod_rs_name()),
{
    broadcast use vstd::string::group_string_axioms;

    reveal_strlit("mod.rs");
    reveal_strlit("mod");
    assert(mod_rs_name().len() == 6);
    assert(stem_of(mod_rs_name()) =~= mod_stem());
}

proof fn lemma_manifest_name_facts()
    ensures
        manifest_file_name().len() == 10,
        !has_rs_extension(manifest_file_name()),
        manifest_file_name() != mod_rs_name(),
{
    broadcast use vstd::string::group_string_axioms;

    reveal_strlit("Cargo.toml");
    reveal_strlit("mod.rs");
    assert(manifest_file_name().len() == 10);
    assert(manifest_file_name()[7] == 'o');
}

/// No discovered package root has a component named like the source
/// subdirectory: the walk never descends into one, so a package nested
/// inside another package's source subtree is not reported.
pub proof fn lemma_discovery_skips_source_dirs(m: FsMap, q: Seq<Seq<char>>)
    requires
        discovered(m, q),
    ensures
        forall|j: int| 0 <= j < q.len() ==> #[trigger] q[j] != src_dir_name(),
{
}

/// Nothing below a discovered root's source subtree is itself discovered.
pub proof fn lemma_no_root_inside_source_subtree(m: FsMap, r: Seq<Seq<char>>, q: Seq<Seq<char>>)
    requires
        discovered(m, r),
        base_of(r).is_prefix_of(q),
    ensures
        !discovered(m, q),
{
    if discovered(m, q) {
        let i = r.len() as int;
        assert(base_of(r)[i] == src_dir_name());
        assert(base_of(r) =~= q.subrange(0, base_of(r).len() as int));
        assert(q[i] == src_dir_name());
        lemma_discovery_skips_source_dirs(m, q);
        assert(q[i] != src_dir_name());
    }
}

/// A flat module below a discovered package root is reported exactly
/// once, paired with its destination root file.
pub proof fn lemma_scan_reports_candidate_once(
    m: FsMap,
    root: Seq<Seq<char>>,
    p: Seq<Seq<char>>,
    cs: Seq<(Seq<Seq<char>>, Seq<Seq<char>>)>,
)
    requires
        scan_result_ok(m, cs),
        discovered(m, root),
        is_module_candidate(m, base_of(root), p),
    ensures
        exists|i: int| 0 <= i < cs.len() && #[trigger] cs[i] == (p, dst_of(p)),
        forall|i: int, j: int|
            0 <= i < cs.len() && 0 <= j < cs.len() && (#[trigger] cs[i]).0 == p && (#[trigger] cs[j]).0
                == p ==> i == j,
{
    assert(contains_src(cs, p));
    let i = choose|i: int| 0 <= i < cs.len() && (#[trigger] cs[i]).0 == p;
    assert(cs[i].1 == dst_of(cs[i].0));
    assert(cs[i] == (p, dst_of(p)));
    assert forall|i2: int, j2: int|
        0 <= i2 < cs.len() && 0 <= j2 < cs.len() && (#[trigger] cs[i2]).0 == p && (#[trigger] cs[j2]).0
            == p implies i2 == j2 by {
        if i2 < j2 {
            assert(cs[i2].0 != cs[j2].0);
        } else if j2 < i2 {
            assert(cs[j2].0 != cs[i2].0);
        }
    }
}

/// When the destination root file already exists, the flat module is not
/// reported, whatever else its sibling directory holds.
pub proof fn lemma_existing_root_file_blocks(
    m: FsMap,
    p: Seq<Seq<char>>,
    cs: Seq<(Seq<Seq<char>>, Seq<Seq<char>>)>,
)
    requires
        scan_result_ok(m, cs),
        m.contains_key(dst_of(p)),
    ensures
        forall|i: int| 0 <= i < cs.len() ==> (#[trigger] cs[i]).0 != p,
{
    assert forall|i: int| 0 <= i < cs.len() implies (#[trigger] cs[i]).0 != p by {
        if cs[i].0 == p {
            let r = choose|r: Seq<Seq<char>>|
                discovered(m, r) && is_module_candidate(m, #[trigger] base_of(r), cs[i].0);
            assert(!m.contains_key(dst_of(p)));
        }
    }
}

/// A file named like the canonical root file is never itself reported as
/// a source.
pub proof fn lemma_root_file_never_source(m: FsMap, cs: Seq<(Seq<Seq<char>>, Seq<Seq<char>>)>)
    requires
        scan_result_ok(m, cs),
    ensures
        forall|i: int|
            0 <= i < cs.len() ==> (#[trigger] cs[i]).0.len() > 0 && cs[i].0.last() != mod_rs_name(),
{
    lemma_mod_rs_facts();
    assert forall|i: int| 0 <= i < cs.len() implies (#[trigger] cs[i]).0.len() > 0 && cs[i].0.last()
        != mod_rs_name() by {
        let r = choose|r: Seq<Seq<char>>|
            discovered(m, r) && is_module_candidate(m, #[trigger] base_of(r), cs[i].0);
        assert(rust_module_file(cs[i].0.last()));
    }
}

spec fn batch_wf(cs: Seq<(Seq<Seq<char>>, Seq<Seq<char>>)>) -> bool {
    &&& sources_distinct(cs)
    &&& forall|i: int, j: int|
        0 <= i < cs.len() && 0 <= j < cs.len() ==> (#[trigger] cs[i]).0 != (#[trigger] cs[j]).1
    &&& forall|i: int, j: int|
        0 <= i < j < cs.len() ==> (#[trigger] cs[i]).1 != (#[trigger] cs[j]).1
}

proof fn lemma_dst_injective(p1: Seq<Seq<char>>, p2: Seq<Seq<char>>)
    requires
        p1.len() > 0,
        p2.len() > 0,
        has_rs_extension(p1.last()),
        has_rs_extension(p2.last()),
        dst_of(p1) == dst_of(p2),
    ensures
        p1 == p2,
{
    assert(sibling_of(p1) =~= dst_of(p1).drop_last());
    assert(sibling_of(p2) =~= dst_of(p2).drop_last());
    assert(sibling_of(p1) == sibling_of(p2));
    assert(p1.drop_last() =~= sibling_of(p1).drop_last());
    assert(p2.drop_last() =~= sibling_of(p2).drop_last());
    assert(p1.drop_last() == p2.drop_last());
    assert(stem_of(p1.last()) == sibling_of(p1).last());
    assert(stem_of(p2.last()) == sibling_of(p2).last());
    assert(stem_of(p1.last()) == stem_of(p2.last()));
    let n1 = p1.last();
    let n2 = p2.last();
    assert(stem_of(n1).len() == n1.len() - 3);
    assert(stem_of(n2).len() == n2.len() - 3);
    assert(n1.len() == n2.len());
    assert forall|i: int| 0 <= i < n1.len() implies n1[i] == n2[i] by {
        if i < n1.len() - 3 {
            assert(stem_of(n1)[i] == n1[i]);
            assert(stem_of(n2)[i] == n2[i]);
        } else if i == n1.len() - 3 {
            assert(n1[i] == '.' && n2[i] == '.');
        } else if i == n1.len() - 2 {
            assert(n1[i] == 'r' && n2[i] == 'r');
        } else {
            assert(n1[i] == 's' && n2[i] == 's');
        }
    }
    assert(n1 =~= n2);
    assert(p1 =~= p1.drop_last().push(p1.last()));
    assert(p2 =~= p2.drop_last().push(p2.last()));
}

proof fn lemma_batch_wf(m: FsMap, cs: Seq<(Seq<Seq<char>>, Seq<Seq<char>>)>)
    requires
        scan_result_ok(m, cs),
    ensures
        batch_wf(cs),
        forall|i: int|
            0 <= i < cs.len() ==> ((#[trigger] cs[i]).1 == dst_of(cs[i].0) && cs[i].0.len() > 0
                && rust_module_file(cs[i].0.last()) && cs[i].1.len() > 0 && cs[i].1.last()
                == mod_rs_name()),
{
    lemma_mod_rs_facts();
    assert forall|i: int| 0 <= i < cs.len() implies ((#[trigger] cs[i]).1 == dst_of(cs[i].0)
        && cs[i].0.len() > 0 && rust_module_file(cs[i].0.last()) && cs[i].1.len() > 0
        && cs[i].1.last() == mod_rs_name()) by {
        let r = choose|r: Seq<Seq<char>>|
            discovered(m, r) && is_module_candidate(m, #[trigger] base_of(r), cs[i].0);
        assert(base_of(r).len() < cs[i].0.len());
        assert(cs[i].1 == dst_of(cs[i].0));
        assert(dst_of(cs[i].0).last() == mod_rs_name());
    }
    assert forall|i: int, j: int|
        0 <= i < cs.len() && 0 <= j < cs.len() implies (#[trigger] cs[i]).0
        != (#[trigger] cs[j]).1 by {
        if cs[i].0 == cs[j].1 {
            assert(cs[i].0.last() == mod_rs_name());
            assert(rust_module_file(mod_rs_name()));
        }
    }
    assert forall|i: int, j: int| 0 <= i < j < cs.len() implies (#[trigger] cs[i]).1
        != (#[trigger] cs[j]).1 by {
        if cs[i].1 == cs[j].1 {
            lemma_dst_injective(cs[i].0, cs[j].0);
            assert(cs[i].0 != cs[j].0);
        }
    }
}

proof fn lemma_apply_batch_at(m: FsMap, cs: Seq<(Seq<Seq<char>>, Seq<Seq<char>>)>, q: Seq<Seq<char>>)
    requires
        batch_wf(cs),
    ensures
        contains_dst(cs, q) ==> is_file_at(apply_batch(m, cs), q),
        contains_src(cs, q) ==> !apply_batch(m, cs).contains_key(q),
        !contains_dst(cs, q) && !contains_src(cs, q) ==> ((apply_batch(m, cs).contains_key(q)
            <==> m.contains_key(q)) && (m.contains_key(q) ==> apply_batch(m, cs)[q] == m[q])),
    decreases cs.len(),
{
    if cs.len() == 0 {
        assert(!contains_dst(cs, q));
        assert(!contains_src(cs, q));
    } else {
        let s0 = cs[0].0;
        let d0 = cs[0].1;
        let m1 = m.remove(s0).insert(d0, FsKind::File);
        let rest = cs.skip(1);
        assert forall|i: int| 0 <= i < rest.len() implies #[trigger] rest[i] == cs[i + 1] by {}
        assert(batch_wf(rest)) by {
            assert forall|i: int, j: int| 0 <= i < j < rest.len() implies (#[trigger] rest[i]).0
                != (#[trigger] rest[j]).0 by {
                assert(cs[i + 1].0 != cs[j + 1].0);
            }
            assert forall|i: int, j: int|
                0 <= i < rest.len() && 0 <= j < rest.len() implies (#[trigger] rest[i]).0
                != (#[trigger] rest[j]).1 by {
                assert(cs[i + 1].0 != cs[j + 1].1);
            }
            assert forall|i: int, j: int| 0 <= i < j < rest.len() implies (#[trigger] rest[i]).1
                != (#[trigger] rest[j]).1 by {
                assert(cs[i + 1].1 != cs[j + 1].1);
            }
        }
        lemma_apply_batch_at(m1, rest, q);
        assert(apply_batch(m, cs) == apply_batch(m1, rest));
        if contains_src(rest, q) {
            let j2 = choose|j2: int| 0 <= j2 < rest.len() && (#[trigger] rest[j2]).0 == q;
            assert((#[trigger] cs[j2 + 1]).0 == q);
            assert(contains_src(cs, q));
        }
        if contains_dst(rest, q) {
            let j2 = choose|j2: int| 0 <= j2 < rest.len() && (#[trigger] rest[j2]).1 == q;
            assert((#[trigger] cs[j2 + 1]).1 == q);
            assert(contains_dst(cs, q));
        }
        if contains_dst(cs, q) {
            let j = choose|j: int| 0 <= j < cs.len() && (#[trigger] cs[j]).1 == q;
            if j == 0 {
                assert(!contains_dst(rest, q)) by {
                    if contains_dst(rest, q) {
                        let j2 = choose|j2: int|
                            0 <= j2 < rest.len() && (#[trigger] rest[j2]).1 == q;
                        assert(cs[0].1 != cs[j2 + 1].1);
                    }
                }
                assert(!contains_src(rest, q)) by {
                    if contains_src(rest, q) {
                        let j2 = choose|j2: int|
                            0 <= j2 < rest.len() && (#[trigger] rest[j2]).0 == q;
                        assert(cs[j2 + 1].0 != cs[0].1);
                    }
                }
                assert(m1.contains_key(q) && m1[q] == FsKind::File);
                assert(is_file_at(apply_batch(m1, rest), q));
            } else {
                assert((#[trigger] rest[j - 1]).1 == q);
                assert(contains_dst(rest, q));
            }
        } else if contains_src(cs, q) {
            let j = choose|j: int| 0 <= j < cs.len() && (#[trigger] cs[j]).0 == q;
            if j == 0 {
                assert(!contains_src(rest, q)) by {
                    if contains_src(rest, q) {
                        let j2 = choose|j2: int|
                            0 <= j2 < rest.len() && (#[trigger] rest[j2]).0 == q;
                        assert(cs[0].0 != cs[j2 + 1].0);
                    }
                }
                assert(q != d0);
                assert(!m1.contains_key(q));
                assert(!apply_batch(m1, rest).contains_key(q));
            } else {
                assert((#[trigger] rest[j - 1]).0 == q);
                assert(contains_src(rest, q));
            }
        } else {
            assert(q != s0) by {
                if q == s0 {
                    assert((#[trigger] cs[0]).0 == q);
                }
            }
            assert(q != d0) by {
                if q == d0 {
                    assert((#[trigger] cs[0]).1 == q);
                }
            }
            assert(m1.contains_key(q) <==> m.contains_key(q));
            assert(m.contains_key(q) ==> m1[q] == m[q]);
        }
    }
}

proof fn lemma_batch_node(m: FsMap, cs: Seq<(Seq<Seq<char>>, Seq<Seq<char>>)>, q: Seq<Seq<char>>)
    requires
        scan_result_ok(m, cs),
    ensures
        contains_dst(cs, q) ==> (is_file_at(apply_batch(m, cs), q) && !m.contains_key(q) && q.len()
            > 0 && q.last() == mod_rs_name()),
        contains_src(cs, q) ==> (!apply_batch(m, cs).contains_key(q) && is_file_at(m, q) && q.len()
            > 0 && rust_module_file(q.last())),
        !contains_dst(cs, q) && !contains_src(cs, q) ==> ((apply_batch(m, cs).contains_key(q)
            <==> m.contains_key(q)) && (m.contains_key(q) ==> apply_batch(m, cs)[q] == m[q])),
{
    lemma_batch_wf(m, cs);
    lemma_apply_batch_at(m, cs, q);
    if contains_dst(cs, q) {
        let j = choose|j: int| 0 <= j < cs.len() && (#[trigger] cs[j]).1 == q;
        let r = choose|r: Seq<Seq<char>>|
            discovered(m, r) && is_module_candidate(m, #[trigger] base_of(r), cs[j].0);
        assert(!m.contains_key(dst_of(cs[j].0)));
        assert(q.last() == mod_rs_name());
    }
    if contains_src(cs, q) {
        let j = choose|j: int| 0 <= j < cs.len() && (#[trigger] cs[j]).0 == q;
        let r = choose|r: Seq<Seq<char>>|
            discovered(m, r) && is_module_candidate(m, #[trigger] base_of(r), cs[j].0);
        assert(is_file_at(m, q));
    }
}

proof fn lemma_dir_preserved(m: FsMap, cs: Seq<(Seq<Seq<char>>, Seq<Seq<char>>)>, q: Seq<Seq<char>>)
    requires
        scan_result_ok(m, cs),
    ensures
        is_dir_at(apply_batch(m, cs), q) <==> is_dir_at(m, q),
{
    lemma_batch_node(m, cs, q);
    if contains_dst(cs, q) {
        assert(!is_dir_at(m, q));
        assert(apply_batch(m, cs)[q] == FsKind::File);
    } else if contains_src(cs, q) {
        assert(m[q] == FsKind::File);
    }
}

proof fn lemma_visited_preserved(
    m: FsMap,
    cs: Seq<(Seq<Seq<char>>, Seq<Seq<char>>)>,
    x: Seq<Seq<char>>,
)
    requires
        scan_result_ok(m, cs),
    ensures
        visited_dir(apply_batch(m, cs), x) <==> visited_dir(m, x),
{
    let m2 = apply_batch(m, cs);
    if visited_dir(m, x) {
        assert forall|j: int| #![trigger x[j]] 0 <= j < x.len() implies (x[j] != src_dir_name()
            && is_dir_at(m2, x.take(j + 1))) by {
            assert(x[j] != src_dir_name());
            assert(is_dir_at(m, x.take(j + 1)));
            lemma_dir_preserved(m, cs, x.take(j + 1));
        }
        assert(visited_dir(m2, x));
    }
    if visited_dir(m2, x) {
        assert forall|j: int| #![trigger x[j]] 0 <= j < x.len() implies (x[j] != src_dir_name()
            && is_dir_at(m, x.take(j + 1))) by {
            assert(x[j] != src_dir_name());
            assert(is_dir_at(m2, x.take(j + 1)));
            lemma_dir_preserved(m, cs, x.take(j + 1));
        }
        assert(visited_dir(m, x));
    }
}

proof fn lemma_pkg_root_preserved(
    m: FsMap,
    cs: Seq<(Seq<Seq<char>>, Seq<Seq<char>>)>,
    x: Seq<Seq<char>>,
)
    requires
        scan_result_ok(m, cs),
    ensures
        is_pkg_root(apply_batch(m, cs), x) <==> is_pkg_root(m, x),
{
    lemma_mod_rs_facts();
    lemma_manifest_name_facts();
    let q1 = x.push(manifest_file_name());
    assert(q1.last() == manifest_file_name());
    lemma_batch_node(m, cs, q1);
    if contains_dst(cs, q1) {
        assert(q1.last() == mod_rs_name());
        assert(false);
    }
    if contains_src(cs, q1) {
        assert(rust_module_file(q1.last()));
        assert(false);
    }
    lemma_dir_preserved(m, cs, x.push(src_dir_name()));
}

/// After every reported migration is applied, the discovered package
/// roots are unchanged, no flat module is eligible anywhere below them,
/// and so a second scan can only report an empty candidate list.
pub proof fn lemma_migrations_idempotent(m: FsMap, cs: Seq<(Seq<Seq<char>>, Seq<Seq<char>>)>)
    requires
        scan_result_ok(m, cs),
    ensures
        forall|q: Seq<Seq<char>>|
            #![trigger discovered(apply_batch(m, cs), q)]
            #![trigger discovered(m, q)]
            discovered(apply_batch(m, cs), q) <==> discovered(m, q),
        forall|root: Seq<Seq<char>>, p: Seq<Seq<char>>|
            #![trigger is_module_candidate(apply_batch(m, cs), base_of(root), p)]
            !(discovered(apply_batch(m, cs), root) && is_module_candidate(
                apply_batch(m, cs),
                base_of(root),
                p,
            )),
        forall|cs2: Seq<(Seq<Seq<char>>, Seq<Seq<char>>)>|
            #[trigger] scan_result_ok(apply_batch(m, cs), cs2) ==> cs2.len() == 0,
{
    let m2 = apply_batch(m, cs);
    lemma_mod_rs_facts();
    assert forall|q: Seq<Seq<char>>|
        #![trigger discovered(apply_batch(m, cs), q)]
        #![trigger discovered(m, q)]
        discovered(m2, q) <==> discovered(m, q) by {
        lemma_visited_preserved(m, cs, q);
        lemma_pkg_root_preserved(m, cs, q);
    }
    assert forall|root: Seq<Seq<char>>, p: Seq<Seq<char>>|
        #![trigger is_module_candidate(apply_batch(m, cs), base_of(root), p)]
        !(discovered(m2, root) && is_module_candidate(m2, base_of(root), p)) by {
        if discovered(m2, root) && is_module_candidate(m2, base_of(root), p) {
            assert(discovered(m, root));
            lemma_batch_node(m, cs, p);
            if contains_dst(cs, p) {
                assert(p.last() == mod_rs_name());
                assert(rust_module_file(p.last()));
                assert(false);
            } else if contains_src(cs, p) {
                assert(!m2.contains_key(p));
                assert(false);
            } else {
                assert(is_file_at(m2, p));
                assert(is_file_at(m, p));
                lemma_dir_preserved(m, cs, sibling_of(p));
                assert(is_dir_at(m, sibling_of(p)));
                let d = dst_of(p);
                assert(d.last() == mod_rs_name());
                lemma_batch_node(m, cs, d);
                assert(!m2.contains_key(d));
                if contains_dst(cs, d) {
                    assert(is_file_at(m2, d));
                    assert(false);
                }
                if contains_src(cs, d) {
                    assert(rust_module_file(d.last()));
                    assert(false);
                }
                assert(!m.contains_key(d));
                assert(is_module_candidate(m, base_of(root), p));
                assert(contains_src(cs, p));
                assert(false);
            }
        }
    }
    assert forall|cs2: Seq<(Seq<Seq<char>>, Seq<Seq<char>>)>| #[trigger] scan_result_ok(
        m2,
        cs2,
    ) implies cs2.len() == 0 by {
        if cs2.len() > 0 {
            let c0 = cs2[0];
            assert(c0 == cs2[0]);
            let r = choose|r: Seq<Seq<char>>|
                discovered(m2, r) && is_module_candidate(m2, #[trigger] base_of(r), cs2[0].0);
            assert(!(discovered(m2, r) && is_module_candidate(m2, base_of(r), cs2[0].0)));
            assert(false);
        }
    }
}

} // verus!
