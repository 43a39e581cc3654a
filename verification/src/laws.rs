//! Laws of the relocation engine, proved of the map transformation
//! `relocated` that `FsModel::relocate` is verified to implement.

use vstd::prelude::*;
use crate::fs_model::dirs_along;
use crate::fs_model::Ent;
use crate::paths::config_file_name;
use crate::paths::is_moved_key;
use crate::paths::moved_keys;
use crate::relocate::rebase_map;
use crate::relocate::relocated;

verus! {

/// One root does not lie on or below the other: the configuration of a
/// meaningful move, where the new data directory is not nested inside the
/// old one nor the old inside the new.
pub open spec fn roots_independent(old_root: Seq<Seq<char>>, new_root: Seq<Seq<char>>) -> bool {
    &&& old_root.len() > 0
    &&& new_root.len() > 0
    &&& !(old_root.len() <= new_root.len() && new_root.take(old_root.len() as int) == old_root)
    &&& !(new_root.len() <= old_root.len() && old_root.take(new_root.len() as int) == new_root)
}

/// A path strictly below the old root lies neither below the new root nor
/// on the way to it, when the roots are independent.
proof fn lemma_under_old_not_near_new(
    k: Seq<Seq<char>>,
    o: Seq<Seq<char>>,
    n: Seq<Seq<char>>,
)
    requires
        roots_independent(o, n),
        k.len() > o.len(),
        k.take(o.len() as int) == o,
    ensures
        !(k.len() > n.len() && k.take(n.len() as int) == n),
        !(k.len() == n.len() && k == n),
        !(k.len() <= n.len() && k == n.take(k.len() as int)),
{
    if k.len() >= n.len() && k.take(n.len() as int) == n {
        if n.len() <= o.len() {
            assert(o.take(n.len() as int) =~= k.take(o.len() as int).take(n.len() as int));
            assert(k.take(o.len() as int).take(n.len() as int) =~= k.take(n.len() as int));
        } else {
            assert(n.take(o.len() as int) =~= k.take(n.len() as int).take(o.len() as int));
            assert(k.take(n.len() as int).take(o.len() as int) =~= k.take(o.len() as int));
        }
    }
    if k.len() == n.len() && k == n {
        assert(k.take(n.len() as int) =~= n);
    }
    if k.len() <= n.len() && k == n.take(k.len() as int) {
        assert(n.take(o.len() as int) =~= n.take(k.len() as int).take(o.len() as int));
        assert(n.take(k.len() as int).take(o.len() as int) =~= k.take(o.len() as int));
    }
}

/// Independent roots are in particular distinct roots.
proof fn lemma_roots_independent_neq(o: Seq<Seq<char>>, n: Seq<Seq<char>>)
    requires
        roots_independent(o, n),
    ensures
        o != n,
{
    if o == n {
        assert(n.take(o.len() as int) =~= o);
    }
}

/// A no-op move: equal roots, an empty root, or a missing old root leave
/// the filesystem exactly as it was.
pub proof fn lemma_relocate_noop(
    m: Map<Seq<Seq<char>>, Ent>,
    old_root: Seq<Seq<char>>,
    new_root: Seq<Seq<char>>,
)
    requires
        old_root == new_root || old_root.len() == 0 || new_root.len() == 0 || !m.dom().contains(
            old_root,
        ),
    ensures
        relocated(m, old_root, new_root) == m,
{
}

/// A move never migrates the configuration file: the one at the old root
/// stays exactly where and what it was, and none appears at the new root
/// that was not already there.
pub proof fn lemma_relocate_excludes_config(
    m: Map<Seq<Seq<char>>, Ent>,
    old_root: Seq<Seq<char>>,
    new_root: Seq<Seq<char>>,
)
    requires
        roots_independent(old_root, new_root),
        m.dom().contains(old_root),
    ensures
        relocated(m, old_root, new_root).dom().contains(old_root.push(config_file_name()))
            == m.dom().contains(old_root.push(config_file_name())),
        m.dom().contains(old_root.push(config_file_name())) ==> relocated(
            m,
            old_root,
            new_root,
        )[old_root.push(config_file_name())] == m[old_root.push(config_file_name())],
        !m.dom().contains(new_root.push(config_file_name())) ==> !relocated(
            m,
            old_root,
            new_root,
        ).dom().contains(new_root.push(config_file_name())),
{
    let o = old_root;
    let n = new_root;
    let oc = o.push(config_file_name());
    let nc = n.push(config_file_name());
    let r = relocated(m, o, n);
    let kept = m.remove_keys(moved_keys(o));
    assert(!is_moved_key(oc, o)) by {
        assert(oc[o.len() as int] == config_file_name());
    }
    // the old config path is neither a created directory nor a target
    assert(oc.take(o.len() as int) =~= o);
    lemma_under_old_not_near_new(oc, o, n);
    assert(dirs_along(kept, n).dom().contains(oc) == false);
    assert(rebase_map(m, o, n).dom().contains(oc) == false);
    // the new config path is excluded from the targets and is no prefix of n
    assert(!is_moved_key(nc, n)) by {
        assert(nc[n.len() as int] == config_file_name());
    }
    assert(rebase_map(m, o, n).dom().contains(nc) == false);
    assert(dirs_along(kept, n).dom().contains(nc) == false);
}

/// A move carries every non-configuration entry below the old root to the
/// same relative path below the new root, with its value, and removes the
/// original.
pub proof fn lemma_relocate_moves_subtree(
    m: Map<Seq<Seq<char>>, Ent>,
    old_root: Seq<Seq<char>>,
    new_root: Seq<Seq<char>>,
    rel: Seq<Seq<char>>,
)
    requires
        roots_independent(old_root, new_root),
        m.dom().contains(old_root),
        rel.len() > 0,
        rel[0] != config_file_name(),
    ensures
        m.dom().contains(old_root + rel) ==> relocated(m, old_root, new_root).dom().contains(
            new_root + rel,
        ) && relocated(m, old_root, new_root)[new_root + rel] == m[old_root + rel],
        !relocated(m, old_root, new_root).dom().contains(old_root + rel),
{
    let o = old_root;
    let n = new_root;
    let src = o + rel;
    let tgt = n + rel;
    let kept = m.remove_keys(moved_keys(o));
    assert(is_moved_key(src, o)) by {
        assert(src.take(o.len() as int) =~= o);
        assert(src[o.len() as int] == rel[0]);
    }
    assert(is_moved_key(tgt, n)) by {
        assert(tgt.take(n.len() as int) =~= n);
        assert(tgt[n.len() as int] == rel[0]);
    }
    if m.dom().contains(src) {
        assert(o + tgt.skip(n.len() as int) =~= src);
        assert(rebase_map(m, o, n).dom().contains(tgt));
        assert(rebase_map(m, o, n)[tgt] == m[src]);
    }
    // the source path reappears nowhere
    assert(!kept.dom().contains(src));
    lemma_under_old_not_near_new(src, o, n);
    assert(dirs_along(kept, n).dom().contains(src) == false);
    assert(rebase_map(m, o, n).dom().contains(src) == false);
}

/// The filesystem after a move that got partway: the sources in `deleted`
/// are gone from below the old root, and the sources in `copied` already
/// stand, re-rooted, below the new root. `deleted <= copied` reflects
/// copy-then-delete: nothing is deleted before its copy exists.
pub open spec fn partial_move(
    m: Map<Seq<Seq<char>>, Ent>,
    old_root: Seq<Seq<char>>,
    new_root: Seq<Seq<char>>,
    copied: Set<Seq<Seq<char>>>,
    deleted: Set<Seq<Seq<char>>>,
) -> Map<Seq<Seq<char>>, Ent> {
    m.remove_keys(deleted).union_prefer_right(rebase_map(m.restrict(copied), old_root, new_root))
}

/// Re-running a move after a partial failure converges to the fully
/// migrated state: whatever subset of the sources was already copied, and
/// whatever subset of those was already deleted, relocating the partial
/// state gives exactly what relocating the original state gives. Nothing
/// is lost (deleted sources are still present at the new root) and nothing
/// is duplicated (their copies are overwritten, not doubled).
pub proof fn lemma_relocate_resumable(
    m: Map<Seq<Seq<char>>, Ent>,
    old_root: Seq<Seq<char>>,
    new_root: Seq<Seq<char>>,
    copied: Set<Seq<Seq<char>>>,
    deleted: Set<Seq<Seq<char>>>,
)
    requires
        roots_independent(old_root, new_root),
        m.dom().contains(old_root),
        deleted.subset_of(copied),
        copied.subset_of(moved_keys(old_root)),
    ensures
        relocated(partial_move(m, old_root, new_root, copied, deleted), old_root, new_root)
            == relocated(m, old_root, new_root),
{
    let o = old_root;
    let n = new_root;
    let p = partial_move(m, o, n, copied, deleted);
    lemma_roots_independent_neq(o, n);
    let targets = rebase_map(m.restrict(copied), o, n);
    let kept = m.remove_keys(moved_keys(o));
    let keptp = p.remove_keys(moved_keys(o));

    // targets lie strictly below the new root, so never below or on the way
    // to either root's prefix chain, and never below the old root
    assert forall|q: Seq<Seq<char>>| #[trigger] targets.dom().contains(q) implies
        !is_moved_key(q, o) && !(1 <= q.len() <= n.len() && q == n.take(q.len() as int)) by {
        assert(is_moved_key(q, n));
        lemma_under_old_not_near_new(q, n, o);
        if 1 <= q.len() <= n.len() && q == n.take(q.len() as int) {
            assert(q.take(n.len() as int) =~= n);
        }
    }
    // the old root itself survives into the partial state
    assert(!is_moved_key(o, o));
    assert(!deleted.contains(o));
    assert(p.dom().contains(o));

    // the partial state's kept part is the original kept part plus targets
    assert(keptp =~= kept.union_prefer_right(targets)) by {
        assert forall|q: Seq<Seq<char>>| #[trigger] keptp.dom().contains(q) implies
            kept.union_prefer_right(targets).dom().contains(q)
            && keptp[q] == kept.union_prefer_right(targets)[q] by {
            if targets.dom().contains(q) {
            } else {
                assert(m.dom().contains(q) && !deleted.contains(q) && !is_moved_key(q, o));
            }
        }
        assert forall|q: Seq<Seq<char>>| kept.union_prefer_right(targets).dom().contains(q) implies
            keptp.dom().contains(q) by {
            if targets.dom().contains(q) {
                assert(p.dom().contains(q));
            } else {
                assert(m.dom().contains(q) && !is_moved_key(q, o));
                assert(!deleted.contains(q));
            }
        }
    }
    // directory creation along the new root sees the same gaps
    assert(dirs_along(keptp, n) =~= dirs_along(kept, n)) by {
        assert forall|q: Seq<Seq<char>>|
            1 <= q.len() <= n.len() && q == n.take(q.len() as int) implies
            keptp.dom().contains(q) == kept.dom().contains(q) by {
            if targets.dom().contains(q) {
            }
        }
    }
    // the partial state's sources are the original sources minus `deleted`,
    // with their original values
    assert(rebase_map(p, o, n) =~= rebase_map(m, o, n).remove_keys(
        Set::new(|q: Seq<Seq<char>>| deleted.contains(o + q.skip(n.len() as int))),
    )) by {
        assert forall|q: Seq<Seq<char>>| #[trigger] rebase_map(p, o, n).dom().contains(q) implies
            rebase_map(m, o, n).dom().contains(q)
            && !deleted.contains(o + q.skip(n.len() as int))
            && rebase_map(p, o, n)[q] == rebase_map(m, o, n)[q] by {
            let src = o + q.skip(n.len() as int);
            assert(p.dom().contains(src));
            assert(is_moved_key(src, o)) by {
                assert(src.take(o.len() as int) =~= o);
                assert(src[o.len() as int] == q[n.len() as int]);
            }
            assert(!targets.dom().contains(src));
            assert(m.dom().contains(src) && !deleted.contains(src) && p[src] == m[src]);
        }
        assert forall|q: Seq<Seq<char>>| rebase_map(m, o, n).dom().contains(q)
            && !deleted.contains(o + q.skip(n.len() as int)) implies
            rebase_map(p, o, n).dom().contains(q) by {
            let src = o + q.skip(n.len() as int);
            assert(is_moved_key(src, o)) by {
                assert(src.take(o.len() as int) =~= o);
                assert(src[o.len() as int] == q[n.len() as int]);
            }
            assert(!targets.dom().contains(src));
            assert(p.dom().contains(src));
        }
    }
    // now compare the two final states pointwise
    let fin_p = relocated(p, o, n);
    let fin_m = relocated(m, o, n);
    assert(fin_p == keptp.union_prefer_right(dirs_along(keptp, n)).union_prefer_right(
        rebase_map(p, o, n),
    ));
    assert(fin_p =~= fin_m) by {
        assert forall|q: Seq<Seq<char>>|
            fin_p.dom().contains(q) || fin_m.dom().contains(q) implies
            fin_p.dom().contains(q) == fin_m.dom().contains(q)
            && (fin_p.dom().contains(q) ==> fin_p[q] == fin_m[q]) by {
            let src = o + q.skip(n.len() as int);
            if rebase_map(m, o, n).dom().contains(q) {
                assert(fin_m[q] == rebase_map(m, o, n)[q]);
                if deleted.contains(src) {
                    assert(copied.contains(src));
                    assert(m.restrict(copied).dom().contains(src));
                    assert(targets.dom().contains(q));
                    assert(!rebase_map(p, o, n).dom().contains(q));
                    assert(!(1 <= q.len() <= n.len() && q == n.take(q.len() as int)));
                    assert(fin_p[q] == keptp[q]);
                    assert(keptp[q] == targets[q]);
                    assert(targets[q] == m.restrict(copied)[src]);
                } else {
                    assert(rebase_map(p, o, n).dom().contains(q));
                    assert(fin_p[q] == rebase_map(p, o, n)[q]);
                }
            } else {
                assert(!rebase_map(p, o, n).dom().contains(q));
                if targets.dom().contains(q) {
                    assert(m.restrict(copied).dom().contains(src));
                    assert(m.dom().contains(src));
                    assert(rebase_map(m, o, n).dom().contains(q));
                } else {
                    assert(keptp.dom().contains(q) == kept.dom().contains(q));
                    assert(keptp.dom().contains(q) ==> keptp[q] == kept[q]);
                }
            }
        }
    }
}

/// Running a move twice is the same as running it once: after a completed
/// move nothing migratable is left below the old root, so the second run
/// changes nothing.
pub proof fn lemma_relocate_idempotent(
    m: Map<Seq<Seq<char>>, Ent>,
    old_root: Seq<Seq<char>>,
    new_root: Seq<Seq<char>>,
)
    requires
        roots_independent(old_root, new_root),
    ensures
        relocated(relocated(m, old_root, new_root), old_root, new_root)
            == relocated(m, old_root, new_root),
{
    let o = old_root;
    let n = new_root;
    if !m.dom().contains(o) {
    } else {
        let r = relocated(m, o, n);
        let kept = m.remove_keys(moved_keys(o));
        lemma_roots_independent_neq(o, n);
        assert(r.dom().contains(o)) by {
            assert(!is_moved_key(o, o));
            assert(kept.dom().contains(o));
        }
        // nothing migratable is left below the old root
        assert forall|q: Seq<Seq<char>>| #[trigger] r.dom().contains(q) implies
            !is_moved_key(q, o) by {
            if is_moved_key(q, o) {
                lemma_under_old_not_near_new(q, o, n);
                assert(!kept.dom().contains(q));
                assert(!dirs_along(kept, n).dom().contains(q));
                assert(!rebase_map(m, o, n).dom().contains(q));
            }
        }
        let kept2 = r.remove_keys(moved_keys(o));
        assert(kept2 =~= r);
        // no sources remain, so the second pass moves nothing
        assert(rebase_map(r, o, n) =~= Map::<Seq<Seq<char>>, Ent>::empty()) by {
            assert forall|q: Seq<Seq<char>>| !rebase_map(r, o, n).dom().contains(q) by {
                if rebase_map(r, o, n).dom().contains(q) {
                    let src = o + q.skip(n.len() as int);
                    assert(is_moved_key(src, o)) by {
                        assert(src.take(o.len() as int) =~= o);
                        assert(src[o.len() as int] == q[n.len() as int]);
                    }
                    assert(r.dom().contains(src));
                }
            }
        }
        // every directory on the way to the new root already exists
        assert(dirs_along(kept2, n) =~= Map::<Seq<Seq<char>>, Ent>::empty()) by {
            assert forall|q: Seq<Seq<char>>| !dirs_along(kept2, n).dom().contains(q) by {
                if dirs_along(kept2, n).dom().contains(q) {
                    if kept.dom().contains(q) {
                        assert(r.dom().contains(q));
                    } else {
                        assert(dirs_along(kept, n).dom().contains(q));
                        assert(r.dom().contains(q));
                    }
                }
            }
        }
        assert(relocated(r, o, n) =~= r);
    }
}

} // verus!
