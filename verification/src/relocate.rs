//! The directory-relocation engine.
//!
//! `relocate` moves everything below an old data-directory root to a new
//! root, except the configuration file, with copy-then-delete semantics:
//! re-rooted entries overwrite whatever stood at their target, and the
//! originals disappear. The four short-circuit cases (equal roots, an empty
//! root, a missing old root) change nothing. The whole effect is pinned
//! down by the map transformation `relocated`.

use vstd::prelude::*;
use crate::fs_model::dirs_along;
use crate::fs_model::lemma_map_of_dom;
use crate::fs_model::lemma_map_of_index;
use crate::fs_model::map_of;
use crate::fs_model::unique_paths;
use crate::fs_model::Ent;
use crate::fs_model::FsEntry;
use crate::fs_model::FsModel;
use crate::paths::config_file_name;
use crate::paths::is_moved_key;
use crate::paths::moved_keys;
use crate::paths::path_eq;
use crate::paths::path_is_under;
use crate::paths::path_rebase;
use crate::paths::rebase;

verus! {

/// The migrated entries of `m`, re-rooted from `old_root` to `new_root`:
/// a map over target paths whose values are the sources' values.
pub open spec fn rebase_map(
    m: Map<Seq<Seq<char>>, Ent>,
    old_root: Seq<Seq<char>>,
    new_root: Seq<Seq<char>>,
) -> Map<Seq<Seq<char>>, Ent> {
    Map::new(
        |q: Seq<Seq<char>>|
            is_moved_key(q, new_root) && m.dom().contains(
                old_root + q.skip(new_root.len() as int),
            ),
        |q: Seq<Seq<char>>| m[old_root + q.skip(new_root.len() as int)],
    )
}

/// What a data-directory move leaves behind: the no-op cases return the
/// filesystem unchanged; otherwise the migrated entries disappear from
/// below the old root, the new root's directories are created, and the
/// migrated entries reappear below the new root, overwriting what stood
/// there.
pub open spec fn relocated(
    m: Map<Seq<Seq<char>>, Ent>,
    old_root: Seq<Seq<char>>,
    new_root: Seq<Seq<char>>,
) -> Map<Seq<Seq<char>>, Ent> {
    if old_root == new_root || old_root.len() == 0 || new_root.len() == 0 || !m.dom().contains(
        old_root,
    ) {
        m
    } else {
        let kept = m.remove_keys(moved_keys(old_root));
        kept.union_prefer_right(dirs_along(kept, new_root)).union_prefer_right(
            rebase_map(m, old_root, new_root),
        )
    }
}

/// The map contributed by re-rooting the migrated entries of a concrete
/// entry sequence.
pub open spec fn rebased_entries(
    s: Seq<FsEntry>,
    old_root: Seq<Seq<char>>,
    new_root: Seq<Seq<char>>,
) -> Map<Seq<Seq<char>>, Ent>
    decreases s.len(),
{
    if s.len() == 0 {
        Map::empty()
    } else {
        let r = rebased_entries(s.drop_last(), old_root, new_root);
        if is_moved_key(s.last().path.deep_view(), old_root) {
            r.insert(rebase(s.last().path.deep_view(), old_root, new_root), s.last().kind@)
        } else {
            r
        }
    }
}

/// Facts tying a migrated source key to its re-rooted target.
proof fn lemma_rebase_shape(k: Seq<Seq<char>>, old_root: Seq<Seq<char>>, new_root: Seq<Seq<char>>)
    requires
        is_moved_key(k, old_root),
    ensures
        is_moved_key(rebase(k, old_root, new_root), new_root),
        old_root + rebase(k, old_root, new_root).skip(new_root.len() as int) == k,
{
    let l = old_root.len() as int;
    let q = rebase(k, old_root, new_root);
    assert(q.take(new_root.len() as int) =~= new_root);
    assert(q[new_root.len() as int] == k[l]);
    assert(old_root + q.skip(new_root.len() as int) =~= k.take(l) + k.skip(l));
    assert(k.take(l) + k.skip(l) =~= k);
}

/// With pairwise-distinct paths, the re-rooted entry map is exactly the
/// re-rooting of the entry sequence's map.
proof fn lemma_rebased_entries_is_rebase_map(
    s: Seq<FsEntry>,
    old_root: Seq<Seq<char>>,
    new_root: Seq<Seq<char>>,
)
    requires
        unique_paths(s),
    ensures
        rebased_entries(s, old_root, new_root) =~= rebase_map(map_of(s), old_root, new_root),
    decreases s.len(),
{
    lemma_map_of_dom(s);
    let re = rebased_entries(s, old_root, new_root);
    let rm = rebase_map(map_of(s), old_root, new_root);
    if s.len() == 0 {
        assert forall|q: Seq<Seq<char>>| !rm.dom().contains(q) by {}
    } else {
        let t = s.drop_last();
        assert(unique_paths(t));
        lemma_rebased_entries_is_rebase_map(t, old_root, new_root);
        lemma_map_of_dom(t);
        let last = s.last();
        let lk = last.path.deep_view();
        assert forall|q: Seq<Seq<char>>| #[trigger] re.dom().contains(q) implies rm.dom().contains(
            q,
        ) && re[q] == rm[q] by {
            if is_moved_key(lk, old_root) && q == rebase(lk, old_root, new_root) {
                lemma_rebase_shape(lk, old_root, new_root);
                assert(map_of(s).dom().contains(lk));
                lemma_map_of_index(s, s.len() - 1);
                assert(re[q] == last.kind@);
                assert(old_root + q.skip(new_root.len() as int) == lk);
            } else {
                assert(rebased_entries(t, old_root, new_root).dom().contains(q));
                let src = old_root + q.skip(new_root.len() as int);
                assert(rebase_map(map_of(t), old_root, new_root).dom().contains(q));
                assert(map_of(t).dom().contains(src));
                let i = choose|i: int| 0 <= i < t.len() && #[trigger] t[i].path.deep_view() == src;
                assert(s[i].path.deep_view() == src);
                lemma_map_of_index(s, i);
                lemma_map_of_index(t, i);
                assert(map_of(s).dom().contains(src));
                assert(map_of(s)[src] == map_of(t)[src]);
            }
        }
        assert forall|q: Seq<Seq<char>>| #[trigger] rm.dom().contains(q) implies re.dom().contains(
            q,
        ) by {
            let src = old_root + q.skip(new_root.len() as int);
            assert(is_moved_key(q, new_root));
            assert(is_moved_key(src, old_root)) by {
                assert(src.take(old_root.len() as int) =~= old_root);
                assert(src[old_root.len() as int] == q[new_root.len() as int]);
            }
            assert(rebase(src, old_root, new_root) =~= q) by {
                assert(src.skip(old_root.len() as int) =~= q.skip(new_root.len() as int));
                assert(q =~= q.take(new_root.len() as int) + q.skip(new_root.len() as int));
            }
            let i = choose|i: int| 0 <= i < s.len() && #[trigger] s[i].path.deep_view() == src;
            if i == s.len() - 1 {
                assert(re.dom().contains(rebase(lk, old_root, new_root)));
            } else {
                assert(t[i].path.deep_view() == src);
                assert(map_of(t).dom().contains(src));
                assert(rebase_map(map_of(t), old_root, new_root).dom().contains(q));
                assert(rebased_entries(t, old_root, new_root).dom().contains(q));
            }
        }
    }
}

/// Decides whether an entry at `path` is migrated by a move out of
/// `old_root`: it lies strictly below the root and its top-level name under
/// the root is not `config.json`.
pub fn entry_is_migrated(path: &Vec<String>, old_root: &Vec<String>) -> (r: bool)
    ensures
        r == is_moved_key(path.deep_view(), old_root.deep_view()),
{
    if !path_is_under(path, old_root) {
        return false;
    }
    let cfg: String = String::from_str("config.json");
    proof {
        crate::paths::lemma_deep_view_index(path);
    }
    let differs = path[old_root.len()] != cfg;
    proof {
        assert(path.deep_view()[old_root.len() as int] == path@[old_root.len() as int]@);
    }
    differs
}

/// The short-circuit test of the relocation contract, on raw path strings:
/// equal roots, an empty root, or a missing old root make the move a no-op
/// that reports success.
pub fn relocation_is_noop(old_path: &String, new_path: &String, old_root_exists: bool) -> (r: bool)
    ensures
        r == (old_path@ == new_path@ || old_path@.len() == 0 || new_path@.len() == 0
            || !old_root_exists),
{
    *old_path == *new_path || old_path.as_str().is_empty()
        || new_path.as_str().is_empty() || !old_root_exists
}

impl FsModel {
    /// Moves every entry below `old_root`, except the configuration file,
    /// to the same relative location below `new_root`; directories missing
    /// at the new root are created, targets are overwritten, and the
    /// originals are removed. The no-op cases leave the filesystem as it
    /// was.
    pub fn relocate(&mut self, old_root: &Vec<String>, new_root: &Vec<String>)
        requires
            old(self).wf(),
        ensures
            final(self).wf(),
            final(self)@ == relocated(
                old(self)@,
                old_root.deep_view(),
                new_root.deep_view(),
            ),
    {
        let ghost m = self@;
        let ghost s = self.entries@;
        let ghost o = old_root.deep_view();
        let ghost nn = new_root.deep_view();
        if path_eq(old_root, new_root) || old_root.len() == 0 || new_root.len() == 0
            || !self.contains_path(old_root) {
            return ;
        }
        let entries = self.entries.split_off(0);
        proof {
            assert(entries@ =~= s);
            assert(self.entries@ =~= Seq::<FsEntry>::empty());
            assert(self@ =~= Map::<Seq<Seq<char>>, Ent>::empty());
            assert(self@ =~= map_of(s.take(0)).remove_keys(moved_keys(o)));
        }
        let n = entries.len();
        for i in 0..n
            invariant
                n == entries@.len(),
                entries@ == s,
                o == old_root.deep_view(),
                self.wf(),
                self@ == map_of(s.take(i as int)).remove_keys(moved_keys(o)),
        {
            proof {
                assert(s.take(i + 1).drop_last() =~= s.take(i as int));
            }
            if !entry_is_migrated(&entries[i].path, old_root) {
                self.put(&entries[i].path, entries[i].kind.dup());
                proof {
                    assert(self@ =~= map_of(s.take(i + 1)).remove_keys(moved_keys(o)));
                }
            } else {
                proof {
                    assert(self@ =~= map_of(s.take(i + 1)).remove_keys(moved_keys(o)));
                }
            }
        }
        proof {
            assert(s.take(n as int) =~= s);
        }
        let ghost kept = m.remove_keys(moved_keys(o));
        self.mkdir_p(new_root);
        let ghost base = kept.union_prefer_right(dirs_along(kept, nn));
        for i in 0..n
            invariant
                n == entries@.len(),
                entries@ == s,
                o == old_root.deep_view(),
                nn == new_root.deep_view(),
                old_root@.len() == o.len(),
                self.wf(),
                self@ == base.union_prefer_right(rebased_entries(s.take(i as int), o, nn)),
        {
            proof {
                assert(s.take(i + 1).drop_last() =~= s.take(i as int));
            }
            if entry_is_migrated(&entries[i].path, old_root) {
                let target = path_rebase(&entries[i].path, old_root.len(), new_root);
                self.put(&target, entries[i].kind.dup());
                proof {
                    assert(target.deep_view() == rebase(entries@[i as int].path.deep_view(), o, nn));
                    assert(self@ =~= base.union_prefer_right(
                        rebased_entries(s.take(i + 1), o, nn),
                    ));
                }
            } else {
                proof {
                    assert(self@ =~= base.union_prefer_right(
                        rebased_entries(s.take(i + 1), o, nn),
                    ));
                }
            }
        }
        proof {
            assert(s.take(n as int) =~= s);
            lemma_rebased_entries_is_rebase_map(s, o, nn);
            assert(self@ =~= relocated(m, o, nn));
        }
    }
}

} // verus!
