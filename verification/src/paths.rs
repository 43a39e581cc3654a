//! Paths inside the data directory, modelled as sequences of components.
//!
//! A filesystem location is a `Vec<String>` of path components; its
//! mathematical value is the `Seq<Seq<char>>` given by `deep_view()`. The
//! spec functions here say when one path lies below another and how a path
//! is re-rooted during a data-directory move.

use vstd::prelude::*;

verus! {

/// The one directory entry that a data-directory move never migrates:
/// the application configuration file.
pub open spec fn config_file_name() -> Seq<char> {
    "config.json"@
}

/// `k` lies strictly below the directory `root`.
pub open spec fn is_under(k: Seq<Seq<char>>, root: Seq<Seq<char>>) -> bool {
    k.len() > root.len() && k.take(root.len() as int) == root
}

/// `k` is migrated by a move out of `root`: it lies strictly below `root`
/// and its top-level component under `root` is not the configuration file.
pub open spec fn is_moved_key(k: Seq<Seq<char>>, root: Seq<Seq<char>>) -> bool {
    is_under(k, root) && k[root.len() as int] != config_file_name()
}

/// Every path a move out of `root` would migrate.
pub open spec fn moved_keys(root: Seq<Seq<char>>) -> Set<Seq<Seq<char>>> {
    Set::new(|k: Seq<Seq<char>>| is_moved_key(k, root))
}

/// Re-roots a path below `old_root` to the same relative location below
/// `new_root`.
pub open spec fn rebase(
    k: Seq<Seq<char>>,
    old_root: Seq<Seq<char>>,
    new_root: Seq<Seq<char>>,
) -> Seq<Seq<char>> {
    new_root + k.skip(old_root.len() as int)
}

/// Whether a directory entry's name is the configuration file's, which a
/// data-directory move leaves behind.
pub fn is_config_entry_name(name: &String) -> (r: bool)
    ensures
        r == (name@ == config_file_name()),
{
    let cfg: String = String::from_str("config.json");
    *name == cfg
}

/// Compares two component paths; equality of the values the views denote.
pub fn path_eq(a: &Vec<String>, b: &Vec<String>) -> (r: bool)
    ensures
        r == (a.deep_view() == b.deep_view()),
{
    if a.len() != b.len() {
        assert(a.deep_view().len() != b.deep_view().len());
        return false;
    }
    let n = a.len();
    for i in 0..n
        invariant
            n == a.len() == b.len(),
            forall|j: int| 0 <= j < i ==> a.deep_view()[j] == b.deep_view()[j],
    {
        if a[i] != b[i] {
            assert(a.deep_view()[i as int] != b.deep_view()[i as int]);
            return false;
        }
    }
    proof {
        assert(a.deep_view() =~= b.deep_view());
    }
    true
}

/// The deep view of a vector of strings is pointwise the views of its
/// elements.
pub proof fn lemma_deep_view_index(v: &Vec<String>)
    ensures
        v.deep_view().len() == v@.len(),
        forall|j: int| 0 <= j < v@.len() ==> v.deep_view()[j] == #[trigger] v@[j]@,
{
}

/// Appends one component to a path, leaving the prefix as it was.
pub fn path_push(p: &Vec<String>, name: &String) -> (r: Vec<String>)
    ensures
        r.deep_view() == p.deep_view().push(name@),
{
    let mut r: Vec<String> = Vec::new();
    let n = p.len();
    for i in 0..n
        invariant
            n == p.len(),
            r.deep_view() =~= p.deep_view().take(i as int),
    {
        let ghost r_old = r;
        r.push(p[i].clone());
        proof {
            lemma_deep_view_index(&r);
            lemma_deep_view_index(&r_old);
            lemma_deep_view_index(p);
            assert(r.deep_view() =~= p.deep_view().take(i + 1));
        }
    }
    let ghost r_old = r;
    r.push(name.clone());
    proof {
        lemma_deep_view_index(&r);
        lemma_deep_view_index(&r_old);
        lemma_deep_view_index(p);
        assert(p.deep_view().take(n as int) =~= p.deep_view());
        assert(r.deep_view() =~= p.deep_view().push(name@));
    }
    r
}

/// The first `n` components of a path.
pub fn path_prefix(p: &Vec<String>, n: usize) -> (r: Vec<String>)
    requires
        n <= p.len(),
    ensures
        r.deep_view() == p.deep_view().take(n as int),
{
    let mut r: Vec<String> = Vec::new();
    for i in 0..n
        invariant
            n <= p.len(),
            r.deep_view() =~= p.deep_view().take(i as int),
    {
        let ghost r_old = r;
        r.push(p[i].clone());
        proof {
            lemma_deep_view_index(&r);
            lemma_deep_view_index(&r_old);
            lemma_deep_view_index(p);
            assert(r.deep_view() =~= p.deep_view().take(i + 1));
        }
    }
    r
}

/// A fresh copy of a path, component for component.
pub fn path_clone(p: &Vec<String>) -> (r: Vec<String>)
    ensures
        r.deep_view() == p.deep_view(),
{
    let r = path_prefix(p, p.len());
    proof {
        assert(p.deep_view().take(p.len() as int) =~= p.deep_view());
    }
    r
}

/// Re-roots a concrete path: drops its first `strip` components and puts
/// `new_root` in their place.
pub fn path_rebase(path: &Vec<String>, strip: usize, new_root: &Vec<String>) -> (r: Vec<String>)
    requires
        strip <= path.len(),
    ensures
        r.deep_view() == new_root.deep_view() + path.deep_view().skip(strip as int),
{
    let mut r = path_clone(new_root);
    let n = path.len();
    for i in strip..n
        invariant
            strip <= i <= n == path.len(),
            r.deep_view() =~= new_root.deep_view() + path.deep_view().subrange(
                strip as int,
                i as int,
            ),
    {
        let ghost r_old = r;
        r.push(path[i].clone());
        proof {
            lemma_deep_view_index(&r);
            lemma_deep_view_index(&r_old);
            lemma_deep_view_index(path);
            lemma_deep_view_index(new_root);
            assert(r.deep_view() =~= new_root.deep_view() + path.deep_view().subrange(
                strip as int,
                i + 1,
            ));
        }
    }
    proof {
        assert(path.deep_view().subrange(strip as int, n as int) =~= path.deep_view().skip(
            strip as int,
        ));
        assert(r.deep_view() =~= new_root.deep_view() + path.deep_view().skip(strip as int));
    }
    r
}

/// Whether `old_root` is a proper prefix of `k` (as component sequences),
/// decided on concrete paths.
pub fn path_is_under(k: &Vec<String>, root: &Vec<String>) -> (r: bool)
    ensures
        r == is_under(k.deep_view(), root.deep_view()),
{
    if k.len() <= root.len() {
        assert(k.deep_view().len() <= root.deep_view().len());
        return false;
    }
    let n = root.len();
    for i in 0..n
        invariant
            n == root.len() < k.len(),
            forall|j: int| 0 <= j < i ==> k.deep_view()[j] == root.deep_view()[j],
    {
        if k[i] != root[i] {
            assert(k.deep_view()[i as int] != root.deep_view()[i as int]);
            assert(k.deep_view().take(n as int)[i as int] == k.deep_view()[i as int]);
            return false;
        }
    }
    proof {
        assert(k.deep_view().take(n as int) =~= root.deep_view());
    }
    true
}

} // verus!
