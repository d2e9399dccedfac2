//! The two commands, per package: what to clear and what to copy where.
use vstd::prelude::*;
use crate::path::{in_tree, join, join_path, lemma_join_assoc, lemma_join_in_tree, lemma_join_under, lemma_under_trans, strictly_under};
use crate::resolve::{find_pkg_rel, opt_view, path_set, resolve_rel};
use crate::mirror::{apply_all, copied, copy_plan, copy_targets_apart, dirs_fit, lemma_copy_reproduces, lists_tree, remove_tree, Node};

verus! {

/// What storing one package takes.
pub enum StorePlan {
    /// The package name is empty.
    EmptyName,
    /// No configuration was found for the package in the home directory.
    NotFound,
    /// Delete everything at `clear`, then copy the tree at `from` to `to`.
    Replace { clear: String, from: String, to: String },
}

/// What staging one package takes.
pub enum StagePlan {
    /// The package name is empty.
    EmptyName,
    /// The repository holds nothing for the package.
    NoStore,
    /// Delete everything at `clear`, if given, then copy the contents of the
    /// tree at `from` into `to`.
    Restore { clear: Option<String>, from: String, to: String },
}

/// Where the repository keeps a package.
pub open spec fn store_path(repo: Seq<char>, pkg: Seq<char>) -> Seq<char> {
    join(repo, pkg)
}

/// The path in the home directory that staging clears: the package's path
/// relative to its stored tree, or failing that relative to the home
/// directory, taken under the home directory.
pub open spec fn stage_clear(home: Seq<char>, repo: Seq<char>, pkg: Seq<char>, present: Set<Seq<char>>) -> Option<Seq<char>> {
    match resolve_rel(store_path(repo, pkg), pkg, present) {
        Some(t) => Some(join(home, t)),
        None => match resolve_rel(home, pkg, present) {
            Some(t) => Some(join(home, t)),
            None => None,
        },
    }
}

/// Plans storing `pkg` from `home` into `repo`, where `present` holds the paths
/// that exist. An empty name is refused. The package's whole tree in the
/// repository is cleared, and its configuration is copied there under the same
/// path it has relative to home; every path involved lies strictly below home
/// or the repository.
pub fn plan_store(home: &str, repo: &str, pkg: &str, present: &Vec<String>) -> (r: StorePlan)
    ensures
        pkg@.len() == 0 <==> r is EmptyName,
        pkg@.len() > 0 ==> match resolve_rel(home@, pkg@, path_set(present@)) {
            None => r is NotFound,
            Some(t) => match r {
                StorePlan::Replace { clear, from, to } => {
                    &&& clear@ == store_path(repo@, pkg@)
                    &&& from@ == join(home@, t)
                    &&& to@ == join(store_path(repo@, pkg@), t)
                    &&& strictly_under(clear@, repo@)
                    &&& strictly_under(from@, home@)
                    &&& strictly_under(to@, clear@)
                },
                _ => false,
            },
        },
{
    if pkg.unicode_len() == 0 {
        return StorePlan::EmptyName;
    }
    match find_pkg_rel(home, pkg, present) {
        None => StorePlan::NotFound,
        Some(t) => {
            let clear = join_path(repo, pkg);
            let from = join_path(home, t.as_str());
            let to = join_path(clear.as_str(), t.as_str());
            proof {
                lemma_join_under(repo@, pkg@);
                lemma_join_under(clear@, t@);
            }
            StorePlan::Replace { clear, from, to }
        },
    }
}

/// Plans staging `pkg` from `repo` back into `home`, where `store_exists` says
/// whether the repository holds the package's tree and `present` holds the
/// paths that exist. An empty name is refused. The live configuration, which
/// lies strictly below home, is cleared, and the stored tree's contents are
/// copied into the home directory.
pub fn plan_stage(home: &str, repo: &str, pkg: &str, store_exists: bool, present: &Vec<String>) -> (r: StagePlan)
    ensures
        pkg@.len() == 0 <==> r is EmptyName,
        pkg@.len() > 0 && !store_exists ==> r is NoStore,
        pkg@.len() > 0 && store_exists ==> match r {
            StagePlan::Restore { clear, from, to } => {
                &&& opt_view(clear) == stage_clear(home@, repo@, pkg@, path_set(present@))
                &&& from@ == store_path(repo@, pkg@)
                &&& to@ == home@
                &&& strictly_under(from@, repo@)
                &&& (clear matches Some(c) ==> strictly_under(c@, home@))
            },
            _ => false,
        },
{
    if pkg.unicode_len() == 0 {
        return StagePlan::EmptyName;
    }
    if !store_exists {
        return StagePlan::NoStore;
    }
    let from = join_path(repo, pkg);
    let rel = match find_pkg_rel(from.as_str(), pkg, present) {
        Some(t) => Some(t),
        None => find_pkg_rel(home, pkg, present),
    };
    let clear = match rel {
        Some(t) => {
            proof {
                lemma_join_under(home@, t@);
            }
            Some(join_path(home, t.as_str()))
        },
        None => None,
    };
    proof {
        lemma_join_under(repo@, pkg@);
    }
    StagePlan::Restore { clear, from, to: String::from_str(home) }
}

/// The entries of a listing, each taken under `t`.
pub open spec fn nest_listing(t: Seq<char>, listing: Seq<(Seq<char>, bool)>) -> Seq<(Seq<char>, bool)> {
    Seq::new(listing.len(), |i: int| (join(t, listing[i].0), listing[i].1))
}

/// No two entries of a listing name the same path under `root`.
pub open spec fn distinct_entries(root: Seq<char>, listing: Seq<(Seq<char>, bool)>) -> bool {
    forall|i: int, j: int| 0 <= i < listing.len() && 0 <= j < listing.len() && i != j
        ==> join(root, #[trigger] listing[i].0) != join(root, #[trigger] listing[j].0)
}

/// Storing then staging gives back what was stored. The package's
/// configuration is the tree at `home/t` (its relative path `t` is never
/// empty). Storing deletes the package's stored tree, then copies `home/t` to
/// `t` under it; the stored tree then lists the same entries under `t`.
/// Staging deletes `home/t`, then copies the stored tree into `home`.
/// Afterwards each entry under `home/t` holds again exactly what it held
/// before: the same kind, the same bytes. The home entries lie outside the
/// stored tree, and the stored copies outside `home/t`.
pub proof fn lemma_store_stage_round_trip(
    fs: Map<Seq<char>, Node>,
    home: Seq<char>,
    repo: Seq<char>,
    pkg: Seq<char>,
    t: Seq<char>,
    listing: Seq<(Seq<char>, bool)>,
)
    requires
        t.len() > 0,
        lists_tree(fs, join(home, t), listing),
        distinct_entries(join(home, t), listing),
        copy_targets_apart(join(home, t), join(store_path(repo, pkg), t), listing),
        forall|i: int| 0 <= i < listing.len() ==> {
            &&& !in_tree(join(join(home, t), #[trigger] listing[i].0), store_path(repo, pkg))
            &&& !in_tree(join(join(store_path(repo, pkg), t), listing[i].0), join(home, t))
        },
    ensures
        ({
            let store = store_path(repo, pkg);
            let stored = apply_all(remove_tree(fs, store), copy_plan(join(home, t), join(store, t), listing));
            let staged = apply_all(remove_tree(stored, join(home, t)), copy_plan(store, home, nest_listing(t, listing)));
            forall|i: int| 0 <= i < listing.len() ==> {
                &&& staged.dom().contains(#[trigger] join(join(home, t), listing[i].0))
                &&& staged[join(join(home, t), listing[i].0)] == fs[join(join(home, t), listing[i].0)]
            }
        }),
{
    let store = store_path(repo, pkg);
    let src = join(home, t);
    let dst = join(store, t);
    let nested = nest_listing(t, listing);
    let cleared = remove_tree(fs, store);
    lemma_join_under(store, t);
    assert forall|i: int| 0 <= i < listing.len() implies {
        &&& join(store, #[trigger] nested[i].0) == join(dst, listing[i].0)
        &&& join(home, nested[i].0) == join(src, listing[i].0)
        &&& in_tree(join(dst, listing[i].0), store)
    } by {
        lemma_join_assoc(store, t, listing[i].0);
        lemma_join_assoc(home, t, listing[i].0);
        lemma_join_in_tree(dst, listing[i].0);
        lemma_under_trans(join(dst, listing[i].0), dst, store);
    }
    assert(lists_tree(cleared, src, listing)) by {
        assert forall|i: int| 0 <= i < listing.len() implies {
            &&& cleared.dom().contains(#[trigger] join(src, listing[i].0))
            &&& (cleared[join(src, listing[i].0)] is Dir <==> listing[i].1)
        } by {
            assert(!in_tree(join(src, listing[i].0), store));
        }
    }
    assert(dirs_fit(cleared, dst, listing)) by {
        assert forall|i: int| 0 <= i < listing.len() implies !cleared.dom().contains(#[trigger] join(dst, listing[i].0)) by {
            assert(join(store, nested[i].0) == join(dst, listing[i].0));
        }
    }
    let stored = apply_all(cleared, copy_plan(src, dst, listing));
    lemma_copy_reproduces(cleared, src, dst, listing);
    assert(copied(cleared, stored, src, dst, listing, listing.len() as int));
    let cleared2 = remove_tree(stored, src);
    assert(lists_tree(cleared2, store, nested)) by {
        assert forall|i: int| 0 <= i < nested.len() implies {
            &&& cleared2.dom().contains(#[trigger] join(store, nested[i].0))
            &&& (cleared2[join(store, nested[i].0)] is Dir <==> nested[i].1)
        } by {
            assert(join(store, nested[i].0) == join(dst, listing[i].0));
            assert(!in_tree(join(dst, listing[i].0), src));
            assert(cleared.dom().contains(join(src, listing[i].0)));
        }
    }
    assert(copy_targets_apart(store, home, nested)) by {
        assert forall|i: int, j: int| 0 <= i < nested.len() && 0 <= j < nested.len()
            implies join(home, #[trigger] nested[i].0) != join(store, #[trigger] nested[j].0) by {
            assert(join(dst, listing[j].0) != join(src, listing[i].0));
        }
        assert forall|i: int, j: int| 0 <= i < nested.len() && 0 <= j < nested.len() && i != j
            implies join(home, #[trigger] nested[i].0) != join(home, #[trigger] nested[j].0) by {
            assert(join(src, listing[i].0) != join(src, listing[j].0));
        }
    }
    assert(dirs_fit(cleared2, home, nested)) by {
        assert forall|i: int| 0 <= i < nested.len() implies !cleared2.dom().contains(#[trigger] join(home, nested[i].0)) by {
            assert(join(home, nested[i].0) == join(src, listing[i].0));
            lemma_join_in_tree(src, listing[i].0);
        }
    }
    lemma_copy_reproduces(cleared2, store, home, nested);
    let staged = apply_all(cleared2, copy_plan(store, home, nested));
    assert(copied(cleared2, staged, store, home, nested, nested.len() as int));
    assert forall|i: int| 0 <= i < listing.len() implies {
        &&& staged.dom().contains(#[trigger] join(join(home, t), listing[i].0))
        &&& staged[join(join(home, t), listing[i].0)] == fs[join(join(home, t), listing[i].0)]
    } by {
        assert(join(home, nested[i].0) == join(src, listing[i].0));
        assert(join(store, nested[i].0) == join(dst, listing[i].0));
        assert(cleared.dom().contains(join(src, listing[i].0)));
    }
}

} // verus!
