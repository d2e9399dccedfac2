//! Deleting and copying whole subtrees: what to remove for an entry, and the
//! steps that reproduce a source tree at a destination.
use vstd::prelude::*;
use crate::path::{in_tree, join, join_path};

verus! {

/// What is found at a path.
#[derive(Clone, Copy, Debug, PartialEq, Eq, Structural)]
pub enum Kind {
    Missing,
    File,
    Dir,
    /// An entry that is neither a regular file nor a directory.
    Other,
}

/// What removing everything at a path takes.
#[derive(Clone, Copy, Debug, PartialEq, Eq, Structural)]
pub enum Removal {
    Nothing,
    RemoveFile,
    RemoveTree,
}

pub open spec fn removal_for(kind: Kind) -> Removal {
    match kind {
        Kind::Dir => Removal::RemoveTree,
        Kind::File => Removal::RemoveFile,
        _ => Removal::Nothing,
    }
}

/// How to delete everything at a path whose entry is of `kind`: a directory
/// goes with all its contents, a file alone; where nothing is, nothing is done.
pub fn delete_all(kind: Kind) -> (r: Removal)
    ensures
        r == removal_for(kind),
        kind == Kind::Missing ==> r == Removal::Nothing,
{
    match kind {
        Kind::Dir => Removal::RemoveTree,
        Kind::File => Removal::RemoveFile,
        _ => Removal::Nothing,
    }
}

/// Whether a copy may start.
#[derive(Clone, Copy, Debug, PartialEq, Eq, Structural)]
pub enum CopyCheck {
    Ready,
    /// The destination already exists, and the copy would overwrite it.
    DestExists,
    /// There is nothing to copy.
    SourceMissing,
}

pub open spec fn copy_check(src: Kind, dest: Kind, into_dir: bool) -> CopyCheck {
    if dest != Kind::Missing && !(into_dir && dest == Kind::Dir && src == Kind::Dir) {
        CopyCheck::DestExists
    } else if src == Kind::Missing {
        CopyCheck::SourceMissing
    } else {
        CopyCheck::Ready
    }
}

/// Decides, before anything is written, whether a copy from an entry of kind
/// `src` to one of kind `dest` may go ahead. The destination must not exist,
/// except that with `into_dir` a directory's contents may be copied into an
/// existing directory; the source must exist. The destination is tested first.
pub fn check_copy(src: Kind, dest: Kind, into_dir: bool) -> (r: CopyCheck)
    ensures
        r == copy_check(src, dest, into_dir),
        r == CopyCheck::Ready ==> src != Kind::Missing,
        r == CopyCheck::Ready && !into_dir ==> dest == Kind::Missing,
{
    if dest != Kind::Missing && !(into_dir && dest == Kind::Dir && src == Kind::Dir) {
        CopyCheck::DestExists
    } else if src == Kind::Missing {
        CopyCheck::SourceMissing
    } else {
        CopyCheck::Ready
    }
}

/// One entry of a source tree: its path relative to the tree's root (empty for
/// the root itself) and whether it is a directory.
pub struct Listed {
    pub rel: String,
    pub is_dir: bool,
}

/// One step of a copy.
pub enum CopyOp {
    /// Create this directory and its missing ancestors.
    MakeDir(String),
    /// Create the parent directories of the second path, then copy the file
    /// at the first path to it, byte for byte.
    CopyFile(String, String),
}

pub enum OpView {
    MakeDir(Seq<char>),
    CopyFile(Seq<char>, Seq<char>),
}

impl View for CopyOp {
    type V = OpView;

    open spec fn view(&self) -> OpView {
        match self {
            CopyOp::MakeDir(p) => OpView::MakeDir(p@),
            CopyOp::CopyFile(a, b) => OpView::CopyFile(a@, b@),
        }
    }
}

pub open spec fn listed_view(l: Seq<Listed>) -> Seq<(Seq<char>, bool)> {
    l.map_values(|e: Listed| (e.rel@, e.is_dir))
}

/// The step that reproduces the entry `rel` of `src` under `dest`.
pub open spec fn entry_op(src: Seq<char>, dest: Seq<char>, rel: Seq<char>, is_dir: bool) -> OpView {
    if is_dir {
        OpView::MakeDir(join(dest, rel))
    } else {
        OpView::CopyFile(join(src, rel), join(dest, rel))
    }
}

/// The steps that copy the listed tree at `src` to `dest`, one per entry, in
/// the order of the listing.
pub open spec fn copy_plan(src: Seq<char>, dest: Seq<char>, listing: Seq<(Seq<char>, bool)>) -> Seq<OpView> {
    Seq::new(listing.len(), |i: int| entry_op(src, dest, listing[i].0, listing[i].1))
}

/// The steps that copy the tree at `src`, whose entries `listing` gives, to
/// `dest`.
pub fn copy_all(src: &str, dest: &str, listing: &Vec<Listed>) -> (r: Vec<CopyOp>)
    ensures
        r@.map_values(|o: CopyOp| o@) == copy_plan(src@, dest@, listed_view(listing@)),
{
    let mut r: Vec<CopyOp> = Vec::new();
    let mut i: usize = 0;
    while i < listing.len()
        invariant
            i <= listing.len(),
            r.len() == i,
            forall|j: int| 0 <= j < i ==> (#[trigger] r@[j])@ == entry_op(src@, dest@, listing@[j].rel@, listing@[j].is_dir),
        decreases listing.len() - i,
    {
        let e = &listing[i];
        let to = join_path(dest, e.rel.as_str());
        if e.is_dir {
            r.push(CopyOp::MakeDir(to));
        } else {
            let from = join_path(src, e.rel.as_str());
            r.push(CopyOp::CopyFile(from, to));
        }
        i = i + 1;
    }
    assert(r@.map_values(|o: CopyOp| o@) =~= copy_plan(src@, dest@, listed_view(listing@)));
    r
}

/// What a file system holds at a path.
pub enum Node {
    Dir,
    File(Seq<u8>),
}

/// `q` names a directory that contains `p`: a non-empty proper prefix of `p`
/// that a `/` follows.
pub open spec fn is_ancestor(q: Seq<char>, p: Seq<char>) -> bool {
    &&& 0 < q.len() < p.len()
    &&& p.subrange(0, q.len() as int) == q
    &&& p[q.len() as int] == '/'
}

/// `fs` with each missing directory that contains `p` created.
pub open spec fn make_parents(fs: Map<Seq<char>, Node>, p: Seq<char>) -> Map<Seq<char>, Node> {
    Map::new(
        |q: Seq<char>| fs.dom().contains(q) || is_ancestor(q, p),
        |q: Seq<char>| if fs.dom().contains(q) { fs[q] } else { Node::Dir },
    )
}

/// A file system as a map from paths to what they hold, with one step applied.
/// Both steps first create the missing directories above their destination.
/// A directory is made only where nothing is; a file is copied only from an
/// existing source.
pub open spec fn apply_op(fs: Map<Seq<char>, Node>, op: OpView) -> Map<Seq<char>, Node> {
    match op {
        OpView::MakeDir(p) => {
            let f = make_parents(fs, p);
            if f.dom().contains(p) {
                f
            } else {
                f.insert(p, Node::Dir)
            }
        },
        OpView::CopyFile(a, b) => if fs.dom().contains(a) {
            make_parents(fs, b).insert(b, fs[a])
        } else {
            fs
        },
    }
}

/// A file system with everything at `p` deleted: the entry itself and, for a
/// directory, all it contains.
pub open spec fn remove_tree(fs: Map<Seq<char>, Node>, p: Seq<char>) -> Map<Seq<char>, Node> {
    Map::new(|q: Seq<char>| fs.dom().contains(q) && !in_tree(q, p), |q: Seq<char>| fs[q])
}

/// A file system with the steps applied in order.
pub open spec fn apply_all(fs: Map<Seq<char>, Node>, ops: Seq<OpView>) -> Map<Seq<char>, Node>
    decreases ops.len(),
{
    if ops.len() == 0 {
        fs
    } else {
        apply_op(apply_all(fs, ops.drop_last()), ops.last())
    }
}

/// `listing` lists entries of the tree at `src` in `fs`, each with its kind.
pub open spec fn lists_tree(fs: Map<Seq<char>, Node>, src: Seq<char>, listing: Seq<(Seq<char>, bool)>) -> bool {
    forall|i: int| 0 <= i < listing.len() ==> {
        &&& fs.dom().contains(#[trigger] join(src, listing[i].0))
        &&& (fs[join(src, listing[i].0)] is Dir <==> listing[i].1)
    }
}

/// No destination path of the copy is also a source path, and no two entries
/// land on the same destination path.
pub open spec fn copy_targets_apart(src: Seq<char>, dest: Seq<char>, listing: Seq<(Seq<char>, bool)>) -> bool {
    &&& forall|i: int, j: int| 0 <= i < listing.len() && 0 <= j < listing.len()
        ==> join(dest, #[trigger] listing[i].0) != join(src, #[trigger] listing[j].0)
    &&& forall|i: int, j: int| 0 <= i < listing.len() && 0 <= j < listing.len() && i != j
        ==> join(dest, #[trigger] listing[i].0) != join(dest, #[trigger] listing[j].0)
}

/// Where a directory entry is to be copied, `fs` holds nothing or a directory.
pub open spec fn dirs_fit(fs: Map<Seq<char>, Node>, dest: Seq<char>, listing: Seq<(Seq<char>, bool)>) -> bool {
    forall|i: int| 0 <= i < listing.len() && listing[i].1 && fs.dom().contains(#[trigger] join(dest, listing[i].0))
        ==> fs[join(dest, listing[i].0)] == Node::Dir
}

/// Whether `p` is the destination of one of the first `k` entries.
pub open spec fn is_target(dest: Seq<char>, listing: Seq<(Seq<char>, bool)>, k: int, p: Seq<char>) -> bool {
    exists|i: int| 0 <= i < k && join(dest, listing[i].0) == p
}

/// Whether `p` contains the destination of one of the first `k` entries.
pub open spec fn above_target(dest: Seq<char>, listing: Seq<(Seq<char>, bool)>, k: int, p: Seq<char>) -> bool {
    exists|i: int| 0 <= i < k && is_ancestor(p, join(dest, listing[i].0))
}

/// After a copy of the first `k` entries: each destination holds what its
/// source holds in `fs`, and every directory above it exists; every other
/// path of `fs` is unchanged; and every path added is a directory above a
/// destination.
pub open spec fn copied(
    fs: Map<Seq<char>, Node>,
    out: Map<Seq<char>, Node>,
    src: Seq<char>,
    dest: Seq<char>,
    listing: Seq<(Seq<char>, bool)>,
    k: int,
) -> bool {
    &&& forall|i: int| 0 <= i < k ==> {
        &&& out.dom().contains(#[trigger] join(dest, listing[i].0))
        &&& out[join(dest, listing[i].0)] == fs[join(src, listing[i].0)]
    }
    &&& forall|i: int, q: Seq<char>| 0 <= i < k && is_ancestor(q, #[trigger] join(dest, listing[i].0))
        ==> #[trigger] out.dom().contains(q)
    &&& forall|p: Seq<char>| #![trigger out.dom().contains(p)] #![trigger fs.dom().contains(p)] !is_target(dest, listing, k, p) ==> {
        &&& (fs.dom().contains(p) ==> out.dom().contains(p) && out[p] == fs[p])
        &&& (out.dom().contains(p) && !fs.dom().contains(p) ==> out[p] == Node::Dir && above_target(dest, listing, k, p))
    }
}

proof fn lemma_copy_prefix(
    fs: Map<Seq<char>, Node>,
    src: Seq<char>,
    dest: Seq<char>,
    listing: Seq<(Seq<char>, bool)>,
    k: int,
)
    requires
        0 <= k <= listing.len(),
        lists_tree(fs, src, listing),
        copy_targets_apart(src, dest, listing),
        dirs_fit(fs, dest, listing),
    ensures
        copied(fs, apply_all(fs, copy_plan(src, dest, listing).take(k)), src, dest, listing, k),
    decreases k,
{
    let plan = copy_plan(src, dest, listing);
    if k == 0 {
        assert(plan.take(0).len() == 0);
        assert(apply_all(fs, plan.take(0)) == fs);
    } else {
        let n = k - 1;
        lemma_copy_prefix(fs, src, dest, listing, n);
        assert(copied(fs, apply_all(fs, plan.take(n)), src, dest, listing, n));
        assert(plan.take(k).drop_last() =~= plan.take(n));
        let prev = apply_all(fs, plan.take(n));
        let out = apply_all(fs, plan.take(k));
        let s = join(src, listing[n].0);
        let d = join(dest, listing[n].0);
        let f = make_parents(prev, d);
        assert(out == apply_op(prev, entry_op(src, dest, listing[n].0, listing[n].1)));
        assert(!is_target(dest, listing, n, s)) by {
            if is_target(dest, listing, n, s) {
                let j = choose|j: int| 0 <= j < n && join(dest, listing[j].0) == s;
                assert(join(dest, listing[j].0) != join(src, listing[n].0));
            }
        }
        assert(!is_target(dest, listing, n, d)) by {
            if is_target(dest, listing, n, d) {
                let j = choose|j: int| 0 <= j < n && join(dest, listing[j].0) == d;
                assert(join(dest, listing[j].0) != join(dest, listing[n].0));
            }
        }
        assert(prev.dom().contains(s) && prev[s] == fs[s]);
        assert(!is_ancestor(d, d));
        if listing[n].1 {
            assert(fs[s] == Node::Dir);
            if f.dom().contains(d) {
                assert(prev.dom().contains(d));
                if fs.dom().contains(d) {
                    assert(fs[d] == Node::Dir);
                }
                assert(prev[d] == Node::Dir);
                assert(out == f);
            } else {
                assert(out == f.insert(d, Node::Dir));
            }
        } else {
            assert(out == f.insert(d, prev[s]));
        }
        assert(out.dom().contains(d) && out[d] == fs[s]);
        assert(forall|q: Seq<char>| prev.dom().contains(q) && q != d ==> out.dom().contains(q) && out[q] == prev[q]);
        assert(forall|q: Seq<char>| is_ancestor(q, d) ==> out.dom().contains(q));
        assert(forall|q: Seq<char>| out.dom().contains(q) && !prev.dom().contains(q) ==> q == d || (out[q] == Node::Dir && is_ancestor(q, d)));
        assert forall|i: int| 0 <= i < k implies {
            &&& out.dom().contains(#[trigger] join(dest, listing[i].0))
            &&& out[join(dest, listing[i].0)] == fs[join(src, listing[i].0)]
        } by {
            if i < n {
                assert(join(dest, listing[i].0) != d);
            }
        }
        assert forall|i: int, q: Seq<char>| 0 <= i < k && is_ancestor(q, #[trigger] join(dest, listing[i].0))
            implies #[trigger] out.dom().contains(q) by {
            if i < n {
                assert(prev.dom().contains(q));
            }
        }
        assert forall|p: Seq<char>| !is_target(dest, listing, k, p) implies {
            &&& (fs.dom().contains(p) ==> out.dom().contains(p) && out[p] == fs[p])
            &&& (out.dom().contains(p) && !fs.dom().contains(p) ==> out[p] == Node::Dir && above_target(dest, listing, k, p))
        } by {
            if is_target(dest, listing, n, p) {
                let j = choose|j: int| 0 <= j < n && join(dest, listing[j].0) == p;
                assert(is_target(dest, listing, k, p));
            }
            assert(p != d);
            if out.dom().contains(p) && !fs.dom().contains(p) {
                if prev.dom().contains(p) {
                    let j = choose|j: int| 0 <= j < n && is_ancestor(p, join(dest, listing[j].0));
                    assert(above_target(dest, listing, k, p));
                } else {
                    assert(is_ancestor(p, join(dest, listing[n].0)));
                    assert(above_target(dest, listing, k, p));
                }
            }
        }
    }
}

/// Copying a listed tree reproduces it: afterwards each entry's destination
/// holds exactly what its source held (a directory, or a file with the same
/// bytes) and every directory above it exists, every other path that was
/// there is unchanged, and nothing is added but directories above the
/// destinations.
pub proof fn lemma_copy_reproduces(
    fs: Map<Seq<char>, Node>,
    src: Seq<char>,
    dest: Seq<char>,
    listing: Seq<(Seq<char>, bool)>,
)
    requires
        lists_tree(fs, src, listing),
        copy_targets_apart(src, dest, listing),
        dirs_fit(fs, dest, listing),
    ensures
        copied(fs, apply_all(fs, copy_plan(src, dest, listing)), src, dest, listing, listing.len() as int),
{
    let plan = copy_plan(src, dest, listing);
    lemma_copy_prefix(fs, src, dest, listing, listing.len() as int);
    assert(plan.take(listing.len() as int) =~= plan);
}

} // verus!
