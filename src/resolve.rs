//! Finding the one file system entry that holds a package's configuration.
use vstd::prelude::*;
use vstd::string::*;
use crate::path::{join, join_path, lemma_join_under, strictly_under};

verus! {

/// How many naming conventions are tried for a package.
pub const NUM_CONVENTIONS: usize = 20;

/// The suffixes tried after a package's name, in order.
pub open spec fn suffix(k: int) -> Seq<char> {
    if k == 0 {
        "rc"@
    } else if k == 1 {
        ".d"@
    } else if k == 2 {
        ".conf"@
    } else if k == 3 {
        ".conf.d"@
    } else if k == 4 {
        ".toml"@
    } else if k == 5 {
        ".xml"@
    } else if k == 6 {
        ".json"@
    } else if k == 7 {
        ".yml"@
    } else {
        ".lua"@
    }
}

/// The `i`-th naming convention for `pkg`, relative to the base directory:
/// `.pkg`, then `.pkg` with each suffix, then `.config/pkg`, then
/// `.config/pkg` with each suffix.
pub open spec fn conv_tail(pkg: Seq<char>, i: int) -> Seq<char> {
    if i == 0 {
        "."@ + pkg
    } else if i < 10 {
        "."@ + pkg + suffix(i - 1)
    } else if i == 10 {
        join(".config"@, pkg)
    } else {
        join(".config"@, pkg + suffix(i - 11))
    }
}

/// The `i`-th path tried for `pkg` under `base`.
pub open spec fn candidate(base: Seq<char>, pkg: Seq<char>, i: int) -> Seq<char> {
    join(base, conv_tail(pkg, i))
}

/// The paths that a list of strings names.
pub open spec fn path_set(v: Seq<String>) -> Set<Seq<char>> {
    Set::new(|p: Seq<char>| exists|i: int| 0 <= i < v.len() && v[i]@ == p)
}

/// The first convention, from `from` on, whose path is among `present`.
pub open spec fn first_hit(base: Seq<char>, pkg: Seq<char>, present: Set<Seq<char>>, from: int) -> Option<int>
    decreases NUM_CONVENTIONS - from,
{
    if from < 0 || from >= NUM_CONVENTIONS {
        None
    } else if present.contains(candidate(base, pkg, from)) {
        Some(from)
    } else {
        first_hit(base, pkg, present, from + 1)
    }
}

/// The relative path of `pkg`'s configuration under `base`, where `present`
/// holds the paths that exist.
pub open spec fn resolve_rel(base: Seq<char>, pkg: Seq<char>, present: Set<Seq<char>>) -> Option<Seq<char>> {
    match first_hit(base, pkg, present, 0) {
        Some(i) => Some(conv_tail(pkg, i)),
        None => None,
    }
}

/// The full path of `pkg`'s configuration under `base`.
pub open spec fn resolve(base: Seq<char>, pkg: Seq<char>, present: Set<Seq<char>>) -> Option<Seq<char>> {
    match first_hit(base, pkg, present, 0) {
        Some(i) => Some(candidate(base, pkg, i)),
        None => None,
    }
}

/// The view of an optional string.
pub open spec fn opt_view(o: Option<String>) -> Option<Seq<char>> {
    match o {
        Some(s) => Some(s@),
        None => None,
    }
}

proof fn lemma_first_hit_at(base: Seq<char>, pkg: Seq<char>, present: Set<Seq<char>>, from: int, i: int)
    requires
        0 <= from <= i < NUM_CONVENTIONS,
        present.contains(candidate(base, pkg, i)),
        forall|j: int| from <= j < i ==> !present.contains(#[trigger] candidate(base, pkg, j)),
    ensures
        first_hit(base, pkg, present, from) == Some(i),
    decreases i - from,
{
    if from < i {
        lemma_first_hit_at(base, pkg, present, from + 1, i);
    }
}

proof fn lemma_first_hit_none(base: Seq<char>, pkg: Seq<char>, present: Set<Seq<char>>, from: int)
    requires
        0 <= from <= NUM_CONVENTIONS,
        forall|j: int| from <= j < NUM_CONVENTIONS ==> !present.contains(#[trigger] candidate(base, pkg, j)),
    ensures
        first_hit(base, pkg, present, from) == None::<int>,
    decreases NUM_CONVENTIONS - from,
{
    if from < NUM_CONVENTIONS {
        lemma_first_hit_none(base, pkg, present, from + 1);
    }
}

/// When the path of convention `i` exists and none before it does, resolution
/// picks convention `i`, whatever exists after it.
pub proof fn lemma_first_existing_wins(base: Seq<char>, pkg: Seq<char>, present: Set<Seq<char>>, i: int)
    requires
        0 <= i < NUM_CONVENTIONS,
        present.contains(candidate(base, pkg, i)),
        forall|j: int| 0 <= j < i ==> !present.contains(#[trigger] candidate(base, pkg, j)),
    ensures
        resolve(base, pkg, present) == Some(candidate(base, pkg, i)),
        resolve_rel(base, pkg, present) == Some(conv_tail(pkg, i)),
{
    lemma_first_hit_at(base, pkg, present, 0, i);
}

/// Where exactly one convention's path exists, resolution returns that path;
/// where none exists, it returns nothing.
pub proof fn lemma_single_entry_found(base: Seq<char>, pkg: Seq<char>, present: Set<Seq<char>>, i: int)
    requires
        0 <= i < NUM_CONVENTIONS,
        present.contains(candidate(base, pkg, i)),
        forall|j: int| 0 <= j < NUM_CONVENTIONS && j != i ==> !present.contains(#[trigger] candidate(base, pkg, j)),
    ensures
        resolve(base, pkg, present) == Some(candidate(base, pkg, i)),
{
    lemma_first_hit_at(base, pkg, present, 0, i);
}

/// Where no convention's path exists, resolution returns nothing.
pub proof fn lemma_nothing_found(base: Seq<char>, pkg: Seq<char>, present: Set<Seq<char>>)
    requires
        forall|j: int| 0 <= j < NUM_CONVENTIONS ==> !present.contains(#[trigger] candidate(base, pkg, j)),
    ensures
        resolve(base, pkg, present) == None::<Seq<char>>,
        resolve_rel(base, pkg, present) == None::<Seq<char>>,
{
    lemma_first_hit_none(base, pkg, present, 0);
}

/// Every convention names something: its relative path is never empty.
pub proof fn lemma_conv_tail_nonempty(pkg: Seq<char>, i: int)
    ensures
        conv_tail(pkg, i).len() > 0,
{
    reveal_strlit(".");
    reveal_strlit(".config");
}

/// A resolved path lies strictly below the base directory, under the
/// non-empty relative path that resolution names.
pub proof fn lemma_resolved_under(base: Seq<char>, pkg: Seq<char>, present: Set<Seq<char>>)
    ensures
        resolve_rel(base, pkg, present) is Some ==> {
            let t = resolve_rel(base, pkg, present)->0;
            &&& t.len() > 0
            &&& resolve(base, pkg, present) == Some(join(base, t))
            &&& strictly_under(join(base, t), base)
        },
        resolve_rel(base, pkg, present) is None <==> resolve(base, pkg, present) is None,
{
    if let Some(i) = first_hit(base, pkg, present, 0) {
        lemma_conv_tail_nonempty(pkg, i);
        lemma_join_under(base, conv_tail(pkg, i));
    }
}

fn suffix_at(k: usize) -> (r: &'static str)
    requires
        k < 9,
    ensures
        r@ == suffix(k as int),
{
    if k == 0 {
        "rc"
    } else if k == 1 {
        ".d"
    } else if k == 2 {
        ".conf"
    } else if k == 3 {
        ".conf.d"
    } else if k == 4 {
        ".toml"
    } else if k == 5 {
        ".xml"
    } else if k == 6 {
        ".json"
    } else if k == 7 {
        ".yml"
    } else {
        ".lua"
    }
}

/// The relative path of convention `i` for `pkg`.
pub fn convention_tail(pkg: &str, i: usize) -> (r: String)
    requires
        i < NUM_CONVENTIONS,
    ensures
        r@ == conv_tail(pkg@, i as int),
{
    if i < 10 {
        let mut r = String::from_str(".");
        r.append(pkg);
        if i > 0 {
            r.append(suffix_at(i - 1));
        }
        r
    } else {
        let mut name = String::from_str(pkg);
        if i > 10 {
            name.append(suffix_at(i - 11));
        }
        join_path(".config", name.as_str())
    }
}

/// Every path tried for `pkg` under `base`, in the order they are tried.
pub fn pkg_candidates(base: &str, pkg: &str) -> (r: Vec<String>)
    ensures
        r.len() == NUM_CONVENTIONS,
        forall|i: int| 0 <= i < NUM_CONVENTIONS ==> (#[trigger] r[i])@ == candidate(base@, pkg@, i),
{
    let mut r: Vec<String> = Vec::new();
    let mut i: usize = 0;
    while i < NUM_CONVENTIONS
        invariant
            i <= NUM_CONVENTIONS,
            r.len() == i,
            forall|j: int| 0 <= j < i ==> (#[trigger] r[j])@ == candidate(base@, pkg@, j),
        decreases NUM_CONVENTIONS - i,
    {
        let tail = convention_tail(pkg, i);
        r.push(join_path(base, tail.as_str()));
        i = i + 1;
    }
    r
}

/// Whether `p` is one of the paths in `present`.
pub fn is_present(present: &Vec<String>, p: &String) -> (r: bool)
    ensures
        r == path_set(present@).contains(p@),
{
    let mut i: usize = 0;
    while i < present.len()
        invariant
            i <= present.len(),
            forall|j: int| 0 <= j < i ==> present@[j]@ != p@,
        decreases present.len() - i,
    {
        if present[i] == *p {
            assert(path_set(present@).contains(p@));
            return true;
        }
        i = i + 1;
    }
    false
}

fn first_hit_index(base: &str, pkg: &str, present: &Vec<String>) -> (r: Option<usize>)
    ensures
        match r {
            Some(i) => i < NUM_CONVENTIONS && first_hit(base@, pkg@, path_set(present@), 0) == Some(i as int),
            None => first_hit(base@, pkg@, path_set(present@), 0) == None::<int>,
        },
{
    let ghost set = path_set(present@);
    let cands = pkg_candidates(base, pkg);
    let mut i: usize = 0;
    while i < NUM_CONVENTIONS
        invariant
            i <= NUM_CONVENTIONS,
            set == path_set(present@),
            cands.len() == NUM_CONVENTIONS,
            forall|j: int| 0 <= j < NUM_CONVENTIONS ==> (#[trigger] cands[j])@ == candidate(base@, pkg@, j),
            forall|j: int| 0 <= j < i ==> !set.contains(#[trigger] candidate(base@, pkg@, j)),
        decreases NUM_CONVENTIONS - i,
    {
        if is_present(present, &cands[i]) {
            proof {
                lemma_first_hit_at(base@, pkg@, set, 0, i as int);
            }
            return Some(i);
        }
        i = i + 1;
    }
    proof {
        lemma_first_hit_none(base@, pkg@, set, 0);
    }
    None
}

/// The path of `pkg`'s configuration relative to `base`: the first naming
/// convention whose path is among `present`, the paths that exist.
pub fn find_pkg_rel(base: &str, pkg: &str, present: &Vec<String>) -> (r: Option<String>)
    ensures
        opt_view(r) == resolve_rel(base@, pkg@, path_set(present@)),
        r matches Some(t) ==> t@.len() > 0 && strictly_under(join(base@, t@), base@),
{
    proof {
        lemma_resolved_under(base@, pkg@, path_set(present@));
    }
    match first_hit_index(base, pkg, present) {
        Some(i) => Some(convention_tail(pkg, i)),
        None => None,
    }
}

/// The path of `pkg`'s configuration under `base`: the first naming convention
/// whose path is among `present`, the paths that exist.
pub fn find_pkg_path(base: &str, pkg: &str, present: &Vec<String>) -> (r: Option<String>)
    ensures
        opt_view(r) == resolve(base@, pkg@, path_set(present@)),
        r matches Some(p) ==> strictly_under(p@, base@),
{
    proof {
        lemma_resolved_under(base@, pkg@, path_set(present@));
    }
    match first_hit_index(base, pkg, present) {
        Some(i) => {
            let tail = convention_tail(pkg, i);
            Some(join_path(base, tail.as_str()))
        },
        None => None,
    }
}

} // verus!
