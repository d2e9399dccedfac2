//! Paths as character sequences, joined the way a file system path is.
use vstd::prelude::*;
use vstd::string::*;

verus! {

/// Joins `name` onto `base`: an empty `name` leaves `base`; otherwise the
/// result is `base`, one `/` (none is added where `base` already ends in one),
/// then `name`. The result always extends `base`: a `name` that starts with
/// `/` does not replace it.
pub open spec fn join(base: Seq<char>, name: Seq<char>) -> Seq<char> {
    if name.len() == 0 {
        base
    } else if base.len() > 0 && base.last() == '/' {
        base + name
    } else {
        base + seq!['/'] + name
    }
}

/// `p` names an entry strictly below the directory `base`: it starts with
/// `base`, continues past it, and a `/` separates the two.
pub open spec fn strictly_under(p: Seq<char>, base: Seq<char>) -> bool {
    &&& p.len() > base.len()
    &&& p.subrange(0, base.len() as int) == base
    &&& ((base.len() > 0 && base.last() == '/') || p[base.len() as int] == '/')
}

/// Joining a non-empty name onto a base gives a path strictly below it.
pub proof fn lemma_join_under(base: Seq<char>, name: Seq<char>)
    requires
        name.len() > 0,
    ensures
        strictly_under(join(base, name), base),
{
    let r = join(base, name);
    if base.len() > 0 && base.last() == '/' {
        assert(r.subrange(0, base.len() as int) =~= base);
    } else {
        assert(r.subrange(0, base.len() as int) =~= base);
        assert(r[base.len() as int] == '/');
    }
}

/// `q` is `p` itself or lies below it.
pub open spec fn in_tree(q: Seq<char>, p: Seq<char>) -> bool {
    q == p || strictly_under(q, p)
}

/// Joining any name onto `x` stays within the tree at `x`.
pub proof fn lemma_join_in_tree(x: Seq<char>, name: Seq<char>)
    ensures
        in_tree(join(x, name), x),
{
    if name.len() > 0 {
        lemma_join_under(x, name);
    }
}

/// What lies within the tree at `x`, where `x` lies strictly below `b`, lies
/// strictly below `b` too.
pub proof fn lemma_under_trans(y: Seq<char>, x: Seq<char>, b: Seq<char>)
    requires
        strictly_under(x, b),
        in_tree(y, x),
    ensures
        strictly_under(y, b),
{
    if y != x {
        assert(y.subrange(0, b.len() as int) =~= y.subrange(0, x.len() as int).subrange(0, b.len() as int));
        assert(y[b.len() as int] == y.subrange(0, x.len() as int)[b.len() as int]);
    }
}

/// Joining is associative: `(a / b) / c` names the same path as `a / (b / c)`,
/// for a non-empty middle part `b`.
pub proof fn lemma_join_assoc(a: Seq<char>, b: Seq<char>, c: Seq<char>)
    requires
        b.len() > 0,
    ensures
        join(join(a, b), c) == join(a, join(b, c)),
{
    if c.len() > 0 {
        let sa: Seq<char> = if a.len() > 0 && a.last() == '/' { seq![] } else { seq!['/'] };
        let sb: Seq<char> = if b.last() == '/' { seq![] } else { seq!['/'] };
        assert(join(a, b) =~= a + sa + b);
        assert(join(b, c) =~= b + sb + c);
        assert(join(a, b).last() == b.last());
        assert(join(join(a, b), c) =~= a + sa + b + sb + c);
        assert(join(a, join(b, c)) =~= a + sa + (b + sb + c));
    }
}

/// Returns the path `name` joined onto `base`.
pub fn join_path(base: &str, name: &str) -> (r: String)
    ensures
        r@ == join(base@, name@),
{
    let blen = base.unicode_len();
    if name.unicode_len() == 0 {
        return String::from_str(base);
    }
    let mut r = String::from_str(base);
    if blen == 0 || base.get_char(blen - 1) != '/' {
        r.append("/");
    }
    r.append(name);
    proof {
        reveal_strlit("/");
        if blen > 0 {
            assert(base@.last() == base@[blen - 1]);
        }
    }
    r
}

/// The repository used where none is given: `.dotfiles` under the home directory.
pub fn default_repo(home: &str) -> (r: String)
    ensures
        r@ == join(home@, ".dotfiles"@),
{
    join_path(home, ".dotfiles")
}

} // verus!
