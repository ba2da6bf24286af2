use vstd::prelude::*;
use vstd::string::StringExecFns;

verus! {

/// `p` with the leading `from` replaced by `to`; `p` itself when it does not start with `from`.
pub open spec fn substitute_root(p: Seq<char>, from: Seq<char>, to: Seq<char>) -> Seq<char> {
    if from.is_prefix_of(p) {
        to + p.skip(from.len() as int)
    } else {
        p
    }
}

/// `p` below `root`, without the root: the part after the leading `root`, or `p`
/// itself when it lies elsewhere.
pub open spec fn relative_key(p: Seq<char>, root: Seq<char>) -> Seq<char> {
    substitute_root(p, root, Seq::empty())
}

/// `p` lies strictly inside the directory `d`.
pub open spec fn is_descendant(p: Seq<char>, d: Seq<char>) -> bool {
    d.push('/').is_prefix_of(p)
}

/// Relies on str::strip_prefix: the rest of `s` after a leading `p`, or
/// nothing when `s` does not start with `p`.
#[verifier::external_body]
pub(crate) fn strip_prefix<'a>(s: &'a str, p: &str) -> (r: Option<&'a str>)
    ensures
        r is None <==> !p@.is_prefix_of(s@),
        r matches Some(rest) ==> rest@ == s@.skip(p@.len() as int),
{
    s.strip_prefix(p)
}

/// The path under `to` that corresponds to `path` under `from`.
pub fn counterpart_path(path: &str, from: &str, to: &str) -> (r: String)
    ensures
        r@ == substitute_root(path@, from@, to@),
{
    match strip_prefix(path, from) {
        Some(rest) => {
            let mut r = to.to_owned();
            r.append(rest);
            r
        },
        None => path.to_owned(),
    }
}

/// The relative key of `path` in the tree rooted at `root`.
pub fn key_in_root(path: &str, root: &str) -> (r: String)
    ensures
        r@ == relative_key(path@, root@),
{
    match strip_prefix(path, root) {
        Some(rest) => {
            let r = rest.to_owned();
            proof {
                assert(Seq::<char>::empty() + path@.skip(root@.len() as int) =~= r@);
            }
            r
        },
        None => path.to_owned(),
    }
}

/// Whether `path` lies strictly inside the directory `dir`.
pub fn lies_under(path: &str, dir: &str) -> (r: bool)
    ensures
        r == is_descendant(path@, dir@),
{
    let mut d = dir.to_owned();
    let sep = "/";
    proof {
        reveal_strlit("/");
    }
    d.append(sep);
    assert(d@ =~= dir@.push('/'));
    strip_prefix(path, d.as_str()).is_some()
}

} // verus!
