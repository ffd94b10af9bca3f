//! Absolute paths and the operations the bridge needs on them.
//!
//! A path is valid when it is absolute, uses `/` as its separator, has no
//! empty component and does not end in a separator (the root `/` being the
//! one exception).

use vstd::prelude::*;

verus! {

/// The root path `/`.
pub open spec fn root() -> Seq<char> {
    seq!['/']
}

/// A valid absolute path: starts with `/`, no empty components, and no
/// trailing separator except for the root itself.
pub open spec fn valid_path(p: Seq<char>) -> bool {
    &&& p.len() >= 1
    &&& p[0] == '/'
    &&& (p.len() == 1 || p[p.len() - 1] != '/')
    &&& forall|i: int| 0 <= i < p.len() - 1 ==> !(#[trigger] p[i] == '/' && p[i + 1] == '/')
}

/// A valid entry name: non-empty and free of separators.
pub open spec fn valid_name(n: Seq<char>) -> bool {
    &&& n.len() >= 1
    &&& forall|i: int| 0 <= i < n.len() ==> #[trigger] n[i] != '/'
}

/// Index of the last `/` in `p`, or `-1` when `p` has none.
pub open spec fn last_slash(p: Seq<char>) -> int
    decreases p.len(),
{
    if p.len() == 0 {
        -1
    } else if p[p.len() - 1] == '/' {
        p.len() - 1
    } else {
        last_slash(p.drop_last())
    }
}

/// The parent directory of `p`: everything before the last separator,
/// or the root when the last separator is the leading one.
pub open spec fn parent_of(p: Seq<char>) -> Seq<char> {
    if last_slash(p) <= 0 {
        root()
    } else {
        p.take(last_slash(p))
    }
}

/// The final component of `p`: everything after the last separator.
pub open spec fn base_name(p: Seq<char>) -> Seq<char> {
    p.skip(last_slash(p) + 1)
}

/// `base` and `name` joined with a separator.
pub open spec fn join(base: Seq<char>, name: Seq<char>) -> Seq<char> {
    if base == root() {
        root() + name
    } else {
        base + root() + name
    }
}

/// `q` lies on the chain of parents of `p`, or is `p` itself.
pub open spec fn is_ancestor_or_self(q: Seq<char>, p: Seq<char>) -> bool
    decreases p.len() via is_ancestor_or_self_decreases
{
    q == p || (valid_path(p) && p.len() > 1 && is_ancestor_or_self(q, parent_of(p)))
}

#[via_fn]
proof fn is_ancestor_or_self_decreases(q: Seq<char>, p: Seq<char>) {
    if valid_path(p) && p.len() > 1 {
        lemma_parent_of_valid(p);
    }
}

/// Basic facts about `last_slash`: it is in range, it points at a
/// separator when it exists, and nothing after it is a separator.
pub proof fn lemma_last_slash_facts(p: Seq<char>)
    ensures
        -1 <= last_slash(p) < p.len(),
        last_slash(p) >= 0 ==> p[last_slash(p)] == '/',
        forall|j: int| last_slash(p) < j < p.len() ==> p[j] != '/',
    decreases p.len(),
{
    if p.len() == 0 {
    } else if p[p.len() - 1] == '/' {
    } else {
        lemma_last_slash_facts(p.drop_last());
        assert(forall|j: int| 0 <= j < p.len() - 1 ==> p.drop_last()[j] == p[j]);
    }
}

/// The parent of a valid non-root path is a shorter valid path.
pub proof fn lemma_parent_of_valid(p: Seq<char>)
    requires
        valid_path(p),
        p.len() > 1,
    ensures
        valid_path(parent_of(p)),
        parent_of(p).len() < p.len(),
{
    lemma_last_slash_facts(p);
    let k = last_slash(p);
    assert(k >= 0) by {
        if k < 0 {
            assert(p[0] != '/');
        }
    }
    assert(k < p.len() - 1) by {
        assert(p[p.len() - 1] != '/');
    }
    if k > 0 {
        let q = p.take(k);
        assert(q[0] == '/');
        assert(q[q.len() - 1] != '/') by {
            assert(!(p[k - 1] == '/' && p[k] == '/'));
        }
        assert(forall|i: int| 0 <= i < q.len() - 1 ==> !(#[trigger] q[i] == '/' && q[i + 1] == '/'));
    }
}

/// `last_slash` ignores a suffix that holds no separator.
pub proof fn lemma_last_slash_append_no_slash(x: Seq<char>, n: Seq<char>)
    requires
        forall|j: int| 0 <= j < n.len() ==> #[trigger] n[j] != '/',
    ensures
        last_slash(x + n) == last_slash(x),
    decreases n.len(),
{
    if n.len() == 0 {
        assert(x + n =~= x);
    } else {
        let s = x + n;
        assert(s[s.len() - 1] == n[n.len() - 1]);
        assert(s.drop_last() =~= x + n.drop_last());
        lemma_last_slash_append_no_slash(x, n.drop_last());
    }
}

/// Joining a valid name onto a valid path yields a valid path whose
/// parent and final component are the two inputs.
pub proof fn lemma_join_facts(base: Seq<char>, name: Seq<char>)
    requires
        valid_path(base),
        valid_name(name),
    ensures
        valid_path(join(base, name)),
        join(base, name).len() > 1,
        parent_of(join(base, name)) == base,
        base_name(join(base, name)) == name,
{
    let j = join(base, name);
    if base == root() {
        assert(j == root() + name);
        lemma_last_slash_append_no_slash(root(), name);
        assert(last_slash(root()) == 0);
        assert(last_slash(j) == 0);
        assert(j[0] == '/');
        assert(j[j.len() - 1] == name[name.len() - 1]);
        assert(forall|i: int| 0 <= i < j.len() - 1 ==> !(#[trigger] j[i] == '/' && j[i + 1] == '/')) by {
            assert(forall|i: int| 1 <= i < j.len() ==> j[i] == name[i - 1]);
        }
        assert(parent_of(j) == base);
        assert(base_name(j) =~= name);
    } else {
        let pre = base + root();
        assert(j =~= pre + name);
        lemma_last_slash_append_no_slash(pre, name);
        assert(pre[pre.len() - 1] == '/');
        assert(last_slash(pre) == pre.len() - 1);
        assert(last_slash(j) == base.len());
        assert(base.len() > 1) by {
            if base.len() == 1 {
                assert(base =~= root());
            }
        }
        assert(j[0] == base[0]);
        assert(j[j.len() - 1] == name[name.len() - 1]);
        assert(forall|i: int| 0 <= i < j.len() - 1 ==> !(#[trigger] j[i] == '/' && j[i + 1] == '/')) by {
            assert(forall|i: int| 0 <= i < base.len() ==> j[i] == base[i]);
            assert(j[base.len() as int] == '/');
            assert(forall|i: int| base.len() < i < j.len() ==> j[i] == name[i - base.len() - 1]);
            assert(base[base.len() - 1] != '/');
        }
        assert(valid_path(j));
        assert(parent_of(j) =~= base);
        assert(base_name(j) =~= name);
    }
}

/// The parent of an ancestor of `p` is itself an ancestor of `p`.
pub proof fn lemma_parent_ancestor(q: Seq<char>, p: Seq<char>)
    requires
        is_ancestor_or_self(q, p),
        valid_path(q),
        q.len() > 1,
    ensures
        is_ancestor_or_self(parent_of(q), p),
    decreases p.len(),
{
    if q == p {
        assert(is_ancestor_or_self(parent_of(p), parent_of(p)));
    } else {
        lemma_parent_of_valid(p);
        lemma_parent_ancestor(q, parent_of(p));
    }
}

/// Finds the index of the last `/` of `s`, scanning from the end.
pub fn find_last_slash(s: &str) -> (r: Option<usize>)
    ensures
        match r {
            Some(i) => last_slash(s@) == i as int,
            None => last_slash(s@) == -1,
        },
{
    let n = s.unicode_len();
    let mut i = n;
    while i > 0
        invariant
            i <= n,
            n == s@.len(),
            forall|j: int| i <= j < s@.len() ==> s@[j] != '/',
        decreases i,
    {
        let c = s.get_char(i - 1);
        if c == '/' {
            proof {
                lemma_last_slash_facts(s@);
            }
            return Some(i - 1);
        }
        i = i - 1;
    }
    proof {
        lemma_last_slash_facts(s@);
    }
    None
}

/// The final component of `s`, as a listing shows it beside each
/// entry.
pub fn file_name_of(s: &str) -> (r: String)
    ensures
        r@ == base_name(s@),
{
    let n = s.unicode_len();
    match find_last_slash(s) {
        Some(i) => {
            proof {
                lemma_last_slash_facts(s@);
            }
            let sub = s.substring_char(i + 1, n);
            proof {
                assert(s@.subrange(i + 1, n as int) =~= base_name(s@));
            }
            sub.to_owned()
        },
        None => {
            proof {
                assert(s@.skip(0) =~= s@);
            }
            s.to_owned()
        },
    }
}

/// The parent directory of a valid path.
pub fn parent_path(s: &str) -> (r: String)
    requires
        valid_path(s@),
    ensures
        r@ == parent_of(s@),
{
    match find_last_slash(s) {
        Some(i) => {
            if i > 0 {
                proof {
                    lemma_last_slash_facts(s@);
                }
                s.substring_char(0, i).to_owned()
            } else {
                let r = String::from_str("/");
                proof {
                    reveal_strlit("/");
                    assert(r@ =~= root());
                }
                r
            }
        },
        None => {
            let r = String::from_str("/");
            proof {
                reveal_strlit("/");
                assert(r@ =~= root());
            }
            r
        },
    }
}

/// Joins a base directory and an entry name with a separator.
pub fn join_path(base: &str, name: &str) -> (r: String)
    ensures
        r@ == join(base@, name@),
{
    let n = base.unicode_len();
    if n == 1 && base.get_char(0) == '/' {
        proof {
            assert(base@ =~= root());
        }
        let mut out = String::from_str(base);
        out.append(name);
        out
    } else {
        proof {
            if base@ == root() {
                assert(base@.len() == 1 && base@[0] == '/');
            }
        }
        let mut out = String::from_str(base);
        out.append("/");
        out.append(name);
        proof {
            reveal_strlit("/");
            assert("/"@ =~= root());
        }
        out
    }
}

/// Whether `s` is a valid absolute path.
pub fn is_valid_path(s: &str) -> (r: bool)
    ensures
        r == valid_path(s@),
{
    let n = s.unicode_len();
    if n == 0 {
        return false;
    }
    if s.get_char(0) != '/' {
        return false;
    }
    if n > 1 && s.get_char(n - 1) == '/' {
        return false;
    }
    let mut i: usize = 0;
    while i + 1 < n
        invariant
            n == s@.len(),
            n >= 1,
            i < n,
            forall|j: int| 0 <= j < i ==> !(#[trigger] s@[j] == '/' && s@[j + 1] == '/'),
        decreases n - i,
    {
        if s.get_char(i) == '/' && s.get_char(i + 1) == '/' {
            return false;
        }
        i = i + 1;
    }
    true
}

/// Whether `s` is a valid entry name.
pub fn is_valid_name(s: &str) -> (r: bool)
    ensures
        r == valid_name(s@),
{
    let n = s.unicode_len();
    if n == 0 {
        return false;
    }
    let mut i: usize = 0;
    while i < n
        invariant
            n == s@.len(),
            i <= n,
            forall|j: int| 0 <= j < i ==> s@[j] != '/',
        decreases n - i,
    {
        if s.get_char(i) == '/' {
            return false;
        }
        i = i + 1;
    }
    true
}

} // verus!
