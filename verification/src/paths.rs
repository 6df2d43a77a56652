//! Path text handling: deriving the subfolder a notification path belongs
//! to, and rebasing a path from one root to another for recursive copies.
//!
//! Paths are handled as text, with both `/` and `\` as separators.  The
//! subfolder of a path under the watched root is the first component of
//! the path relative to the root.

use vstd::prelude::*;
use vstd::string::StrSliceExecFns;

verus! {

/// Path separators.
pub open spec fn is_sep(c: char) -> bool {
    c == '/' || c == '\\'
}

/// Whether `s` begins with the characters of `p`.
pub open spec fn starts_with(s: Seq<char>, p: Seq<char>) -> bool {
    s.len() >= p.len() && s.take(p.len() as int) == p
}

/// `s` without its leading separators.
pub open spec fn skip_seps(s: Seq<char>) -> Seq<char>
    decreases s.len(),
{
    if s.len() > 0 && is_sep(s[0]) {
        skip_seps(s.drop_first())
    } else {
        s
    }
}

/// The leading run of non-separator characters of `s`.
pub open spec fn take_component(s: Seq<char>) -> Seq<char>
    decreases s.len(),
{
    if s.len() > 0 && !is_sep(s[0]) {
        seq![s[0]] + take_component(s.drop_first())
    } else {
        Seq::empty()
    }
}

/// The subfolder a path belongs to: the first component of the path
/// relative to the root.  `None` when the path does not lie strictly under
/// the root at a component boundary.
pub open spec fn spec_subfolder_of(root: Seq<char>, path: Seq<char>) -> Option<Seq<char>> {
    if !starts_with(path, root) {
        None
    } else {
        let rest = path.skip(root.len() as int);
        let boundary = root.len() == 0 || is_sep(root[root.len() - 1]) || (rest.len() > 0 && is_sep(
            rest[0],
        ));
        if !boundary {
            None
        } else {
            let name = take_component(skip_seps(rest));
            if name.len() == 0 {
                None
            } else {
                Some(name)
            }
        }
    }
}

/// A path under `src` rebased to stand under `dst` instead; `None` when
/// the path does not lie under `src` at a component boundary.
pub open spec fn spec_rebase(path: Seq<char>, src: Seq<char>, dst: Seq<char>) -> Option<
    Seq<char>,
> {
    if !starts_with(path, src) {
        None
    } else {
        let rest = path.skip(src.len() as int);
        if rest.len() == 0 {
            Some(dst)
        } else if is_sep(rest[0]) {
            Some(dst + rest)
        } else if src.len() > 0 && is_sep(src[src.len() - 1]) {
            Some(dst + seq!['/'] + rest)
        } else {
            None
        }
    }
}

/// A run of non-separators closed by a separator or the end is exactly
/// what `take_component` collects.
proof fn lemma_take_component(s: Seq<char>, m: int)
    requires
        0 <= m <= s.len(),
        forall|k: int| 0 <= k < m ==> !is_sep(#[trigger] s[k]),
        m == s.len() || is_sep(s[m]),
    ensures
        take_component(s) == s.take(m),
    decreases m,
{
    if m == 0 {
        assert(s.take(0) =~= Seq::<char>::empty());
    } else {
        assert(!is_sep(s[0]));
        let d = s.drop_first();
        assert(forall|k: int| 0 <= k < m - 1 ==> d[k] == s[k + 1]);
        if m < s.len() {
            assert(d[m - 1] == s[m]);
        }
        lemma_take_component(d, m - 1);
        assert(s.take(m) =~= seq![s[0]] + d.take(m - 1));
    }
}

/// Whether the character at a position of a path is a separator.
fn sep_at(s: &str, i: usize) -> (r: bool)
    requires
        i < s@.len(),
    ensures
        r == is_sep(s@[i as int]),
{
    let c = s.get_char(i);
    c == '/' || c == '\\'
}

/// The subfolder a path belongs to, as executable code.
pub fn subfolder_of(root: &str, path: &str) -> (r: Option<String>)
    ensures
        r is Some <==> spec_subfolder_of(root@, path@) is Some,
        r is Some ==> (r->0)@ == spec_subfolder_of(root@, path@)->0,
{
    let rl = root.unicode_len();
    let pl = path.unicode_len();
    if pl < rl {
        return None;
    }
    // The path must begin with the root's characters.
    let mut j: usize = 0;
    while j < rl
        invariant
            j <= rl,
            rl <= pl,
            rl == root@.len(),
            pl == path@.len(),
            forall|k: int| 0 <= k < j ==> path@[k] == root@[k],
        decreases rl - j,
    {
        if path.get_char(j) != root.get_char(j) {
            proof {
                assert(path@.take(rl as int)[j as int] != root@[j as int]);
            }
            return None;
        }
        j += 1;
    }
    proof {
        assert(path@.take(rl as int) =~= root@);
    }
    let ghost rest = path@.skip(rl as int);
    // The match must end at a component boundary.
    let root_ends_sep = rl > 0 && sep_at(root, rl - 1);
    let rest_starts_sep = pl > rl && sep_at(path, rl);
    proof {
        assert(rest.len() == pl - rl);
        if pl > rl {
            assert(rest[0] == path@[rl as int]);
        }
    }
    if !(rl == 0 || root_ends_sep || rest_starts_sep) {
        return None;
    }
    // Skip separators, then collect the first component.
    let mut a: usize = rl;
    while a < pl && sep_at(path, a)
        invariant
            rl <= a <= pl,
            pl == path@.len(),
            rest == path@.skip(rl as int),
            skip_seps(rest) == skip_seps(path@.skip(a as int)),
        decreases pl - a,
    {
        proof {
            let cur = path@.skip(a as int);
            assert(cur[0] == path@[a as int]);
            assert(cur.drop_first() =~= path@.skip(a + 1));
        }
        a += 1;
    }
    proof {
        let cur = path@.skip(a as int);
        if a < pl {
            assert(cur[0] == path@[a as int]);
        }
        assert(skip_seps(cur) == cur);
    }
    let mut b: usize = a;
    while b < pl && !sep_at(path, b)
        invariant
            a <= b <= pl,
            pl == path@.len(),
            forall|k: int| a <= k < b ==> !is_sep(#[trigger] path@[k]),
        decreases pl - b,
    {
        b += 1;
    }
    proof {
        let cur = path@.skip(a as int);
        assert(forall|k: int| 0 <= k < b - a ==> cur[k] == path@[k + a]);
        if b < pl {
            assert(cur[b - a] == path@[b as int]);
        }
        lemma_take_component(cur, b - a);
        assert(cur.take(b - a) =~= path@.subrange(a as int, b as int));
    }
    if b == a {
        return None;
    }
    let name = path.substring_char(a, b);
    Some(name.to_owned())
}

/// Rebases a path from under `src` to under `dst`, as executable code.
pub fn rebase_path(path: &str, src: &str, dst: &str) -> (r: Option<String>)
    ensures
        r is Some <==> spec_rebase(path@, src@, dst@) is Some,
        r is Some ==> (r->0)@ == spec_rebase(path@, src@, dst@)->0,
{
    let sl = src.unicode_len();
    let pl = path.unicode_len();
    if pl < sl {
        return None;
    }
    let mut j: usize = 0;
    while j < sl
        invariant
            j <= sl,
            sl <= pl,
            sl == src@.len(),
            pl == path@.len(),
            forall|k: int| 0 <= k < j ==> path@[k] == src@[k],
        decreases sl - j,
    {
        if path.get_char(j) != src.get_char(j) {
            proof {
                assert(path@.take(sl as int)[j as int] != src@[j as int]);
            }
            return None;
        }
        j += 1;
    }
    proof {
        assert(path@.take(sl as int) =~= src@);
    }
    let ghost rest = path@.skip(sl as int);
    proof {
        assert(rest.len() == pl - sl);
        if pl > sl {
            assert(rest[0] == path@[sl as int]);
        }
    }
    if pl == sl {
        let r = dst.to_owned();
        return Some(r);
    }
    if sep_at(path, sl) {
        let mut r = dst.to_owned();
        let tail = path.substring_char(sl, pl);
        r.append(tail);
        proof {
            assert(path@.subrange(sl as int, pl as int) =~= rest);
            assert(r@ =~= dst@ + rest);
        }
        return Some(r);
    }
    let ends_sep = sl > 0 && sep_at(src, sl - 1);
    if ends_sep {
        let mut r = dst.to_owned();
        r.append("/");
        let tail = path.substring_char(sl, pl);
        r.append(tail);
        proof {
            reveal_strlit("/");
            assert(path@.subrange(sl as int, pl as int) =~= rest);
            assert(r@ =~= dst@ + seq!['/'] + rest);
        }
        return Some(r);
    }
    None
}

} // verus!
