//! Character-level helpers shared by the filter matcher and the lock store:
//! ASCII-case-insensitive equality, component-wise path prefixes, and file
//! extensions.

use vstd::prelude::*;
use vstd::string::*;

verus! {

/// Code point of `c` with an ASCII upper-case letter folded to lower case.
pub open spec fn lower_code(c: char) -> int {
    if 65 <= c as u32 && c as u32 <= 90 {
        c as u32 + 32
    } else {
        c as u32 as int
    }
}

/// Equality of two character sequences up to ASCII case.
pub open spec fn ci_equal(a: Seq<char>, b: Seq<char>) -> bool {
    a.len() == b.len() && forall|i: int| 0 <= i < a.len() ==> lower_code(a[i]) == lower_code(b[i])
}

/// Folds an ASCII upper-case letter to lower case; other characters pass through.
fn lower(c: char) -> (r: u32)
    ensures
        r == lower_code(c),
{
    let u = c as u32;
    if 65 <= u && u <= 90 {
        u + 32
    } else {
        u
    }
}

/// ASCII-case-insensitive string equality.
pub fn eq_ignore_ascii_case(a: &str, b: &str) -> (r: bool)
    ensures
        r == ci_equal(a@, b@),
{
    let n = a.unicode_len();
    let m = b.unicode_len();
    if n != m {
        return false;
    }
    let mut i: usize = 0;
    while i < n
        invariant
            i <= n,
            n == a@.len(),
            n == b@.len(),
            forall|j: int| 0 <= j < i ==> lower_code(a@[j]) == lower_code(b@[j]),
        decreases n - i,
    {
        let ca = lower(a.get_char(i));
        let cb = lower(b.get_char(i));
        if ca != cb {
            return false;
        }
        i += 1;
    }
    true
}

/// Whether `pat` is a component-wise prefix of `path`: either `pat` is empty,
/// or it is a character prefix of `path` that ends at a `/` boundary.
pub open spec fn path_has_prefix(path: Seq<char>, pat: Seq<char>) -> bool {
    ||| pat.len() == 0
    ||| {
        &&& pat.len() <= path.len()
        &&& path.subrange(0, pat.len() as int) == pat
        &&& (pat.len() == path.len() || path[pat.len() as int] == '/' || pat[pat.len() - 1]
            == '/')
    }
}

/// Decides whether `pattern` is a component-wise prefix of `path`.
pub fn path_matcher(path: &str, pattern: &str) -> (r: bool)
    ensures
        r == path_has_prefix(path@, pattern@),
{
    let m = pattern.unicode_len();
    if m == 0 {
        return true;
    }
    let n = path.unicode_len();
    if m > n {
        return false;
    }
    let mut i: usize = 0;
    while i < m
        invariant
            i <= m,
            0 < m <= n,
            m == pattern@.len(),
            n == path@.len(),
            forall|j: int| 0 <= j < i ==> path@[j] == pattern@[j],
        decreases m - i,
    {
        if path.get_char(i) != pattern.get_char(i) {
            proof {
                assert(path@.subrange(0, m as int)[i as int] != pattern@[i as int]);
            }
            return false;
        }
        i += 1;
    }
    proof {
        assert(path@.subrange(0, m as int) =~= pattern@);
    }
    if n == m {
        return true;
    }
    if path.get_char(m) == '/' {
        return true;
    }
    if pattern.get_char(m - 1) == '/' {
        return true;
    }
    false
}

/// The extension of `p`: the characters after the last `.` of the final path
/// component, provided that `.` is neither the first character of that
/// component nor a directory separator lies after it. A name such as
/// `.hidden` has no extension.
pub open spec fn spec_extension(p: Seq<char>) -> Option<Seq<char>>
    decreases p.len(),
{
    if p.len() == 0 {
        None
    } else if p.last() == '/' {
        None
    } else if p.last() == '.' {
        if p.len() >= 2 && p[p.len() - 2] != '/' {
            Some(Seq::empty())
        } else {
            None
        }
    } else {
        match spec_extension(p.drop_last()) {
            None => None,
            Some(e) => Some(e.push(p.last())),
        }
    }
}

/// Start of the extension of the prefix `path[..i]`, as a character index.
fn ext_start(path: &str, i: usize) -> (r: Option<usize>)
    requires
        i <= path@.len(),
    ensures
        match r {
            None => spec_extension(path@.take(i as int)) is None,
            Some(j) => j <= i && spec_extension(path@.take(i as int)) == Some(
                path@.subrange(j as int, i as int),
            ),
        },
    decreases i,
{
    if i == 0 {
        None
    } else {
        let c = path.get_char(i - 1);
        proof {
            assert(path@.take(i as int).last() == path@[i - 1]);
            assert(path@.take(i as int).drop_last() =~= path@.take(i - 1));
        }
        if c == '/' {
            None
        } else if c == '.' {
            if i >= 2 && path.get_char(i - 2) != '/' {
                proof {
                    assert(path@.subrange(i as int, i as int) =~= Seq::<char>::empty());
                }
                Some(i)
            } else {
                None
            }
        } else {
            match ext_start(path, i - 1) {
                None => None,
                Some(j) => {
                    proof {
                        assert(path@.subrange(j as int, i - 1).push(path@[i - 1]) =~= path@
                            .subrange(j as int, i as int));
                    }
                    Some(j)
                },
            }
        }
    }
}

/// The extension of `path`, if it has one.
pub fn extension_of<'a>(path: &'a str) -> (r: Option<&'a str>)
    ensures
        match r {
            None => spec_extension(path@) is None,
            Some(e) => spec_extension(path@) == Some(e@),
        },
{
    let n = path.unicode_len();
    proof {
        assert(path@.take(n as int) =~= path@);
    }
    match ext_start(path, n) {
        None => None,
        Some(j) => Some(path.substring_char(j, n)),
    }
}

/// Lexicographic order on character sequences by code point; since UTF-8
/// preserves code-point order, this is also the byte order of the encodings.
pub open spec fn str_le(a: Seq<char>, b: Seq<char>) -> bool
    decreases a.len(),
{
    if a.len() == 0 {
        true
    } else if b.len() == 0 {
        false
    } else if (a[0] as u32) < (b[0] as u32) {
        true
    } else if (a[0] as u32) > (b[0] as u32) {
        false
    } else {
        str_le(a.drop_first(), b.drop_first())
    }
}

/// [`str_le`] is total: of two sequences, one is below or equal the other.
pub proof fn lemma_str_le_total(a: Seq<char>, b: Seq<char>)
    ensures
        str_le(a, b) || str_le(b, a),
    decreases a.len(),
{
    if a.len() > 0 && b.len() > 0 && a[0] as u32 == b[0] as u32 {
        lemma_str_le_total(a.drop_first(), b.drop_first());
    }
}

/// [`str_le`] is transitive.
pub proof fn lemma_str_le_trans(a: Seq<char>, b: Seq<char>, c: Seq<char>)
    requires
        str_le(a, b),
        str_le(b, c),
    ensures
        str_le(a, c),
    decreases a.len(),
{
    if a.len() > 0 && b.len() > 0 && c.len() > 0 && a[0] as u32 == b[0] as u32 && b[0] as u32
        == c[0] as u32 {
        lemma_str_le_trans(a.drop_first(), b.drop_first(), c.drop_first());
    }
}

/// Decides the lexicographic order [`str_le`] on two strings.
pub fn str_le_exec(a: &str, b: &str) -> (r: bool)
    ensures
        r == str_le(a@, b@),
{
    let n = a.unicode_len();
    let m = b.unicode_len();
    proof {
        assert(a@.skip(0) =~= a@);
        assert(b@.skip(0) =~= b@);
    }
    let mut i: usize = 0;
    while i < n && i < m
        invariant
            i <= n,
            i <= m,
            n == a@.len(),
            m == b@.len(),
            str_le(a@, b@) == str_le(a@.skip(i as int), b@.skip(i as int)),
        decreases n - i,
    {
        let ca = a.get_char(i);
        let cb = b.get_char(i);
        proof {
            assert(a@.skip(i as int)[0] == a@[i as int]);
            assert(b@.skip(i as int)[0] == b@[i as int]);
            assert(a@.skip(i as int).drop_first() =~= a@.skip(i + 1));
            assert(b@.skip(i as int).drop_first() =~= b@.skip(i + 1));
        }
        if (ca as u32) < (cb as u32) {
            return true;
        }
        if (ca as u32) > (cb as u32) {
            return false;
        }
        i += 1;
    }
    proof {
        if i >= n {
            assert(a@.skip(i as int).len() == 0);
        } else {
            assert(b@.skip(i as int).len() == 0);
            assert(a@.skip(i as int).len() > 0);
        }
    }
    i >= n
}

} // verus!
