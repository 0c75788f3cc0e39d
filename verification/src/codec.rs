//! A plain text form for the lock store, written and parsed by the library
//! itself: one header line for the version, one for the timestamp, then a
//! `dep`/`ref` line pair per entry. Loading what was persisted gives back
//! the same store.

use crate::deps::{LockedDependency, LockedDependencyView};
use crate::lock::{VendorLock, VendorLockView};
use vstd::arithmetic::div_mod::lemma_fundamental_div_mod;
use vstd::prelude::*;
use vstd::string::*;

verus! {

/// The character for the decimal digit `d`.
pub open spec fn digit_char(d: int) -> char {
    if d == 0 {
        '0'
    } else if d == 1 {
        '1'
    } else if d == 2 {
        '2'
    } else if d == 3 {
        '3'
    } else if d == 4 {
        '4'
    } else if d == 5 {
        '5'
    } else if d == 6 {
        '6'
    } else if d == 7 {
        '7'
    } else if d == 8 {
        '8'
    } else {
        '9'
    }
}

/// The value of a decimal digit character, or -1 for any other character.
pub open spec fn digit_val(c: char) -> int {
    if c == '0' {
        0
    } else if c == '1' {
        1
    } else if c == '2' {
        2
    } else if c == '3' {
        3
    } else if c == '4' {
        4
    } else if c == '5' {
        5
    } else if c == '6' {
        6
    } else if c == '7' {
        7
    } else if c == '8' {
        8
    } else if c == '9' {
        9
    } else {
        -1
    }
}

/// The decimal digits of a nonnegative `n`, most significant first.
pub open spec fn int_digits(n: int) -> Seq<char>
    decreases n,
{
    if n < 10 {
        seq![digit_char(n)]
    } else {
        int_digits(n / 10).push(digit_char(n % 10))
    }
}

/// The value of a digit string, most significant first.
pub open spec fn parse_digits(s: Seq<char>) -> int
    decreases s.len(),
{
    if s.len() == 0 {
        0
    } else {
        parse_digits(s.drop_last()) * 10 + digit_val(s.last())
    }
}

/// At least one character, and every one a decimal digit.
pub open spec fn all_digits(s: Seq<char>) -> bool {
    s.len() > 0 && forall|i: int| 0 <= i < s.len() ==> digit_val(s[i]) >= 0
}

/// Ten to the `n`.
pub open spec fn pow10(n: nat) -> int
    decreases n,
{
    if n == 0 {
        1
    } else {
        10 * pow10((n - 1) as nat)
    }
}

/// A digit string's value is nonnegative and below ten to its length.
proof fn lemma_parse_digits_bound(s: Seq<char>)
    requires
        forall|i: int| 0 <= i < s.len() ==> digit_val(s[i]) >= 0,
    ensures
        0 <= parse_digits(s) < pow10(s.len()),
    decreases s.len(),
{
    if s.len() == 0 {
    } else {
        lemma_parse_digits_bound(s.drop_last());
    }
}

/// Writing a nonnegative number gives decimal digits alone, and reading
/// them back gives the number.
proof fn lemma_digits_roundtrip(n: int)
    requires
        n >= 0,
    ensures
        all_digits(int_digits(n)),
        parse_digits(int_digits(n)) == n,
    decreases n,
{
    if n < 10 {
        assert(int_digits(n) == seq![digit_char(n)]);
        assert(int_digits(n).drop_last() =~= Seq::<char>::empty());
        assert(int_digits(n).last() == digit_char(n));
        assert(parse_digits(int_digits(n)) == parse_digits(Seq::<char>::empty()) * 10
            + digit_val(digit_char(n)));
        assert(digit_val(digit_char(n)) == n);
    } else {
        lemma_digits_roundtrip(n / 10);
        let pre = int_digits(n / 10);
        assert(pre.push(digit_char(n % 10)).drop_last() =~= pre);
        assert(digit_val(digit_char(n % 10)) == n % 10);
        assert(parse_digits(int_digits(n)) == parse_digits(pre) * 10 + n % 10);
        lemma_fundamental_div_mod(n, 10);
    }
}

/// Ten to the `n` grows with `n`.
proof fn lemma_pow10_mono(a: nat, b: nat)
    requires
        a <= b,
    ensures
        1 <= pow10(a) <= pow10(b),
    decreases b,
{
    if a == b {
        if a == 0 {
        } else {
            lemma_pow10_mono((a - 1) as nat, (b - 1) as nat);
        }
    } else {
        lemma_pow10_mono(a, (b - 1) as nat);
    }
}

/// A number below ten to the `k` takes at most `k` digits.
proof fn lemma_int_digits_len(n: int, k: nat)
    requires
        0 <= n < pow10(k),
        k >= 1,
    ensures
        int_digits(n).len() <= k,
    decreases n,
{
    if n < 10 {
    } else {
        assert(pow10(k) == 10 * pow10((k - 1) as nat));
        assert(n / 10 < pow10((k - 1) as nat)) by {
            lemma_fundamental_div_mod(n, 10);
        }
        assert(k - 1 >= 1) by {
            if k == 1 {
                assert(pow10(1nat) == 10);
            }
        }
        lemma_int_digits_len(n / 10, (k - 1) as nat);
    }
}

/// Index of the first newline of `s`, or -1 if there is none.
pub open spec fn line_end(s: Seq<char>) -> int
    decreases s.len(),
{
    if s.len() == 0 {
        -1
    } else if s[0] == '\n' {
        0
    } else {
        let e = line_end(s.skip(1));
        if e < 0 {
            -1
        } else {
            e + 1
        }
    }
}

/// Where the first newline of `s` sits at `j`, `line_end` says so.
proof fn lemma_line_end_at(s: Seq<char>, j: int)
    requires
        0 <= j < s.len(),
        s[j] == '\n',
        forall|k: int| 0 <= k < j ==> s[k] != '\n',
    ensures
        line_end(s) == j,
    decreases j,
{
    if j > 0 {
        lemma_line_end_at(s.skip(1), j - 1);
    }
}

/// Where `s` holds no newline, `line_end` says so.
proof fn lemma_line_end_none(s: Seq<char>)
    requires
        forall|k: int| 0 <= k < s.len() ==> s[k] != '\n',
    ensures
        line_end(s) == -1,
    decreases s.len(),
{
    if s.len() > 0 {
        lemma_line_end_none(s.skip(1));
    }
}

/// Index of the first newline of `s`, if any.
fn find_newline(s: &str) -> (r: Option<usize>)
    ensures
        match r {
            None => line_end(s@) == -1,
            Some(j) => line_end(s@) == j as int && j < s@.len(),
        },
{
    let n = s.unicode_len();
    let mut i: usize = 0;
    while i < n
        invariant
            i <= n,
            n == s@.len(),
            forall|k: int| 0 <= k < i ==> s@[k] != '\n',
        decreases n - i,
    {
        if s.get_char(i) == '\n' {
            proof {
                lemma_line_end_at(s@, i as int);
            }
            return Some(i);
        }
        i += 1;
    }
    proof {
        lemma_line_end_none(s@);
    }
    None
}

/// Whether `p` is a character prefix of `s`.
pub open spec fn has_prefix(s: Seq<char>, p: Seq<char>) -> bool {
    p.len() <= s.len() && s.take(p.len() as int) == p
}

/// Decides whether `p` is a character prefix of `s`.
fn str_prefix(s: &str, p: &str) -> (r: bool)
    ensures
        r == has_prefix(s@, p@),
{
    let m = p.unicode_len();
    let n = s.unicode_len();
    if m > n {
        return false;
    }
    let mut i: usize = 0;
    while i < m
        invariant
            i <= m <= n,
            m == p@.len(),
            n == s@.len(),
            forall|k: int| 0 <= k < i ==> s@[k] == p@[k],
        decreases m - i,
    {
        if s.get_char(i) != p.get_char(i) {
            proof {
                assert(s@.take(m as int)[i as int] != p@[i as int]);
            }
            return false;
        }
        i += 1;
    }
    proof {
        assert(s@.take(m as int) =~= p@);
    }
    true
}

/// The string for one decimal digit.
fn digit_str(d: u64) -> (r: &'static str)
    requires
        d < 10,
    ensures
        r@ == seq![digit_char(d as int)],
{
    let r: &'static str = match d {
        0 => "0",
        1 => "1",
        2 => "2",
        3 => "3",
        4 => "4",
        5 => "5",
        6 => "6",
        7 => "7",
        8 => "8",
        _ => "9",
    };
    proof {
        reveal_strlit("0");
        reveal_strlit("1");
        reveal_strlit("2");
        reveal_strlit("3");
        reveal_strlit("4");
        reveal_strlit("5");
        reveal_strlit("6");
        reveal_strlit("7");
        reveal_strlit("8");
        reveal_strlit("9");
        assert(r@ =~= seq![digit_char(d as int)]);
    }
    r
}

/// The decimal form of `n`.
fn format_u64(n: u64) -> (r: String)
    ensures
        r@ == int_digits(n as int),
    decreases n,
{
    if n < 10 {
        digit_str(n).to_owned()
    } else {
        let mut s = format_u64(n / 10);
        s.append(digit_str(n % 10));
        proof {
            assert(s@ =~= int_digits(n as int));
        }
        s
    }
}

/// The value of one decimal digit character.
fn digit_of(c: char) -> (r: Option<u64>)
    ensures
        match r {
            Some(d) => digit_val(c) == d as int && d < 10,
            None => digit_val(c) < 0,
        },
{
    match c {
        '0' => Some(0),
        '1' => Some(1),
        '2' => Some(2),
        '3' => Some(3),
        '4' => Some(4),
        '5' => Some(5),
        '6' => Some(6),
        '7' => Some(7),
        '8' => Some(8),
        '9' => Some(9),
        _ => None,
    }
}

/// Parses an unsigned decimal of at most nineteen digits.
fn parse_u64_digits(s: &str) -> (r: Option<u64>)
    ensures
        match r {
            Some(v) => all_digits(s@) && s@.len() <= 19 && parse_digits(s@) == v as int,
            None => !(all_digits(s@) && s@.len() <= 19),
        },
{
    let n = s.unicode_len();
    if n == 0 || n > 19 {
        return None;
    }
    let mut acc: u64 = 0;
    let mut i: usize = 0;
    while i < n
        invariant
            i <= n <= 19,
            n == s@.len(),
            forall|k: int| 0 <= k < i ==> digit_val(s@[k]) >= 0,
            acc as int == parse_digits(s@.take(i as int)),
        decreases n - i,
    {
        match digit_of(s.get_char(i)) {
            None => {
                return None;
            },
            Some(d) => {
                proof {
                    lemma_parse_digits_bound(s@.take(i as int));
                    lemma_pow10_mono(i as nat, 18);
                    reveal_with_fuel(pow10, 20);
                    assert(pow10(18) == 1000000000000000000);
                    assert(acc as int <= 999999999999999999);
                }
                acc = acc * 10 + d;
                proof {
                    assert(s@.take(i + 1).drop_last() =~= s@.take(i as int));
                    assert(s@.take(i + 1).last() == s@[i as int]);
                    assert(acc as int == parse_digits(s@.take(i + 1)));
                }
            },
        }
        i += 1;
    }
    proof {
        assert(s@.take(n as int) =~= s@);
    }
    Some(acc)
}

/// The decimal form of `n`, a leading minus for a negative value.
pub open spec fn encode_i64(n: int) -> Seq<char> {
    if n >= 0 {
        int_digits(n)
    } else {
        seq!['-'] + int_digits(-n)
    }
}

/// The value of a decimal string with an optional leading minus, within the
/// range of an `i64` and at most nineteen digits; anything else is refused.
pub open spec fn parse_i64_spec(s: Seq<char>) -> Option<int> {
    if s.len() > 0 && s[0] == '-' {
        let d = s.skip(1);
        if all_digits(d) && d.len() <= 19 && -parse_digits(d) >= i64::MIN {
            Some(-parse_digits(d))
        } else {
            None
        }
    } else {
        if all_digits(s) && s.len() <= 19 && parse_digits(s) <= i64::MAX {
            Some(parse_digits(s))
        } else {
            None
        }
    }
}

/// The decimal form of `n`.
fn format_i64(n: i64) -> (r: String)
    ensures
        r@ == encode_i64(n as int),
{
    if n >= 0 {
        format_u64(n as u64)
    } else {
        let m: u64 = (-(n as i128)) as u64;
        proof {
            assert(m as int == -(n as int));
        }
        let mut s = String::from_str("-");
        let digits = format_u64(m);
        s.append(digits.as_str());
        proof {
            reveal_strlit("-");
            assert(s@ =~= encode_i64(n as int));
        }
        s
    }
}

/// Parses [`encode_i64`]'s form back into a number.
fn parse_i64(s: &str) -> (r: Option<i64>)
    ensures
        match r {
            Some(v) => parse_i64_spec(s@) == Some(v as int),
            None => parse_i64_spec(s@) is None,
        },
{
    let n = s.unicode_len();
    if n > 0 && s.get_char(0) == '-' {
        let rest = s.substring_char(1, n);
        proof {
            assert(rest@ =~= s@.skip(1));
        }
        match parse_u64_digits(rest) {
            None => None,
            Some(v) => {
                if v <= 9223372036854775807 {
                    Some(-(v as i64))
                } else if v == 9223372036854775808 {
                    Some(i64::MIN)
                } else {
                    None
                }
            },
        }
    } else {
        match parse_u64_digits(s) {
            None => None,
            Some(v) => {
                if v <= 9223372036854775807 {
                    Some(v as i64)
                } else {
                    None
                }
            },
        }
    }
}

/// No character of `s` is a newline.
pub open spec fn no_newline(s: Seq<char>) -> bool {
    forall|k: int| 0 <= k < s.len() ==> s[k] != '\n'
}

/// The first line of `s`, up to its first newline.
pub open spec fn head_line(s: Seq<char>) -> Seq<char> {
    s.take(line_end(s))
}

/// What follows the first newline of `s`.
pub open spec fn tail_after(s: Seq<char>) -> Seq<char> {
    s.skip(
        if line_end(s) + 1 <= s.len() {
            line_end(s) + 1
        } else {
            s.len() as int
        },
    )
}

/// Splitting a newline-free line off the front of a text.
proof fn lemma_split_concat(a: Seq<char>, b: Seq<char>)
    requires
        no_newline(a),
    ensures
        line_end(a + seq!['\n'] + b) == a.len(),
        head_line(a + seq!['\n'] + b) == a,
        tail_after(a + seq!['\n'] + b) == b,
{
    let s = a + seq!['\n'] + b;
    assert(s[a.len() as int] == '\n');
    assert(forall|k: int| 0 <= k < a.len() ==> s[k] == a[k]);
    lemma_line_end_at(s, a.len() as int);
    assert(head_line(s) =~= a);
    assert(tail_after(s) =~= b);
}

/// Writing an `i64` and reading it back gives the same number.
proof fn lemma_i64_roundtrip(n: int)
    requires
        i64::MIN <= n <= i64::MAX,
    ensures
        parse_i64_spec(encode_i64(n)) == Some(n),
{
    reveal_with_fuel(pow10, 20);
    assert(pow10(19) == 10000000000000000000);
    if n >= 0 {
        lemma_digits_roundtrip(n);
        lemma_int_digits_len(n, 19);
        let s = int_digits(n);
        assert(digit_val(s[0]) >= 0);
        assert(s[0] != '-');
    } else {
        lemma_digits_roundtrip(-n);
        lemma_int_digits_len(-n, 19);
        let s = encode_i64(n);
        assert(s[0] == '-');
        assert(s.skip(1) =~= int_digits(-n));
    }
}

/// The written form of an `i64` holds no newline.
proof fn lemma_encode_i64_no_newline(n: int)
    requires
        i64::MIN <= n <= i64::MAX,
    ensures
        no_newline(encode_i64(n)),
{
    if n >= 0 {
        lemma_digits_roundtrip(n);
    } else {
        lemma_digits_roundtrip(-n);
    }
}

/// The two lines that record one lock entry.
pub open spec fn encode_entry(d: LockedDependencyView) -> Seq<char> {
    "dep "@ + d.url + seq!['\n'] + "ref "@ + d.refname + seq!['\n']
}

/// The lines that record a list of lock entries, in order.
pub open spec fn encode_entries(deps: Seq<LockedDependencyView>) -> Seq<char>
    decreases deps.len(),
{
    if deps.len() == 0 {
        Seq::empty()
    } else {
        encode_entry(deps[0]) + encode_entries(deps.skip(1))
    }
}

/// The whole written form of a lock store: a version line, a timestamp
/// line, then a `dep`/`ref` line pair per entry.
pub open spec fn encode_lock(v: VendorLockView) -> Seq<char> {
    "version "@ + v.version + seq!['\n'] + "updated "@ + encode_i64(v.updated_at) + seq!['\n']
        + encode_entries(v.deps)
}

/// The entries read back from [`encode_entries`]'s form; anything else is
/// refused.
pub open spec fn decode_entries(s: Seq<char>) -> Option<Seq<LockedDependencyView>>
    decreases s.len(),
{
    if s.len() == 0 {
        Some(Seq::empty())
    } else if line_end(s) < 0 {
        None
    } else {
        let l1 = head_line(s);
        let r1 = tail_after(s);
        if !has_prefix(l1, "dep "@) {
            None
        } else if line_end(r1) < 0 {
            None
        } else {
            let l2 = head_line(r1);
            let r2 = tail_after(r1);
            if !has_prefix(l2, "ref "@) {
                None
            } else {
                match decode_entries(r2) {
                    None => None,
                    Some(rest) => Some(
                        seq![
                            LockedDependencyView { url: l1.skip(4), refname: l2.skip(4) },
                        ] + rest,
                    ),
                }
            }
        }
    }
}

/// The store read back from [`encode_lock`]'s form; anything else is
/// refused.
pub open spec fn decode_lock(s: Seq<char>) -> Option<VendorLockView> {
    if line_end(s) < 0 {
        None
    } else {
        let l1 = head_line(s);
        let r1 = tail_after(s);
        if !has_prefix(l1, "version "@) {
            None
        } else if line_end(r1) < 0 {
            None
        } else {
            let l2 = head_line(r1);
            let r2 = tail_after(r1);
            if !has_prefix(l2, "updated "@) {
                None
            } else {
                match parse_i64_spec(l2.skip(8)) {
                    None => None,
                    Some(ts) => match decode_entries(r2) {
                        None => None,
                        Some(deps) => Some(
                            VendorLockView { version: l1.skip(8), deps, updated_at: ts },
                        ),
                    },
                }
            }
        }
    }
}

/// Writing lock entries and reading them back gives the same entries, as
/// long as no identity or reference holds a newline.
proof fn lemma_entries_roundtrip(deps: Seq<LockedDependencyView>)
    requires
        forall|i: int|
            0 <= i < deps.len() ==> no_newline(#[trigger] deps[i].url) && no_newline(
                deps[i].refname,
            ),
    ensures
        decode_entries(encode_entries(deps)) == Some(deps),
    decreases deps.len(),
{
    reveal_strlit("dep ");
    reveal_strlit("ref ");
    if deps.len() == 0 {
        assert(decode_entries(encode_entries(deps)) =~= Some(Seq::<LockedDependencyView>::empty()));
    } else {
        let d = deps[0];
        let s = encode_entries(deps);
        let line1 = "dep "@ + d.url;
        let after1 = "ref "@ + d.refname + seq!['\n'] + encode_entries(deps.skip(1));
        assert(s =~= line1 + seq!['\n'] + after1);
        assert(no_newline(line1));
        lemma_split_concat(line1, after1);
        assert(has_prefix(line1, "dep "@)) by {
            assert(line1.take(4) =~= "dep "@);
        }
        assert(line1.skip(4) =~= d.url);
        let line2 = "ref "@ + d.refname;
        let after2 = encode_entries(deps.skip(1));
        assert(after1 =~= line2 + seq!['\n'] + after2);
        assert(no_newline(line2));
        lemma_split_concat(line2, after2);
        assert(has_prefix(line2, "ref "@)) by {
            assert(line2.take(4) =~= "ref "@);
        }
        assert(line2.skip(4) =~= d.refname);
        lemma_entries_roundtrip(deps.skip(1));
        assert((LockedDependencyView { url: d.url, refname: d.refname }) =~= d);
        assert(seq![LockedDependencyView { url: d.url, refname: d.refname }] + deps.skip(1)
            =~= deps);
    }
}

/// Law: persisting a lock store and loading it back gives the same value,
/// as long as no recorded string holds a newline.
pub proof fn lemma_lock_roundtrip(v: VendorLockView)
    requires
        no_newline(v.version),
        i64::MIN <= v.updated_at <= i64::MAX,
        forall|i: int|
            0 <= i < v.deps.len() ==> no_newline(#[trigger] v.deps[i].url) && no_newline(
                v.deps[i].refname,
            ),
    ensures
        decode_lock(encode_lock(v)) == Some(v),
{
    reveal_strlit("version ");
    reveal_strlit("updated ");
    let s = encode_lock(v);
    let line1 = "version "@ + v.version;
    let after1 = "updated "@ + encode_i64(v.updated_at) + seq!['\n'] + encode_entries(v.deps);
    assert(s =~= line1 + seq!['\n'] + after1);
    assert(no_newline(line1));
    lemma_split_concat(line1, after1);
    assert(has_prefix(line1, "version "@)) by {
        assert(line1.take(8) =~= "version "@);
    }
    assert(line1.skip(8) =~= v.version);
    let line2 = "updated "@ + encode_i64(v.updated_at);
    let after2 = encode_entries(v.deps);
    assert(after1 =~= line2 + seq!['\n'] + after2);
    lemma_encode_i64_no_newline(v.updated_at);
    assert(no_newline(line2));
    lemma_split_concat(line2, after2);
    assert(has_prefix(line2, "updated "@)) by {
        assert(line2.take(8) =~= "updated "@);
    }
    assert(line2.skip(8) =~= encode_i64(v.updated_at));
    lemma_i64_roundtrip(v.updated_at);
    lemma_entries_roundtrip(v.deps);
    assert((VendorLockView { version: v.version, deps: v.deps, updated_at: v.updated_at }) =~= v);
}

/// Parses the line pairs of entries.
fn load_entries(s: &str) -> (r: Option<Vec<LockedDependency>>)
    ensures
        match r {
            None => decode_entries(s@) is None,
            Some(v) => decode_entries(s@) == Some(v.deep_view()),
        },
    decreases s@.len(),
{
    let n = s.unicode_len();
    if n == 0 {
        let out: Vec<LockedDependency> = Vec::new();
        proof {
            assert(out.deep_view() =~= Seq::<LockedDependencyView>::empty());
        }
        return Some(out);
    }
    proof {
        reveal_strlit("dep ");
        reveal_strlit("ref ");
    }
    match find_newline(s) {
        None => None,
        Some(j1) => {
            let l1 = s.substring_char(0, j1);
            let r1 = s.substring_char(j1 + 1, n);
            proof {
                assert(l1@ =~= head_line(s@));
                assert(r1@ =~= tail_after(s@));
            }
            if !str_prefix(l1, "dep ") {
                return None;
            }
            let url = l1.substring_char(4, l1.unicode_len());
            proof {
                assert(url@ =~= head_line(s@).skip(4));
            }
            match find_newline(r1) {
                None => None,
                Some(j2) => {
                    let m = r1.unicode_len();
                    let l2 = r1.substring_char(0, j2);
                    let r2 = r1.substring_char(j2 + 1, m);
                    proof {
                        assert(l2@ =~= head_line(r1@));
                        assert(r2@ =~= tail_after(r1@));
                    }
                    if !str_prefix(l2, "ref ") {
                        return None;
                    }
                    let refname = l2.substring_char(4, l2.unicode_len());
                    proof {
                        assert(refname@ =~= head_line(r1@).skip(4));
                    }
                    match load_entries(r2) {
                        None => None,
                        Some(rest) => {
                            let ghost restdv = rest.deep_view();
                            let mut out: Vec<LockedDependency> = Vec::new();
                            out.push(LockedDependency::new(url, refname));
                            let mut rest = rest;
                            out.append(&mut rest);
                            proof {
                                assert(out.deep_view() =~= seq![
                                    LockedDependencyView {
                                        url: head_line(s@).skip(4),
                                        refname: head_line(tail_after(s@)).skip(4),
                                    },
                                ] + restdv);
                            }
                            Some(out)
                        },
                    }
                },
            }
        },
    }
}

impl VendorLock {
    /// The store's whole written form, ready to be put on disk.
    pub fn save_to_string(&self) -> (r: String)
        ensures
            r@ == encode_lock(self@),
    {
        let mut s = String::from_str("version ");
        s.append(self.version.as_str());
        s.append("\n");
        s.append("updated ");
        let ts = format_i64(self.updated_at);
        s.append(ts.as_str());
        s.append("\n");
        proof {
            reveal_strlit("\n");
            assert("\n"@ =~= seq!['\n']);
        }
        let ghost header = s@;
        let ghost dv = self.deps.deep_view();
        proof {
            assert(header + encode_entries_prefix(dv, 0) =~= header);
        }
        let mut i: usize = 0;
        while i < self.deps.len()
            invariant
                i <= self.deps@.len(),
                dv == self.deps.deep_view(),
                s@ == header + encode_entries_prefix(dv, i as int),
            decreases self.deps@.len() - i,
        {
            proof {
                reveal_strlit("\n");
                assert("\n"@ =~= seq!['\n']);
                assert(dv[i as int] == self.deps@[i as int]@);
            }
            s.append("dep ");
            s.append(self.deps[i].url.as_str());
            s.append("\n");
            s.append("ref ");
            s.append(self.deps[i].refname.as_str());
            s.append("\n");
            proof {
                assert(s@ =~= header + (encode_entries_prefix(dv, i as int) + encode_entry(
                    dv[i as int],
                )));
            }
            i += 1;
        }
        proof {
            lemma_encode_entries_prefix_all(dv);
            assert(s@ =~= encode_lock(self@));
        }
        s
    }

    /// Reads a store back from its written form; anything the form does not
    /// cover is refused.
    pub fn load_from_string(s: &str) -> (r: Option<VendorLock>)
        ensures
            match r {
                None => decode_lock(s@) is None,
                Some(l) => decode_lock(s@) == Some(l@),
            },
    {
        proof {
            reveal_strlit("version ");
            reveal_strlit("updated ");
        }
        let n = s.unicode_len();
        match find_newline(s) {
            None => None,
            Some(j1) => {
                let l1 = s.substring_char(0, j1);
                let r1 = s.substring_char(j1 + 1, n);
                proof {
                    assert(l1@ =~= head_line(s@));
                    assert(r1@ =~= tail_after(s@));
                }
                if !str_prefix(l1, "version ") {
                    return None;
                }
                let version = l1.substring_char(8, l1.unicode_len());
                proof {
                    assert(version@ =~= head_line(s@).skip(8));
                }
                match find_newline(r1) {
                    None => None,
                    Some(j2) => {
                        let m = r1.unicode_len();
                        let l2 = r1.substring_char(0, j2);
                        let r2 = r1.substring_char(j2 + 1, m);
                        proof {
                            assert(l2@ =~= head_line(r1@));
                            assert(r2@ =~= tail_after(r1@));
                        }
                        if !str_prefix(l2, "updated ") {
                            return None;
                        }
                        let ts_str = l2.substring_char(8, l2.unicode_len());
                        proof {
                            assert(ts_str@ =~= head_line(r1@).skip(8));
                        }
                        match parse_i64(ts_str) {
                            None => None,
                            Some(ts) => match load_entries(r2) {
                                None => None,
                                Some(deps) => {
                                    let lock = VendorLock {
                                        version: version.to_owned(),
                                        deps,
                                        updated_at: ts,
                                    };
                                    proof {
                                        assert(decode_lock(s@) == Some(lock@)) by {
                                            assert(lock@ =~= decode_lock(s@)->Some_0);
                                        }
                                    }
                                    Some(lock)
                                },
                            },
                        }
                    },
                }
            },
        }
    }
}

/// The lines of the first `i` entries.
spec fn encode_entries_prefix(deps: Seq<LockedDependencyView>, i: int) -> Seq<char>
    decreases i,
{
    if i <= 0 {
        Seq::empty()
    } else {
        encode_entries_prefix(deps, i - 1) + encode_entry(deps[i - 1])
    }
}

/// Taking the prefix over the whole list gives [`encode_entries`].
proof fn lemma_encode_entries_prefix_all(deps: Seq<LockedDependencyView>)
    ensures
        encode_entries_prefix(deps, deps.len() as int) == encode_entries(deps),
    decreases deps.len(),
{
    if deps.len() > 0 {
        lemma_encode_entries_prefix_all(deps.skip(1));
        lemma_encode_entries_prefix_shift(deps, deps.len() as int);
    } else {
        assert(encode_entries_prefix(deps, 0) =~= encode_entries(deps));
    }
}

/// Building the prefix of `deps` is the first entry's lines followed by the
/// prefix of the rest.
proof fn lemma_encode_entries_prefix_shift(deps: Seq<LockedDependencyView>, i: int)
    requires
        1 <= i <= deps.len(),
    ensures
        encode_entries_prefix(deps, i) == encode_entry(deps[0]) + encode_entries_prefix(
            deps.skip(1),
            i - 1,
        ),
    decreases i,
{
    reveal_with_fuel(encode_entries_prefix, 3);
    if i == 1 {
        assert(encode_entries_prefix(deps, 1) =~= encode_entry(deps[0])
            + encode_entries_prefix(deps.skip(1), 0));
    } else {
        lemma_encode_entries_prefix_shift(deps, i - 1);
        assert(deps.skip(1)[i - 2] == deps[i - 1]);
        assert(encode_entries_prefix(deps, i) =~= encode_entry(deps[0])
            + encode_entries_prefix(deps.skip(1), i - 1));
    }
}

} // verus!
