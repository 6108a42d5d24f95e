//! Small verified operations on text: prefixes, substrings, decimal
//! numerals and concatenation.
use vstd::prelude::*;

verus! {

/// `p` is a prefix of `s`.
pub open spec fn has_prefix(s: Seq<char>, p: Seq<char>) -> bool {
    p.len() <= s.len() && s.subrange(0, p.len() as int) == p
}

/// `n` occurs in `s` at position `i`.
pub open spec fn occurs_at(s: Seq<char>, n: Seq<char>, i: int) -> bool {
    0 <= i && i + n.len() <= s.len() && s.subrange(i, i + n.len()) == n
}

/// `n` occurs somewhere in `s`.
pub open spec fn has_substring(s: Seq<char>, n: Seq<char>) -> bool {
    exists|i: int| occurs_at(s, n, i)
}

/// Whether `n` occurs in `s` at position `at`.
fn matches_at(s: &str, n: &str, at: usize) -> (r: bool)
    requires
        at as int + n@.len() <= s@.len(),
        s@.len() <= usize::MAX,
    ensures
        r == occurs_at(s@, n@, at as int),
{
    let len = n.unicode_len();
    let mut k: usize = 0;
    while k < len
        invariant
            len == n@.len(),
            at as int + n@.len() <= s@.len(),
            s@.len() <= usize::MAX,
            k <= len,
            forall|j: int| 0 <= j < k ==> s@[at + j] == n@[j],
        decreases len - k,
    {
        if s.get_char(at + k) != n.get_char(k) {
            assert(s@.subrange(at as int, at + n@.len())[k as int] != n@[k as int]);
            return false;
        }
        k = k + 1;
    }
    assert(s@.subrange(at as int, at + n@.len()) =~= n@);
    true
}

/// `str::starts_with` for a text pattern.
pub fn starts_with(s: &str, p: &str) -> (r: bool)
    ensures
        r == has_prefix(s@, p@),
{
    let slen = s.unicode_len();
    if p.unicode_len() > slen {
        return false;
    }
    matches_at(s, p, 0)
}

/// `str::contains` for a text pattern.
pub fn contains(s: &str, n: &str) -> (r: bool)
    ensures
        r == has_substring(s@, n@),
{
    let slen = s.unicode_len();
    let nlen = n.unicode_len();
    if nlen > slen {
        assert forall|i: int| !occurs_at(s@, n@, i) by {}
        return false;
    }
    let last = slen - nlen;
    let mut at: usize = 0;
    loop
        invariant
            slen == s@.len(),
            nlen == n@.len(),
            last == slen - nlen,
            at <= last,
            forall|i: int| 0 <= i < at ==> !occurs_at(s@, n@, i),
        decreases last - at,
    {
        if matches_at(s, n, at) {
            return true;
        }
        if at == last {
            assert forall|i: int| !occurs_at(s@, n@, i) by {
                if 0 <= i && i < at {
                }
            }
            return false;
        }
        at = at + 1;
    }
}

/// The decimal numeral of `n`, as `{}` formats an unsigned integer.
pub open spec fn decimal(n: nat) -> Seq<char>
    decreases n,
{
    if n < 10 {
        seq![digit_char(n)]
    } else {
        decimal(n / 10) + seq![digit_char(n % 10)]
    }
}

/// The character of the digit `d`.
pub open spec fn digit_char(d: nat) -> char {
    if d == 0 {
        '0'
    } else if d == 1 {
        '1'
    } else if d == 2 {
        '2'
    } else if d == 3 {
        '3'
    } else if d == 4 {
        '4'
    } else if d == 5 {
        '5'
    } else if d == 6 {
        '6'
    } else if d == 7 {
        '7'
    } else if d == 8 {
        '8'
    } else {
        '9'
    }
}

/// The one-character text of the digit `d`.
fn digit_str(d: u64) -> (r: &'static str)
    requires
        d < 10,
    ensures
        r@ == seq![digit_char(d as nat)],
{
    let digits = "0123456789";
    proof {
        reveal_strlit("0123456789");
    }
    let r = digits.substring_char(d as usize, d as usize + 1);
    assert(r@ =~= seq![digit_char(d as nat)]);
    r
}

/// The decimal numeral of `n`.
pub fn decimal_string(n: u64) -> (r: String)
    ensures
        r@ == decimal(n as nat),
    decreases n,
{
    if n < 10 {
        String::from_str(digit_str(n))
    } else {
        let mut s = decimal_string(n / 10);
        s.append(digit_str(n % 10));
        s
    }
}

/// `a` followed by `b`.
pub fn concat2(a: &str, b: &str) -> (r: String)
    ensures
        r@ == a@ + b@,
{
    let mut s = String::from_str(a);
    s.append(b);
    s
}

/// The lower-case form of `s` as `str::to_lowercase` gives it.
pub uninterp spec fn lowercase(s: Seq<char>) -> Seq<char>;

/// `str::to_lowercase` (std).  Claimed: the result is `lowercase(s@)`, a
/// function of the text alone (std's Unicode case tables).
#[verifier::external_body]
pub(crate) fn to_lowercase(s: &str) -> (r: String)
    ensures
        r@ == lowercase(s@),
{
    s.to_lowercase()
}

} // verus!
