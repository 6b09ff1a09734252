//! Character-level helpers shared by the parsers and matchers.
use vstd::prelude::*;

verus! {

/// Relies on `str::chars` collected into a `Vec`: the characters of `s` in order.
#[verifier::external_body]
pub(crate) fn chars_of(s: &str) -> (r: Vec<char>)
    ensures
        r@ == s@,
{
    s.chars().collect()
}

/// Relies on collecting characters into a `String` (`FromIterator<char>`):
/// the string holds exactly these characters.
#[verifier::external_body]
pub(crate) fn string_of(v: &[char]) -> (r: String)
    ensures
        r@ == v@,
{
    v.iter().collect()
}

pub open spec fn is_ascii_lower(c: char) -> bool {
    'a' as u32 <= c as u32 <= 'z' as u32
}

pub open spec fn is_ascii_digit(c: char) -> bool {
    '0' as u32 <= c as u32 <= '9' as u32
}

/// `c` equals the keyword character `k` when ASCII case is ignored.
pub open spec fn ci_eq(c: char, k: char) -> bool {
    c == k || (is_ascii_lower(k) && c as u32 + 32 == k as u32)
}

/// `s` spells the keyword `k` when ASCII case is ignored.
pub open spec fn ci_matches(s: Seq<char>, k: Seq<char>) -> bool {
    s.len() == k.len() && forall|i: int| 0 <= i < s.len() ==> ci_eq(#[trigger] s[i], k[i])
}

/// Whitespace as Unicode's `White_Space` property defines it.
pub open spec fn is_ws(c: char) -> bool {
    let u = c as u32;
    (0x9 <= u <= 0xD) || u == 0x20 || u == 0x85 || u == 0xA0 || u == 0x1680 || (0x2000 <= u
        <= 0x200A) || u == 0x2028 || u == 0x2029 || u == 0x202F || u == 0x205F || u == 0x3000
}

/// `s` without its trailing whitespace.
pub open spec fn rtrim(s: Seq<char>) -> Seq<char>
    decreases s.len(),
{
    if s.len() > 0 && is_ws(s.last()) {
        rtrim(s.drop_last())
    } else {
        s
    }
}

pub fn is_whitespace(c: char) -> (r: bool)
    ensures
        r == is_ws(c),
{
    let u = c as u32;
    (0x9 <= u && u <= 0xD) || u == 0x20 || u == 0x85 || u == 0xA0 || u == 0x1680 || (0x2000 <= u
        && u <= 0x200A) || u == 0x2028 || u == 0x2029 || u == 0x202F || u == 0x205F || u == 0x3000
}

pub fn ci_eq_char(c: char, k: char) -> (r: bool)
    ensures
        r == ci_eq(c, k),
{
    let cu = c as u32;
    let ku = k as u32;
    cu == ku || ('a' as u32 <= ku && ku <= 'z' as u32 && cu + 32 == ku)
}

/// Compares `s[from..to]` with the keyword `k`, ignoring ASCII case.
pub fn ci_matches_range(s: &[char], from: usize, to: usize, k: &str) -> (r: bool)
    requires
        from <= to <= s@.len(),
    ensures
        r == ci_matches(s@.subrange(from as int, to as int), k@),
{
    let n = k.unicode_len();
    if to - from != n {
        return false;
    }
    let ghost w = s@.subrange(from as int, to as int);
    let mut i: usize = 0;
    while i < n
        invariant
            n == k@.len(),
            from + n == to,
            to <= s@.len(),
            w == s@.subrange(from as int, to as int),
            i <= n,
            forall|j: int| 0 <= j < i ==> ci_eq(#[trigger] w[j], k@[j]),
        decreases n - i,
    {
        if !ci_eq_char(s[from + i], k.get_char(i)) {
            assert(!ci_eq(w[i as int], k@[i as int]));
            return false;
        }
        i += 1;
    }
    true
}

/// Compares `s[from..]` with the keyword `k`, ignoring ASCII case.
pub fn ci_matches_from(s: &[char], from: usize, k: &str) -> (r: bool)
    requires
        from <= s@.len(),
    ensures
        r == ci_matches(s@.subrange(from as int, s@.len() as int), k@),
{
    ci_matches_range(s, from, s.len(), k)
}

/// The characters of `s` without trailing whitespace.
pub fn rtrim_chars(s: &Vec<char>) -> (r: Vec<char>)
    ensures
        r@ == rtrim(s@),
{
    let mut n = s.len();
    assert(s@.subrange(0, n as int) =~= s@);
    while n > 0 && is_whitespace(s[n - 1])
        invariant
            n <= s@.len(),
            rtrim(s@.subrange(0, n as int)) == rtrim(s@),
        decreases n,
    {
        assert(s@.subrange(0, n as int).drop_last() =~= s@.subrange(0, n - 1));
        n -= 1;
    }
    let mut r: Vec<char> = Vec::new();
    let mut i: usize = 0;
    while i < n
        invariant
            n <= s@.len(),
            i <= n,
            r@ =~= s@.subrange(0, i as int),
        decreases n - i,
    {
        r.push(s[i]);
        i += 1;
    }
    r
}

} // verus!
