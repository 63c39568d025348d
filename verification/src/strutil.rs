use vstd::prelude::*;

verus! {

use crate::is_digit;
use crate::digit_val;

// --- Lexicographic order on character sequences (by code point) ---

/// `a` is lexicographically at most `b`, comparing code points.
pub open spec fn lex_le(a: Seq<char>, b: Seq<char>) -> bool
    decreases a.len(),
{
    if a.len() == 0 {
        true
    } else if b.len() == 0 {
        false
    } else if (a[0] as u32) < (b[0] as u32) {
        true
    } else if (a[0] as u32) > (b[0] as u32) {
        false
    } else {
        lex_le(a.skip(1), b.skip(1))
    }
}

/// The lexicographic order is total.
pub proof fn lemma_lex_total(a: Seq<char>, b: Seq<char>)
    ensures
        lex_le(a, b) || lex_le(b, a),
    decreases a.len(),
{
    if a.len() > 0 && b.len() > 0 && a[0] as u32 == b[0] as u32 {
        lemma_lex_total(a.skip(1), b.skip(1));
    }
}

/// The lexicographic order is transitive.
pub proof fn lemma_lex_trans(a: Seq<char>, b: Seq<char>, c: Seq<char>)
    requires
        lex_le(a, b),
        lex_le(b, c),
    ensures
        lex_le(a, c),
    decreases a.len(),
{
    if a.len() > 0 && b.len() > 0 && c.len() > 0 && a[0] as u32 == b[0] as u32 && b[0] as u32
        == c[0] as u32 {
        lemma_lex_trans(a.skip(1), b.skip(1), c.skip(1));
    }
}

/// Executable lexicographic comparison of two strings.
pub fn str_le(a: &str, b: &str) -> (r: bool)
    ensures
        r == lex_le(a@, b@),
{
    let alen = a.unicode_len();
    let blen = b.unicode_len();
    let mut i: usize = 0;
    proof {
        assert(a@.skip(0) =~= a@);
        assert(b@.skip(0) =~= b@);
    }
    loop
        invariant
            i <= alen,
            i <= blen,
            alen == a@.len(),
            blen == b@.len(),
            lex_le(a@, b@) == lex_le(a@.skip(i as int), b@.skip(i as int)),
        decreases alen - i,
    {
        if i == alen {
            return true;
        }
        if i == blen {
            assert(a@.skip(i as int).len() > 0);
            return false;
        }
        let ca = a.get_char(i) as u32;
        let cb = b.get_char(i) as u32;
        if ca != cb {
            return ca < cb;
        }
        proof {
            assert(a@.skip(i as int).skip(1) =~= a@.skip(i + 1));
            assert(b@.skip(i as int).skip(1) =~= b@.skip(i + 1));
        }
        i = i + 1;
    }
}

/// Executable strict lexicographic comparison.
pub fn str_lt(a: &str, b: &str) -> (r: bool)
    ensures
        r == (lex_le(a@, b@) && a@ != b@),
{
    str_le(a, b) && !str_eq(a, b)
}

/// Executable string equality at the character level.
pub fn str_eq(a: &str, b: &str) -> (r: bool)
    ensures
        r == (a@ == b@),
{
    let alen = a.unicode_len();
    let blen = b.unicode_len();
    if alen != blen {
        return false;
    }
    let mut i: usize = 0;
    while i < alen
        invariant
            i <= alen,
            alen == a@.len(),
            alen == b@.len(),
            forall|j: int| 0 <= j < i ==> a@[j] == b@[j],
        decreases alen - i,
    {
        if a.get_char(i) != b.get_char(i) {
            return false;
        }
        i = i + 1;
    }
    proof {
        assert(a@ =~= b@);
    }
    true
}

/// Executable prefix test: does `s` start with `p`, character for character?
pub fn has_prefix(s: &str, p: &str) -> (r: bool)
    ensures
        r == p@.is_prefix_of(s@),
{
    let slen = s.unicode_len();
    let plen = p.unicode_len();
    if plen > slen {
        assert(!p@.is_prefix_of(s@));
        return false;
    }
    let mut i: usize = 0;
    while i < plen
        invariant
            i <= plen <= slen,
            slen == s@.len(),
            plen == p@.len(),
            forall|j: int| 0 <= j < i ==> s@[j] == p@[j],
        decreases plen - i,
    {
        if s.get_char(i) != p.get_char(i) {
            assert(!p@.is_prefix_of(s@));
            return false;
        }
        i = i + 1;
    }
    proof {
        assert(p@ =~= s@.subrange(0, p@.len() as int));
    }
    true
}

// --- Last occurrence of a character ---

/// Index of the last occurrence of `c` in `s`, or -1 when absent.
pub open spec fn last_idx(s: Seq<char>, c: char) -> int
    decreases s.len(),
{
    if s.len() == 0 {
        -1
    } else if s.last() == c {
        s.len() - 1
    } else {
        last_idx(s.drop_last(), c)
    }
}

/// Characterization of `last_idx`: it points at the last occurrence.
pub proof fn lemma_last_idx(s: Seq<char>, c: char)
    ensures
        -1 <= last_idx(s, c) < s.len(),
        last_idx(s, c) == -1 ==> forall|j: int| 0 <= j < s.len() ==> s[j] != c,
        last_idx(s, c) >= 0 ==> s[last_idx(s, c)] == c,
        forall|j: int| last_idx(s, c) < j < s.len() ==> s[j] != c,
    decreases s.len(),
{
    if s.len() > 0 && s.last() != c {
        lemma_last_idx(s.drop_last(), c);
        assert(forall|j: int| 0 <= j < s.len() - 1 ==> s[j] == s.drop_last()[j]);
    }
}

/// Executable search for the last occurrence of a character.
pub fn rfind_char(s: &str, c: char) -> (r: Option<usize>)
    ensures
        match r {
            Some(i) => i == last_idx(s@, c),
            None => last_idx(s@, c) == -1,
        },
{
    let len = s.unicode_len();
    let mut i: usize = len;
    while i > 0
        invariant
            i <= len,
            len == s@.len(),
            forall|j: int| i <= j < len ==> s@[j] != c,
        decreases i,
    {
        let ni = i - 1;
        if s.get_char(ni) == c {
            proof {
                lemma_last_idx(s@, c);
                let li = last_idx(s@, c);
                assert(s@[ni as int] == c);
                if li > ni as int {
                    assert(s@[li] != c);
                }
            }
            return Some(ni);
        }
        i = ni;
    }
    proof {
        lemma_last_idx(s@, c);
        if last_idx(s@, c) >= 0 {
            assert(s@[last_idx(s@, c)] != c);
        }
    }
    None
}

// --- Last occurrence of a substring ---

/// `n` occurs in `s` at position `i`.
pub open spec fn match_at(s: Seq<char>, n: Seq<char>, i: int) -> bool {
    0 <= i && i + n.len() <= s.len() && s.subrange(i, i + n.len()) == n
}

/// Index of the last occurrence of `n` in `s`, or -1 when absent.
pub open spec fn last_match_idx(s: Seq<char>, n: Seq<char>) -> int
    decreases s.len(),
{
    if n.len() == 0 || s.len() < n.len() {
        -1
    } else if s.subrange(s.len() - n.len(), s.len() as int) == n {
        s.len() - n.len()
    } else {
        last_match_idx(s.drop_last(), n)
    }
}

/// Characterization of `last_match_idx`: it points at the last occurrence.
pub proof fn lemma_last_match_idx(s: Seq<char>, n: Seq<char>)
    requires
        n.len() > 0,
    ensures
        -1 <= last_match_idx(s, n),
        last_match_idx(s, n) >= 0 ==> last_match_idx(s, n) + n.len() <= s.len(),
        last_match_idx(s, n) == -1 ==> forall|j: int| !match_at(s, n, j),
        last_match_idx(s, n) >= 0 ==> match_at(s, n, last_match_idx(s, n)),
        forall|j: int| last_match_idx(s, n) < j ==> !match_at(s, n, j),
    decreases s.len(),
{
    if s.len() < n.len() {
        assert(forall|j: int| !match_at(s, n, j));
    } else if s.subrange(s.len() - n.len(), s.len() as int) =~= n {
        assert(match_at(s, n, s.len() - n.len()));
        assert(forall|j: int| j > s.len() - n.len() ==> !match_at(s, n, j));
    } else {
        lemma_last_match_idx(s.drop_last(), n);
        assert(!match_at(s, n, s.len() - n.len()));
        assert forall|j: int| 0 <= j < s.len() - n.len() implies match_at(s, n, j) == match_at(
            s.drop_last(),
            n,
            j,
        ) by {
            if 0 <= j && j + n.len() <= s.len() - 1 {
                assert(s.subrange(j, j + n.len()) =~= s.drop_last().subrange(j, j + n.len()));
            }
        }
    }
}

/// Does `n` occur in `s` starting at `i`? Executable form of `match_at`.
pub fn match_at_exec(s: &str, n: &str, i: usize) -> (r: bool)
    requires
        i + n@.len() <= s@.len(),
        i + n@.len() <= usize::MAX,
    ensures
        r == match_at(s@, n@, i as int),
{
    let nlen = n.unicode_len();
    let mut k: usize = 0;
    while k < nlen
        invariant
            k <= nlen,
            nlen == n@.len(),
            i + nlen <= s@.len(),
            i + nlen <= usize::MAX,
            forall|j: int| 0 <= j < k ==> s@[i + j] == n@[j],
        decreases nlen - k,
    {
        if s.get_char(i + k) != n.get_char(k) {
            assert(s@.subrange(i as int, i + n@.len())[k as int] != n@[k as int]);
            return false;
        }
        k = k + 1;
    }
    proof {
        assert(s@.subrange(i as int, i + n@.len()) =~= n@);
    }
    true
}

/// Executable search for the last occurrence of the substring `n` in `s`.
pub fn rfind_str(s: &str, n: &str) -> (r: Option<usize>)
    requires
        n@.len() > 0,
    ensures
        match r {
            Some(i) => i == last_match_idx(s@, n@),
            None => last_match_idx(s@, n@) == -1,
        },
{
    let slen = s.unicode_len();
    let nlen = n.unicode_len();
    if nlen > slen {
        proof {
            lemma_last_match_idx(s@, n@);
            if last_match_idx(s@, n@) >= 0 {
                assert(match_at(s@, n@, last_match_idx(s@, n@)));
            }
        }
        return None;
    }
    let mut i: usize = slen - nlen + 1;
    while i > 0
        invariant
            i <= slen - nlen + 1,
            slen == s@.len(),
            nlen == n@.len(),
            0 < nlen <= slen,
            forall|j: int| i <= j ==> !match_at(s@, n@, j),
        decreases i,
    {
        let ni = i - 1;
        if match_at_exec(s, n, ni) {
            proof {
                lemma_last_match_idx(s@, n@);
                let li = last_match_idx(s@, n@);
                if li > ni as int {
                    assert(!match_at(s@, n@, li));
                }
                if li < ni as int {
                    assert(!match_at(s@, n@, ni as int));
                }
            }
            return Some(ni);
        }
        i = ni;
    }
    proof {
        lemma_last_match_idx(s@, n@);
        if last_match_idx(s@, n@) >= 0 {
            assert(match_at(s@, n@, last_match_idx(s@, n@)));
        }
    }
    None
}

// --- Decimal parsing, as `str::parse::<u64>` accepts it ---

/// Every character of `s` is an ASCII decimal digit.
pub open spec fn all_digits(s: Seq<char>) -> bool {
    forall|i: int| 0 <= i < s.len() ==> is_digit(s[i])
}

/// Value of a sequence of decimal digits.
pub open spec fn digits_val(s: Seq<char>) -> int
    decreases s.len(),
{
    if s.len() == 0 {
        0
    } else {
        digits_val(s.drop_last()) * 10 + digit_val(s.last())
    }
}

pub proof fn lemma_digits_val_nonneg(s: Seq<char>)
    requires
        all_digits(s),
    ensures
        digits_val(s) >= 0,
    decreases s.len(),
{
    if s.len() > 0 {
        lemma_digits_val_nonneg(s.drop_last());
    }
}

/// The digits of a decimal numeral: everything after an optional leading `+`.
pub open spec fn digits_part(s: Seq<char>) -> Seq<char> {
    if s.len() > 0 && s[0] == '+' {
        s.skip(1)
    } else {
        s
    }
}

/// What `str::parse::<u64>` returns: an optional leading `+`, then at least
/// one digit, and a value that fits in a `u64`.
pub open spec fn parse_u64_spec(s: Seq<char>) -> Option<u64> {
    let d = digits_part(s);
    if d.len() > 0 && all_digits(d) && digits_val(d) <= u64::MAX {
        Some(digits_val(d) as u64)
    } else {
        None
    }
}

/// Executable decimal parser, equal to `parse_u64_spec`.
pub fn parse_u64(s: &str) -> (r: Option<u64>)
    ensures
        r == parse_u64_spec(s@),
{
    let len = s.unicode_len();
    let start: usize = if len > 0 && s.get_char(0) == '+' {
        1
    } else {
        0
    };
    let ghost d: Seq<char> = digits_part(s@);
    proof {
        assert(d =~= s@.subrange(start as int, len as int));
    }
    if start == len {
        return None;
    }
    let mut acc: u128 = 0;
    let mut over: bool = false;
    let mut i: usize = start;
    while i < len
        invariant
            start <= i <= len,
            len == s@.len(),
            start <= 1,
            d == digits_part(s@),
            d =~= s@.subrange(start as int, len as int),
            all_digits(s@.subrange(start as int, i as int)),
            !over ==> acc == digits_val(s@.subrange(start as int, i as int)) && acc
                <= u64::MAX as u128,
            over ==> digits_val(s@.subrange(start as int, i as int)) > u64::MAX,
        decreases len - i,
    {
        let c = s.get_char(i);
        if !char_is_digit_exec(c) {
            proof {
                assert(d[i - start] == s@[i as int]);
                assert(!all_digits(d));
            }
            return None;
        }
        let dv: u128 = (c as u32 - 48) as u128;
        let ghost pre = s@.subrange(start as int, i as int);
        let ghost pre2 = s@.subrange(start as int, i + 1);
        proof {
            assert(pre2.drop_last() =~= pre);
            assert(pre2.last() == s@[i as int]);
            lemma_digits_val_nonneg(pre);
        }
        if over {
            proof {
                assert(digits_val(pre2) == digits_val(pre) * 10 + digit_val(s@[i as int]));
            }
        } else {
            let acc2: u128 = acc * 10 + dv;
            if acc2 > u64::MAX as u128 {
                over = true;
            } else {
                acc = acc2;
            }
        }
        i = i + 1;
    }
    proof {
        assert(s@.subrange(start as int, len as int) =~= d);
    }
    if over {
        None
    } else {
        Some(acc as u64)
    }
}

/// Executable digit test.
pub fn char_is_digit_exec(c: char) -> (r: bool)
    ensures
        r == is_digit(c),
{
    '0' <= c && c <= '9'
}

} // verus!
