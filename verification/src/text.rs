//! Character-sequence utilities shared by the matcher and the URL
//! canonicalizer: prefix/suffix/substring predicates with their executable
//! counterparts, and decimal formatting of integers.

use vstd::prelude::*;
use vstd::string::StrSliceExecFns;
use vstd::string::StringExecFns;

verus! {

/// `pre` is a prefix of `s`.
pub open spec fn is_prefix_of(pre: Seq<char>, s: Seq<char>) -> bool {
    pre.len() <= s.len() && s.subrange(0, pre.len() as int) == pre
}

/// `suf` is a suffix of `s`.
pub open spec fn is_suffix_of(suf: Seq<char>, s: Seq<char>) -> bool {
    suf.len() <= s.len() && s.subrange(s.len() - suf.len(), s.len() as int) == suf
}

/// `n` occurs in `h` starting at index `i`.
pub open spec fn matches_at(h: Seq<char>, n: Seq<char>, i: int) -> bool {
    0 <= i && i + n.len() <= h.len() && h.subrange(i, i + n.len()) == n
}

/// `n` occurs somewhere in `h`.
pub open spec fn contains_sub(h: Seq<char>, n: Seq<char>) -> bool {
    exists|i: int| matches_at(h, n, i)
}

/// Index of the first occurrence of `n` in `h` at or after `from`,
/// or -1 if there is none.
pub open spec fn first_match_from(h: Seq<char>, n: Seq<char>, from: int) -> int
    decreases h.len() - from,
{
    if from < 0 {
        first_match_from(h, n, 0)
    } else if from + n.len() > h.len() {
        -1
    } else if n.len() == 0 {
        from
    } else if h.subrange(from, from + n.len()) == n {
        from
    } else {
        first_match_from(h, n, from + 1)
    }
}

/// The first match is indeed the first: no occurrence at or after `from`
/// lies before it, and -1 means there is none at all.
pub proof fn lemma_first_match_from(h: Seq<char>, n: Seq<char>, from: int)
    requires
        0 <= from,
    ensures
        first_match_from(h, n, from) >= 0 ==> matches_at(h, n, first_match_from(h, n, from))
            && from <= first_match_from(h, n, from),
        first_match_from(h, n, from) == -1 ==> forall|i: int|
            from <= i ==> !matches_at(h, n, i),
        forall|i: int| from <= i < first_match_from(h, n, from) ==> !matches_at(h, n, i),
    decreases h.len() - from,
{
    if from + n.len() > h.len() {
        assert forall|i: int| from <= i implies !matches_at(h, n, i) by {}
    } else if n.len() == 0 {
        assert(h.subrange(from, from) =~= n);
    } else if h.subrange(from, from + n.len()) == n {
    } else {
        lemma_first_match_from(h, n, from + 1);
    }
}

/// Converts a string slice to the vector of its characters.
pub fn str_to_chars(s: &str) -> (r: Vec<char>)
    ensures
        r@ == s@,
{
    let n = s.unicode_len();
    let mut r: Vec<char> = Vec::new();
    let mut i: usize = 0;
    while i < n
        invariant
            n == s@.len(),
            i <= n,
            r@ == s@.subrange(0, i as int),
        decreases n - i,
    {
        r.push(s.get_char(i));
        proof {
            assert(r@ =~= s@.subrange(0, i + 1));
        }
        i += 1;
    }
    proof {
        assert(r@ =~= s@);
    }
    r
}

/// Character-for-character equality of two vectors.
pub fn chars_eq(a: &Vec<char>, b: &Vec<char>) -> (r: bool)
    ensures
        r == (a@ == b@),
{
    if a.len() != b.len() {
        return false;
    }
    let mut i: usize = 0;
    while i < a.len()
        invariant
            a@.len() == b@.len(),
            i <= a@.len(),
            forall|j: int| 0 <= j < i ==> a@[j] == b@[j],
        decreases a@.len() - i,
    {
        if a[i] != b[i] {
            return false;
        }
        i += 1;
    }
    proof {
        assert(a@ =~= b@);
    }
    true
}

/// `n` occurs in `h` at exactly the position `at`.
fn matches_at_exec(h: &Vec<char>, n: &Vec<char>, at: usize) -> (r: bool)
    requires
        at + n@.len() <= h@.len(),
    ensures
        r == matches_at(h@, n@, at as int),
{
    let hl = h.len();
    let mut j: usize = 0;
    while j < n.len()
        invariant
            hl == h@.len(),
            at + n@.len() <= hl,
            j <= n@.len(),
            forall|k: int| 0 <= k < j ==> h@[at + k] == n@[k],
        decreases n@.len() - j,
    {
        if h[at + j] != n[j] {
            proof {
                assert(h@.subrange(at as int, at + n@.len())[j as int] != n@[j as int]);
            }
            return false;
        }
        j += 1;
    }
    proof {
        assert(h@.subrange(at as int, at + n@.len()) =~= n@);
    }
    true
}

/// Finds the first occurrence of `n` in `h` at or after `from`.
pub fn find_from(h: &Vec<char>, n: &Vec<char>, from: usize) -> (r: Option<usize>)
    ensures
        match r {
            Some(i) => first_match_from(h@, n@, from as int) == i as int && from <= i && i
                + n@.len() <= h@.len(),
            None => first_match_from(h@, n@, from as int) == -1,
        },
{
    if from > h.len() || n.len() > h.len() - from {
        proof {
            lemma_first_match_from(h@, n@, from as int);
        }
        return None;
    }
    if n.len() == 0 {
        proof {
            assert(h@.subrange(from as int, from as int) =~= n@);
        }
        return Some(from);
    }
    let end = h.len() - n.len();
    let mut i: usize = from;
    while i <= end
        invariant
            from <= i,
            i <= end + 1,
            1 <= n@.len(),
            end == h@.len() - n@.len(),
            h@.len() <= usize::MAX,
            first_match_from(h@, n@, from as int) == first_match_from(h@, n@, i as int),
        decreases end + 1 - i,
    {
        if matches_at_exec(h, n, i) {
            return Some(i);
        }
        i += 1;
    }
    None
}

/// `pre` is a prefix of `h`.
pub fn starts_with_chars(h: &Vec<char>, pre: &Vec<char>) -> (r: bool)
    requires
        pre@.len() <= h@.len(),
    ensures
        r == is_prefix_of(pre@, h@),
{
    let r = matches_at_exec(h, pre, 0);
    proof {
        assert(matches_at(h@, pre@, 0) == is_prefix_of(pre@, h@));
    }
    r
}

/// `suf` is a suffix of `h`.
pub fn ends_with_chars(h: &Vec<char>, suf: &Vec<char>) -> (r: bool)
    requires
        suf@.len() <= h@.len(),
    ensures
        r == is_suffix_of(suf@, h@),
{
    let at = h.len() - suf.len();
    let r = matches_at_exec(h, suf, at);
    proof {
        assert(matches_at(h@, suf@, at as int) == is_suffix_of(suf@, h@));
    }
    r
}

/// `h` has `n` as a substring.
pub fn contains_chars(h: &Vec<char>, n: &Vec<char>) -> (r: bool)
    ensures
        r == contains_sub(h@, n@),
{
    let r = find_from(h, n, 0);
    proof {
        lemma_first_match_from(h@, n@, 0);
        if first_match_from(h@, n@, 0) >= 0 {
            assert(contains_sub(h@, n@));
        } else {
            assert forall|i: int| !matches_at(h@, n@, i) by {
                if i >= 0 {
                    assert(!matches_at(h@, n@, i));
                }
            }
        }
    }
    match r {
        Some(_) => true,
        None => false,
    }
}

/// The character for a single decimal digit.
pub open spec fn digit_char(d: nat) -> char {
    (((d + 48) as u8) as char)
}

/// The decimal representation of `n`, most significant digit first.
pub open spec fn dec_rep(n: nat) -> Seq<char>
    decreases n,
{
    if n < 10 {
        seq![digit_char(n)]
    } else {
        dec_rep(n / 10).push(digit_char(n % 10))
    }
}

/// Appends one decimal digit to `s`.
fn append_digit(s: &mut String, d: u8)
    requires
        d < 10,
    ensures
        final(s)@ == old(s)@ + seq![digit_char(d as nat)],
{
    match d {
        0 => s.append("0"),
        1 => s.append("1"),
        2 => s.append("2"),
        3 => s.append("3"),
        4 => s.append("4"),
        5 => s.append("5"),
        6 => s.append("6"),
        7 => s.append("7"),
        8 => s.append("8"),
        _ => s.append("9"),
    }
    proof {
        reveal_strlit("0");
        reveal_strlit("1");
        reveal_strlit("2");
        reveal_strlit("3");
        reveal_strlit("4");
        reveal_strlit("5");
        reveal_strlit("6");
        reveal_strlit("7");
        reveal_strlit("8");
        reveal_strlit("9");
        assert(final(s)@ =~= old(s)@ + seq![digit_char(d as nat)]);
    }
}

/// Appends the decimal representation of `n` to `s`.
pub fn append_decimal(s: &mut String, n: u16)
    ensures
        final(s)@ == old(s)@ + dec_rep(n as nat),
    decreases n,
{
    if n >= 10 {
        append_decimal(s, n / 10);
    }
    append_digit(s, (n % 10) as u8);
    proof {
        if n >= 10 {
            assert(final(s)@ =~= old(s)@ + dec_rep(n as nat));
        }
    }
}

/// Every character of a decimal representation is a digit.
pub proof fn lemma_dec_rep_digits(n: nat)
    ensures
        dec_rep(n).len() >= 1,
        forall|i: int| 0 <= i < dec_rep(n).len() ==> 48 <= (#[trigger] dec_rep(n)[i]) as int <= 57,
    decreases n,
{
    if n < 10 {
        assert(dec_rep(n)[0] == digit_char(n));
        assert(48 <= digit_char(n) as int <= 57);
    } else {
        lemma_dec_rep_digits(n / 10);
        assert forall|i: int| 0 <= i < dec_rep(n).len() implies 48 <= (#[trigger] dec_rep(n)[i]) as int
            <= 57 by {
            if i < dec_rep(n / 10).len() {
                assert(dec_rep(n)[i] == dec_rep(n / 10)[i]);
            } else {
                assert(dec_rep(n)[i] == digit_char(n % 10));
            }
        }
    }
}

/// The decimal representation has one digit below ten, two digits below
/// a hundred, and so on; a two-digit number shows its two digits.
pub proof fn lemma_dec_rep_len(n: nat)
    ensures
        n < 10 <==> dec_rep(n).len() == 1,
        (10 <= n < 100) <==> dec_rep(n).len() == 2,
        (100 <= n < 1000) <==> dec_rep(n).len() == 3,
        n >= 1000 <==> dec_rep(n).len() >= 4,
        dec_rep(n).len() >= 1,
    decreases n,
{
    if n >= 10 {
        lemma_dec_rep_len(n / 10);
    }
}

/// Two numbers with the same decimal representation are equal.
pub proof fn lemma_dec_rep_injective(a: nat, b: nat)
    ensures
        dec_rep(a) == dec_rep(b) ==> a == b,
    decreases a,
{
    if dec_rep(a) == dec_rep(b) {
        lemma_dec_rep_len(a);
        lemma_dec_rep_len(b);
        if a < 10 && b < 10 {
            assert(dec_rep(a)[0] == digit_char(a));
            assert(dec_rep(b)[0] == digit_char(b));
            assert(digit_char(a) as int == 48 + a);
            assert(digit_char(b) as int == 48 + b);
        } else if a >= 10 && b >= 10 {
            assert(dec_rep(a).last() == digit_char(a % 10));
            assert(dec_rep(b).last() == digit_char(b % 10));
            assert(digit_char(a % 10) as int == 48 + a % 10);
            assert(digit_char(b % 10) as int == 48 + b % 10);
            assert(a % 10 == b % 10);
            assert(dec_rep(a).drop_last() =~= dec_rep(a / 10));
            assert(dec_rep(b).drop_last() =~= dec_rep(b / 10));
            lemma_dec_rep_injective(a / 10, b / 10);
            assert(a == 10 * (a / 10) + a % 10);
            assert(b == 10 * (b / 10) + b % 10);
        }
    }
}

/// What `str::to_lowercase` returns for a given character sequence.
pub uninterp spec fn lower_of(s: Seq<char>) -> Seq<char>;

/// Relies on str::to_lowercase: the result depends on the characters alone.
#[verifier::external_body]
pub(crate) fn lowercase(s: &str) -> (r: String)
    ensures
        r@ == lower_of(s@),
{
    s.to_lowercase()
}

} // verus!
