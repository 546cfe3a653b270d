//! Character-level helpers shared by the reference parser, the value
//! parser and the display routines: ASCII classification, case folding,
//! trimming, and decimal digit strings.

use vstd::prelude::*;
use vstd::string::StrSliceExecFns;

verus! {

/// ASCII decimal digit.
pub open spec fn spec_is_digit(c: char) -> bool {
    48 <= c as u32 <= 57
}

/// ASCII letter, either case.
pub open spec fn spec_is_alpha(c: char) -> bool {
    (65 <= c as u32 <= 90) || (97 <= c as u32 <= 122)
}

/// ASCII whitespace: space, tab, line feed, carriage return.
pub open spec fn spec_is_ws(c: char) -> bool {
    c as u32 == 32 || c as u32 == 9 || c as u32 == 10 || c as u32 == 13
}

/// ASCII upper-casing of a single character; other characters are unchanged.
pub open spec fn spec_to_upper(c: char) -> char {
    if 97 <= c as u32 <= 122 {
        ((c as u32 - 32) as u8) as char
    } else {
        c
    }
}

/// A sequence, upper-cased character by character.
pub open spec fn spec_upper_seq(s: Seq<char>) -> Seq<char> {
    s.map_values(|c: char| spec_to_upper(c))
}

/// Length of the whitespace prefix of `s`.
pub open spec fn spec_ws_prefix_len(s: Seq<char>) -> nat
    decreases s.len(),
{
    if s.len() > 0 && spec_is_ws(s[0]) {
        1 + spec_ws_prefix_len(s.drop_first())
    } else {
        0
    }
}

/// Length of the whitespace suffix of `s`.
pub open spec fn spec_ws_suffix_len(s: Seq<char>) -> nat
    decreases s.len(),
{
    if s.len() > 0 && spec_is_ws(s[s.len() - 1]) {
        1 + spec_ws_suffix_len(s.drop_last())
    } else {
        0
    }
}

/// `s` with leading and trailing ASCII whitespace removed.
pub open spec fn spec_trim(s: Seq<char>) -> Seq<char> {
    let front = spec_ws_prefix_len(s);
    let back = spec_ws_suffix_len(s);
    if front + back <= s.len() {
        s.subrange(front as int, s.len() - back)
    } else {
        Seq::empty()
    }
}

pub proof fn lemma_ws_prefix_le_len(s: Seq<char>)
    ensures
        spec_ws_prefix_len(s) <= s.len(),
        forall|i: int| 0 <= i < spec_ws_prefix_len(s) ==> spec_is_ws(#[trigger] s[i]),
        spec_ws_prefix_len(s) < s.len() ==> !spec_is_ws(s[spec_ws_prefix_len(s) as int]),
    decreases s.len(),
{
    if s.len() > 0 && spec_is_ws(s[0]) {
        lemma_ws_prefix_le_len(s.drop_first());
        assert forall|i: int| 0 <= i < spec_ws_prefix_len(s) implies spec_is_ws(#[trigger] s[i]) by {
            if i > 0 {
                assert(s.drop_first()[i - 1] == s[i]);
            }
        }
    }
}

pub proof fn lemma_ws_suffix_le_len(s: Seq<char>)
    ensures
        spec_ws_suffix_len(s) <= s.len(),
        forall|i: int|
            s.len() - spec_ws_suffix_len(s) <= i < s.len() ==> spec_is_ws(#[trigger] s[i]),
        spec_ws_suffix_len(s) < s.len() ==> !spec_is_ws(
            s[s.len() - spec_ws_suffix_len(s) - 1],
        ),
    decreases s.len(),
{
    if s.len() > 0 && spec_is_ws(s[s.len() - 1]) {
        lemma_ws_suffix_le_len(s.drop_last());
        assert forall|i: int|
            s.len() - spec_ws_suffix_len(s) <= i < s.len() implies spec_is_ws(
            #[trigger] s[i],
        ) by {
            if i < s.len() - 1 {
                assert(s.drop_last()[i] == s[i]);
            }
        }
    }
}

/// The whitespace prefix is exactly the first run of whitespace characters.
pub proof fn lemma_ws_prefix_is_first_run(s: Seq<char>, k: int)
    requires
        0 <= k <= s.len(),
        forall|i: int| 0 <= i < k ==> spec_is_ws(#[trigger] s[i]),
        k < s.len() ==> !spec_is_ws(s[k]),
    ensures
        spec_ws_prefix_len(s) == k,
    decreases s.len(),
{
    if s.len() > 0 && spec_is_ws(s[0]) {
        let t = s.drop_first();
        assert forall|i: int| 0 <= i < k - 1 implies spec_is_ws(#[trigger] t[i]) by {
            assert(t[i] == s[i + 1]);
        }
        if k - 1 < t.len() {
            assert(t[k - 1] == s[k]);
        }
        lemma_ws_prefix_is_first_run(t, k - 1);
    }
}

/// The whitespace suffix is exactly the last run of whitespace characters.
pub proof fn lemma_ws_suffix_is_last_run(s: Seq<char>, k: int)
    requires
        0 <= k <= s.len(),
        forall|i: int| s.len() - k <= i < s.len() ==> spec_is_ws(#[trigger] s[i]),
        k < s.len() ==> !spec_is_ws(s[s.len() - k - 1]),
    ensures
        spec_ws_suffix_len(s) == k,
    decreases s.len(),
{
    if s.len() > 0 && spec_is_ws(s[s.len() - 1]) {
        let t = s.drop_last();
        assert forall|i: int| t.len() - (k - 1) <= i < t.len() implies spec_is_ws(
            #[trigger] t[i],
        ) by {
            assert(t[i] == s[i]);
        }
        lemma_ws_suffix_is_last_run(t, k - 1);
    }
}

/// Whether `c` is an ASCII decimal digit.
pub fn is_digit_char(c: char) -> (r: bool)
    ensures
        r == spec_is_digit(c),
{
    let v: u32 = c as u32;
    48 <= v && v <= 57
}

/// Whether `c` is an ASCII letter.
pub fn is_alpha_char(c: char) -> (r: bool)
    ensures
        r == spec_is_alpha(c),
{
    let v: u32 = c as u32;
    (65 <= v && v <= 90) || (97 <= v && v <= 122)
}

/// Whether `c` is ASCII whitespace.
pub fn is_ws_char(c: char) -> (r: bool)
    ensures
        r == spec_is_ws(c),
{
    let v: u32 = c as u32;
    v == 32 || v == 9 || v == 10 || v == 13
}

/// ASCII upper-casing of one character.
pub fn to_upper_char(c: char) -> (r: char)
    ensures
        r == spec_to_upper(c),
{
    let v: u32 = c as u32;
    if 97 <= v && v <= 122 {
        ((v - 32) as u8) as char
    } else {
        c
    }
}

/// The characters of a string slice, as a vector.
pub fn str_to_chars(s: &str) -> (v: Vec<char>)
    ensures
        v@ == s@,
{
    let n: usize = s.unicode_len();
    let mut v: Vec<char> = Vec::new();
    for i in 0..n
        invariant
            n == s@.len(),
            v@ == s@.subrange(0, i as int),
    {
        v.push(s.get_char(i));
        assert(v@ =~= s@.subrange(0, i + 1));
    }
    assert(v@ =~= s@);
    v
}

/// Relies on `String: FromIterator<char>`: collecting characters yields the
/// string consisting of exactly those characters in order.
#[verifier::external_body]
pub fn chars_to_string(v: &Vec<char>) -> (s: String)
    ensures
        s@ == v@,
{
    v.iter().collect()
}

/// `v` with leading and trailing ASCII whitespace removed.
pub fn trim_chars(v: &Vec<char>) -> (r: Vec<char>)
    ensures
        r@ == spec_trim(v@),
{
    let n: usize = v.len();
    let mut start: usize = 0;
    while start < n && is_ws_char(v[start])
        invariant
            n == v@.len(),
            0 <= start <= n,
            forall|i: int| 0 <= i < start ==> spec_is_ws(#[trigger] v@[i]),
        decreases n - start,
    {
        start += 1;
    }
    proof {
        lemma_ws_prefix_is_first_run(v@, start as int);
    }
    if start == n {
        proof {
            lemma_ws_suffix_le_len(v@);
            if spec_ws_suffix_len(v@) < n {
                assert(spec_is_ws(v@[v@.len() - spec_ws_suffix_len(v@) - 1]));
            }
            assert(spec_trim(v@) =~= Seq::<char>::empty());
        }
        return Vec::new();
    }
    let mut end: usize = n;
    while end > start && is_ws_char(v[end - 1])
        invariant
            n == v@.len(),
            start <= end <= n,
            start < n,
            !spec_is_ws(v@[start as int]),
            forall|i: int| end <= i < n ==> spec_is_ws(#[trigger] v@[i]),
        decreases end,
    {
        end -= 1;
    }
    proof {
        assert(end > start);
        if (n - end) < n {
            assert(!spec_is_ws(v@[n - (n - end) - 1]));
        }
        lemma_ws_suffix_is_last_run(v@, n - end);
    }
    let mut r: Vec<char> = Vec::new();
    let mut i: usize = start;
    while i < end
        invariant
            n == v@.len(),
            start <= i <= end <= n,
            r@ == v@.subrange(start as int, i as int),
        decreases end - i,
    {
        r.push(v[i]);
        assert(r@ =~= v@.subrange(start as int, i + 1));
        i += 1;
    }
    proof {
        assert(r@ =~= spec_trim(v@));
    }
    r
}

/// The decimal digit character for `d`, which must be below ten.
pub open spec fn spec_digit_char(d: int) -> char
    recommends
        0 <= d <= 9,
{
    ((48 + d) as u8) as char
}

/// Decimal digit string of a natural number, most significant digit first.
pub open spec fn spec_dec_digits(n: nat) -> Seq<char>
    decreases n,
{
    if n < 10 {
        seq![spec_digit_char(n as int)]
    } else {
        spec_dec_digits(n / 10).push(spec_digit_char((n % 10) as int))
    }
}

/// Numeric value of a digit string, read left to right.
pub open spec fn spec_digits_val(s: Seq<char>) -> nat
    decreases s.len(),
{
    if s.len() == 0 {
        0
    } else {
        spec_digits_val(s.drop_last()) * 10 + (if spec_is_digit(s.last()) {
            (s.last() as u32 - 48) as nat
        } else {
            0
        })
    }
}

/// Every character of a digit string is a digit.
pub proof fn lemma_dec_digits_are_digits(n: nat)
    ensures
        spec_dec_digits(n).len() >= 1,
        forall|i: int|
            0 <= i < spec_dec_digits(n).len() ==> spec_is_digit(#[trigger] spec_dec_digits(n)[i]),
    decreases n,
{
    if n >= 10 {
        lemma_dec_digits_are_digits(n / 10);
    }
}

/// Reading back the digit string of `n` yields `n`.
pub proof fn lemma_digits_roundtrip(n: nat)
    ensures
        spec_digits_val(spec_dec_digits(n)) == n,
    decreases n,
{
    assert(spec_digit_char((n % 10) as int) as u32 == 48 + n % 10);
    assert(spec_is_digit(spec_digit_char((n % 10) as int)));
    if n < 10 {
        let s = spec_dec_digits(n);
        assert(s =~= seq![spec_digit_char(n as int)]);
        assert(s.last() == spec_digit_char(n as int));
        assert(s.drop_last() =~= Seq::<char>::empty());
        assert(spec_digits_val(s.drop_last()) == 0);
        assert(spec_digits_val(s) == spec_digits_val(s.drop_last()) * 10 + n);
    } else {
        lemma_digits_roundtrip(n / 10);
        let s = spec_dec_digits(n);
        assert(s.drop_last() =~= spec_dec_digits(n / 10));
        assert(s.last() == spec_digit_char((n % 10) as int));
        assert(spec_digits_val(s) == (n / 10) * 10 + n % 10);
    }
}

/// Decimal digit vector of a `u128`, most significant first.
pub fn dec_digits_u128(n: u128) -> (r: Vec<char>)
    ensures
        r@ == spec_dec_digits(n as nat),
{
    let mut rev: Vec<char> = Vec::new();
    let mut m: u128 = n;
    proof {
        assert(spec_dec_digits(n as nat) =~= spec_dec_digits(n as nat) + rev@.reverse());
    }
    while m >= 10
        invariant
            spec_dec_digits(n as nat) =~= spec_dec_digits(m as nat) + rev@.reverse(),
        decreases m,
    {
        let d: u8 = (m % 10) as u8;
        let c: char = (48 + d) as char;
        proof {
            let ghost old_rev = rev@;
            assert(c == spec_digit_char((m as nat % 10) as int));
            assert(spec_dec_digits(m as nat) == spec_dec_digits((m / 10) as nat).push(c));
            assert((spec_dec_digits((m / 10) as nat) + (old_rev.push(c)).reverse())
                =~= spec_dec_digits(m as nat) + old_rev.reverse());
        }
        rev.push(c);
        m = m / 10;
    }
    let d: u8 = (m % 10) as u8;
    let c: char = (48 + d) as char;
    proof {
        let ghost old_rev = rev@;
        assert(c == spec_digit_char(m as int));
        assert(spec_dec_digits(m as nat) =~= seq![c]);
        assert((seq![c] + old_rev.reverse()) =~= (old_rev.push(c)).reverse());
    }
    rev.push(c);
    let mut r: Vec<char> = Vec::new();
    let mut i: usize = rev.len();
    while i > 0
        invariant
            i <= rev@.len(),
            r@ == rev@.reverse().subrange(0, rev@.len() - i),
        decreases i,
    {
        i -= 1;
        r.push(rev[i]);
        proof {
            assert(rev@.reverse()[rev@.len() - i - 1] == rev@[i as int]);
            assert(r@ =~= rev@.reverse().subrange(0, rev@.len() - i));
        }
    }
    proof {
        assert(r@ =~= rev@.reverse());
    }
    r
}

/// Trimming is idempotent.
pub proof fn lemma_trim_trimmed(s: Seq<char>)
    ensures
        spec_trim(spec_trim(s)) == spec_trim(s),
{
    let t = spec_trim(s);
    lemma_ws_prefix_le_len(s);
    lemma_ws_suffix_le_len(s);
    if t.len() == 0 {
        assert(spec_ws_prefix_len(t) == 0);
        assert(spec_ws_suffix_len(t) == 0);
        assert(spec_trim(t) =~= t);
    } else {
        let front = spec_ws_prefix_len(s) as int;
        let back = spec_ws_suffix_len(s) as int;
        assert(t =~= s.subrange(front, s.len() - back));
        assert(t[0] == s[front]);
        assert(!spec_is_ws(t[0]));
        assert(t.last() == s[s.len() - back - 1]);
        assert(!spec_is_ws(t.last()));
        lemma_ws_prefix_is_first_run(t, 0);
        lemma_ws_suffix_is_last_run(t, 0);
        assert(spec_trim(t) =~= t);
    }
}

/// A sequence equal in length to its trimmed form is already trimmed.
pub proof fn lemma_trim_same_len(s: Seq<char>)
    requires
        spec_trim(s).len() == s.len(),
    ensures
        spec_trim(s) == s,
{
    lemma_ws_prefix_le_len(s);
    lemma_ws_suffix_le_len(s);
    if spec_ws_prefix_len(s) + spec_ws_suffix_len(s) <= s.len() {
        assert(spec_trim(s) =~= s);
    }
}

/// A copy of the index range `[from, to)` of `v`.
pub fn copy_range(v: &Vec<char>, from: usize, to: usize) -> (r: Vec<char>)
    requires
        from <= to <= v@.len(),
    ensures
        r@ == v@.subrange(from as int, to as int),
{
    let mut r: Vec<char> = Vec::new();
    let mut i: usize = from;
    while i < to
        invariant
            from <= i <= to <= v@.len(),
            r@ == v@.subrange(from as int, i as int),
        decreases to - i,
    {
        r.push(v[i]);
        proof {
            assert(r@ =~= v@.subrange(from as int, i + 1));
        }
        i += 1;
    }
    r
}

/// Whether the characters equal the contents of a string slice.
pub fn chars_eq_str(v: &Vec<char>, s: &str) -> (r: bool)
    ensures
        r == (v@ == s@),
{
    let sv = str_to_chars(s);
    if v.len() != sv.len() {
        return false;
    }
    let n: usize = v.len();
    for i in 0..n
        invariant
            n == v@.len(),
            n == sv@.len(),
            sv@ == s@,
            forall|j: int| 0 <= j < i ==> v@[j] == sv@[j],
    {
        if v[i] != sv[i] {
            return false;
        }
    }
    proof {
        assert(v@ =~= sv@);
    }
    true
}

} // verus!
