//! Cell references in A1 notation.
//!
//! A `CellRef` is a pair of zero-based row and column indices.  Columns
//! convert to letters in bijective base 26 (0 -> "A", 25 -> "Z", 26 -> "AA"),
//! rows are shown one-based, so `CellRef { row: 0, col: 0 }` prints as "A1".

use vstd::prelude::*;
use vstd::string::{StringExecFns, StrSliceExecFns};
use crate::text::{
    spec_is_digit, spec_is_alpha, spec_is_ws, spec_to_upper, spec_upper_seq, spec_trim,
    spec_dec_digits, spec_digits_val, spec_digit_char,
    lemma_dec_digits_are_digits, lemma_digits_roundtrip,
    lemma_ws_prefix_is_first_run, lemma_ws_suffix_is_last_run,
    is_alpha_char, is_digit_char, to_upper_char, str_to_chars, trim_chars, chars_to_string,
    dec_digits_u128,
};
use crate::num::{
    Num, SCALE, opt_num, spec_parse_num, spec_num_display, spec_tdiv, fits_i128,
};

verus! {

/// Reference to a cell by zero-based row and column.
#[derive(Debug, Clone, Copy, PartialEq, Eq, Hash, Structural)]
pub struct CellRef {
    pub row: u32,
    pub col: u32,
}

/// The letter for the column digit `d` (0 -> 'A' .. 25 -> 'Z').
pub open spec fn spec_col_digit_char(d: int) -> char
    recommends
        0 <= d < 26,
{
    ((65 + d) as u8) as char
}

/// Column letters of a zero-based column index, bijective base 26.
pub open spec fn spec_col_letters(n: nat) -> Seq<char>
    decreases n,
{
    if n < 26 {
        seq![spec_col_digit_char(n as int)]
    } else {
        spec_col_letters((n / 26 - 1) as nat).push(spec_col_digit_char((n % 26) as int))
    }
}

/// The value a letter contributes when reading a column name: A=1 .. Z=26.
/// Characters that are not ASCII letters contribute zero; validity is
/// tracked separately by `spec_letters_valid`.
pub open spec fn spec_letter_digit(c: char) -> int {
    if spec_is_alpha(c) {
        spec_to_upper(c) as u32 - 64
    } else {
        0
    }
}

/// All characters are ASCII letters.
pub open spec fn spec_letters_valid(s: Seq<char>) -> bool {
    forall|i: int| 0 <= i < s.len() ==> spec_is_alpha(#[trigger] s[i])
}

/// Value of a column name read left to right, A=1 .. Z=26, base 26.
pub open spec fn spec_letters_val(s: Seq<char>) -> nat
    decreases s.len(),
{
    if s.len() == 0 {
        0
    } else {
        (spec_letters_val(s.drop_last()) * 26 + spec_letter_digit(s.last())) as nat
    }
}

/// One-based values saturate to zero-based indices.
pub open spec fn spec_sat_sub1(n: nat) -> nat {
    if n == 0 {
        0
    } else {
        (n - 1) as nat
    }
}

/// Length of the ASCII-letter prefix of `s`.
pub open spec fn spec_alpha_prefix_len(s: Seq<char>) -> nat
    decreases s.len(),
{
    if s.len() > 0 && spec_is_alpha(s[0]) {
        1 + spec_alpha_prefix_len(s.drop_first())
    } else {
        0
    }
}

/// The letter prefix is exactly the first run of letters.
pub proof fn lemma_alpha_prefix_is_first_run(s: Seq<char>, k: int)
    requires
        0 <= k <= s.len(),
        forall|i: int| 0 <= i < k ==> spec_is_alpha(#[trigger] s[i]),
        k < s.len() ==> !spec_is_alpha(s[k]),
    ensures
        spec_alpha_prefix_len(s) == k,
    decreases s.len(),
{
    if s.len() > 0 && spec_is_alpha(s[0]) {
        let t = s.drop_first();
        assert forall|i: int| 0 <= i < k - 1 implies spec_is_alpha(#[trigger] t[i]) by {
            assert(t[i] == s[i + 1]);
        }
        if k - 1 < t.len() {
            assert(t[k - 1] == s[k]);
        }
        lemma_alpha_prefix_is_first_run(t, k - 1);
    }
}

/// Reading a longer prefix of a column name never decreases the value.
pub proof fn lemma_letters_val_prefix_mono(s: Seq<char>, k: int)
    requires
        0 <= k <= s.len(),
    ensures
        spec_letters_val(s.subrange(0, k)) <= spec_letters_val(s),
    decreases s.len() - k,
{
    if k == s.len() {
        assert(s.subrange(0, k) =~= s);
    } else {
        let p = s.subrange(0, k);
        let q = s.subrange(0, k + 1);
        assert(q.drop_last() =~= p);
        assert(spec_letters_val(q) == spec_letters_val(p) * 26 + spec_letter_digit(q.last()));
        assert(spec_letter_digit(q.last()) >= 0);
        assert(spec_letters_val(p) * 26 >= spec_letters_val(p) * 1) by (nonlinear_arith)
            requires spec_letters_val(p) >= 0;
        lemma_letters_val_prefix_mono(s, k + 1);
    }
}

/// Reading a longer prefix of a digit string never decreases the value.
pub proof fn lemma_digits_val_prefix_mono(s: Seq<char>, k: int)
    requires
        0 <= k <= s.len(),
    ensures
        spec_digits_val(s.subrange(0, k)) <= spec_digits_val(s),
    decreases s.len() - k,
{
    if k == s.len() {
        assert(s.subrange(0, k) =~= s);
    } else {
        let p = s.subrange(0, k);
        let q = s.subrange(0, k + 1);
        assert(q.drop_last() =~= p);
        assert(spec_digits_val(p) * 10 >= spec_digits_val(p) * 1) by (nonlinear_arith)
            requires spec_digits_val(p) >= 0;
        lemma_digits_val_prefix_mono(s, k + 1);
    }
}

/// What `CellRef::parse` accepts and returns: after trimming and
/// upper-casing, a non-empty run of letters followed by a non-empty run of
/// digits, both of whose values must fit in `u32`; the one-based values are
/// brought to zero-based indices by a saturating decrement.
pub open spec fn spec_parse_ref(s: Seq<char>) -> Option<CellRef> {
    let t = spec_upper_seq(spec_trim(s));
    let k = spec_alpha_prefix_len(t) as int;
    if k == 0 {
        None
    } else {
        let letters = t.subrange(0, k);
        let digits = t.subrange(k, t.len() as int);
        if digits.len() == 0 {
            None
        } else if exists|i: int| 0 <= i < digits.len() && !spec_is_digit(#[trigger] digits[i]) {
            None
        } else if spec_letters_val(letters) > u32::MAX || spec_digits_val(digits) > u32::MAX {
            None
        } else {
            Some(
                CellRef {
                    row: spec_sat_sub1(spec_digits_val(digits)) as u32,
                    col: spec_sat_sub1(spec_letters_val(letters)) as u32,
                },
            )
        }
    }
}

/// The A1 notation of a reference: column letters, then the one-based row.
pub open spec fn spec_to_a1(r: CellRef) -> Seq<char>
    recommends
        r.row < u32::MAX,
{
    spec_col_letters(r.col as nat) + spec_dec_digits((r.row + 1) as nat)
}

impl CellRef {
    pub fn new(row: u32, col: u32) -> (r: Self)
        ensures
            r.row == row,
            r.col == col,
    {
        Self { row, col }
    }

    /// Convert a zero-based column index to its letters (0 -> "A", 25 -> "Z",
    /// 26 -> "AA").
    pub fn col_to_letter(col: u32) -> (r: String)
        ensures
            r@ == spec_col_letters(col as nat),
    {
        let v = Self::col_letter_chars(col);
        chars_to_string(&v)
    }

    /// Character-vector form of `col_to_letter`.
    fn col_letter_chars(col: u32) -> (r: Vec<char>)
        ensures
            r@ == spec_col_letters(col as nat),
    {
        let mut rev: Vec<char> = Vec::new();
        let mut n: u32 = col;
        proof {
            assert(spec_col_letters(col as nat) =~= spec_col_letters(col as nat) + rev@.reverse());
        }
        while n >= 26
            invariant
                spec_col_letters(col as nat) =~= spec_col_letters(n as nat) + rev@.reverse(),
            decreases n,
        {
            let d: u8 = (n % 26) as u8;
            let c: char = (65 + d) as char;
            proof {
                let ghost old_rev = rev@;
                assert(c == spec_col_digit_char((n as nat % 26) as int));
                assert(spec_col_letters(n as nat) == spec_col_letters(
                    (n as nat / 26 - 1) as nat,
                ).push(c));
                assert((spec_col_letters((n as nat / 26 - 1) as nat) + (old_rev.push(
                    c,
                )).reverse()) =~= spec_col_letters(n as nat) + old_rev.reverse());
            }
            rev.push(c);
            n = n / 26 - 1;
        }
        let d: u8 = n as u8;
        let c: char = (65 + d) as char;
        proof {
            let ghost old_rev = rev@;
            assert(c == spec_col_digit_char(n as int));
            assert(spec_col_letters(n as nat) =~= seq![c]);
            assert((seq![c] + old_rev.reverse()) =~= (old_rev.push(c)).reverse());
        }
        rev.push(c);
        let mut r: Vec<char> = Vec::new();
        let mut i: usize = rev.len();
        while i > 0
            invariant
                i <= rev@.len(),
                r@ == rev@.reverse().subrange(0, rev@.len() - i),
            decreases i,
        {
            i -= 1;
            r.push(rev[i]);
            proof {
                assert(rev@.reverse()[rev@.len() - i - 1] == rev@[i as int]);
                assert(r@ =~= rev@.reverse().subrange(0, rev@.len() - i));
            }
        }
        proof {
            assert(r@ =~= rev@.reverse());
        }
        r
    }

    /// Convert column letters to a zero-based index (A -> 0, Z -> 25,
    /// AA -> 26).  Returns `None` when a character is not an ASCII letter or
    /// when the value does not fit in `u32`.
    pub fn letter_to_col(letter: &str) -> (r: Option<u32>)
        ensures
            r == (if spec_letters_valid(letter@) && spec_letters_val(letter@) <= u32::MAX {
                Some(spec_sat_sub1(spec_letters_val(letter@)) as u32)
            } else {
                None::<u32>
            }),
    {
        let cs = str_to_chars(letter);
        match Self::letters_value(&cs) {
            Some(v) => Some(if v == 0 { 0 } else { v - 1 }),
            None => None,
        }
    }

    /// Value of a run of column letters, one-based; `None` on a non-letter
    /// or on `u32` overflow.
    fn letters_value(cs: &Vec<char>) -> (r: Option<u32>)
        ensures
            r == (if spec_letters_valid(cs@) && spec_letters_val(cs@) <= u32::MAX {
                Some(spec_letters_val(cs@) as u32)
            } else {
                None::<u32>
            }),
    {
        let mut col: u32 = 0;
        let n: usize = cs.len();
        for i in 0..n
            invariant
                n == cs@.len(),
                spec_letters_valid(cs@.subrange(0, i as int)),
                col == spec_letters_val(cs@.subrange(0, i as int)),
        {
            let c = cs[i];
            if !is_alpha_char(c) {
                proof {
                    assert(!spec_is_alpha(cs@[i as int]));
                }
                return None;
            }
            let u = to_upper_char(c);
            let d: u32 = (u as u32) - 64;
            let step = match col.checked_mul(26) {
                Some(m) => m.checked_add(d),
                None => None,
            };
            proof {
                let ghost p = cs@.subrange(0, i as int);
                let ghost q = cs@.subrange(0, i + 1);
                assert(q.drop_last() =~= p);
                assert(q.last() == cs@[i as int]);
                assert(spec_letters_val(q) == spec_letters_val(p) * 26 + spec_letter_digit(
                    cs@[i as int],
                ));
            }
            match step {
                Some(v) => {
                    col = v;
                },
                None => {
                    proof {
                        if spec_letters_valid(cs@) {
                            lemma_letters_val_prefix_mono(cs@, i + 1);
                            assert(spec_letters_val(cs@.subrange(0, i + 1)) > u32::MAX);
                        }
                    }
                    return None;
                },
            }
        }
        proof {
            assert(cs@.subrange(0, n as int) =~= cs@);
        }
        Some(col)
    }

    /// Value of a run of digit characters; `None` on a non-digit or on
    /// `u32` overflow.
    fn digits_value(cs: &Vec<char>, from: usize, to: usize) -> (r: Option<u32>)
        requires
            from <= to <= cs@.len(),
        ensures
            r == ({
                let d = cs@.subrange(from as int, to as int);
                if (forall|i: int| 0 <= i < d.len() ==> spec_is_digit(#[trigger] d[i]))
                    && spec_digits_val(d) <= u32::MAX {
                    Some(spec_digits_val(d) as u32)
                } else {
                    None::<u32>
                }
            }),
    {
        let ghost d = cs@.subrange(from as int, to as int);
        let mut val: u32 = 0;
        let mut i: usize = from;
        while i < to
            invariant
                from <= i <= to <= cs@.len(),
                d == cs@.subrange(from as int, to as int),
                forall|j: int| 0 <= j < i - from ==> spec_is_digit(#[trigger] d[j]),
                val == spec_digits_val(d.subrange(0, i - from)),
            decreases to - i,
        {
            let c = cs[i];
            proof {
                assert(cs@[i as int] == d[i - from]);
            }
            if !is_digit_char(c) {
                return None;
            }
            let dv: u32 = (c as u32) - 48;
            let step = match val.checked_mul(10) {
                Some(m) => m.checked_add(dv),
                None => None,
            };
            proof {
                let ghost p = d.subrange(0, i - from);
                let ghost q = d.subrange(0, i + 1 - from);
                assert(q.drop_last() =~= p);
                assert(q.last() == d[i - from]);
                assert(spec_digits_val(q) == spec_digits_val(p) * 10 + dv);
            }
            match step {
                Some(v) => {
                    val = v;
                },
                None => {
                    proof {
                        if forall|j: int| 0 <= j < d.len() ==> spec_is_digit(#[trigger] d[j]) {
                            lemma_digits_val_prefix_mono(d, i + 1 - from);
                            assert(spec_digits_val(d.subrange(0, i + 1 - from)) > u32::MAX);
                        }
                    }
                    return None;
                },
            }
            i += 1;
        }
        proof {
            assert(d.subrange(0, to - from) =~= d);
        }
        Some(val)
    }

    /// Parse a cell reference like "A1" or "BC42".
    pub fn parse(s: &str) -> (r: Option<Self>)
        ensures
            r == spec_parse_ref(s@),
    {
        let cs = str_to_chars(s);
        Self::parse_chars(&cs)
    }

    /// Parse a cell reference given as characters.
    pub fn parse_chars(cs: &Vec<char>) -> (r: Option<Self>)
        ensures
            r == spec_parse_ref(cs@),
    {
        let trimmed = trim_chars(cs);
        let mut t: Vec<char> = Vec::new();
        let n: usize = trimmed.len();
        for i in 0..n
            invariant
                n == trimmed@.len(),
                t@ == spec_upper_seq(trimmed@).subrange(0, i as int),
        {
            t.push(to_upper_char(trimmed[i]));
            proof {
                assert(t@ =~= spec_upper_seq(trimmed@).subrange(0, i + 1));
            }
        }
        proof {
            assert(t@ =~= spec_upper_seq(trimmed@));
        }
        let mut k: usize = 0;
        while k < n && is_alpha_char(t[k])
            invariant
                n == t@.len(),
                0 <= k <= n,
                forall|i: int| 0 <= i < k ==> spec_is_alpha(#[trigger] t@[i]),
            decreases n - k,
        {
            k += 1;
        }
        proof {
            lemma_alpha_prefix_is_first_run(t@, k as int);
        }
        if k == 0 {
            return None;
        }
        let ghost letters = t@.subrange(0, k as int);
        let ghost digits = t@.subrange(k as int, t@.len() as int);
        if k == n {
            proof {
                assert(digits.len() == 0);
            }
            return None;
        }
        let mut head: Vec<char> = Vec::new();
        let mut i: usize = 0;
        while i < k
            invariant
                i <= k <= n,
                n == t@.len(),
                head@ == t@.subrange(0, i as int),
            decreases k - i,
        {
            head.push(t[i]);
            proof {
                assert(head@ =~= t@.subrange(0, i + 1));
            }
            i += 1;
        }
        let col = match Self::letters_value(&head) {
            Some(v) => v,
            None => {
                proof {
                    assert(head@ =~= letters);
                    assert(spec_letters_valid(letters));
                }
                return None;
            },
        };
        let row_val = match Self::digits_value(&t, k, n) {
            Some(v) => v,
            None => {
                return None;
            },
        };
        proof {
            assert(head@ =~= letters);
            assert(spec_letters_valid(letters));
        }
        Some(
            Self {
                row: if row_val == 0 {
                    0
                } else {
                    row_val - 1
                },
                col: if col == 0 {
                    0
                } else {
                    col - 1
                },
            },
        )
    }

    /// Format as an A1-style reference (e.g., "A1").
    pub fn to_a1(&self) -> (r: String)
        requires
            self.row < u32::MAX,
        ensures
            r@ == spec_to_a1(*self),
    {
        let mut v = Self::col_letter_chars(self.col);
        let digits = dec_digits_u128((self.row + 1) as u128);
        let ghost before = v@;
        let m: usize = digits.len();
        for i in 0..m
            invariant
                m == digits@.len(),
                v@ == before + digits@.subrange(0, i as int),
        {
            v.push(digits[i]);
            proof {
                assert(v@ =~= before + digits@.subrange(0, i + 1));
            }
        }
        proof {
            assert(v@ =~= spec_to_a1(*self));
        }
        chars_to_string(&v)
    }
}

/// Reading back the letters of a column index yields the index: the letters
/// are all ASCII letters and their value is exactly `n + 1`.
pub proof fn lemma_col_letters_roundtrip(n: nat)
    ensures
        spec_letters_valid(spec_col_letters(n)),
        spec_letters_val(spec_col_letters(n)) == n + 1,
        spec_col_letters(n).len() >= 1,
        forall|i: int|
            0 <= i < spec_col_letters(n).len() ==> 65 <= (#[trigger] spec_col_letters(n)[i]) as u32
                <= 90,
    decreases n,
{
    if n < 26 {
        let s = spec_col_letters(n);
        let c = spec_col_digit_char(n as int);
        assert(c as u32 == 65 + n);
        assert(s =~= seq![c]);
        assert(s.drop_last() =~= Seq::<char>::empty());
        assert(spec_is_alpha(c));
        assert(spec_to_upper(c) == c);
        assert(spec_letter_digit(c) == n + 1);
        assert(spec_letters_val(s) == spec_letters_val(s.drop_last()) * 26 + (n + 1));
    } else {
        lemma_col_letters_roundtrip((n / 26 - 1) as nat);
        let a = spec_col_letters((n / 26 - 1) as nat);
        let c = spec_col_digit_char((n % 26) as int);
        let s = spec_col_letters(n);
        assert(c as u32 == 65 + n % 26);
        assert(s == a.push(c));
        assert(s.drop_last() =~= a);
        assert(s.last() == c);
        assert(spec_is_alpha(c));
        assert(spec_to_upper(c) == c);
        assert(spec_letter_digit(c) == n % 26 + 1);
        assert(spec_letters_val(s) == spec_letters_val(a) * 26 + (n % 26 + 1));
        assert(spec_letters_val(a) == n / 26);
        assert((n / 26) * 26 + n % 26 == n);
        assert forall|i: int| 0 <= i < s.len() implies 65 <= (#[trigger] s[i]) as u32 <= 90 by {
            if i < a.len() {
                assert(s[i] == a[i]);
            }
        }
        assert forall|i: int| 0 <= i < s.len() implies spec_is_alpha(#[trigger] s[i]) by {
            assert(65 <= s[i] as u32 <= 90);
        }
    }
}

/// Round-trip law for column letters: converting a zero-based column index
/// to letters and reading the letters back yields the same index.
pub proof fn lemma_letter_col_roundtrip(n: u32)
    requires
        n < u32::MAX,
    ensures
        spec_letters_valid(spec_col_letters(n as nat)),
        spec_letters_val(spec_col_letters(n as nat)) <= u32::MAX,
        spec_sat_sub1(spec_letters_val(spec_col_letters(n as nat))) == n,
{
    lemma_col_letters_roundtrip(n as nat);
}

/// Round-trip law for A1 notation: parsing the A1 form of any reference
/// whose row and column indices are below `u32::MAX` yields that reference.
pub proof fn lemma_a1_roundtrip(r: CellRef)
    requires
        r.row < u32::MAX,
        r.col < u32::MAX,
    ensures
        spec_parse_ref(spec_to_a1(r)) == Some(r),
{
    let ls = spec_col_letters(r.col as nat);
    let ds = spec_dec_digits((r.row + 1) as nat);
    let s = spec_to_a1(r);
    lemma_col_letters_roundtrip(r.col as nat);
    lemma_dec_digits_are_digits((r.row + 1) as nat);
    lemma_digits_roundtrip((r.row + 1) as nat);
    // No character of the A1 form is whitespace, so trimming is the identity.
    assert forall|i: int| 0 <= i < s.len() implies !spec_is_ws(#[trigger] s[i]) by {
        if i < ls.len() {
            assert(s[i] == ls[i]);
            assert(65 <= s[i] as u32 <= 90);
        } else {
            assert(s[i] == ds[i - ls.len()]);
            assert(spec_is_digit(s[i]));
        }
    }
    assert(s.len() > 0);
    lemma_ws_prefix_is_first_run(s, 0);
    lemma_ws_suffix_is_last_run(s, 0);
    assert(spec_trim(s) =~= s);
    // Upper-casing is the identity: letters are already upper case and
    // digits are unchanged.
    assert forall|i: int| 0 <= i < s.len() implies spec_to_upper(#[trigger] s[i]) == s[i] by {
        if i < ls.len() {
            assert(s[i] == ls[i]);
            assert(65 <= s[i] as u32 <= 90);
        } else {
            assert(s[i] == ds[i - ls.len()]);
            assert(spec_is_digit(s[i]));
        }
    }
    assert(spec_upper_seq(s) =~= s);
    // The letter prefix is exactly the column letters.
    assert forall|i: int| 0 <= i < ls.len() implies spec_is_alpha(#[trigger] s[i]) by {
        assert(s[i] == ls[i]);
        assert(65 <= s[i] as u32 <= 90);
    }
    assert(ds.len() > 0);
    assert(s[ls.len() as int] == ds[0]);
    assert(spec_is_digit(ds[0]));
    assert(!spec_is_alpha(s[ls.len() as int]));
    lemma_alpha_prefix_is_first_run(s, ls.len() as int);
    assert(s.subrange(0, ls.len() as int) =~= ls);
    assert(s.subrange(ls.len() as int, s.len() as int) =~= ds);
    assert(spec_letters_val(ls) == r.col + 1);
    assert(spec_digits_val(ds) == r.row + 1);
    assert(spec_sat_sub1((r.row + 1) as nat) == r.row);
    assert(spec_sat_sub1((r.col + 1) as nat) == r.col);
}

/// The value stored in a cell.
#[derive(Debug, Clone)]
pub enum CellValue {
    Empty,
    Text(String),
    Number(Num),
    Boolean(bool),
    Error(String),
}

/// Structural equality of cell values, with strings compared by contents.
pub open spec fn spec_value_eq(a: CellValue, b: CellValue) -> bool {
    match (a, b) {
        (CellValue::Empty, CellValue::Empty) => true,
        (CellValue::Text(x), CellValue::Text(y)) => x@ == y@,
        (CellValue::Number(x), CellValue::Number(y)) => x@ == y@,
        (CellValue::Boolean(x), CellValue::Boolean(y)) => x == y,
        (CellValue::Error(x), CellValue::Error(y)) => x@ == y@,
        _ => false,
    }
}

impl PartialEq for CellValue {
    fn eq(&self, other: &Self) -> (r: bool) {
        match (self, other) {
            (CellValue::Empty, CellValue::Empty) => true,
            (CellValue::Text(x), CellValue::Text(y)) => *x == *y,
            (CellValue::Number(x), CellValue::Number(y)) => x.m == y.m,
            (CellValue::Boolean(x), CellValue::Boolean(y)) => x == y,
            (CellValue::Error(x), CellValue::Error(y)) => *x == *y,
            _ => false,
        }
    }
}

impl vstd::std_specs::cmp::PartialEqSpecImpl for CellValue {
    open spec fn obeys_eq_spec() -> bool {
        true
    }

    open spec fn eq_spec(&self, other: &Self) -> bool {
        spec_value_eq(*self, *other)
    }
}

/// The literal cases of value parsing that carry no text: the empty value,
/// the boolean keywords, plain numbers, percentages and currency amounts.
/// `None` stands for the fallback to a text value.
pub open spec fn spec_parse_value_num(t: Seq<char>) -> Option<CellValue> {
    if t.len() == 0 {
        Some(CellValue::Empty)
    } else if spec_upper_seq(t) == seq!['T', 'R', 'U', 'E'] {
        Some(CellValue::Boolean(true))
    } else if spec_upper_seq(t) == seq!['F', 'A', 'L', 'S', 'E'] {
        Some(CellValue::Boolean(false))
    } else if spec_parse_num(t) is Some {
        Some(CellValue::Number(Num { m: spec_parse_num(t)->Some_0 as i128 }))
    } else if t.last() == '%' && spec_parse_num(t.drop_last()) is Some {
        Some(
            CellValue::Number(
                Num { m: spec_tdiv(spec_parse_num(t.drop_last())->Some_0, 100) as i128 },
            ),
        )
    } else if (t[0] == '$' || (t.len() >= 2 && t[0] == '-' && t[1] == '$')) && spec_parse_num(
        spec_keep_numchars(t),
    ) is Some {
        Some(CellValue::Number(Num { m: spec_parse_num(spec_keep_numchars(t))->Some_0 as i128 }))
    } else {
        None
    }
}

/// The characters of a currency amount that carry its value: digits, the
/// decimal point and the minus sign.
pub open spec fn spec_keep_numchars(s: Seq<char>) -> Seq<char>
    decreases s.len(),
{
    if s.len() == 0 {
        Seq::empty()
    } else if spec_is_digit(s.last()) || s.last() == '.' || s.last() == '-' {
        spec_keep_numchars(s.drop_last()).push(s.last())
    } else {
        spec_keep_numchars(s.drop_last())
    }
}

/// Display form of a cell value.
pub open spec fn spec_display_value(v: CellValue) -> Seq<char> {
    match v {
        CellValue::Empty => Seq::empty(),
        CellValue::Text(s) => s@,
        CellValue::Number(n) => spec_num_display(n@),
        CellValue::Boolean(b) => if b {
            seq!['T', 'R', 'U', 'E']
        } else {
            seq!['F', 'A', 'L', 'S', 'E']
        },
        CellValue::Error(e) => seq!['#'] + e@,
    }
}

/// Truthiness of a cell value: empty values and errors are false, text is
/// true when non-empty, numbers are true when non-zero.
pub open spec fn spec_truthy(v: CellValue) -> bool {
    match v {
        CellValue::Empty => false,
        CellValue::Text(s) => s@.len() > 0,
        CellValue::Number(n) => n@ != 0,
        CellValue::Boolean(b) => b,
        CellValue::Error(_) => false,
    }
}

/// Numeric reading of a cell value, as a mantissa: numbers read as
/// themselves, booleans as one and zero, text by parsing; empty values and
/// errors have none.
pub open spec fn spec_to_number(v: CellValue) -> Option<int> {
    match v {
        CellValue::Number(n) => Some(n@),
        CellValue::Boolean(b) => if b {
            Some(SCALE as int)
        } else {
            Some(0)
        },
        CellValue::Text(s) => spec_parse_num(spec_trim(s@)),
        _ => None,
    }
}

impl CellValue {
    /// Parse a literal into a cell value: empty text is the empty value;
    /// "true"/"false" in any case are booleans; then numbers, trailing-`%`
    /// percentages and `$` currency amounts; anything else is text,
    /// carried verbatim.  The number grammar is plain decimal (an
    /// optional sign, digits, an optional point): exponent forms such as
    /// "1e5" are not numbers of the fixed-point model and read as text.
    #[verifier::rlimit(100)]
    pub fn parse(s: &str) -> (r: CellValue)
        ensures
            (spec_parse_value_num(spec_trim(s@)) matches Some(v) ==> r == v),
            (spec_parse_value_num(spec_trim(s@)) is None ==> (r matches CellValue::Text(x)
                && x@ == s@)),
    {
        let cs = str_to_chars(s);
        let t = trim_chars(&cs);
        let n: usize = t.len();
        if n == 0 {
            return CellValue::Empty;
        }
        let mut u: Vec<char> = Vec::new();
        for i in 0..n
            invariant
                n == t@.len(),
                u@ == spec_upper_seq(t@).subrange(0, i as int),
        {
            u.push(to_upper_char(t[i]));
            proof {
                assert(u@ =~= spec_upper_seq(t@).subrange(0, i + 1));
            }
        }
        proof {
            assert(u@ =~= spec_upper_seq(t@));
        }
        if n == 4 && u[0] == 'T' && u[1] == 'R' && u[2] == 'U' && u[3] == 'E' {
            proof {
                assert(u@ =~= seq!['T', 'R', 'U', 'E']);
            }
            return CellValue::Boolean(true);
        }
        if n == 5 && u[0] == 'F' && u[1] == 'A' && u[2] == 'L' && u[3] == 'S' && u[4] == 'E' {
            proof {
                assert(u@ =~= seq!['F', 'A', 'L', 'S', 'E']);
            }
            return CellValue::Boolean(false);
        }
        proof {
            if spec_upper_seq(t@) == seq!['T', 'R', 'U', 'E'] {
                assert(u@.len() == 4 && u@[0] == 'T' && u@[1] == 'R' && u@[2] == 'U' && u@[3]
                    == 'E');
            }
            if spec_upper_seq(t@) == seq!['F', 'A', 'L', 'S', 'E'] {
                assert(u@.len() == 5 && u@[0] == 'F' && u@[1] == 'A' && u@[2] == 'L' && u@[3]
                    == 'S' && u@[4] == 'E');
            }
        }
        if let Some(num) = Num::parse_chars(&t) {
            return CellValue::Number(num);
        }
        if t[n - 1] == '%' {
            let mut head: Vec<char> = Vec::new();
            let mut i: usize = 0;
            while i < n - 1
                invariant
                    n == t@.len(),
                    n >= 1,
                    i <= n - 1,
                    head@ == t@.subrange(0, i as int),
                decreases n - 1 - i,
            {
                head.push(t[i]);
                proof {
                    assert(head@ =~= t@.subrange(0, i + 1));
                }
                i += 1;
            }
            proof {
                assert(head@ =~= t@.drop_last());
            }
            if let Some(num) = Num::parse_chars(&head) {
                proof {
                    let tt = spec_trim(s@);
                    assert(head@ == tt.drop_last());
                    assert(spec_parse_num(head@) == spec_parse_num(tt.drop_last()));
                    let mag = spec_parse_num(tt.drop_last())->Some_0;
                    crate::num::lemma_parse_num_fits(head@);
                    assert(num@ == mag);
                    crate::num::lemma_tdiv_magnitude(mag, 100);
                    assert(crate::num::fits_i128(spec_tdiv(mag, 100)));
                    assert(tt.last() == '%');
                    assert(spec_parse_value_num(tt) == Some(
                        CellValue::Number(Num { m: spec_tdiv(mag, 100) as i128 }),
                    ));
                }
                let res = num.percent();
                proof {
                    assert(res.m as int == spec_tdiv(num@, 100));
                    assert(res.m == spec_tdiv(spec_parse_num(spec_trim(s@).drop_last())->Some_0,
                        100) as i128);
                }
                return CellValue::Number(res);
            }
        }
        if t[0] == '$' || (n >= 2 && t[0] == '-' && t[1] == '$') {
            let mut kept: Vec<char> = Vec::new();
            let mut i: usize = 0;
            while i < n
                invariant
                    n == t@.len(),
                    i <= n,
                    kept@ == spec_keep_numchars(t@.subrange(0, i as int)),
                decreases n - i,
            {
                let c = t[i];
                proof {
                    let ghost p = t@.subrange(0, i as int);
                    let ghost q = t@.subrange(0, i + 1);
                    assert(q.drop_last() =~= p);
                    assert(q.last() == t@[i as int]);
                }
                if is_digit_char(c) || c == '.' || c == '-' {
                    kept.push(c);
                }
                i += 1;
            }
            proof {
                assert(t@.subrange(0, n as int) =~= t@);
            }
            if let Some(num) = Num::parse_chars(&kept) {
                return CellValue::Number(num);
            }
        }
        CellValue::Text(s.to_owned())
    }

    /// The display string of this value.
    pub fn display(&self) -> (r: String)
        ensures
            r@ == spec_display_value(*self),
    {
        match self {
            CellValue::Empty => String::new(),
            CellValue::Text(s) => s.clone(),
            CellValue::Number(n) => n.display(),
            CellValue::Boolean(b) => {
                proof {
                    reveal_strlit("TRUE");
                    reveal_strlit("FALSE");
                }
                if *b {
                    let r = String::from_str("TRUE");
                    proof {
                        assert(r@ =~= seq!['T', 'R', 'U', 'E']);
                    }
                    r
                } else {
                    let r = String::from_str("FALSE");
                    proof {
                        assert(r@ =~= seq!['F', 'A', 'L', 'S', 'E']);
                    }
                    r
                }
            },
            CellValue::Error(e) => {
                proof {
                    reveal_strlit("#");
                }
                let mut r = String::from_str("#");
                proof {
                    assert(r@ =~= seq!['#']);
                }
                r.append(e.as_str());
                r
            },
        }
    }

    /// Whether the value counts as true in a condition.
    pub fn is_truthy(&self) -> (r: bool)
        ensures
            r == spec_truthy(*self),
    {
        match self {
            CellValue::Empty => false,
            CellValue::Text(s) => !s.as_str().is_empty(),
            CellValue::Number(n) => n.m != 0,
            CellValue::Boolean(b) => *b,
            CellValue::Error(_) => false,
        }
    }

    /// The numeric reading of this value, if it has one.
    pub fn to_number(&self) -> (r: Option<Num>)
        ensures
            r == opt_num(spec_to_number(*self)),
    {
        match self {
            CellValue::Number(n) => Some(*n),
            CellValue::Boolean(b) => if *b {
                Some(Num::one())
            } else {
                Some(Num::zero())
            },
            CellValue::Text(s) => {
                let cs = str_to_chars(s.as_str());
                let t = trim_chars(&cs);
                Num::parse_chars(&t)
            },
            _ => None,
        }
    }
}

impl Default for CellValue {
    fn default() -> (r: Self)
        ensures
            r == CellValue::Empty,
    {
        CellValue::Empty
    }
}

/// Horizontal text alignment of a cell.
#[derive(Debug, Clone, Copy, PartialEq, Eq, Structural)]
pub enum HorizontalAlign {
    Left,
    Center,
    Right,
}

/// Vertical text alignment of a cell.
#[derive(Debug, Clone, Copy, PartialEq, Eq, Structural)]
pub enum VerticalAlign {
    Top,
    Middle,
    Bottom,
}

/// Cell formatting options; absent fields mean "leave as is" when merging.
/// Sizes are in whole pixels.
#[derive(Debug, Clone)]
pub struct CellFormat {
    pub number_format: Option<String>,
    pub font_bold: Option<bool>,
    pub font_italic: Option<bool>,
    pub font_underline: Option<bool>,
    pub font_family: Option<String>,
    pub font_size: Option<u32>,
    pub font_color: Option<String>,
    pub bg_color: Option<String>,
    pub align_h: Option<HorizontalAlign>,
    pub align_v: Option<VerticalAlign>,
}

impl CellFormat {
    /// The format with no field set.
    pub fn empty() -> (r: CellFormat)
        ensures
            r.number_format is None,
            r.font_bold is None,
            r.font_italic is None,
            r.font_underline is None,
            r.font_family is None,
            r.font_size is None,
            r.font_color is None,
            r.bg_color is None,
            r.align_h is None,
            r.align_v is None,
    {
        CellFormat {
            number_format: None,
            font_bold: None,
            font_italic: None,
            font_underline: None,
            font_family: None,
            font_size: None,
            font_color: None,
            bg_color: None,
            align_h: None,
            align_v: None,
        }
    }

    /// Merge `update` into `self`: each field that `update` sets wins, each
    /// absent field keeps its old value.
    pub fn merge(&mut self, update: CellFormat)
        ensures
            final(self).number_format == (if update.number_format is Some {
                update.number_format
            } else {
                old(self).number_format
            }),
            final(self).font_bold == (if update.font_bold is Some {
                update.font_bold
            } else {
                old(self).font_bold
            }),
            final(self).font_italic == (if update.font_italic is Some {
                update.font_italic
            } else {
                old(self).font_italic
            }),
            final(self).font_underline == (if update.font_underline is Some {
                update.font_underline
            } else {
                old(self).font_underline
            }),
            final(self).font_family == (if update.font_family is Some {
                update.font_family
            } else {
                old(self).font_family
            }),
            final(self).font_size == (if update.font_size is Some {
                update.font_size
            } else {
                old(self).font_size
            }),
            final(self).font_color == (if update.font_color is Some {
                update.font_color
            } else {
                old(self).font_color
            }),
            final(self).bg_color == (if update.bg_color is Some {
                update.bg_color
            } else {
                old(self).bg_color
            }),
            final(self).align_h == (if update.align_h is Some {
                update.align_h
            } else {
                old(self).align_h
            }),
            final(self).align_v == (if update.align_v is Some {
                update.align_v
            } else {
                old(self).align_v
            }),
    {
        if update.number_format.is_some() {
            self.number_format = update.number_format;
        }
        if update.font_bold.is_some() {
            self.font_bold = update.font_bold;
        }
        if update.font_italic.is_some() {
            self.font_italic = update.font_italic;
        }
        if update.font_underline.is_some() {
            self.font_underline = update.font_underline;
        }
        if update.font_family.is_some() {
            self.font_family = update.font_family;
        }
        if update.font_size.is_some() {
            self.font_size = update.font_size;
        }
        if update.font_color.is_some() {
            self.font_color = update.font_color;
        }
        if update.bg_color.is_some() {
            self.bg_color = update.bg_color;
        }
        if update.align_h.is_some() {
            self.align_h = update.align_h;
        }
        if update.align_v.is_some() {
            self.align_v = update.align_v;
        }
    }
}

/// A complete cell: its value, the formula text if one is attached, and
/// optional formatting.
#[derive(Debug, Clone)]
pub struct Cell {
    pub value: CellValue,
    pub formula: Option<String>,
    pub format: Option<CellFormat>,
}

impl Cell {
    /// A cell holding a plain value.
    pub fn new(value: CellValue) -> (r: Self)
        ensures
            r.value == value,
            r.formula is None,
            r.format is None,
    {
        Self { value, formula: None, format: None }
    }

    /// A cell holding a formula (and its current value).
    pub fn with_formula(value: CellValue, formula: String) -> (r: Self)
        ensures
            r.value == value,
            r.formula == Some(formula),
            r.format is None,
    {
        Self { value, formula: Some(formula), format: None }
    }

    /// The display string of this cell's value.
    pub fn display(&self) -> (r: String)
        ensures
            r@ == spec_display_value(self.value),
    {
        self.value.display()
    }
}

impl Default for Cell {
    fn default() -> (r: Self)
        ensures
            r.value == CellValue::Empty,
            r.formula is None,
            r.format is None,
    {
        Self::new(CellValue::Empty)
    }
}

impl CellValue {
    /// An equal copy of this value.
    pub fn duplicate(&self) -> (r: CellValue)
        ensures
            r == *self,
    {
        match self {
            CellValue::Empty => CellValue::Empty,
            CellValue::Text(s) => CellValue::Text(s.clone()),
            CellValue::Number(n) => CellValue::Number(*n),
            CellValue::Boolean(b) => CellValue::Boolean(*b),
            CellValue::Error(e) => CellValue::Error(e.clone()),
        }
    }
}

/// An equal copy of an optional string.
pub fn duplicate_opt_string(s: &Option<String>) -> (r: Option<String>)
    ensures
        r == *s,
{
    match s {
        Some(x) => Some(x.clone()),
        None => None,
    }
}

impl CellFormat {
    /// An equal copy of this format.
    pub fn duplicate(&self) -> (r: CellFormat)
        ensures
            r == *self,
    {
        CellFormat {
            number_format: duplicate_opt_string(&self.number_format),
            font_bold: self.font_bold,
            font_italic: self.font_italic,
            font_underline: self.font_underline,
            font_family: duplicate_opt_string(&self.font_family),
            font_size: self.font_size,
            font_color: duplicate_opt_string(&self.font_color),
            bg_color: duplicate_opt_string(&self.bg_color),
            align_h: self.align_h,
            align_v: self.align_v,
        }
    }
}

/// An equal copy of an optional format.
pub fn duplicate_opt_format(s: &Option<CellFormat>) -> (r: Option<CellFormat>)
    ensures
        r == *s,
{
    match s {
        Some(x) => Some(x.duplicate()),
        None => None,
    }
}

impl Cell {
    /// An equal copy of this cell.
    pub fn duplicate(&self) -> (r: Cell)
        ensures
            r == *self,
    {
        Cell {
            value: self.value.duplicate(),
            formula: duplicate_opt_string(&self.formula),
            format: duplicate_opt_format(&self.format),
        }
    }
}

/// Mathematical model of a cell value: text as character sequences,
/// numbers as mantissas.
pub enum ValueView {
    Empty,
    Text(Seq<char>),
    Number(int),
    Boolean(bool),
    Error(Seq<char>),
}

impl View for CellValue {
    type V = ValueView;

    open spec fn view(&self) -> ValueView {
        match self {
            CellValue::Empty => ValueView::Empty,
            CellValue::Text(s) => ValueView::Text(s@),
            CellValue::Number(n) => ValueView::Number(n@),
            CellValue::Boolean(b) => ValueView::Boolean(*b),
            CellValue::Error(e) => ValueView::Error(e@),
        }
    }
}

/// Display form of a modelled value.
pub open spec fn vv_display(v: ValueView) -> Seq<char> {
    match v {
        ValueView::Empty => Seq::empty(),
        ValueView::Text(s) => s,
        ValueView::Number(m) => spec_num_display(m),
        ValueView::Boolean(b) => if b {
            seq!['T', 'R', 'U', 'E']
        } else {
            seq!['F', 'A', 'L', 'S', 'E']
        },
        ValueView::Error(e) => seq!['#'] + e,
    }
}

/// Truthiness of a modelled value.
pub open spec fn vv_truthy(v: ValueView) -> bool {
    match v {
        ValueView::Empty => false,
        ValueView::Text(s) => s.len() > 0,
        ValueView::Number(m) => m != 0,
        ValueView::Boolean(b) => b,
        ValueView::Error(_) => false,
    }
}

/// Numeric reading of a modelled value.
pub open spec fn vv_to_number(v: ValueView) -> Option<int> {
    match v {
        ValueView::Number(m) => Some(m),
        ValueView::Boolean(b) => if b {
            Some(SCALE as int)
        } else {
            Some(0)
        },
        ValueView::Text(s) => spec_parse_num(spec_trim(s)),
        _ => None,
    }
}

/// The value-level specifications agree with the model-level ones.
pub proof fn lemma_value_view_agrees(c: CellValue)
    ensures
        spec_display_value(c) == vv_display(c@),
        spec_truthy(c) == vv_truthy(c@),
        spec_to_number(c) == vv_to_number(c@),
{
}

/// Structural equality of values is equality of their models.
pub proof fn lemma_value_eq_view(a: CellValue, b: CellValue)
    ensures
        spec_value_eq(a, b) == (a@ == b@),
{
    match (a, b) {
        (CellValue::Empty, CellValue::Empty) => {
        },
        (CellValue::Text(x), CellValue::Text(y)) => {
        },
        (CellValue::Number(x), CellValue::Number(y)) => {
        },
        (CellValue::Boolean(x), CellValue::Boolean(y)) => {
        },
        (CellValue::Error(x), CellValue::Error(y)) => {
        },
        _ => {
            assert(a@ != b@);
        },
    }
}

/// A numeric reading always fits the mantissa type.
pub proof fn lemma_to_number_fits(c: CellValue)
    ensures
        vv_to_number(c@) is Some ==> fits_i128(vv_to_number(c@)->Some_0),
{
    match c {
        CellValue::Text(s) => {
            crate::num::lemma_parse_num_fits(spec_trim(s@));
        },
        _ => {
        },
    }
}

} // verus!
