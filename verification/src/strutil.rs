//! String-level helpers: equality, substring search, case folding,
//! decimal formatting and parsing, and concatenation of glyph segments.

use vstd::prelude::*;

verus! {

/// The lowercase form of a character sequence, as `str::to_lowercase`
/// computes it.  The result depends on the characters alone.
pub uninterp spec fn lower_of(s: Seq<char>) -> Seq<char>;

/// Relies on `str::to_lowercase`: Unicode lowercasing, a pure function of
/// the input characters, and empty input gives empty output.
#[verifier::external_body]
pub(crate) fn lowercase(s: &str) -> (r: String)
    ensures
        r@ == lower_of(s@),
        s@.len() == 0 ==> r@.len() == 0,
{
    s.to_lowercase()
}

/// Character-for-character string equality.
pub fn str_eq(a: &str, b: &str) -> (r: bool)
    ensures
        r == (a@ == b@),
{
    let alen = a.unicode_len();
    let blen = b.unicode_len();
    if alen != blen {
        return false;
    }
    let mut i: usize = 0;
    while i < alen
        invariant
            i <= alen,
            alen == a@.len(),
            alen == b@.len(),
            forall|j: int| 0 <= j < i ==> a@[j] == b@[j],
        decreases alen - i,
    {
        if a.get_char(i) != b.get_char(i) {
            return false;
        }
        i = i + 1;
    }
    proof {
        assert(a@ =~= b@);
    }
    true
}

/// Whether `pat` occurs as a contiguous run of characters inside `hay`.
/// An empty pattern occurs in every string.
pub open spec fn contains_sub(hay: Seq<char>, pat: Seq<char>) -> bool {
    exists|i: int|
        0 <= i && i + pat.len() <= hay.len() && #[trigger] hay.subrange(i, i + pat.len()) == pat
}

/// Naive substring search, character by character.
pub fn contains_str(hay: &str, pat: &str) -> (r: bool)
    ensures
        r == contains_sub(hay@, pat@),
{
    let h = hay.unicode_len();
    let p = pat.unicode_len();
    if p > h {
        return false;
    }
    if p == 0 {
        proof {
            assert(hay@.subrange(0, 0 + pat@.len() as int) =~= pat@);
        }
        return true;
    }
    let mut i: usize = 0;
    while i <= h - p
        invariant
            0 < p <= h,
            h == hay@.len(),
            p == pat@.len(),
            i <= h - p + 1,
            forall|k: int|
                0 <= k < i ==> #[trigger] hay@.subrange(k, k + pat@.len()) != pat@,
        decreases h + 1 - p - i,
    {
        let mut j: usize = 0;
        let mut matches: bool = true;
        while j < p
            invariant
                i + p <= h,
                h == hay@.len(),
                p == pat@.len(),
                j <= p,
                matches ==> forall|t: int| 0 <= t < j ==> hay@[i + t] == pat@[t],
                !matches ==> hay@.subrange(i as int, i + pat@.len()) != pat@,
            decreases p - j,
        {
            if hay.get_char(i + j) != pat.get_char(j) {
                proof {
                    assert(hay@.subrange(i as int, i + pat@.len())[j as int] != pat@[j as int]);
                }
                matches = false;
                j = p;
            } else {
                j = j + 1;
            }
        }
        if matches {
            proof {
                assert(hay@.subrange(i as int, i + pat@.len()) =~= pat@);
            }
            return true;
        }
        i = i + 1;
    }
    false
}

/// The decimal digit character for a value below ten.
pub open spec fn digit_char(d: nat) -> char {
    if d == 0 {
        '0'
    } else if d == 1 {
        '1'
    } else if d == 2 {
        '2'
    } else if d == 3 {
        '3'
    } else if d == 4 {
        '4'
    } else if d == 5 {
        '5'
    } else if d == 6 {
        '6'
    } else if d == 7 {
        '7'
    } else if d == 8 {
        '8'
    } else {
        '9'
    }
}

/// The decimal digits of a natural number, most significant first.
pub open spec fn dec_digits(n: nat) -> Seq<char>
    decreases n,
{
    if n < 10 {
        seq![digit_char(n)]
    } else {
        dec_digits(n / 10).push(digit_char(n % 10))
    }
}

/// The decimal form of a signed number: a minus sign before the digits of
/// its magnitude when negative.
pub open spec fn dec_int(n: int) -> Seq<char> {
    if n < 0 {
        seq!['-'] + dec_digits((-n) as nat)
    } else {
        dec_digits(n as nat)
    }
}

fn digit_str(d: u64) -> (r: &'static str)
    requires
        d < 10,
    ensures
        r@ =~= seq![digit_char(d as nat)],
{
    proof {
        reveal_strlit("0");
        reveal_strlit("1");
        reveal_strlit("2");
        reveal_strlit("3");
        reveal_strlit("4");
        reveal_strlit("5");
        reveal_strlit("6");
        reveal_strlit("7");
        reveal_strlit("8");
        reveal_strlit("9");
    }
    if d == 0 {
        "0"
    } else if d == 1 {
        "1"
    } else if d == 2 {
        "2"
    } else if d == 3 {
        "3"
    } else if d == 4 {
        "4"
    } else if d == 5 {
        "5"
    } else if d == 6 {
        "6"
    } else if d == 7 {
        "7"
    } else if d == 8 {
        "8"
    } else {
        "9"
    }
}

/// Renders an unsigned number in decimal.
pub fn u64_to_string(n: u64) -> (r: String)
    ensures
        r@ == dec_digits(n as nat),
    decreases n,
{
    if n < 10 {
        let r = digit_str(n).to_owned();
        r
    } else {
        let mut s = u64_to_string(n / 10);
        s.append(digit_str(n % 10));
        proof {
            assert(s@ =~= dec_digits(n as nat));
        }
        s
    }
}

/// Renders a signed number in decimal.
pub fn i64_to_string(n: i64) -> (r: String)
    ensures
        r@ == dec_int(n as int),
{
    if n < 0 {
        let wide: i128 = n as i128;
        let mag: u64 = (-wide) as u64;
        let mut s = String::from_str("-");
        let digits = u64_to_string(mag);
        s.append(digits.as_str());
        proof {
            reveal_strlit("-");
            assert(s@ =~= dec_int(n as int));
        }
        s
    } else {
        u64_to_string(n as u64)
    }
}

/// Whether every character of the sequence is an ASCII decimal digit.
pub open spec fn all_digits(s: Seq<char>) -> bool {
    forall|i: int| 0 <= i < s.len() ==> '0' <= #[trigger] s[i] && s[i] <= '9'
}

/// The numeric value of a digit character.
pub open spec fn digit_val(c: char) -> nat {
    (c as nat - '0' as nat) as nat
}

/// The value of a sequence of decimal digits, most significant first.
pub open spec fn digits_val(s: Seq<char>) -> nat
    decreases s.len(),
{
    if s.len() == 0 {
        0
    } else {
        digits_val(s.drop_last()) * 10 + digit_val(s.last())
    }
}

/// What `str::parse::<u32>` accepts: an optional leading plus sign, then at
/// least one ASCII digit, with a value that fits in the type.
pub open spec fn spec_parse_u32(s: Seq<char>) -> Option<u32> {
    let t = if s.len() >= 1 && s[0] == '+' {
        s.drop_first()
    } else {
        s
    };
    if t.len() >= 1 && all_digits(t) && digits_val(t) <= u32::MAX {
        Some(digits_val(t) as u32)
    } else {
        None
    }
}

/// What `str::parse::<i32>` accepts: an optional sign, then at least one
/// ASCII digit, with a value that fits in the type.
pub open spec fn spec_parse_i32(s: Seq<char>) -> Option<i32> {
    if s.len() >= 1 && s[0] == '-' {
        let t = s.drop_first();
        if t.len() >= 1 && all_digits(t) && digits_val(t) <= 0x8000_0000 {
            Some((-(digits_val(t) as int)) as i32)
        } else {
            None
        }
    } else {
        let t = if s.len() >= 1 && s[0] == '+' {
            s.drop_first()
        } else {
            s
        };
        if t.len() >= 1 && all_digits(t) && digits_val(t) <= i32::MAX {
            Some(digits_val(t) as i32)
        } else {
            None
        }
    }
}

proof fn lemma_digits_val_take_step(s: Seq<char>, k: int)
    requires
        0 <= k < s.len(),
    ensures
        digits_val(s.take(k + 1)) == digits_val(s.take(k)) * 10 + digit_val(s[k]),
{
    assert(s.take(k + 1).drop_last() =~= s.take(k));
    assert(s.take(k + 1).last() == s[k]);
}

proof fn lemma_digits_val_grows(v: nat, d: nat, bound: nat)
    requires
        v > bound,
    ensures
        v * 10 + d > bound,
{
    assert(v * 10 >= v) by (nonlinear_arith)
        requires
            v >= 0,
    ;
}

/// Parses the characters of `s` from position `from` on as decimal digits.
/// Returns the value when the run is nonempty, all digits, and the value is
/// at most `bound`; otherwise `None`.
fn parse_digits(s: &str, from: usize, bound: u64) -> (r: Option<u64>)
    requires
        from <= s@.len(),
        bound <= 0xffff_ffff,
    ensures
        ({
            let t = s@.subrange(from as int, s@.len() as int);
            if t.len() >= 1 && all_digits(t) && digits_val(t) <= bound {
                r == Some(digits_val(t) as u64)
            } else {
                r == None::<u64>
            }
        }),
{
    let ghost t = s@.subrange(from as int, s@.len() as int);
    let len = s.unicode_len();
    if from == len {
        return None;
    }
    let mut i: usize = from;
    let mut acc: u64 = 0;
    let mut too_big: bool = false;
    while i < len
        invariant
            from <= i <= len,
            len == s@.len(),
            from < len,
            t == s@.subrange(from as int, s@.len() as int),
            bound <= 0xffff_ffff,
            all_digits(t.take(i - from)),
            !too_big ==> acc == digits_val(t.take(i - from)) && acc <= bound,
            too_big ==> digits_val(t.take(i - from)) > bound,
        decreases len - i,
    {
        let c = s.get_char(i);
        if !('0' <= c && c <= '9') {
            proof {
                assert(t[i - from] == c);
                assert(!all_digits(t)) by {
                    assert(!('0' <= t[i - from] && t[i - from] <= '9'));
                }
            }
            return None;
        }
        let d: u64 = (c as u32 as u64) - 48;
        proof {
            assert(t.take(i - from + 1).drop_last() =~= t.take(i - from));
            lemma_digits_val_take_step(t, i - from);
            assert(t[i - from] == c);
        }
        if too_big {
            proof {
                lemma_digits_val_grows(digits_val(t.take(i - from)), d as nat, bound as nat);
            }
        } else {
            let next = acc * 10 + d;
            if next > bound {
                too_big = true;
            } else {
                acc = next;
            }
        }
        i = i + 1;
    }
    proof {
        assert(t.take(len - from) =~= t);
    }
    if too_big {
        None
    } else {
        Some(acc)
    }
}

/// Parses a string as `str::parse::<u32>` does.
pub fn parse_u32(s: &str) -> (r: Option<u32>)
    ensures
        r == spec_parse_u32(s@),
{
    let len = s.unicode_len();
    let from: usize = if len >= 1 && s.get_char(0) == '+' {
        1
    } else {
        0
    };
    proof {
        if from == 1 {
            assert(s@.subrange(1, s@.len() as int) =~= s@.drop_first());
        } else {
            assert(s@.subrange(0, s@.len() as int) =~= s@);
        }
    }
    match parse_digits(s, from, 0xffff_ffff) {
        Some(v) => Some(v as u32),
        None => None,
    }
}

/// Parses a string as `str::parse::<i32>` does.
pub fn parse_i32(s: &str) -> (r: Option<i32>)
    ensures
        r == spec_parse_i32(s@),
{
    let len = s.unicode_len();
    if len >= 1 && s.get_char(0) == '-' {
        proof {
            assert(s@.subrange(1, s@.len() as int) =~= s@.drop_first());
        }
        match parse_digits(s, 1, 0x8000_0000) {
            Some(v) => Some((-(v as i64)) as i32),
            None => None,
        }
    } else {
        let from: usize = if len >= 1 && s.get_char(0) == '+' {
            1
        } else {
            0
        };
        proof {
            if from == 1 {
                assert(s@.subrange(1, s@.len() as int) =~= s@.drop_first());
            } else {
                assert(s@.subrange(0, s@.len() as int) =~= s@);
            }
        }
        match parse_digits(s, from, 0x7fff_ffff) {
            Some(v) => Some(v as i32),
            None => None,
        }
    }
}

/// The concatenation of a sequence of segments, in order.
pub open spec fn concat_segs(s: Seq<Seq<char>>) -> Seq<char>
    decreases s.len(),
{
    if s.len() == 0 {
        Seq::empty()
    } else {
        concat_segs(s.drop_last()) + s.last()
    }
}

} // verus!
