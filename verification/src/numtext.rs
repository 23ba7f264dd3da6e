//! Decimal text of signed integers: rendering an integer as its decimal
//! form, and parsing one line of text as a signed 32-bit integer the way the
//! machine's read-integer operation demands it (surrounding whitespace
//! ignored, an optional sign, then decimal digits).

use vstd::prelude::*;

verus! {

/// Appends one character to a string.
/// Relies on String::push: appends the given char to the end of this String.
#[verifier::external_body]
pub fn push_char(s: &mut String, c: char)
    ensures
        final(s)@ == old(s)@.push(c),
{
    s.push(c);
}

// ---------------------------------------------------------------------------
// Whitespace and digits
// ---------------------------------------------------------------------------

/// The characters with the Unicode `White_Space` property: exactly the set
/// that line trimming ignores.
pub open spec fn is_space(c: char) -> bool {
    let u = c as u32;
    ||| u == 9
    ||| u == 10
    ||| u == 11
    ||| u == 12
    ||| u == 13
    ||| u == 32
    ||| u == 0x85
    ||| u == 0xA0
    ||| u == 0x1680
    ||| (0x2000 <= u && u <= 0x200A)
    ||| u == 0x2028
    ||| u == 0x2029
    ||| u == 0x202F
    ||| u == 0x205F
    ||| u == 0x3000
}

fn is_space_char(c: char) -> (r: bool)
    ensures
        r == is_space(c),
{
    let u = c as u32;
    u == 9 || u == 10 || u == 11 || u == 12 || u == 13 || u == 32 || u == 0x85 || u == 0xA0
        || u == 0x1680 || (0x2000 <= u && u <= 0x200A) || u == 0x2028 || u == 0x2029
        || u == 0x202F || u == 0x205F || u == 0x3000
}

pub open spec fn is_digit(c: char) -> bool {
    48 <= c as u32 && c as u32 <= 57
}

fn is_digit_char(c: char) -> (r: bool)
    ensures
        r == is_digit(c),
{
    let u = c as u32;
    48 <= u && u <= 57
}

/// Numeric value of a decimal digit character.
pub open spec fn digit_val(c: char) -> int {
    c as u32 - 48
}

pub open spec fn all_digits(s: Seq<char>) -> bool {
    forall|i: int| 0 <= i < s.len() ==> is_digit(#[trigger] s[i])
}

/// Value of a sequence of decimal digit characters, most significant first.
pub open spec fn digits_val(s: Seq<char>) -> int
    decreases s.len(),
{
    if s.len() == 0 {
        0
    } else {
        digits_val(s.drop_last()) * 10 + digit_val(s.last())
    }
}

pub proof fn lemma_digits_val_nonneg(s: Seq<char>)
    requires
        all_digits(s),
    ensures
        digits_val(s) >= 0,
    decreases s.len(),
{
    if s.len() > 0 {
        assert(all_digits(s.drop_last()));
        lemma_digits_val_nonneg(s.drop_last());
    }
}

/// A longer digit string never has a smaller value.
pub proof fn lemma_digits_val_prefix(s: Seq<char>, k: int)
    requires
        all_digits(s),
        0 <= k <= s.len(),
    ensures
        digits_val(s.subrange(0, k)) <= digits_val(s),
    decreases s.len() - k,
{
    if k < s.len() {
        let t = s.subrange(0, k + 1);
        assert(t.drop_last() =~= s.subrange(0, k));
        assert(all_digits(t));
        lemma_digits_val_nonneg(t.drop_last());
        assert(digits_val(t) == digits_val(s.subrange(0, k)) * 10 + digit_val(s[k]));
        assert(digits_val(s.subrange(0, k)) <= digits_val(t));
        lemma_digits_val_prefix(s, k + 1);
        assert(s.subrange(0, s.len() as int) =~= s);
    } else {
        assert(s.subrange(0, k) =~= s);
    }
}

// ---------------------------------------------------------------------------
// Trimming
// ---------------------------------------------------------------------------

/// Number of leading whitespace characters.
pub open spec fn leading_ws(s: Seq<char>) -> int
    decreases s.len(),
{
    if s.len() == 0 || !is_space(s[0]) {
        0
    } else {
        1 + leading_ws(s.skip(1))
    }
}

/// Number of trailing whitespace characters.
pub open spec fn trailing_ws(s: Seq<char>) -> int
    decreases s.len(),
{
    if s.len() == 0 || !is_space(s.last()) {
        0
    } else {
        1 + trailing_ws(s.drop_last())
    }
}

/// The sequence with leading and trailing whitespace removed.
pub open spec fn trim_spec(s: Seq<char>) -> Seq<char> {
    let rest = s.skip(leading_ws(s));
    rest.take(rest.len() - trailing_ws(rest))
}

/// `leading_ws` is the unique boundary: all characters before it are
/// whitespace and the character at it, if any, is not.
proof fn lemma_leading_ws_char(s: Seq<char>, k: int)
    requires
        0 <= k <= s.len(),
        forall|j: int| 0 <= j < k ==> is_space(#[trigger] s[j]),
        k == s.len() || !is_space(s[k]),
    ensures
        leading_ws(s) == k,
    decreases s.len(),
{
    if s.len() == 0 {
    } else if k == 0 {
    } else {
        assert(is_space(s[0]));
        let t = s.skip(1);
        assert(forall|j: int| 0 <= j < k - 1 ==> is_space(#[trigger] t[j]));
        lemma_leading_ws_char(t, k - 1);
    }
}

proof fn lemma_trailing_ws_char(s: Seq<char>, k: int)
    requires
        0 <= k <= s.len(),
        forall|j: int| s.len() - k <= j < s.len() ==> is_space(#[trigger] s[j]),
        k == s.len() || !is_space(s[s.len() - k - 1]),
    ensures
        trailing_ws(s) == k,
    decreases s.len(),
{
    if s.len() == 0 {
    } else if k == 0 {
    } else {
        assert(is_space(s.last()));
        let t = s.drop_last();
        lemma_trailing_ws_char(t, k - 1);
    }
}

// ---------------------------------------------------------------------------
// Parsing one line as an i32
// ---------------------------------------------------------------------------

/// What parsing one line of input text as a signed 32-bit integer yields:
/// the surrounding whitespace is ignored; the rest must be an optional `+`
/// or `-` sign followed by at least one decimal digit, and the value must
/// fit in the type.  Anything else fails.
pub open spec fn int_of_line(line: Seq<char>) -> Option<i32> {
    let t = trim_spec(line);
    if t.len() == 0 {
        None
    } else {
        let neg = t[0] == '-';
        let ds = if t[0] == '-' || t[0] == '+' {
            t.skip(1)
        } else {
            t
        };
        if ds.len() == 0 || !all_digits(ds) {
            None
        } else {
            let v = if neg {
                -digits_val(ds)
            } else {
                digits_val(ds)
            };
            if i32::MIN <= v <= i32::MAX {
                Some(v as i32)
            } else {
                None
            }
        }
    }
}

/// Parses one line of text as a signed 32-bit integer, exactly as
/// `int_of_line` describes.
#[verifier::loop_isolation(false)]
pub fn parse_int_chars(line: &[char]) -> (r: Option<i32>)
    ensures
        r == int_of_line(line@),
{
    let n = line.len();
    let mut a: usize = 0;
    while a < n && is_space_char(line[a])
        invariant
            0 <= a <= n,
            n == line@.len(),
            forall|j: int| 0 <= j < a ==> is_space(#[trigger] line@[j]),
        decreases n - a,
    {
        a = a + 1;
    }
    proof {
        lemma_leading_ws_char(line@, a as int);
    }
    let mut b: usize = n;
    while b > a && is_space_char(line[b - 1])
        invariant
            a <= b <= n,
            n == line@.len(),
            forall|j: int| 0 <= j < a ==> is_space(#[trigger] line@[j]),
            forall|j: int| b <= j < n ==> is_space(#[trigger] line@[j]),
        decreases b,
    {
        b = b - 1;
    }
    let ghost rest = line@.skip(a as int);
    proof {
        assert(forall|j: int| (b - a) <= j < rest.len() ==> is_space(#[trigger] rest[j]));
        if b > a {
            assert(!is_space(rest[b - a - 1]));
        }
        lemma_trailing_ws_char(rest, rest.len() - (b - a));
        assert(trim_spec(line@) =~= line@.subrange(a as int, b as int));
    }
    // trimmed content is line[a..b]
    if a == b {
        return None;
    }
    let ghost t = trim_spec(line@);
    let first = line[a];
    let neg = first == '-';
    let start: usize = if first == '-' || first == '+' {
        a + 1
    } else {
        a
    };
    let ghost ds = if t[0] == '-' || t[0] == '+' {
        t.skip(1)
    } else {
        t
    };
    proof {
        assert(ds =~= line@.subrange(start as int, b as int));
    }
    if start == b {
        return None;
    }
    let mut acc: u64 = 0;
    let mut i: usize = start;
    while i < b
        invariant
            start <= i <= b <= n,
            n == line@.len(),
            start < b,
            ds == line@.subrange(start as int, b as int),
            all_digits(line@.subrange(start as int, i as int)),
            acc == digits_val(line@.subrange(start as int, i as int)),
            acc <= 2147483648,
        decreases b - i,
    {
        let c = line[i];
        proof {
            assert(ds[i - start] == line@[i as int]);
        }
        if !is_digit_char(c) {
            assert(!all_digits(ds));
            return None;
        }
        let d: u64 = (c as u32 - 48) as u64;
        acc = acc * 10 + d;
        proof {
            let pre = line@.subrange(start as int, i as int);
            let post = line@.subrange(start as int, i + 1);
            assert(post.drop_last() =~= pre);
            assert(post.last() == line@[i as int]);
        }
        i = i + 1;
        if acc > 2147483648 {
            // too large for the type whatever the sign and whatever follows
            proof {
                if all_digits(ds) {
                    lemma_digits_val_prefix(ds, i - start);
                    assert(ds.subrange(0, i - start) =~= line@.subrange(
                        start as int,
                        i as int,
                    ));
                }
            }
            return None;
        }
    }
    proof {
        assert(line@.subrange(start as int, i as int) =~= ds);
    }
    if neg {
        if acc > 2147483648 {
            return None;
        }
        Some((-(acc as i64)) as i32)
    } else {
        if acc > 2147483647 {
            return None;
        }
        Some(acc as i32)
    }
}

// ---------------------------------------------------------------------------
// Rendering an i32 as decimal text
// ---------------------------------------------------------------------------

/// The decimal digit character for a value below ten.
pub open spec fn digit_char(d: int) -> char {
    ((48 + d) as u8) as char
}

/// Decimal digit characters of a non-negative integer, no sign, no leading
/// zero except for the value zero itself.
pub open spec fn dec_digits(n: nat) -> Seq<char>
    decreases n,
{
    if n < 10 {
        seq![digit_char(n as int)]
    } else {
        dec_digits(n / 10).push(digit_char((n % 10) as int))
    }
}

/// Decimal text of a signed integer: a `-` sign for negative values, then
/// the digits of the magnitude.
pub open spec fn dec_chars(v: int) -> Seq<char> {
    if v < 0 {
        seq!['-'] + dec_digits((-v) as nat)
    } else {
        dec_digits(v as nat)
    }
}

fn push_decimal_of_u32(s: &mut String, x: u32)
    ensures
        final(s)@ == old(s)@ + dec_digits(x as nat),
{
    let mut digits_rev: Vec<char> = Vec::new();
    let mut m: u32 = x;
    while m >= 10
        invariant
            dec_digits(x as nat) =~= dec_digits(m as nat) + digits_rev@.reverse(),
        decreases m,
    {
        let d: u32 = m % 10;
        let c: char = ((48 + d) as u8) as char;
        proof {
            let ghost rev0 = digits_rev@;
            assert(c == digit_char(d as int));
            assert(dec_digits(m as nat) == dec_digits((m / 10) as nat).push(digit_char(
                (m % 10) as int,
            )));
            assert(rev0.push(c).reverse() =~= seq![c] + rev0.reverse());
            assert(dec_digits((m / 10) as nat) + rev0.push(c).reverse() =~= dec_digits(m as nat)
                + rev0.reverse());
        }
        digits_rev.push(c);
        m = m / 10;
    }
    let d: u32 = m;
    let c: char = ((48 + d) as u8) as char;
    proof {
        let ghost rev0 = digits_rev@;
        assert(dec_digits(m as nat) == seq![digit_char(d as int)]);
        assert(rev0.push(c).reverse() =~= seq![c] + rev0.reverse());
        assert(rev0.push(c).reverse() =~= dec_digits(x as nat));
    }
    digits_rev.push(c);
    let ghost ds = dec_digits(x as nat);
    let total = digits_rev.len();
    let mut k: usize = 0;
    while k < total
        invariant
            0 <= k <= total,
            total == digits_rev@.len(),
            digits_rev@.reverse() == ds,
            ds.len() == total,
            s@ =~= old(s)@ + ds.take(k as int),
        decreases total - k,
    {
        let c = digits_rev[total - 1 - k];
        proof {
            assert(digits_rev@.reverse()[k as int] == digits_rev@[total - 1 - k]);
            assert((old(s)@ + ds.take(k as int)).push(c) =~= old(s)@ + ds.take(k + 1));
        }
        push_char(s, c);
        k = k + 1;
    }
    proof {
        assert(ds.take(total as int) =~= ds);
    }
}

/// Renders a signed 32-bit integer as its decimal text.
pub fn int_to_string(v: i32) -> (s: String)
    ensures
        s@ == dec_chars(v as int),
{
    let mut s = String::new();
    if v >= 0 {
        push_decimal_of_u32(&mut s, v as u32);
    } else {
        push_char(&mut s, '-');
        let mag: u32 = (-(v as i64)) as u32;
        push_decimal_of_u32(&mut s, mag);
        proof {
            assert(seq!['-'] + dec_digits(mag as nat) =~= Seq::<char>::empty().push('-')
                + dec_digits(mag as nat));
        }
    }
    proof {
        assert(s@ =~= dec_chars(v as int));
    }
    s
}

} // verus!
