//! Verified text utilities: string comparison, decimal numerals, and
//! colon-delimited splitting, used by the logical-type codec.

use vstd::prelude::*;

verus! {

use vstd::string::StrSliceExecFns;
use vstd::string::StringSliceAdditionalSpecFns;
use vstd::string::StringExecFns;
use vstd::utf8::encode_utf8_decode_utf8;
use vstd::utf8::is_ascii_chars;

/// Exact string equality at the character level.
pub fn str_eq(a: &str, b: &str) -> (r: bool)
    ensures
        r == (a@ == b@),
{
    let ab = a.as_bytes();
    let bb = b.as_bytes();
    proof {
        if a@ == b@ {
            assert(a.spec_bytes() == b.spec_bytes());
        }
    }
    if ab.len() != bb.len() {
        return false;
    }
    let n = ab.len();
    let mut i: usize = 0;
    while i < n
        invariant
            n == ab@.len() == bb@.len(),
            i <= n,
            ab@ == a.spec_bytes(),
            bb@ == b.spec_bytes(),
            forall|k: int| 0 <= k < i ==> ab@[k] == bb@[k],
        decreases n - i,
    {
        if ab[i] != bb[i] {
            proof {
                if a@ == b@ {
                    assert(a.spec_bytes() == b.spec_bytes());
                }
            }
            return false;
        }
        i += 1;
    }
    proof {
        assert(a.spec_bytes() =~= b.spec_bytes());
        encode_utf8_decode_utf8(a@);
        encode_utf8_decode_utf8(b@);
    }
    true
}

/// `c` is a decimal digit.
pub open spec fn is_digit(c: char) -> bool {
    48 <= c as u32 <= 57
}

/// Value of a digit character.
pub open spec fn digit_val(c: char) -> int {
    c as u32 - 48
}

/// The digit character for `0 <= d <= 9`.
pub open spec fn digit_char(d: int) -> char {
    ((48 + d) as u32) as char
}

/// Decimal numeral of a nonnegative integer, most significant digit first.
pub open spec fn spec_fmt_nat(n: int) -> Seq<char>
    decreases n,
{
    if n < 10 {
        seq![digit_char(n)]
    } else {
        spec_fmt_nat(n / 10).push(digit_char(n % 10))
    }
}

/// Decimal numeral of an integer: a `-` sign for negative values.
pub open spec fn spec_fmt_int(n: int) -> Seq<char> {
    if n < 0 {
        seq!['-'] + spec_fmt_nat(-n)
    } else {
        spec_fmt_nat(n)
    }
}

/// Every character is a digit.
pub open spec fn all_digits(s: Seq<char>) -> bool {
    forall|i: int| 0 <= i < s.len() ==> is_digit(#[trigger] s[i])
}

/// Value of a digit string, most significant digit first.
pub open spec fn digits_val(s: Seq<char>) -> int
    decreases s.len(),
{
    if s.len() == 0 {
        0
    } else {
        digits_val(s.drop_last()) * 10 + digit_val(s.last())
    }
}

/// What an unsigned numeral denotes: digits only, value within `u64`.
pub open spec fn spec_parse_u64(s: Seq<char>) -> Option<int> {
    if s.len() > 0 && all_digits(s) && digits_val(s) <= u64::MAX {
        Some(digits_val(s))
    } else {
        None
    }
}

/// What a signed numeral denotes: an optional `-`, then digits, value within
/// `i64`.
pub open spec fn spec_parse_i64(s: Seq<char>) -> Option<int> {
    if s.len() > 0 && s[0] == '-' {
        let m = s.drop_first();
        if m.len() > 0 && all_digits(m) && digits_val(m) <= 0x8000_0000_0000_0000 {
            Some(-digits_val(m))
        } else {
            None
        }
    } else if s.len() > 0 && all_digits(s) && digits_val(s) <= i64::MAX {
        Some(digits_val(s))
    } else {
        None
    }
}

pub proof fn lemma_digits_val_nonneg(s: Seq<char>)
    requires
        all_digits(s),
    ensures
        digits_val(s) >= 0,
    decreases s.len(),
{
    if s.len() > 0 {
        assert(all_digits(s.drop_last())) by {
            assert(forall|i: int|
                0 <= i < s.drop_last().len() ==> s.drop_last()[i] == s[i]);
        }
        lemma_digits_val_nonneg(s.drop_last());
    }
}

/// Extending a digit string can only grow its value.
pub proof fn lemma_digits_val_take_mono(s: Seq<char>, i: int)
    requires
        all_digits(s),
        0 <= i <= s.len(),
    ensures
        digits_val(s.take(i)) <= digits_val(s),
    decreases s.len() - i,
{
    if i < s.len() {
        assert(all_digits(s.take(i))) by {
            assert(forall|k: int| 0 <= k < i ==> s.take(i)[k] == s[k]);
        }
        lemma_digits_val_nonneg(s.take(i));
        assert(s.take(i + 1).drop_last() =~= s.take(i));
        assert(digits_val(s.take(i + 1)) == digits_val(s.take(i)) * 10 + digit_val(s[i]));
        lemma_digits_val_take_mono(s, i + 1);
    } else {
        assert(s.take(i) =~= s);
    }
}

/// All characters are ASCII (used to carry ascii-ness of numerals).
pub open spec fn is_ascii_digits(s: Seq<char>) -> bool {
    forall|i: int| 0 <= i < s.len() ==> ((#[trigger] s[i]) as u32) < 128
}

/// The numeral of a nonnegative integer is digits that denote it back.
pub proof fn lemma_fmt_nat_digits(n: int)
    requires
        n >= 0,
    ensures
        all_digits(spec_fmt_nat(n)),
        digits_val(spec_fmt_nat(n)) == n,
        spec_fmt_nat(n).len() >= 1,
        is_ascii_digits(spec_fmt_nat(n)),
    decreases n,
{
    if n < 10 {
        assert(spec_fmt_nat(n) =~= seq![digit_char(n)]);
        assert(digit_char(n) as u32 == 48 + n);
        assert(seq![digit_char(n)].drop_last() =~= Seq::<char>::empty());
        assert(digits_val(Seq::<char>::empty()) == 0);
        assert(digits_val(seq![digit_char(n)]) == digit_val(digit_char(n)));
    } else {
        lemma_fmt_nat_digits(n / 10);
        let p = spec_fmt_nat(n / 10);
        let w = spec_fmt_nat(n);
        assert(w == p.push(digit_char(n % 10)));
        assert(w.drop_last() =~= p);
        assert(w.last() == digit_char(n % 10));
        assert(digit_char(n % 10) as u32 == 48 + n % 10);
        assert(digits_val(w) == digits_val(p) * 10 + (n % 10));
        assert(forall|i: int| 0 <= i < w.len() - 1 ==> w[i] == p[i]);
    }
}

/// Parse an unsigned decimal numeral.
pub fn parse_u64(s: &str) -> (r: Option<u64>)
    requires
        s.is_ascii(),
    ensures
        match r {
            Some(v) => spec_parse_u64(s@) == Some(v as int),
            None => spec_parse_u64(s@) is None,
        },
{
    let n = s.unicode_len();
    if n == 0 {
        return None;
    }
    let mut acc: u64 = 0;
    let mut i: usize = 0;
    while i < n
        invariant
            s.is_ascii(),
            n == s@.len(),
            0 < n,
            i <= n,
            all_digits(s@.take(i as int)),
            acc == digits_val(s@.take(i as int)),
        decreases n - i,
    {
        let b = s.get_ascii(i);
        if b < 48 || b > 57 {
            proof {
                assert(s@[i as int] as u8 == b);
                assert((s@[i as int] as u32) < 128);
                assert(!is_digit(s@[i as int]));
            }
            return None;
        }
        let d = (b - 48) as u64;
        proof {
            assert((s@[i as int] as u32) < 128);
            assert(is_digit(s@[i as int]));
            assert(digit_val(s@[i as int]) == d);
            assert(s@.take(i + 1).drop_last() =~= s@.take(i as int));
        }
        if acc > (u64::MAX - d) / 10 {
            proof {
                lemma_digits_val_nonneg(s@.take(i as int));
                assert(digits_val(s@.take(i + 1)) == acc * 10 + d);
                assert(acc * 10 + d > u64::MAX) by (nonlinear_arith)
                    requires
                        acc > (u64::MAX - d) / 10,
                        d <= 9,
                        acc >= 0,
                ;
                if all_digits(s@) {
                    lemma_digits_val_take_mono(s@, i + 1);
                }
            }
            return None;
        }
        acc = acc * 10 + d;
        i += 1;
    }
    proof {
        assert(s@.take(n as int) =~= s@);
    }
    Some(acc)
}

/// Parse a signed decimal numeral (optional leading `-`).
pub fn parse_i64(s: &str) -> (r: Option<i64>)
    requires
        s.is_ascii(),
    ensures
        match r {
            Some(v) => spec_parse_i64(s@) == Some(v as int),
            None => spec_parse_i64(s@) is None,
        },
{
    let n = s.unicode_len();
    if n == 0 {
        return None;
    }
    let b0 = s.get_ascii(0);
    if b0 == 45 {
        proof {
            assert((s@[0] as u32) < 128);
            assert(s@[0] == '-');
        }
        let rest = s.substring_ascii(1, n);
        proof {
            assert(rest@ =~= s@.drop_first());
        }
        match parse_u64(rest) {
            Some(m) => {
                if m <= 0x8000_0000_0000_0000u64 {
                    if m == 0x8000_0000_0000_0000u64 {
                        Some(i64::MIN)
                    } else {
                        Some(-(m as i64))
                    }
                } else {
                    None
                }
            },
            None => None,
        }
    } else {
        proof {
            assert(s@[0] as u8 == b0);
            assert((s@[0] as u32) < 128);
            assert(s@[0] != '-');
        }
        match parse_u64(s) {
            Some(v) => {
                if v <= i64::MAX as u64 {
                    Some(v as i64)
                } else {
                    None
                }
            },
            None => None,
        }
    }
}

/// One decimal digit as text.
fn digit_str(d: u8) -> (r: &'static str)
    requires
        d < 10,
    ensures
        r@ == seq![digit_char(d as int)],
        r.is_ascii(),
{
    proof {
        reveal_strlit("0");
        reveal_strlit("1");
        reveal_strlit("2");
        reveal_strlit("3");
        reveal_strlit("4");
        reveal_strlit("5");
        reveal_strlit("6");
        reveal_strlit("7");
        reveal_strlit("8");
        reveal_strlit("9");
    }
    match d {
        0 => "0",
        1 => "1",
        2 => "2",
        3 => "3",
        4 => "4",
        5 => "5",
        6 => "6",
        7 => "7",
        8 => "8",
        _ => "9",
    }
}

/// Format an unsigned integer as its decimal numeral.
pub fn fmt_u64(n: u64) -> (s: String)
    ensures
        s@ == spec_fmt_nat(n as int),
        s@.len() >= 1,
        is_ascii_digits(s@),
    decreases n,
{
    proof {
        lemma_fmt_nat_digits(n as int);
    }
    if n < 10 {
        let r = digit_str(n as u8).to_owned();
        r
    } else {
        let mut s = fmt_u64(n / 10);
        s.append(digit_str((n % 10) as u8));
        proof {
            assert(s@ =~= spec_fmt_nat(n as int));
        }
        s
    }
}

/// Format a signed integer as its decimal numeral.
pub fn fmt_i64(n: i64) -> (s: String)
    requires
        n > i64::MIN,
    ensures
        s@ == spec_fmt_int(n as int),
        s@.len() >= 1,
        is_ascii_digits(s@),
{
    if n < 0 {
        proof {
            reveal_strlit("-");
        }
        let mut s = "-".to_owned();
        let m = fmt_u64((-n) as u64);
        s.append(m.as_str());
        proof {
            assert(s@ =~= spec_fmt_int(n as int));
            assert('-' as u32 == 45);
        }
        s
    } else {
        fmt_u64(n as u64)
    }
}

/// An ASCII code point is an ASCII character (stated on a parameter so the
/// cast-to-order link is available for sequence elements).
pub proof fn lemma_char_ascii_order(c: char)
    requires
        (c as u32) < 128,
    ensures
        '\0' <= c <= '\u{7f}',
{
}

/// Bounds of any character, and the cast of a non-ASCII one (stated on a
/// parameter so the order-to-cast link is available for sequence elements).
pub proof fn lemma_char_bounds(c: char)
    ensures
        '\0' <= c,
        c > '\u{7f}' ==> (c as u32) > 127,
{
}

/// Concatenation preserves ascii-ness.
pub proof fn lemma_ascii_append(a: Seq<char>, b: Seq<char>)
    requires
        is_ascii_chars(a),
        is_ascii_chars(b),
    ensures
        is_ascii_chars(a + b),
{
    assert forall|i: int| 0 <= i < (a + b).len() implies '\0' <= #[trigger] (a + b)[i]
        <= '\u{7f}' by {
        if i < a.len() {
            assert((a + b)[i] == a[i]);
        } else {
            assert((a + b)[i] == b[i - a.len()]);
        }
    }
}

/// A formatted unsigned numeral parses back to its value.
pub proof fn lemma_parse_u_fmt(n: int)
    requires
        0 <= n <= u64::MAX,
    ensures
        spec_parse_u64(spec_fmt_nat(n)) == Some(n),
        no_colon(spec_fmt_nat(n)),
        is_ascii_chars(spec_fmt_nat(n)),
        spec_fmt_nat(n)[0] != '-',
{
    lemma_fmt_nat_digits(n);
    let s = spec_fmt_nat(n);
    assert forall|i: int| 0 <= i < s.len() implies (#[trigger] s[i]) != ':' by {
        assert(is_digit(s[i]));
        if s[i] == ':' {
            assert((s[i] as u32) == 58);
        }
    }
    assert forall|i: int| 0 <= i < s.len() implies '\0' <= #[trigger] s[i] <= '\u{7f}' by {
        assert(is_digit(s[i]));
        lemma_char_ascii_order(s[i]);
    }
    assert(is_digit(s[0]));
    if s[0] == '-' {
        assert((s[0] as u32) == 45);
    }
}

/// A formatted signed numeral parses back to its value.
pub proof fn lemma_parse_i_fmt(n: int)
    requires
        -0x8000_0000_0000_0000 <= n <= i64::MAX,
    ensures
        spec_parse_i64(spec_fmt_int(n)) == Some(n),
        no_colon(spec_fmt_int(n)),
        is_ascii_chars(spec_fmt_int(n)),
{
    if n >= 0 {
        lemma_parse_u_fmt(n);
    } else {
        lemma_parse_u_fmt(-n);
        let m = spec_fmt_nat(-n);
        let s = spec_fmt_int(n);
        assert(s == seq!['-'] + m);
        assert(s[0] == '-');
        assert(s.drop_first() =~= m);
        assert forall|i: int| 0 <= i < s.len() implies (#[trigger] s[i]) != ':' by {
            if i == 0 {
                assert(s[0] == '-');
            } else {
                assert(s[i] == m[i - 1]);
                assert(no_colon(m));
            }
        }
        assert forall|i: int| 0 <= i < s.len() implies '\0' <= #[trigger] s[i] <= '\u{7f}' by {
            if i == 0 {
                assert(s[0] == '-');
            } else {
                assert(s[i] == m[i - 1]);
                assert(is_ascii_chars(m));
            }
        }
    }
}

/// No character is a colon.
pub open spec fn no_colon(s: Seq<char>) -> bool {
    forall|i: int| 0 <= i < s.len() ==> (#[trigger] s[i]) != ':'
}

/// Split at `:` separators; `"a:b:"` splits into `["a", "b", ""]`.
pub open spec fn spec_split(s: Seq<char>) -> Seq<Seq<char>>
    decreases s.len(),
{
    if s.len() == 0 {
        seq![Seq::<char>::empty()]
    } else if s[0] == ':' {
        seq![Seq::<char>::empty()] + spec_split(s.drop_first())
    } else {
        let r = spec_split(s.drop_first());
        r.update(0, seq![s[0]] + r[0])
    }
}

pub proof fn lemma_split_nonempty(s: Seq<char>)
    ensures
        spec_split(s).len() >= 1,
    decreases s.len(),
{
    if s.len() > 0 {
        lemma_split_nonempty(s.drop_first());
    }
}

/// A colon-free string splits into itself alone.
pub proof fn lemma_split_whole(x: Seq<char>)
    requires
        no_colon(x),
    ensures
        spec_split(x) == seq![x],
    decreases x.len(),
{
    if x.len() == 0 {
        assert(x =~= Seq::<char>::empty());
        assert(spec_split(x) =~~= seq![x]);
    } else {
        assert(no_colon(x.drop_first())) by {
            assert(forall|i: int|
                0 <= i < x.drop_first().len() ==> x.drop_first()[i] == x[i + 1]);
        }
        lemma_split_whole(x.drop_first());
        assert(seq![x[0]] + x.drop_first() =~= x);
        assert(spec_split(x) =~~= seq![x]);
    }
}

/// Splitting `x : y` with colon-free `x` yields `x` then the split of `y`.
pub proof fn lemma_split_first(s: Seq<char>, x: Seq<char>, y: Seq<char>)
    requires
        no_colon(x),
        s == x + seq![':'] + y,
    ensures
        spec_split(s) == seq![x] + spec_split(y),
    decreases x.len(),
{
    lemma_split_nonempty(y);
    if x.len() == 0 {
        assert(s[0] == ':');
        assert(s.drop_first() =~= y);
        assert(x =~= Seq::<char>::empty());
        assert(spec_split(s) =~~= seq![x] + spec_split(y));
    } else {
        assert(s[0] == x[0]);
        assert(s[0] != ':');
        assert(s.drop_first() =~= x.drop_first() + seq![':'] + y);
        assert(no_colon(x.drop_first())) by {
            assert(forall|i: int|
                0 <= i < x.drop_first().len() ==> x.drop_first()[i] == x[i + 1]);
        }
        lemma_split_first(s.drop_first(), x.drop_first(), y);
        lemma_split_nonempty(s.drop_first());
        assert(seq![x[0]] + x.drop_first() =~= x);
        assert(spec_split(s) =~~= seq![x] + spec_split(y));
    }
}

/// Index of the first colon, or the length when there is none.
fn find_colon(s: &str) -> (i: usize)
    requires
        s.is_ascii(),
    ensures
        i <= s@.len(),
        forall|k: int| 0 <= k < i ==> (#[trigger] s@[k]) != ':',
        i < s@.len() ==> s@[i as int] == ':',
{
    let n = s.unicode_len();
    let mut i: usize = 0;
    while i < n
        invariant
            s.is_ascii(),
            n == s@.len(),
            i <= n,
            forall|k: int| 0 <= k < i ==> (#[trigger] s@[k]) != ':',
        decreases n - i,
    {
        let b = s.get_ascii(i);
        proof {
            assert((s@[i as int] as u32) < 128);
        }
        if b == 58 {
            proof {
                assert(s@[i as int] == ':');
            }
            return i;
        }
        proof {
            assert(s@[i as int] != ':');
        }
        i += 1;
    }
    i
}

/// Split a string at colons.
pub fn split_colon(s: &str) -> (parts: Vec<String>)
    requires
        s.is_ascii(),
    ensures
        parts@.map_values(|p: String| p@) == spec_split(s@),
        forall|i: int| 0 <= i < parts@.len() ==> is_ascii_chars(#[trigger] parts@[i]@),
    decreases s@.len(),
{
    let n = s.unicode_len();
    let i = find_colon(s);
    if i == n {
        let mut parts: Vec<String> = Vec::new();
        parts.push(s.to_owned());
        proof {
            lemma_split_whole(s@);
            assert(parts@.map_values(|p: String| p@) =~= spec_split(s@));
        }
        parts
    } else {
        let first = s.substring_ascii(0, i);
        let rest = s.substring_ascii(i + 1, n);
        let mut parts = split_colon(rest);
        parts.insert(0, first.to_owned());
        proof {
            assert(first@ =~= s@.take(i as int));
            assert(no_colon(s@.take(i as int)));
            assert(s@ =~= s@.take(i as int) + seq![':'] + rest@);
            lemma_split_first(s@, s@.take(i as int), rest@);
            assert(parts@.map_values(|p: String| p@) =~= seq![s@.take(i as int)]
                + spec_split(rest@));
        }
        parts
    }
}

} // verus!
