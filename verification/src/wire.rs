//! Wire primitives of the file format: base-128 varints, little-endian
//! integers, and length-prefixed ASCII text.

use vstd::prelude::*;

verus! {

use crate::text::lemma_char_ascii_order;
use vstd::string::StrSliceExecFns;
use vstd::string::StringExecFns;
use vstd::string::StringSliceAdditionalSpecFns;
use vstd::utf8::is_ascii_chars;

/// Base-128 varint encoding, least significant group first.
pub open spec fn spec_varint(n: int) -> Seq<u8>
    decreases n,
{
    if n < 128 {
        seq![n as u8]
    } else {
        seq![(128 + (n % 128)) as u8] + spec_varint(n / 128)
    }
}

/// What a varint at `pos` denotes, and where the next item starts.
pub open spec fn spec_read_varint(s: Seq<u8>, pos: int) -> Option<(int, int)>
    decreases s.len() - pos,
{
    if pos < 0 || pos >= s.len() {
        None
    } else if s[pos] < 128 {
        Some((s[pos] as int, pos + 1))
    } else {
        match spec_read_varint(s, pos + 1) {
            Some((v, p)) => Some((v * 128 + (s[pos] - 128), p)),
            None => None,
        }
    }
}

/// A varint decodes to the value it was written from, wherever it stands.
pub proof fn lemma_varint_roundtrip(s: Seq<u8>, pos: int, n: int)
    requires
        0 <= n,
        0 <= pos,
        pos + spec_varint(n).len() <= s.len(),
        s.subrange(pos, pos + spec_varint(n).len() as int) == spec_varint(n),
    ensures
        spec_read_varint(s, pos) == Some((n, pos + spec_varint(n).len())),
    decreases n,
{
    let e = spec_varint(n);
    assert(s[pos] == e[0]);
    if n < 128 {
    } else {
        assert(e[0] == 128 + (n % 128));
        assert(s.subrange(pos + 1, pos + e.len() as int) =~= spec_varint(n / 128)) by {
            assert(forall|i: int|
                0 <= i < e.len() - 1 ==> #[trigger] s.subrange(pos + 1, pos + e.len() as int)[i]
                    == e[i + 1]);
        }
        lemma_varint_roundtrip(s, pos + 1, n / 128);
    }
}

/// Append a value as a varint.
pub fn write_varint(out: &mut Vec<u8>, n: u64)
    ensures
        final(out)@ == old(out)@ + spec_varint(n as int),
    decreases n,
{
    if n < 128 {
        out.push(n as u8);
    } else {
        out.push((128 + (n % 128)) as u8);
        let ghost mid = out@;
        write_varint(out, n / 128);
        proof {
            assert(out@ =~= old(out)@ + spec_varint(n as int));
        }
    }
}

/// Read a varint; fails on truncated input or a value beyond `u64`.
pub fn read_varint(s: &[u8], pos: usize) -> (r: Option<(u64, usize)>)
    ensures
        match r {
            Some((v, p)) => spec_read_varint(s@, pos as int) == Some((v as int, p as int)) && pos
                < p <= s@.len(),
            None => spec_read_varint(s@, pos as int) matches Some((v, _)) ==> v > u64::MAX,
        },
    decreases s@.len() - pos,
{
    if pos >= s.len() {
        return None;
    }
    let b = s[pos];
    if b < 128 {
        Some((b as u64, pos + 1))
    } else {
        match read_varint(s, pos + 1) {
            Some((v, p)) => {
                if v <= (u64::MAX - (b - 128) as u64) / 128 {
                    Some((v * 128 + (b - 128) as u64, p))
                } else {
                    None
                }
            },
            None => None,
        }
    }
}

/// A stretch of bytes equal to `a + b` splits at `a`'s length.
pub proof fn lemma_concat_split(s: Seq<u8>, pos: int, a: Seq<u8>, b: Seq<u8>)
    requires
        0 <= pos,
        pos + a.len() + b.len() <= s.len(),
        s.subrange(pos, pos + a.len() + b.len()) == a + b,
    ensures
        s.subrange(pos, pos + a.len() as int) == a,
        s.subrange(pos + a.len() as int, pos + a.len() + b.len()) == b,
{
    let ab = a + b;
    assert forall|j: int| 0 <= j < a.len() implies #[trigger] s.subrange(
        pos,
        pos + a.len() as int,
    )[j] == a[j] by {
        assert(s.subrange(pos, pos + ab.len() as int)[j] == ab[j]);
        assert(s.subrange(pos, pos + a.len() as int)[j] == s[pos + j]);
    }
    assert(s.subrange(pos, pos + a.len() as int) =~= a);
    assert forall|j: int| 0 <= j < b.len() implies #[trigger] s.subrange(
        pos + a.len() as int,
        pos + a.len() + b.len(),
    )[j] == b[j] by {
        assert(s.subrange(pos, pos + ab.len() as int)[a.len() + j] == ab[a.len() + j]);
    }
    assert(s.subrange(pos + a.len() as int, pos + a.len() + b.len()) =~= b);
}

/// The bytes of ASCII text.
pub open spec fn spec_str_bytes(t: Seq<char>) -> Seq<u8> {
    Seq::new(t.len(), |i: int| t[i] as u8)
}

/// The text a byte sequence denotes, when every byte is printable ASCII.
pub open spec fn spec_bytes_chars(b: Seq<u8>) -> Seq<char> {
    Seq::new(b.len(), |i: int| b[i] as char)
}

/// Every byte is printable ASCII (space through tilde).
pub open spec fn all_printable(b: Seq<u8>) -> bool {
    forall|i: int| 0 <= i < b.len() ==> 32 <= #[trigger] b[i] <= 126
}

/// Printable-ASCII text survives the trip through its bytes.
pub proof fn lemma_str_bytes_roundtrip(t: Seq<char>)
    requires
        forall|i: int| 0 <= i < t.len() ==> 32 <= (#[trigger] t[i]) as u32 <= 126,
    ensures
        spec_bytes_chars(spec_str_bytes(t)) == t,
        all_printable(spec_str_bytes(t)),
{
    assert forall|i: int|
        0 <= i < t.len() implies spec_bytes_chars(spec_str_bytes(t))[i] == t[i] by {
        lemma_char_u8_cast(t[i]);
    }
    assert(spec_bytes_chars(spec_str_bytes(t)) =~= t);
}

/// An ASCII character survives the trip through `u8`.
proof fn lemma_char_u8_cast(c: char)
    requires
        (c as u32) < 128,
    ensures
        ((c as u8) as char) == c,
{
}

/// Append the bytes of a string.
pub fn write_str_bytes(out: &mut Vec<u8>, t: &str)
    requires
        t.is_ascii(),
    ensures
        final(out)@ == old(out)@ + spec_str_bytes(t@),
{
    let bs = t.as_bytes_vec();
    let mut i: usize = 0;
    proof {
        vstd::string::is_ascii_spec_bytes(t);
    }
    while i < bs.len()
        invariant
            bs@ == t.spec_bytes(),
            bs@.len() == t@.len(),
            forall|k: int| 0 <= k < bs@.len() ==> bs@[k] == (#[trigger] t@[k]) as u8,
            i <= bs@.len(),
            out@ == old(out)@ + spec_str_bytes(t@).take(i as int),
        decreases bs@.len() - i,
    {
        out.push(bs[i]);
        proof {
            assert(out@ =~= old(out)@ + spec_str_bytes(t@).take(i + 1));
        }
        i += 1;
    }
    proof {
        assert(spec_str_bytes(t@).take(t@.len() as int) =~= spec_str_bytes(t@));
    }
}

/// Rebuild printable-ASCII text from its bytes; anything else is refused.
pub fn bytes_to_string(b: &[u8]) -> (r: Option<String>)
    ensures
        match r {
            Some(t) => all_printable(b@) && t@ == spec_bytes_chars(b@) && is_ascii_chars(t@),
            None => !all_printable(b@),
        },
{
    let table: &str =
        " !\"#$%&'()*+,-./0123456789:;<=>?@ABCDEFGHIJKLMNOPQRSTUVWXYZ[\\]^_`abcdefghijklmnopqrstuvwxyz{|}~";
    proof {
        reveal_strlit(
            " !\"#$%&'()*+,-./0123456789:;<=>?@ABCDEFGHIJKLMNOPQRSTUVWXYZ[\\]^_`abcdefghijklmnopqrstuvwxyz{|}~",
        );
        assert(table@.len() == 95);
    }
    let mut out = String::new();
    let mut i: usize = 0;
    while i < b.len()
        invariant
            table@.len() == 95,
            table.is_ascii(),
            forall|k: int| 0 <= k < 95 ==> (#[trigger] table@[k]) as u32 == 32 + k,
            i <= b@.len(),
            forall|k: int| 0 <= k < i ==> 32 <= #[trigger] b@[k] <= 126,
            out@ == spec_bytes_chars(b@).take(i as int),
            is_ascii_chars(out@),
        decreases b@.len() - i,
    {
        let v = b[i];
        if v < 32 || v > 126 {
            return None;
        }
        let c = table.substring_ascii((v - 32) as usize, (v - 31) as usize);
        out.append(c);
        proof {
            assert(c@.len() == 1);
            assert(c@[0] == table@[v - 32]);
            assert((c@[0] as u32) == v);
            lemma_char_u8_cast(c@[0]);
            assert(c@[0] == (b@[i as int] as char));
            assert(out@ =~= spec_bytes_chars(b@).take(i + 1));
            assert forall|k: int| 0 <= k < out@.len() implies '\0' <= #[trigger] out@[k]
                <= '\u{7f}' by {
                lemma_char_ascii_order(out@[k]);
                assert((out@[k] as u32) < 128);
            }
        }
        i += 1;
    }
    proof {
        assert(spec_bytes_chars(b@).take(b@.len() as int) =~= spec_bytes_chars(b@));
    }
    Some(out)
}

} // verus!
