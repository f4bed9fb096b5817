//! Percent-encoding of bytes, with and without regard to escapes that are
//! already there, and the search for control characters.

use crate::text::to_chars;
use vstd::prelude::*;
use vstd::slice::slice_subrange;
use vstd::string::StringSliceAdditionalSpecFns;
use vstd::utf8::encode_utf8;

verus! {

/// ASCII letters, digits and `-`, `.`, `_`, `~`: never escaped.
pub open spec fn is_unreserved(b: u8) -> bool {
    ||| 0x41 <= b <= 0x5A
    ||| 0x61 <= b <= 0x7A
    ||| 0x30 <= b <= 0x39
    ||| b == 0x2D
    ||| b == 0x2E
    ||| b == 0x5F
    ||| b == 0x7E
}

/// An ASCII hexadecimal digit, of either case.
pub open spec fn is_hex_digit(b: u8) -> bool {
    ||| 0x30 <= b <= 0x39
    ||| 0x41 <= b <= 0x46
    ||| 0x61 <= b <= 0x66
}

/// The upper-case hexadecimal digit for a value below 16.
pub open spec fn hex_upper(n: u8) -> char {
    if n < 10 {
        (0x30 + n) as u8 as char
    } else {
        (0x37 + n) as u8 as char
    }
}

/// `%` and the two upper-case hexadecimal digits of `b`.
pub open spec fn escape_spec(b: u8) -> Seq<char> {
    seq!['%', hex_upper(b / 16), hex_upper(b % 16)]
}

/// One byte under the generic profile: itself where it is unreserved or safe,
/// its escape otherwise.
pub open spec fn encode_byte(b: u8, safe: Seq<u8>) -> Seq<char> {
    if is_unreserved(b) || safe.contains(b) {
        seq![b as char]
    } else {
        escape_spec(b)
    }
}

/// The encodings of the bytes, one after the other.
pub open spec fn percent_encoded_spec(bytes: Seq<u8>, safe: Seq<u8>) -> Seq<char>
    decreases bytes.len(),
{
    if bytes.len() == 0 {
        Seq::<char>::empty()
    } else {
        percent_encoded_spec(bytes.drop_last(), safe) + encode_byte(bytes.last(), safe)
    }
}

/// Exactly three bytes: `%` and two hexadecimal digits.
pub open spec fn is_percent_encoded_spec(s: Seq<u8>) -> bool {
    s.len() == 3 && s[0] == 0x25 && is_hex_digit(s[1]) && is_hex_digit(s[2])
}

/// Whether an escape stands at position `i` of `s`.
pub open spec fn escape_at(s: Seq<u8>, i: int) -> bool {
    0 <= i && i + 3 <= s.len() && is_percent_encoded_spec(s.subrange(i, i + 3))
}

/// The quoting of `s` from position `i` on: an escape that is already there is
/// kept as it is, every other byte is encoded.
pub open spec fn quote_from(s: Seq<u8>, safe: Seq<u8>, i: int) -> Seq<char>
    decreases s.len() - i,
{
    if i < 0 || i >= s.len() {
        Seq::<char>::empty()
    } else if escape_at(s, i) {
        seq![s[i] as char, s[i + 1] as char, s[i + 2] as char] + quote_from(s, safe, i + 3)
    } else {
        encode_byte(s[i], safe) + quote_from(s, safe, i + 1)
    }
}

pub open spec fn quote_spec(s: Seq<u8>, safe: Seq<u8>) -> Seq<char> {
    quote_from(s, safe, 0)
}

/// What `quote` returns for the text `s` and the safe characters `safe`: the
/// quoting of the UTF-8 bytes of the one under those of the other.
pub open spec fn quoted(s: Seq<char>, safe: Seq<char>) -> Seq<char> {
    quote_spec(encode_utf8(s), encode_utf8(safe))
}

/// One byte under the query profile: unreserved bytes stay, a space becomes
/// `+`, every other byte is escaped.
pub open spec fn urlencode_byte(b: u8) -> Seq<char> {
    if is_unreserved(b) {
        seq![b as char]
    } else if b == 0x20 {
        seq!['+']
    } else {
        escape_spec(b)
    }
}

pub open spec fn urlencode_spec(bytes: Seq<u8>) -> Seq<char>
    decreases bytes.len(),
{
    if bytes.len() == 0 {
        Seq::<char>::empty()
    } else {
        urlencode_spec(bytes.drop_last()) + urlencode_byte(bytes.last())
    }
}

/// An ASCII character that is neither a printable graphic character nor a
/// space: a control character.
pub open spec fn is_ascii_non_printable(c: char) -> bool {
    c <= '\u{7f}' && !('!' <= c <= '~') && c != ' '
}

fn hex_char(n: u8) -> (c: char)
    requires
        n < 16,
    ensures
        c == hex_upper(n),
{
    if n < 10 {
        (0x30 + n) as char
    } else {
        (0x37 + n) as char
    }
}

fn push_escape(out: &mut String, b: u8)
    ensures
        final(out)@ == old(out)@ + escape_spec(b),
{
    out.push('%');
    out.push(hex_char(b / 16));
    out.push(hex_char(b % 16));
    assert(out@ =~= old(out)@ + escape_spec(b));
}

fn is_unreserved_byte(b: u8) -> (r: bool)
    ensures
        r == is_unreserved(b),
{
    (0x41 <= b && b <= 0x5A) || (0x61 <= b && b <= 0x7A) || (0x30 <= b && b <= 0x39) || b == 0x2D
        || b == 0x2E || b == 0x5F || b == 0x7E
}

fn is_hex_digit_byte(b: u8) -> (r: bool)
    ensures
        r == is_hex_digit(b),
{
    (0x30 <= b && b <= 0x39) || (0x41 <= b && b <= 0x46) || (0x61 <= b && b <= 0x66)
}

fn contains_byte(set: &[u8], b: u8) -> (r: bool)
    ensures
        r == set@.contains(b),
{
    let mut i: usize = 0;
    while i < set.len()
        invariant
            i <= set.len(),
            forall|j: int| 0 <= j < i ==> set@[j] != b,
        decreases set.len() - i,
    {
        if set[i] == b {
            return true;
        }
        i += 1;
    }
    false
}

/// Appends the encoding of `bytes[from..to]` to `out`.
fn encode_into(out: &mut String, bytes: &[u8], from: usize, to: usize, safe: &[u8])
    requires
        from <= to <= bytes.len(),
    ensures
        final(out)@ == old(out)@ + percent_encoded_spec(bytes@.subrange(from as int, to as int), safe@),
{
    let mut i: usize = from;
    assert(bytes@.subrange(from as int, from as int) =~= Seq::<u8>::empty());
    while i < to
        invariant
            from <= i <= to <= bytes.len(),
            out@ == old(out)@ + percent_encoded_spec(bytes@.subrange(from as int, i as int), safe@),
        decreases to - i,
    {
        let b = bytes[i];
        let ghost done = out@;
        if is_unreserved_byte(b) || contains_byte(safe, b) {
            out.push(b as char);
            assert(out@ =~= done + encode_byte(b, safe@));
        } else {
            push_escape(out, b);
        }
        i += 1;
        proof {
            let upto = bytes@.subrange(from as int, i as int);
            assert(upto.drop_last() =~= bytes@.subrange(from as int, i - 1));
            assert(upto.last() == b);
            assert(out@ =~= old(out)@ + percent_encoded_spec(upto, safe@));
        }
    }
}

/// Percent-encodes every byte of `string` that is neither unreserved nor one
/// of the bytes of `safe`.
pub fn percent_encoded(string: &str, safe: &str) -> (r: String)
    ensures
        r@ == percent_encoded_spec(string.spec_bytes(), safe.spec_bytes()),
{
    let bytes = string.as_bytes();
    let mut r = String::new();
    encode_into(&mut r, bytes, 0, bytes.len(), safe.as_bytes());
    assert(bytes@.subrange(0, bytes@.len() as int) =~= bytes@);
    r
}

fn is_percent_encoded(s: &[u8]) -> (r: bool)
    ensures
        r == is_percent_encoded_spec(s@),
{
    s.len() == 3 && s[0] == 0x25 && is_hex_digit_byte(s[1]) && is_hex_digit_byte(s[2])
}

/// Percent-encodes `string` like `percent_encoded`, but keeps every escape
/// that is already there (`%` and two hexadecimal digits) as it is.
pub fn quote(string: &str, safe: &str) -> (r: String)
    ensures
        r@ == quoted(string@, safe@),
{
    let s = string.as_bytes();
    let safe_bytes = safe.as_bytes();
    let mut result = String::new();
    let mut start: usize = 0;
    let mut i: usize = 0;
    assert(s@.subrange(0, 0) =~= Seq::<u8>::empty());
    while i < s.len()
        invariant
            start <= i <= s.len(),
            quote_from(s@, safe_bytes@, 0) == result@ + quote_from(s@, safe_bytes@, start as int),
            quote_from(s@, safe_bytes@, start as int) == percent_encoded_spec(
                s@.subrange(start as int, i as int),
                safe_bytes@,
            ) + quote_from(s@, safe_bytes@, i as int),
        decreases s.len() - i,
    {
        if s[i] == 0x25 && s.len() - i > 2 && is_percent_encoded(slice_subrange(s, i, i + 3)) {
            if start < i {
                encode_into(&mut result, s, start, i, safe_bytes);
            } else {
                assert(s@.subrange(start as int, i as int) =~= Seq::<u8>::empty());
            }
            let ghost done = result@;
            result.push(s[i] as char);
            result.push(s[i + 1] as char);
            result.push(s[i + 2] as char);
            assert(result@ =~= done + seq![s@[i as int] as char, s@[i + 1] as char, s@[i + 2] as char]);
            i += 3;
            start = i;
            assert(s@.subrange(start as int, i as int) =~= Seq::<u8>::empty());
            assert(quote_from(s@, safe_bytes@, 0) =~= result@ + quote_from(s@, safe_bytes@, start as int));
        } else {
            assert(!escape_at(s@, i as int)) by {
                if i + 3 <= s.len() {
                    assert(s@.subrange(i as int, i + 3)[0] == s@[i as int]);
                }
            }
            i += 1;
            proof {
                let upto = s@.subrange(start as int, i as int);
                assert(upto.drop_last() =~= s@.subrange(start as int, i - 1));
                assert(upto.last() == s@[i - 1]);
                assert(quote_from(s@, safe_bytes@, start as int) =~= percent_encoded_spec(upto, safe_bytes@)
                    + quote_from(s@, safe_bytes@, i as int));
            }
        }
    }
    if start < s.len() {
        encode_into(&mut result, s, start, s.len(), safe_bytes);
    } else {
        assert(s@.subrange(start as int, i as int) =~= Seq::<u8>::empty());
    }
    assert(quote_from(s@, safe_bytes@, 0) =~= result@);
    result
}

/// Encodes `s` for a query string: unreserved bytes stay, a space becomes `+`,
/// every other byte is escaped.
pub fn urlencode(s: &str) -> (r: String)
    ensures
        r@ == urlencode_spec(s.spec_bytes()),
{
    let bytes = s.as_bytes();
    let mut r = String::new();
    let mut i: usize = 0;
    assert(bytes@.take(0) =~= Seq::<u8>::empty());
    while i < bytes.len()
        invariant
            i <= bytes.len(),
            r@ == urlencode_spec(bytes@.take(i as int)),
        decreases bytes.len() - i,
    {
        let b = bytes[i];
        let ghost done = r@;
        if is_unreserved_byte(b) {
            r.push(b as char);
        } else if b == 0x20 {
            r.push('+');
        } else {
            push_escape(&mut r, b);
        }
        i += 1;
        proof {
            let upto = bytes@.take(i as int);
            assert(upto.drop_last() =~= bytes@.take(i - 1));
            assert(upto.last() == b);
            assert(r@ =~= done + urlencode_byte(b));
        }
    }
    assert(bytes@.take(bytes@.len() as int) =~= bytes@);
    r
}

/// The position, counted in characters, of the first ASCII character of `s`
/// that is neither printable nor a space.
pub fn find_ascii_non_printable(s: &str) -> (r: Option<usize>)
    ensures
        match r {
            Some(i) => {
                &&& i < s@.len()
                &&& is_ascii_non_printable(s@[i as int])
                &&& forall|j: int| 0 <= j < i ==> !is_ascii_non_printable(s@[j])
            },
            None => forall|j: int| 0 <= j < s@.len() ==> !is_ascii_non_printable(s@[j]),
        },
{
    let chars = to_chars(s);
    let mut i: usize = 0;
    while i < chars.len()
        invariant
            i <= chars.len(),
            chars@ == s@,
            forall|j: int| 0 <= j < i ==> !is_ascii_non_printable(s@[j]),
        decreases chars.len() - i,
    {
        let c = chars[i];
        if c <= '\u{7f}' && !('!' <= c && c <= '~') && c != ' ' {
            return Some(i);
        }
        i += 1;
    }
    None
}

} // verus!
