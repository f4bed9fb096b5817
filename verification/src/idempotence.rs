//! Quoting a quoted string changes nothing, as long as the safe characters
//! are ASCII.

use crate::percent::{encode_byte, escape_at, escape_spec, hex_upper, is_hex_digit, is_unreserved, quote_from, quoted};
use vstd::prelude::*;
use vstd::utf8::*;

verus! {

/// The bytes of a text of ASCII characters.
pub open spec fn ascii_bytes(chars: Seq<char>) -> Seq<u8> {
    Seq::new(chars.len(), |i: int| chars[i] as u8)
}

pub open spec fn all_ascii(bytes: Seq<u8>) -> bool {
    forall|i: int| 0 <= i < bytes.len() ==> #[trigger] bytes[i] < 0x80
}

proof fn lemma_ascii_bytes_encode(chars: Seq<char>)
    requires
        is_ascii_chars(chars),
    ensures
        encode_utf8(chars) == ascii_bytes(chars),
        all_ascii(ascii_bytes(chars)),
{
    is_ascii_chars_encode_utf8(chars);
    is_ascii_chars_nat_bound(chars);
    assert(encode_utf8(chars) =~= ascii_bytes(chars));
    assert forall|i: int| 0 <= i < ascii_bytes(chars).len() implies #[trigger] ascii_bytes(chars)[i] < 0x80 by {
        assert((chars[i] as nat) < 128);
    }
}

proof fn lemma_hex_upper(n: u8)
    requires
        n < 16,
    ensures
        is_hex_digit(hex_upper(n) as u8),
        '\0' <= hex_upper(n) <= '\u{7f}',
        (hex_upper(n) as u8) as char == hex_upper(n),
{
}

/// Moving a text to the right by a prefix moves its quoting along.
proof fn lemma_quote_shift(prefix: Seq<u8>, s: Seq<u8>, safe: Seq<u8>, k: int)
    requires
        0 <= k,
    ensures
        quote_from(prefix + s, safe, prefix.len() + k) == quote_from(s, safe, k),
    decreases s.len() - k,
{
    let whole = prefix + s;
    let at = prefix.len() + k;
    if k < s.len() {
        assert(whole[at] == s[k]);
        if k + 3 <= s.len() {
            assert(whole.subrange(at, at + 3) =~= s.subrange(k, k + 3));
        }
        assert(escape_at(whole, at) == escape_at(s, k));
        if escape_at(s, k) {
            assert(whole[at + 1] == s[k + 1]);
            assert(whole[at + 2] == s[k + 2]);
            lemma_quote_shift(prefix, s, safe, k + 3);
        } else {
            lemma_quote_shift(prefix, s, safe, k + 1);
        }
    }
}

/// How a quoting begins: with nothing at the end of the text, with `%` where an
/// escape is kept or made, and with the byte itself where it is left alone.
proof fn lemma_quote_head(s: Seq<u8>, safe: Seq<u8>, i: int)
    requires
        0 <= i,
    ensures
        i >= s.len() ==> quote_from(s, safe, i).len() == 0,
        i < s.len() ==> quote_from(s, safe, i).len() >= 1,
        i < s.len() ==> {
            ||| quote_from(s, safe, i)[0] == '%'
            ||| {
                &&& !escape_at(s, i)
                &&& quote_from(s, safe, i) == seq![s[i] as char] + quote_from(s, safe, i + 1)
            }
        },
{
}

/// The quoting of any bytes under ASCII safe bytes is ASCII, and quoting its
/// bytes again gives it back.
proof fn lemma_quote_from_fixed(s: Seq<u8>, safe: Seq<u8>, i: int)
    requires
        0 <= i,
        all_ascii(safe),
    ensures
        is_ascii_chars(quote_from(s, safe, i)),
        quote_from(ascii_bytes(quote_from(s, safe, i)), safe, 0) == quote_from(s, safe, i),
    decreases s.len() - i,
{
    let t = quote_from(s, safe, i);
    if i >= s.len() {
        assert(ascii_bytes(t) =~= Seq::<u8>::empty());
    } else if escape_at(s, i) {
        let rest = quote_from(s, safe, i + 3);
        lemma_quote_from_fixed(s, safe, i + 3);
        let head = seq![s[i] as char, s[i + 1] as char, s[i + 2] as char];
        let window = s.subrange(i, i + 3);
        assert(window[0] == s[i] && window[1] == s[i + 1] && window[2] == s[i + 2]);
        lemma_kept_escape(head, rest, safe);
    } else {
        let b = s[i];
        let rest = quote_from(s, safe, i + 1);
        lemma_quote_from_fixed(s, safe, i + 1);
        if is_unreserved(b) || safe.contains(b) {
            let head = seq![b as char];
            assert(b < 0x80);
            assert(is_ascii_chars(t)) by {
                assert forall|j: int| 0 <= j < t.len() implies '\0' <= #[trigger] t[j] <= '\u{7f}' by {
                    if j > 0 {
                        assert(t[j] == rest[j - 1]);
                    }
                }
            }
            let x = ascii_bytes(t);
            let xr = ascii_bytes(rest);
            assert(x =~= seq![b] + xr);
            assert(!escape_at(x, 0)) by {
                if b == 0x25 && x.len() >= 3 {
                    assert(x.subrange(0, 3)[1] == x[1]);
                    assert(x.subrange(0, 3)[2] == x[2]);
                    lemma_quote_head(s, safe, i + 1);
                    assert(rest.len() >= 2);
                    assert(x[1] == rest[0] as u8);
                    assert(x[2] == rest[1] as u8);
                    if rest[0] != '%' {
                        lemma_quote_head(s, safe, i + 2);
                        let after = quote_from(s, safe, i + 2);
                        assert(rest == seq![s[i + 1] as char] + after);
                        assert(rest[1] == after[0]);
                        assert(x[1] == s[i + 1]);
                        if after[0] != '%' {
                            assert(x[2] == s[i + 2]);
                            let window = s.subrange(i, i + 3);
                            assert(window[0] == s[i] && window[1] == s[i + 1] && window[2] == s[i + 2]);
                        }
                    }
                }
            }
            assert(x[0] == b);
            lemma_quote_shift(seq![b], xr, safe, 0);
            assert(quote_from(x, safe, 1) == rest);
            assert(quote_from(x, safe, 0) == encode_byte(b, safe) + rest);
        } else {
            lemma_hex_upper(b / 16);
            lemma_hex_upper(b % 16);
            lemma_kept_escape(escape_spec(b), rest, safe);
        }
    }
}

/// A text that begins with an escape and goes on with a fixed text is fixed.
proof fn lemma_kept_escape(head: Seq<char>, rest: Seq<char>, safe: Seq<u8>)
    requires
        head.len() == 3,
        head[0] == '%',
        is_ascii_chars(head),
        is_hex_digit(head[1] as u8),
        is_hex_digit(head[2] as u8),
        is_ascii_chars(rest),
        quote_from(ascii_bytes(rest), safe, 0) == rest,
    ensures
        is_ascii_chars(head + rest),
        quote_from(ascii_bytes(head + rest), safe, 0) == head + rest,
{
    let t = head + rest;
    assert forall|j: int| 0 <= j < t.len() implies '\0' <= #[trigger] t[j] <= '\u{7f}' by {
        if j >= 3 {
            assert(t[j] == rest[j - 3]);
        } else {
            assert(t[j] == head[j]);
        }
    }
    let x = ascii_bytes(t);
    let xh = ascii_bytes(head);
    let xr = ascii_bytes(rest);
    assert(x =~= xh + xr);
    assert(x.subrange(0, 3) =~= xh);
    assert(escape_at(x, 0));
    lemma_quote_shift(xh, xr, safe, 0);
    assert(seq![x[0] as char, x[1] as char, x[2] as char] =~= head);
}

/// Quoting is idempotent: where the safe characters are ASCII, quoting the
/// result of a quoting once more, with the same safe characters, returns it
/// unchanged.
pub proof fn quote_is_idempotent(s: Seq<char>, safe: Seq<char>)
    requires
        is_ascii_chars(safe),
    ensures
        quoted(quoted(s, safe), safe) == quoted(s, safe),
{
    let safe_bytes = encode_utf8(safe);
    lemma_ascii_bytes_encode(safe);
    lemma_quote_from_fixed(encode_utf8(s), safe_bytes, 0);
    lemma_ascii_bytes_encode(quoted(s, safe));
}

} // verus!
