//! Hosts: IPv4 and IPv6 literals are checked and kept as they are, an ASCII
//! name is lower-cased and quoted, and any other name is lower-cased and left
//! to the IDNA encoding, which is not part of this library.

use crate::error::InvalidUrl;
use crate::percent::{quote, quoted};
use crate::text::{copy_chars, from_chars, lemma_chars_deep_view, split, split_spec, to_chars};
use vstd::prelude::*;
use vstd::utf8::is_ascii_chars;

verus! {

/// The kinds of host, in the order in which they are tried.
#[derive(Debug, Clone, Copy, PartialEq, Eq, Structural)]
pub enum HostKind {
    Empty,
    Ipv4Literal,
    Ipv6Literal,
    Ascii,
    Internationalized,
}

/// A host after the part of the encoding that this library does.
#[derive(Debug, Clone, PartialEq, Eq)]
pub enum HostEncoding {
    /// The canonical form of the host.
    Encoded(String),
    /// The lower-cased host, which the IDNA encoding has yet to turn into
    /// its canonical form.
    NeedsIdna(String),
}

pub open spec fn is_digit_char(c: char) -> bool {
    '0' <= c <= '9'
}

pub open spec fn is_hex_char(c: char) -> bool {
    ('0' <= c <= '9') || ('a' <= c <= 'f') || ('A' <= c <= 'F')
}

pub open spec fn all_digits(s: Seq<char>) -> bool {
    forall|i: int| 0 <= i < s.len() ==> is_digit_char(#[trigger] s[i])
}

pub open spec fn all_hex(s: Seq<char>) -> bool {
    forall|i: int| 0 <= i < s.len() ==> is_hex_char(#[trigger] s[i])
}

/// Four groups of decimal digits, none of them empty, with `.` between them.
pub open spec fn ipv4_shaped(s: Seq<char>) -> bool {
    let parts = split_spec(s, '.');
    parts.len() == 4 && forall|i: int| 0 <= i < 4 ==> (#[trigger] parts[i]).len() > 0 && all_digits(parts[i])
}

/// `[` first, `]` last, and no line feed between them.
pub open spec fn bracketed(s: Seq<char>) -> bool {
    &&& s.len() >= 2
    &&& s[0] == '['
    &&& s.last() == ']'
    &&& forall|i: int| 0 < i < s.len() - 1 ==> #[trigger] s[i] != '\n'
}

pub open spec fn digit_of(c: char) -> int {
    c as int - '0' as int
}

/// The number that up to three decimal digits write.
pub open spec fn short_number(s: Seq<char>) -> int {
    if s.len() == 1 {
        digit_of(s[0])
    } else if s.len() == 2 {
        10 * digit_of(s[0]) + digit_of(s[1])
    } else {
        100 * digit_of(s[0]) + 10 * digit_of(s[1]) + digit_of(s[2])
    }
}

/// One to three decimal digits that write a number up to 255, without a zero
/// in front of another digit.
pub open spec fn is_octet(s: Seq<char>) -> bool {
    &&& 1 <= s.len() <= 3
    &&& all_digits(s)
    &&& (s.len() > 1 ==> s[0] != '0')
    &&& short_number(s) <= 255
}

/// An IPv4 address in dotted notation: four octets with `.` between them.
pub open spec fn valid_ipv4(s: Seq<char>) -> bool {
    let parts = split_spec(s, '.');
    parts.len() == 4 && forall|i: int| 0 <= i < 4 ==> is_octet(#[trigger] parts[i])
}

/// One to four hexadecimal digits: a group of 16 bits.
pub open spec fn is_group(s: Seq<char>) -> bool {
    1 <= s.len() <= 4 && all_hex(s)
}

/// The number of empty pieces.
pub open spec fn empty_count(pieces: Seq<Seq<char>>) -> nat
    decreases pieces.len(),
{
    if pieces.len() == 0 {
        0
    } else if pieces.last().len() == 0 {
        empty_count(pieces.drop_last()) + 1
    } else {
        empty_count(pieces.drop_last())
    }
}

/// Every piece that is not empty is a group, but for the last, which may be
/// an IPv4 address instead.
pub open spec fn pieces_are_groups(pieces: Seq<Seq<char>>) -> bool {
    forall|i: int|
        0 <= i < pieces.len() && (#[trigger] pieces[i]).len() > 0 ==> is_group(pieces[i]) || (i
            == pieces.len() - 1 && valid_ipv4(pieces[i]))
}

/// The number of 16-bit groups that the pieces write: one for each piece
/// that is not empty, and one more for an IPv4 address at the end.
pub open spec fn group_count(pieces: Seq<Seq<char>>) -> int {
    pieces.len() - empty_count(pieces) + if pieces.len() > 0 && pieces.last().len() > 0 && !is_group(
        pieces.last(),
    ) {
        1int
    } else {
        0int
    }
}

/// The places at which `::` may stand: once, at the start, at the end, in
/// between, or alone.
pub open spec fn one_gap(pieces: Seq<Seq<char>>) -> bool {
    let n = pieces.len();
    let empties = empty_count(pieces);
    &&& n >= 3
    &&& {
        ||| empties == 1 && pieces[0].len() > 0 && pieces[n - 1].len() > 0
        ||| empties == 2 && pieces[0].len() == 0 && pieces[1].len() == 0
        ||| empties == 2 && pieces[n - 2].len() == 0 && pieces[n - 1].len() == 0
        ||| empties == 3 && n == 3
    }
}

/// An IPv6 address in text: groups with `:` between them, eight in all, or
/// fewer around one `::`; the last two groups may be written as an IPv4
/// address.
pub open spec fn valid_ipv6(s: Seq<char>) -> bool {
    let pieces = split_spec(s, ':');
    &&& pieces_are_groups(pieces)
    &&& if empty_count(pieces) == 0 {
        group_count(pieces) == 8
    } else {
        one_gap(pieces) && group_count(pieces) <= 7
    }
}

/// What stands between the first and the last character of a text.
pub open spec fn interior(s: Seq<char>) -> Seq<char> {
    s.subrange(1, s.len() - 1)
}

pub open spec fn ascii_lower(c: char) -> char {
    if 'A' <= c <= 'Z' {
        ((c as u8) + 32) as u8 as char
    } else {
        c
    }
}

/// The text with its ASCII capital letters made small.
pub open spec fn ascii_lowercase(s: Seq<char>) -> Seq<char> {
    Seq::new(s.len(), |i: int| ascii_lower(s[i]))
}

/// The lower-case form that the Unicode standard gives a text.
pub uninterp spec fn unicode_lowercase(s: Seq<char>) -> Seq<char>;

/// The characters that a host keeps besides the unreserved ones.
pub open spec fn host_safe() -> Seq<char> {
    "!$&'()*+,;=\"`{}%|\\"@
}

pub open spec fn host_kind(host: Seq<char>) -> HostKind {
    if host.len() == 0 {
        HostKind::Empty
    } else if ipv4_shaped(host) {
        HostKind::Ipv4Literal
    } else if bracketed(host) {
        HostKind::Ipv6Literal
    } else if is_ascii_chars(host) {
        HostKind::Ascii
    } else {
        HostKind::Internationalized
    }
}

/// Whether a host is well formed: a literal has to be an address, a name is
/// always taken.
pub open spec fn host_is_valid(host: Seq<char>) -> bool {
    match host_kind(host) {
        HostKind::Ipv4Literal => valid_ipv4(host),
        HostKind::Ipv6Literal => valid_ipv6(interior(host)),
        _ => true,
    }
}

/// What a well-formed host is turned into.
pub open spec fn host_text(host: Seq<char>) -> Seq<char> {
    match host_kind(host) {
        HostKind::Empty => Seq::<char>::empty(),
        HostKind::Ipv4Literal => host,
        HostKind::Ipv6Literal => host,
        HostKind::Ascii => quoted(ascii_lowercase(host), host_safe()),
        HostKind::Internationalized => unicode_lowercase(host),
    }
}

/// The message for a literal that is no address.
pub open spec fn host_fault(host: Seq<char>) -> Seq<char> {
    if host_kind(host) == HostKind::Ipv4Literal {
        "Invalid IPv4 address: '"@ + host + "'"@
    } else {
        "Invalid IPv6 address: '"@ + host + "'"@
    }
}

/// `Regex::is_match` tells whether the pattern matches anywhere in the text.
/// The pattern here is anchored at both ends of the text and asks for four
/// runs of one or more ASCII digits with a `.` between them.
#[verifier::external_body]
fn is_ip_v4_like(s: &str) -> (r: bool)
    ensures
        r == ipv4_shaped(s@),
{
    regex::Regex::new(r"^[0-9]+\.[0-9]+\.[0-9]+\.[0-9]+$").unwrap().is_match(s)
}

/// `Regex::is_match` tells whether the pattern matches anywhere in the text.
/// The pattern here is anchored at both ends of the text and asks for `[`,
/// then any characters but line feeds, then `]`.
#[verifier::external_body]
fn is_ip_v6_like(s: &str) -> (r: bool)
    ensures
        r == bracketed(s@),
{
    regex::Regex::new(r"^\[.*\]$").unwrap().is_match(s)
}

/// `str::to_lowercase` returns the lower-case form of the text, as the
/// Unicode standard defines it.
#[verifier::external_body]
fn to_lowercase(s: &str) -> (r: String)
    ensures
        r@ == unicode_lowercase(s@),
{
    s.to_lowercase()
}

fn is_digit(c: char) -> (r: bool)
    ensures
        r == is_digit_char(c),
{
    '0' <= c && c <= '9'
}

fn is_hex(c: char) -> (r: bool)
    ensures
        r == is_hex_char(c),
{
    ('0' <= c && c <= '9') || ('a' <= c && c <= 'f') || ('A' <= c && c <= 'F')
}

fn digit_value(c: char) -> (r: u32)
    requires
        is_digit_char(c),
    ensures
        r == digit_of(c),
{
    ((c as u8) - 48) as u32
}

fn check_octet(s: &Vec<char>) -> (r: bool)
    ensures
        r == is_octet(s@),
{
    let n = s.len();
    if n < 1 || n > 3 {
        return false;
    }
    let mut i: usize = 0;
    while i < n
        invariant
            i <= n,
            n == s.len(),
            forall|j: int| 0 <= j < i ==> is_digit_char(s@[j]),
        decreases n - i,
    {
        if !is_digit(s[i]) {
            return false;
        }
        i += 1;
    }
    if n > 1 && s[0] == '0' {
        return false;
    }
    let value: u32 = if n == 1 {
        digit_value(s[0])
    } else if n == 2 {
        10 * digit_value(s[0]) + digit_value(s[1])
    } else {
        100 * digit_value(s[0]) + 10 * digit_value(s[1]) + digit_value(s[2])
    };
    value <= 255
}

/// Whether `s` is an IPv4 address in dotted notation.
pub fn is_valid_ipv4(s: &Vec<char>) -> (r: bool)
    ensures
        r == valid_ipv4(s@),
{
    let parts = split(s, '.');
    if parts.len() != 4 {
        return false;
    }
    let mut i: usize = 0;
    while i < 4
        invariant
            i <= 4,
            parts@.len() == 4,
            parts.deep_view() == split_spec(s@, '.'),
            forall|j: int| 0 <= j < i ==> is_octet(#[trigger] parts.deep_view()[j]),
        decreases 4 - i,
    {
        proof {
            lemma_chars_deep_view(parts@[i as int]);
        }
        if !check_octet(&parts[i]) {
            assert(!is_octet(parts.deep_view()[i as int]));
            return false;
        }
        i += 1;
    }
    true
}

fn check_group(s: &Vec<char>) -> (r: bool)
    ensures
        r == is_group(s@),
{
    let n = s.len();
    if n < 1 || n > 4 {
        return false;
    }
    let mut i: usize = 0;
    while i < n
        invariant
            i <= n,
            n == s.len(),
            forall|j: int| 0 <= j < i ==> is_hex_char(s@[j]),
        decreases n - i,
    {
        if !is_hex(s[i]) {
            return false;
        }
        i += 1;
    }
    true
}

/// Whether `s` is an IPv6 address in text.
pub fn is_valid_ipv6(s: &Vec<char>) -> (r: bool)
    ensures
        r == valid_ipv6(s@),
{
    let pieces = split(s, ':');
    let n = pieces.len();
    let ghost all = pieces.deep_view();
    let mut empties: usize = 0;
    let mut i: usize = 0;
    assert(all.take(0) =~= Seq::<Seq<char>>::empty());
    while i < n
        invariant
            i <= n,
            n == pieces@.len(),
            all == pieces.deep_view(),
            all == split_spec(s@, ':'),
            empties == empty_count(all.take(i as int)),
            empties <= i,
            forall|j: int|
                0 <= j < i && (#[trigger] all[j]).len() > 0 ==> is_group(all[j]) || (j == n - 1 && valid_ipv4(
                    all[j],
                )),
        decreases n - i,
    {
        let piece = &pieces[i];
        proof {
            lemma_chars_deep_view(*piece);
            let upto = all.take(i + 1);
            assert(upto.drop_last() =~= all.take(i as int));
            assert(upto.last() == piece@);
        }
        if piece.len() == 0 {
            empties += 1;
        } else if !check_group(piece) {
            if !(i == n - 1 && is_valid_ipv4(piece)) {
                assert(!pieces_are_groups(all)) by {
                    assert(all[i as int].len() > 0);
                }
                return false;
            }
        }
        i += 1;
    }
    assert(all.take(n as int) =~= all);
    assert(pieces_are_groups(all));
    proof {
        lemma_chars_deep_view(pieces@[0]);
        lemma_chars_deep_view(pieces@[n - 1]);
        if n >= 2 {
            lemma_chars_deep_view(pieces@[1]);
            lemma_chars_deep_view(pieces@[n - 2]);
        }
    }
    let last_is_address = pieces[n - 1].len() > 0 && !check_group(&pieces[n - 1]);
    if n - empties > 8 {
        return false;
    }
    let groups: usize = n - empties + if last_is_address {
        1
    } else {
        0
    };
    if empties == 0 {
        groups == 8
    } else {
        let gap = n >= 3 && ((empties == 1 && pieces[0].len() > 0 && pieces[n - 1].len() > 0) || (empties == 2
            && pieces[0].len() == 0 && pieces[1].len() == 0) || (empties == 2 && pieces[n - 2].len() == 0
            && pieces[n - 1].len() == 0) || (empties == 3 && n == 3));
        gap && groups <= 7
    }
}

/// The text with its ASCII capital letters made small.
fn to_ascii_lowercase(s: &Vec<char>) -> (r: Vec<char>)
    ensures
        r@ == ascii_lowercase(s@),
{
    let mut r: Vec<char> = Vec::new();
    let mut i: usize = 0;
    while i < s.len()
        invariant
            i <= s.len(),
            r@ == ascii_lowercase(s@).take(i as int),
        decreases s.len() - i,
    {
        let c = s[i];
        let lower = if 'A' <= c && c <= 'Z' {
            ((c as u8) + 32) as char
        } else {
            c
        };
        r.push(lower);
        i += 1;
        assert(ascii_lowercase(s@).take(i as int) =~= ascii_lowercase(s@).take(i - 1).push(lower));
    }
    assert(ascii_lowercase(s@).take(s@.len() as int) =~= ascii_lowercase(s@));
    r
}

/// The kind of a host: the first of the five that fits.
pub fn classify_host(host: &str) -> (kind: HostKind)
    ensures
        kind == host_kind(host@),
{
    if host.is_empty() {
        HostKind::Empty
    } else if is_ip_v4_like(host) {
        HostKind::Ipv4Literal
    } else if is_ip_v6_like(host) {
        HostKind::Ipv6Literal
    } else if host.is_ascii() {
        HostKind::Ascii
    } else {
        HostKind::Internationalized
    }
}

/// Brings a host into its canonical form, as far as this library can.
///
/// The empty host stays empty. A host in the shape of an IPv4 address has to
/// be one, a host between brackets has to hold an IPv6 address between them,
/// and both are kept as they are. An ASCII
/// name is lower-cased and quoted. Any other name is lower-cased and handed
/// back for the IDNA encoding.
pub fn encode_host(host: &str) -> (r: Result<HostEncoding, InvalidUrl>)
    ensures
        match r {
            Ok(HostEncoding::Encoded(s)) => {
                &&& host_is_valid(host@)
                &&& host_kind(host@) != HostKind::Internationalized
                &&& s@ == host_text(host@)
            },
            Ok(HostEncoding::NeedsIdna(s)) => {
                &&& host_kind(host@) == HostKind::Internationalized
                &&& s@ == host_text(host@)
            },
            Err(e) => !host_is_valid(host@) && e.message@ == host_fault(host@),
        },
{
    match classify_host(host) {
        HostKind::Empty => Ok(HostEncoding::Encoded(String::new())),
        HostKind::Ipv4Literal => {
            let chars = to_chars(host);
            if is_valid_ipv4(&chars) {
                Ok(HostEncoding::Encoded(host.to_owned()))
            } else {
                Err(InvalidUrl::naming("Invalid IPv4 address: '", host, "'"))
            }
        },
        HostKind::Ipv6Literal => {
            let chars = to_chars(host);
            let ip = copy_chars(&chars, 1, chars.len() - 1);
            if is_valid_ipv6(&ip) {
                Ok(HostEncoding::Encoded(host.to_owned()))
            } else {
                Err(InvalidUrl::naming("Invalid IPv6 address: '", host, "'"))
            }
        },
        HostKind::Ascii => {
            let chars = to_chars(host);
            let lowered = from_chars(&to_ascii_lowercase(&chars));
            Ok(HostEncoding::Encoded(quote(lowered.as_str(), "!$&'()*+,;=\"`{}%|\\")))
        },
        HostKind::Internationalized => Ok(HostEncoding::NeedsIdna(to_lowercase(host))),
    }
}

/// Turns the answer of the IDNA encoding into the result for the host: the
/// encoded name where there is one, a failure that names the host where the
/// encoding refused it.
pub fn encode_idna(host: &str, answer: Option<String>) -> (r: Result<String, InvalidUrl>)
    ensures
        match answer {
            Some(encoded) => r == Ok::<String, InvalidUrl>(encoded),
            None => r matches Err(e) && e.message@ == "Invalid IDNA hostname: '"@ + host@ + "'"@,
        },
{
    match answer {
        Some(encoded) => Ok(encoded),
        None => Err(InvalidUrl::naming("Invalid IDNA hostname: '", host, "'")),
    }
}

} // verus!
