//! Port normalization: an explicit port that equals the default of its scheme
//! is dropped, any other integer is kept whatever its size.

use crate::error::InvalidUrl;
use crate::text::str_eq;
use num_bigint::{BigInt, Sign};
use vstd::prelude::*;

verus! {

/// An integer of any size: a sign and a magnitude in base 2^32, least
/// significant limb first. It is kept in one form: the most significant limb
/// is not zero, and zero has no limb and no sign. Two numbers are equal by
/// `==` exactly where they are the same integer.
#[derive(Debug)]
pub struct PortNumber {
    negative: bool,
    limbs: Vec<u32>,
}

/// A port as a caller supplies it.
#[derive(Debug, Clone, PartialEq, Eq)]
pub enum PortInput {
    /// No port was given.
    Absent,
    /// The port as text.
    Text(String),
    /// The port as an integer.
    Integer(PortNumber),
    /// A value that is neither text nor an integer, by its printed form.
    Other(String),
}

/// The number that the limbs stand for.
pub open spec fn limbs_value(limbs: Seq<u32>) -> nat
    decreases limbs.len(),
{
    if limbs.len() == 0 {
        0
    } else {
        limbs[0] as nat + 0x1_0000_0000 * limbs_value(limbs.skip(1))
    }
}

/// The integer with the given sign and magnitude.
pub open spec fn signed_value(negative: bool, limbs: Seq<u32>) -> int {
    if negative {
        -(limbs_value(limbs) as int)
    } else {
        limbs_value(limbs) as int
    }
}

/// The one form in which a sign and a magnitude stand for their integer.
pub open spec fn is_normal(negative: bool, limbs: Seq<u32>) -> bool {
    &&& limbs.len() > 0 ==> limbs.last() != 0
    &&& negative ==> limbs.len() > 0
}

impl View for PortNumber {
    type V = int;

    closed spec fn view(&self) -> int {
        signed_value(self.negative, self.limbs@)
    }
}

pub open spec fn is_decimal_digit(c: char) -> bool {
    '0' <= c <= '9'
}

/// The number written by the decimal digits of `s`; underscores are skipped.
pub open spec fn digits_value(s: Seq<char>) -> nat
    decreases s.len(),
{
    if s.len() == 0 {
        0
    } else if s.last() == '_' {
        digits_value(s.drop_last())
    } else {
        10 * digits_value(s.drop_last()) + (s.last() as nat - '0' as nat) as nat
    }
}

/// Digits and underscores, the first of them a digit.
pub open spec fn is_digit_run(s: Seq<char>) -> bool {
    &&& s.len() > 0
    &&& is_decimal_digit(s[0])
    &&& forall|i: int| 0 <= i < s.len() ==> is_decimal_digit(#[trigger] s[i]) || s[i] == '_'
}

/// The text without its sign, if it starts with one.
pub open spec fn unsigned_part(s: Seq<char>) -> Seq<char> {
    if s.len() > 0 && (s[0] == '-' || s[0] == '+') {
        s.skip(1)
    } else {
        s
    }
}

/// The integer that `s` writes in base 10: at most one sign, then digits, with
/// underscores allowed between and after them. `None` where `s` is no such text.
pub open spec fn decimal_integer(s: Seq<char>) -> Option<int> {
    if is_digit_run(unsigned_part(s)) {
        if s[0] == '-' {
            Some(-(digits_value(unsigned_part(s)) as int))
        } else {
            Some(digits_value(unsigned_part(s)) as int)
        }
    } else {
        None
    }
}

/// The port that a scheme implies when none is written.
pub open spec fn default_port(scheme: Seq<char>) -> Option<int> {
    if scheme == "https"@ || scheme == "wss"@ {
        Some(443int)
    } else if scheme == "http"@ || scheme == "ws"@ {
        Some(80int)
    } else if scheme == "ftp"@ {
        Some(21int)
    } else {
        None
    }
}

/// The port to keep for `value` under `scheme`: none where it is the default.
pub open spec fn kept_port(value: int, scheme: Seq<char>) -> Option<int> {
    if default_port(scheme) == Some(value) {
        None
    } else {
        Some(value)
    }
}

pub open spec fn port_view(p: Option<PortNumber>) -> Option<int> {
    match p {
        Some(n) => Some(n@),
        None => None,
    }
}

/// What `normalize_port` returns: the kept port, or the message of the failure.
pub open spec fn normalize_port_spec(port: PortInput, scheme: Seq<char>) -> Result<Option<int>, Seq<char>> {
    match port {
        PortInput::Absent => Ok(None),
        PortInput::Text(text) => {
            if text@.len() == 0 {
                Ok(None)
            } else {
                match decimal_integer(text@) {
                    Some(value) => Ok(kept_port(value, scheme)),
                    None => Err("Invalid port: '"@ + text@ + "'"@),
                }
            }
        },
        PortInput::Integer(number) => Ok(kept_port(number@, scheme)),
        PortInput::Other(printed) => Err("Invalid port: "@ + printed@),
    }
}

pub proof fn lemma_limbs_zero(limbs: Seq<u32>)
    ensures
        limbs_value(limbs) == 0 <==> forall|i: int| 0 <= i < limbs.len() ==> limbs[i] == 0,
    decreases limbs.len(),
{
    if limbs.len() > 0 {
        let rest = limbs.skip(1);
        lemma_limbs_zero(rest);
        if limbs_value(limbs) == 0 {
            assert(limbs_value(rest) == 0) by (nonlinear_arith)
                requires
                    limbs[0] as nat + 0x1_0000_0000 * limbs_value(rest) == 0,
            ;
            assert forall|i: int| 0 <= i < limbs.len() implies limbs[i] == 0 by {
                if i > 0 {
                    assert(rest[i - 1] == limbs[i]);
                }
            }
        } else if limbs[0] == 0 {
            assert(limbs_value(rest) != 0);
            let j = choose|j: int| 0 <= j < rest.len() && rest[j] != 0;
            assert(limbs[j + 1] == rest[j]);
        }
    }
}

/// A zero in the most significant place adds nothing.
pub proof fn lemma_limbs_drop_zero(limbs: Seq<u32>)
    requires
        limbs.len() > 0,
        limbs.last() == 0,
    ensures
        limbs_value(limbs.drop_last()) == limbs_value(limbs),
    decreases limbs.len(),
{
    if limbs.len() == 1 {
        assert(limbs.skip(1) =~= Seq::<u32>::empty());
        assert(limbs.drop_last() =~= Seq::<u32>::empty());
        reveal_with_fuel(limbs_value, 2);
    } else {
        let rest = limbs.skip(1);
        assert(rest.last() == limbs.last());
        lemma_limbs_drop_zero(rest);
        assert(limbs.drop_last().skip(1) =~= rest.drop_last());
        assert(limbs.drop_last()[0] == limbs[0]);
    }
}

/// A magnitude in normal form is zero only without limbs.
pub proof fn lemma_normal_positive(limbs: Seq<u32>)
    requires
        limbs.len() > 0,
        limbs.last() != 0,
    ensures
        limbs_value(limbs) > 0,
        limbs.len() > 1 ==> limbs_value(limbs) >= 0x1_0000_0000,
{
    lemma_limbs_zero(limbs);
    if limbs.len() > 1 {
        let rest = limbs.skip(1);
        assert(rest.last() == limbs.last());
        lemma_limbs_zero(rest);
        let v = limbs_value(rest);
        assert(0x1_0000_0000 * v >= 0x1_0000_0000) by (nonlinear_arith)
            requires
                v >= 1,
        ;
    }
}

/// Two magnitudes in normal form that stand for one number are the same.
pub proof fn lemma_limbs_unique(a: Seq<u32>, b: Seq<u32>)
    requires
        a.len() > 0 ==> a.last() != 0,
        b.len() > 0 ==> b.last() != 0,
        limbs_value(a) == limbs_value(b),
    ensures
        a == b,
    decreases a.len(),
{
    if a.len() == 0 {
        if b.len() > 0 {
            lemma_normal_positive(b);
        }
        assert(a =~= b);
    } else if b.len() == 0 {
        lemma_normal_positive(a);
    } else {
        let ra = a.skip(1);
        let rb = b.skip(1);
        let va = limbs_value(ra);
        let vb = limbs_value(rb);
        assert(va == vb && a[0] == b[0]) by (nonlinear_arith)
            requires
                a[0] as nat + 0x1_0000_0000 * va == b[0] as nat + 0x1_0000_0000 * vb,
                a[0] < 0x1_0000_0000,
                b[0] < 0x1_0000_0000,
        ;
        if ra.len() > 0 {
            assert(ra.last() == a.last());
        }
        if rb.len() > 0 {
            assert(rb.last() == b.last());
        }
        lemma_limbs_unique(ra, rb);
        assert(a =~= seq![a[0]] + ra);
        assert(b =~= seq![b[0]] + rb);
    }
}

/// Two numbers in normal form are the same integer exactly where they have
/// the same sign and the same limbs.
pub proof fn lemma_normal_unique(negative: bool, limbs: Seq<u32>, other_negative: bool, other_limbs: Seq<u32>)
    requires
        is_normal(negative, limbs),
        is_normal(other_negative, other_limbs),
    ensures
        (signed_value(negative, limbs) == signed_value(other_negative, other_limbs)) == (negative
            == other_negative && limbs == other_limbs),
{
    if limbs.len() > 0 {
        lemma_normal_positive(limbs);
    }
    if other_limbs.len() > 0 {
        lemma_normal_positive(other_limbs);
    }
    if signed_value(negative, limbs) == signed_value(other_negative, other_limbs) {
        lemma_limbs_unique(limbs, other_limbs);
    }
}

/// `BigInt::from_str` reads an integer in base 10: one `-` or `+` may come
/// first, then digits, the first of which is no underscore, while underscores
/// after it are skipped. `BigInt::to_u32_digits` gives the sign and the magnitude
/// in base 2^32, least significant digit first. The result here is whether
/// the sign is minus, and that magnitude.
#[verifier::external_body]
fn parse_decimal(text: &str) -> (r: Option<(bool, Vec<u32>)>)
    ensures
        r is Some == decimal_integer(text@) is Some,
        r matches Some(parts) ==> decimal_integer(text@) == Some(signed_value(parts.0, parts.1@)),
{
    match text.parse::<BigInt>() {
        Ok(n) => {
            let (sign, limbs) = n.to_u32_digits();
            let negative = match sign {
                Sign::Minus => true,
                Sign::NoSign => false,
                Sign::Plus => false,
            };
            Some((negative, limbs))
        },
        Err(_) => None,
    }
}

impl Clone for PortNumber {
    fn clone(&self) -> (r: Self)
        ensures
            r@ == self@,
    {
        proof {
            use_type_invariant(self);
        }
        let limbs = self.limbs.clone();
        assert(limbs@ =~= self.limbs@);
        PortNumber { negative: self.negative, limbs }
    }
}

impl PortNumber {
    #[verifier::type_invariant]
    spec fn in_normal_form(&self) -> bool {
        is_normal(self.negative, self.limbs@)
    }

    /// The integer with the given sign and magnitude, least significant limb
    /// first. Zeros in the most significant places and the sign of zero are
    /// dropped.
    pub fn from_parts(negative: bool, limbs: Vec<u32>) -> (r: Self)
        ensures
            r@ == signed_value(negative, limbs@),
    {
        let mut limbs = limbs;
        let ghost given = limbs@;
        while limbs.len() > 0 && limbs[limbs.len() - 1] == 0
            invariant
                limbs_value(limbs@) == limbs_value(given),
            decreases limbs.len(),
        {
            proof {
                lemma_limbs_drop_zero(limbs@);
            }
            limbs.pop();
        }
        let negative = negative && limbs.len() > 0;
        PortNumber { negative, limbs }
    }

    /// The number `n`.
    pub fn from_u32(n: u32) -> (r: Self)
        ensures
            r@ == n,
    {
        let mut limbs: Vec<u32> = Vec::new();
        limbs.push(n);
        proof {
            assert(limbs@.skip(1) =~= Seq::<u32>::empty());
            reveal_with_fuel(limbs_value, 2);
        }
        PortNumber::from_parts(false, limbs)
    }

    /// Whether the number is below zero.
    pub fn is_negative(&self) -> (r: bool)
        ensures
            r == (self@ < 0),
    {
        proof {
            use_type_invariant(self);
            if self.limbs@.len() > 0 {
                lemma_normal_positive(self.limbs@);
            }
        }
        self.negative
    }

    /// The magnitude in base 2^32, least significant limb first, in normal
    /// form.
    pub fn limbs(&self) -> (r: &Vec<u32>)
        ensures
            self@ == signed_value(self@ < 0, r@),
            is_normal(self@ < 0, r@),
    {
        proof {
            use_type_invariant(self);
            if self.limbs@.len() > 0 {
                lemma_normal_positive(self.limbs@);
            }
        }
        &self.limbs
    }

    /// Whether this number is `n`.
    pub fn is_u32(&self, n: u32) -> (r: bool)
        ensures
            r == (self@ == n),
    {
        proof {
            use_type_invariant(self);
            if self.limbs@.len() > 0 {
                lemma_normal_positive(self.limbs@);
            }
        }
        if self.negative {
            false
        } else if self.limbs.len() == 0 {
            n == 0
        } else if self.limbs.len() == 1 {
            proof {
                assert(self.limbs@.skip(1) =~= Seq::<u32>::empty());
                reveal_with_fuel(limbs_value, 2);
            }
            self.limbs[0] == n
        } else {
            false
        }
    }
}

/// The default port of `scheme`, if it has one.
fn scheme_default(scheme: &str) -> (r: Option<u32>)
    ensures
        match r {
            Some(n) => default_port(scheme@) == Some(n as int),
            None => default_port(scheme@) is None,
        },
{
    if str_eq(scheme, "https") || str_eq(scheme, "wss") {
        Some(443)
    } else if str_eq(scheme, "http") || str_eq(scheme, "ws") {
        Some(80)
    } else if str_eq(scheme, "ftp") {
        Some(21)
    } else {
        None
    }
}

/// Drops `number` where it is the default port of `scheme`, and keeps it otherwise.
pub fn keep_port(number: PortNumber, scheme: &str) -> (r: Option<PortNumber>)
    ensures
        port_view(r) == kept_port(number@, scheme@),
{
    match scheme_default(scheme) {
        Some(default) => {
            if number.is_u32(default) {
                None
            } else {
                Some(number)
            }
        },
        None => Some(number),
    }
}

/// Normalizes a port against the default of its scheme.
///
/// No port, empty text and the scheme's own default give no port. Text has to
/// write an integer in base 10; the integer is kept whatever its size or sign.
pub fn normalize_port(port: PortInput, scheme: &str) -> (r: Result<Option<PortNumber>, InvalidUrl>)
    ensures
        match r {
            Ok(kept) => normalize_port_spec(port, scheme@) == Ok::<Option<int>, Seq<char>>(port_view(kept)),
            Err(e) => normalize_port_spec(port, scheme@) == Err::<Option<int>, Seq<char>>(e.message@),
        },
{
    match port {
        PortInput::Absent => Ok(None),
        PortInput::Text(text) => {
            if text.as_str().is_empty() {
                return Ok(None);
            }
            match parse_decimal(text.as_str()) {
                Some(parts) => Ok(keep_port(PortNumber::from_parts(parts.0, parts.1), scheme)),
                None => Err(InvalidUrl::naming("Invalid port: '", text.as_str(), "'")),
            }
        },
        PortInput::Integer(number) => Ok(keep_port(number, scheme)),
        PortInput::Other(printed) => {
            proof {
                reveal_strlit("");
                assert("Invalid port: "@ + printed@ + ""@ =~= "Invalid port: "@ + printed@);
            }
            Err(InvalidUrl::naming("Invalid port: ", printed.as_str(), ""))
        },
    }
}

} // verus!
