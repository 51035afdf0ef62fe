use vstd::prelude::*;
use vstd::string::StrSliceExecFns;
use vstd::string::StringExecFns;

verus! {

/// Whether `c` is one of the decimal digits `'0'` to `'9'`.
pub open spec fn is_decimal_digit(c: char) -> bool {
    48 <= c as u32 <= 57
}

/// The numeric value of a decimal digit; other characters count as zero.
pub open spec fn digit_val(c: char) -> nat {
    if is_decimal_digit(c) {
        (c as u32 - 48) as nat
    } else {
        0
    }
}

/// Whether every character of `s` is a decimal digit.
pub open spec fn is_digit_seq(s: Seq<char>) -> bool {
    forall|i: int| 0 <= i < s.len() ==> is_decimal_digit(#[trigger] s[i])
}

/// The value of `s` read as a big-endian decimal numeral.
pub open spec fn digit_seq_value(s: Seq<char>) -> nat
    decreases s.len(),
{
    if s.len() == 0 {
        0
    } else {
        digit_seq_value(s.drop_last()) * 10 + digit_val(s.last())
    }
}

/// The result of reading `d` as a plain decimal numeral: at least one
/// digit, only digits, and a value of at most `max`.
pub open spec fn parse_digits_spec(d: Seq<char>, max: nat) -> Option<nat> {
    if d.len() > 0 && is_digit_seq(d) && digit_seq_value(d) <= max {
        Some(digit_seq_value(d))
    } else {
        None
    }
}

/// Strips a single leading `'+'` sign, if present.
pub open spec fn strip_plus(s: Seq<char>) -> Seq<char> {
    if s.len() > 0 && s[0] == '+' {
        s.drop_first()
    } else {
        s
    }
}

/// The result of reading `s` as an unsigned decimal numeral with an
/// optional leading `'+'`, as `str::parse` does for unsigned integers.
pub open spec fn parse_unsigned_spec(s: Seq<char>, max: nat) -> Option<nat> {
    parse_digits_spec(strip_plus(s), max)
}

/// The result of reading `s` as a signed decimal numeral with an
/// optional leading sign, as `str::parse` does for signed integers.
/// `neg_mag` bounds the magnitude of a negative value, `max` bounds a
/// positive one.
pub open spec fn parse_signed_spec(s: Seq<char>, neg_mag: nat, max: nat) -> Option<int> {
    if s.len() > 0 && s[0] == '-' {
        match parse_digits_spec(s.drop_first(), neg_mag) {
            Some(n) => Some(-(n as int)),
            None => None,
        }
    } else {
        match parse_digits_spec(strip_plus(s), max) {
            Some(n) => Some(n as int),
            None => None,
        }
    }
}

/// A numeral never shrinks when digits are appended: the value of a
/// prefix bounds the value of the whole sequence from below.
proof fn lemma_digit_value_prefix_le(s: Seq<char>, k: int)
    requires
        0 <= k <= s.len(),
    ensures
        digit_seq_value(s.subrange(0, k)) <= digit_seq_value(s),
    decreases s.len() - k,
{
    if k == s.len() {
        assert(s.subrange(0, k) =~= s);
    } else {
        assert(s.subrange(0, k + 1).drop_last() =~= s.subrange(0, k));
        assert(digit_seq_value(s.subrange(0, k + 1)) == digit_seq_value(s.subrange(0, k)) * 10
            + digit_val(s.subrange(0, k + 1).last()));
        lemma_digit_value_prefix_le(s, k + 1);
    }
}

/// Reads the characters of `s` from position `start` to the end as a
/// plain decimal numeral whose value must not exceed `max`.
fn parse_digits_value(s: &str, start: usize, max: u64) -> (r: Option<u64>)
    requires
        start <= s@.len(),
        9 <= max,
    ensures
        match r {
            Some(v) => parse_digits_spec(s@.subrange(start as int, s@.len() as int), max as nat)
                == Some(v as nat),
            None => parse_digits_spec(s@.subrange(start as int, s@.len() as int), max as nat)
                is None,
        },
{
    let ghost d = s@.subrange(start as int, s@.len() as int);
    let len = s.unicode_len();
    if start == len {
        return None;
    }
    let mut acc: u64 = 0;
    let mut i: usize = start;
    while i < len
        invariant
            start <= i <= len,
            len == s@.len(),
            9 <= max,
            d == s@.subrange(start as int, s@.len() as int),
            forall|j: int| start <= j < i ==> is_decimal_digit(#[trigger] s@[j]),
            acc == digit_seq_value(s@.subrange(start as int, i as int)),
            acc <= max,
        decreases len - i,
    {
        let c = s.get_char(i);
        let u = c as u32;
        if u < 48 || u > 57 {
            proof {
                assert(d[i - start] == s@[i as int]);
                assert(!is_digit_seq(d));
            }
            return None;
        }
        let dv = (u - 48) as u64;
        proof {
            assert(s@.subrange(start as int, i + 1).drop_last() =~= s@.subrange(
                start as int,
                i as int,
            ));
            assert(digit_seq_value(s@.subrange(start as int, i + 1)) == acc * 10 + dv);
        }
        let bail: bool = if acc > max / 10 {
            true
        } else {
            proof {
                assert(acc * 10 <= (max / 10) * 10) by (nonlinear_arith)
                    requires
                        acc <= max / 10,
                ;
                assert((max / 10) * 10 <= max) by (nonlinear_arith);
            }
            let acc10 = acc * 10;
            if dv > max - acc10 {
                true
            } else {
                acc = acc10 + dv;
                false
            }
        };
        if bail {
            proof {
                assert(acc * 10 + dv > max) by (nonlinear_arith)
                    requires
                        (acc > max / 10 && dv >= 0) || (acc * 10 + dv > max),
                        max >= 9,
                ;
                lemma_digit_value_prefix_le(d, i + 1 - start);
                assert(d.subrange(0, i + 1 - start) =~= s@.subrange(start as int, i + 1));
                assert(digit_seq_value(d) > max);
            }
            return None;
        }
        i += 1;
    }
    proof {
        assert(s@.subrange(start as int, len as int) == d);
        assert(is_digit_seq(d));
    }
    Some(acc)
}

/// What the indices require of an attribute value type: a mathematical
/// model, a parser from query text whose exact result is specified, and
/// executable equality on models.
///
/// The textual payloads of a [`Query`](crate::query::Query) are parsed
/// into the index's value type through this trait.
pub trait AttributeValue: Sized {
    /// The mathematical model of a value.
    type Model;

    /// The model of this value.
    spec fn model(&self) -> Self::Model;

    /// The model of the value that `s` parses to, or `None` if `s`
    /// does not parse.
    spec fn parse_spec(s: Seq<char>) -> Option<Self::Model>;

    /// Parses query text into a value.
    fn parse_text(s: &str) -> (r: Option<Self>)
        ensures
            Self::parse_spec(s@) is None ==> r is None,
            Self::parse_spec(s@) is Some ==> r is Some && r.unwrap().model() == Self::parse_spec(
                s@,
            ).unwrap(),
    ;

    /// Executable equality of models.
    fn same_value(&self, other: &Self) -> (r: bool)
        ensures
            r == (self.model() == other.model()),
    ;
}

/// An [`AttributeValue`] with a total order on models, required by the
/// range index.  `le` is the order consulted by range, minimum and
/// maximum queries.
pub trait OrderedValue: AttributeValue {
    /// The order on models; `le(a, b)` means `a` is at most `b`.
    spec fn le(a: Self::Model, b: Self::Model) -> bool;

    /// Executable comparison of models.
    fn le_value(&self, other: &Self) -> (r: bool)
        ensures
            r == Self::le(self.model(), other.model()),
    ;
}

impl AttributeValue for String {
    type Model = Seq<char>;

    open spec fn model(&self) -> Seq<char> {
        self@
    }

    open spec fn parse_spec(s: Seq<char>) -> Option<Seq<char>> {
        Some(s)
    }

    fn parse_text(s: &str) -> (r: Option<Self>) {
        Some(s.to_owned())
    }

    fn same_value(&self, other: &Self) -> (r: bool) {
        self.eq(other)
    }
}

/// Lexicographic order on character sequences, decided from position
/// `i` on; earlier positions are taken as equal.
pub open spec fn lex_le_from(a: Seq<char>, b: Seq<char>, i: int) -> bool
    decreases a.len() - i,
{
    if i >= a.len() {
        true
    } else if i >= b.len() {
        false
    } else if a[i] == b[i] {
        lex_le_from(a, b, i + 1)
    } else {
        (a[i] as u32) < (b[i] as u32)
    }
}

/// Lexicographic order on character sequences by Unicode scalar value,
/// the order of `String`'s `Ord`.
pub open spec fn lex_le(a: Seq<char>, b: Seq<char>) -> bool {
    lex_le_from(a, b, 0)
}

impl OrderedValue for String {
    open spec fn le(a: Seq<char>, b: Seq<char>) -> bool {
        lex_le(a, b)
    }

    fn le_value(&self, other: &Self) -> (r: bool) {
        let a = self.as_str();
        let b = other.as_str();
        let an = a.unicode_len();
        let bn = b.unicode_len();
        let mut i: usize = 0;
        loop
            invariant
                an == a@.len(),
                bn == b@.len(),
                a@ == self@,
                b@ == other@,
                0 <= i <= an,
                0 <= i <= bn,
                lex_le(a@, b@) == lex_le_from(a@, b@, i as int),
            decreases an - i,
        {
            if i >= an {
                return true;
            }
            if i >= bn {
                return false;
            }
            let ca = a.get_char(i);
            let cb = b.get_char(i);
            if ca as u32 != cb as u32 {
                proof {
                    vstd::utf8::char_u32_cast(ca, ca as u32);
                    vstd::utf8::char_u32_cast(cb, cb as u32);
                }
                return (ca as u32) < (cb as u32);
            }
            proof {
                vstd::utf8::char_u32_cast(ca, ca as u32);
                vstd::utf8::char_u32_cast(cb, cb as u32);
                assert(a@[i as int] == b@[i as int]);
            }
            i += 1;
        }
    }
}

impl AttributeValue for bool {
    type Model = bool;

    open spec fn model(&self) -> bool {
        *self
    }

    open spec fn parse_spec(s: Seq<char>) -> Option<bool> {
        if s == seq!['t', 'r', 'u', 'e'] {
            Some(true)
        } else if s == seq!['f', 'a', 'l', 's', 'e'] {
            Some(false)
        } else {
            None
        }
    }

    fn parse_text(s: &str) -> (r: Option<Self>) {
        let n = s.unicode_len();
        if n == 4 && s.get_char(0) == 't' && s.get_char(1) == 'r' && s.get_char(2) == 'u'
            && s.get_char(3) == 'e' {
            proof {
                assert(s@ =~= seq!['t', 'r', 'u', 'e']);
            }
            Some(true)
        } else if n == 5 && s.get_char(0) == 'f' && s.get_char(1) == 'a' && s.get_char(2) == 'l'
            && s.get_char(3) == 's' && s.get_char(4) == 'e' {
            proof {
                assert(s@ =~= seq!['f', 'a', 'l', 's', 'e']);
            }
            Some(false)
        } else {
            proof {
                if s@ == seq!['t', 'r', 'u', 'e'] {
                    assert(s@.len() == 4 && s@[0] == 't' && s@[1] == 'r' && s@[2] == 'u' && s@[3]
                        == 'e');
                }
                if s@ == seq!['f', 'a', 'l', 's', 'e'] {
                    assert(s@.len() == 5 && s@[0] == 'f' && s@[1] == 'a' && s@[2] == 'l' && s@[3]
                        == 's' && s@[4] == 'e');
                }
            }
            None
        }
    }

    fn same_value(&self, other: &Self) -> (r: bool) {
        *self == *other
    }
}

/// Parses an unsigned value: an optional single `'+'`, then digits.
fn parse_unsigned_value(s: &str, max: u64) -> (r: Option<u64>)
    requires
        9 <= max,
    ensures
        match r {
            Some(v) => parse_unsigned_spec(s@, max as nat) == Some(v as nat),
            None => parse_unsigned_spec(s@, max as nat) is None,
        },
{
    let n = s.unicode_len();
    let start: usize = if n > 0 && s.get_char(0) == '+' {
        1
    } else {
        0
    };
    proof {
        if start == 1 {
            assert(strip_plus(s@) =~= s@.subrange(1, s@.len() as int));
        } else {
            assert(strip_plus(s@) =~= s@.subrange(0, s@.len() as int));
        }
    }
    parse_digits_value(s, start, max)
}

/// Parses a signed value: an optional sign, then digits; a negative
/// magnitude of at most `neg_mag`, a positive value of at most `max`.
fn parse_signed_value(s: &str, neg_mag: u64, max: u64) -> (r: Option<i64>)
    requires
        9 <= neg_mag,
        9 <= max,
        neg_mag <= 0x8000_0000_0000_0000,
        max <= 0x7fff_ffff_ffff_ffff,
    ensures
        match r {
            Some(v) => parse_signed_spec(s@, neg_mag as nat, max as nat) == Some(v as int),
            None => parse_signed_spec(s@, neg_mag as nat, max as nat) is None,
        },
{
    let n = s.unicode_len();
    if n > 0 && s.get_char(0) == '-' {
        proof {
            assert(s@.drop_first() =~= s@.subrange(1, s@.len() as int));
        }
        match parse_digits_value(s, 1, neg_mag) {
            Some(v) => {
                let neg: i64 = if v == 0x8000_0000_0000_0000 {
                    i64::MIN
                } else {
                    -(v as i64)
                };
                Some(neg)
            },
            None => None,
        }
    } else {
        let start: usize = if n > 0 && s.get_char(0) == '+' {
            1
        } else {
            0
        };
        proof {
            if start == 1 {
                assert(strip_plus(s@) =~= s@.subrange(1, s@.len() as int));
            } else {
                assert(strip_plus(s@) =~= s@.subrange(0, s@.len() as int));
            }
        }
        match parse_digits_value(s, start, max) {
            Some(v) => Some(v as i64),
            None => None,
        }
    }
}

impl AttributeValue for u8 {
    type Model = u8;

    open spec fn model(&self) -> u8 {
        *self
    }

    open spec fn parse_spec(s: Seq<char>) -> Option<u8> {
        match parse_unsigned_spec(s, u8::MAX as nat) {
            Some(n) => Some(n as u8),
            None => None,
        }
    }

    fn parse_text(s: &str) -> (r: Option<Self>) {
        match parse_unsigned_value(s, u8::MAX as u64) {
            Some(v) => Some(v as u8),
            None => None,
        }
    }

    fn same_value(&self, other: &Self) -> (r: bool) {
        *self == *other
    }
}

impl OrderedValue for u8 {
    open spec fn le(a: u8, b: u8) -> bool {
        a <= b
    }

    fn le_value(&self, other: &Self) -> (r: bool) {
        *self <= *other
    }
}

impl AttributeValue for u32 {
    type Model = u32;

    open spec fn model(&self) -> u32 {
        *self
    }

    open spec fn parse_spec(s: Seq<char>) -> Option<u32> {
        match parse_unsigned_spec(s, u32::MAX as nat) {
            Some(n) => Some(n as u32),
            None => None,
        }
    }

    fn parse_text(s: &str) -> (r: Option<Self>) {
        match parse_unsigned_value(s, u32::MAX as u64) {
            Some(v) => Some(v as u32),
            None => None,
        }
    }

    fn same_value(&self, other: &Self) -> (r: bool) {
        *self == *other
    }
}

impl OrderedValue for u32 {
    open spec fn le(a: u32, b: u32) -> bool {
        a <= b
    }

    fn le_value(&self, other: &Self) -> (r: bool) {
        *self <= *other
    }
}

impl AttributeValue for u64 {
    type Model = u64;

    open spec fn model(&self) -> u64 {
        *self
    }

    open spec fn parse_spec(s: Seq<char>) -> Option<u64> {
        match parse_unsigned_spec(s, u64::MAX as nat) {
            Some(n) => Some(n as u64),
            None => None,
        }
    }

    fn parse_text(s: &str) -> (r: Option<Self>) {
        parse_unsigned_value(s, u64::MAX)
    }

    fn same_value(&self, other: &Self) -> (r: bool) {
        *self == *other
    }
}

impl OrderedValue for u64 {
    open spec fn le(a: u64, b: u64) -> bool {
        a <= b
    }

    fn le_value(&self, other: &Self) -> (r: bool) {
        *self <= *other
    }
}

impl AttributeValue for usize {
    type Model = usize;

    open spec fn model(&self) -> usize {
        *self
    }

    open spec fn parse_spec(s: Seq<char>) -> Option<usize> {
        match parse_unsigned_spec(s, usize::MAX as nat) {
            Some(n) => Some(n as usize),
            None => None,
        }
    }

    fn parse_text(s: &str) -> (r: Option<Self>) {
        match parse_unsigned_value(s, usize::MAX as u64) {
            Some(v) => Some(v as usize),
            None => None,
        }
    }

    fn same_value(&self, other: &Self) -> (r: bool) {
        *self == *other
    }
}

impl OrderedValue for usize {
    open spec fn le(a: usize, b: usize) -> bool {
        a <= b
    }

    fn le_value(&self, other: &Self) -> (r: bool) {
        *self <= *other
    }
}

impl AttributeValue for i32 {
    type Model = i32;

    open spec fn model(&self) -> i32 {
        *self
    }

    open spec fn parse_spec(s: Seq<char>) -> Option<i32> {
        match parse_signed_spec(s, 0x8000_0000 as nat, i32::MAX as nat) {
            Some(n) => Some(n as i32),
            None => None,
        }
    }

    fn parse_text(s: &str) -> (r: Option<Self>) {
        match parse_signed_value(s, 0x8000_0000, i32::MAX as u64) {
            Some(v) => Some(v as i32),
            None => None,
        }
    }

    fn same_value(&self, other: &Self) -> (r: bool) {
        *self == *other
    }
}

impl OrderedValue for i32 {
    open spec fn le(a: i32, b: i32) -> bool {
        a <= b
    }

    fn le_value(&self, other: &Self) -> (r: bool) {
        *self <= *other
    }
}

impl AttributeValue for i64 {
    type Model = i64;

    open spec fn model(&self) -> i64 {
        *self
    }

    open spec fn parse_spec(s: Seq<char>) -> Option<i64> {
        match parse_signed_spec(s, 0x8000_0000_0000_0000 as nat, i64::MAX as nat) {
            Some(n) => Some(n as i64),
            None => None,
        }
    }

    fn parse_text(s: &str) -> (r: Option<Self>) {
        match parse_signed_value(s, 0x8000_0000_0000_0000, i64::MAX as u64) {
            Some(v) => Some(v as i64),
            None => None,
        }
    }

    fn same_value(&self, other: &Self) -> (r: bool) {
        *self == *other
    }
}

impl OrderedValue for i64 {
    open spec fn le(a: i64, b: i64) -> bool {
        a <= b
    }

    fn le_value(&self, other: &Self) -> (r: bool) {
        *self <= *other
    }
}

} // verus!
