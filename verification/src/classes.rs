//! The names of placement classes in job requests and placement results:
//! `intra-l1`, `intra-group`, `inter-group`, `intra-group-same-l1-<n>` and
//! `inter-group-same-l1-<n>`.
use vstd::prelude::*;
use vstd::string::*;
use crate::placement::PlacementClass;
use crate::scontrol::has_prefix;
use crate::text::{all_digits, chars_of, dec_digits, dec_value, digit_char, digit_value, is_digit, parse_unsigned, starts_with, string_of, slice_chars, format_padded};

verus! {

/// Why a decimal number does not parse (as `std::num::IntErrorKind` says).
#[derive(Clone, Copy, Debug, PartialEq, Eq, Structural)]
pub enum IntParseError {
    /// Nothing to parse.
    Empty,
    /// A character that is not a digit.
    InvalidDigit,
    /// The number does not fit.
    PosOverflow,
}

impl IntParseError {
    /// The text std gives for this error.
    pub fn to_message(&self) -> (s: String)
        ensures
            s@ == int_error_text(*self),
    {
        match self {
            IntParseError::Empty => String::from_str("cannot parse integer from empty string"),
            IntParseError::InvalidDigit => String::from_str("invalid digit found in string"),
            IntParseError::PosOverflow => String::from_str("number too large to fit in target type"),
        }
    }
}

pub open spec fn int_error_text(e: IntParseError) -> Seq<char> {
    match e {
        IntParseError::Empty => "cannot parse integer from empty string"@,
        IntParseError::InvalidDigit => "invalid digit found in string"@,
        IntParseError::PosOverflow => "number too large to fit in target type"@,
    }
}

/// The first failure reading the digits `d` from left to right: a
/// character that is not a digit, or a prefix whose value exceeds `max`.
pub open spec fn first_failure(d: Seq<char>, max: nat) -> Option<IntParseError>
    decreases d.len(),
{
    if d.len() == 0 {
        None
    } else {
        match first_failure(d.drop_last(), max) {
            Some(e) => Some(e),
            None => if !is_digit(d.last()) {
                Some(IntParseError::InvalidDigit)
            } else if dec_value(d) > max {
                Some(IntParseError::PosOverflow)
            } else {
                None
            },
        }
    }
}

/// Why `str::parse` of an unsigned number no larger than `max` rejects `s`:
/// empty input, a lone sign, or the first failure in its digits.
pub open spec fn parse_error(s: Seq<char>, max: nat) -> IntParseError {
    if s.len() == 0 {
        IntParseError::Empty
    } else {
        let d = if s[0] == '+' {
            s.drop_first()
        } else {
            s
        };
        if d.len() == 0 {
            IntParseError::InvalidDigit
        } else {
            match first_failure(d, max) {
                Some(e) => e,
                None => IntParseError::InvalidDigit,
            }
        }
    }
}

proof fn lemma_no_failure(d: Seq<char>, max: nat)
    ensures
        first_failure(d, max) is None <==> (all_digits(d) && dec_value(d) <= max),
    decreases d.len(),
{
    if d.len() > 0 {
        lemma_no_failure(d.drop_last(), max);
        if all_digits(d) {
            assert forall|i: int| 0 <= i < d.drop_last().len() implies is_digit(#[trigger] d.drop_last()[i]) by {
                assert(is_digit(d[i]));
            }
            crate::text::lemma_dec_prefix_le(d, d.len() - 1);
            assert(d.take(d.len() - 1) =~= d.drop_last());
        }
        if first_failure(d, max) is None {
            assert forall|i: int| 0 <= i < d.len() implies is_digit(#[trigger] d[i]) by {
                if i < d.len() - 1 {
                    assert(is_digit(d.drop_last()[i]));
                }
            }
        }
    } else {
        assert(all_digits(d));
    }
}

/// Parse a decimal `usize` as `str::parse::<usize>` does, saying why it
/// fails.
pub fn parse_usize_why(s: &[char]) -> (r: Result<usize, IntParseError>)
    ensures
        match parse_unsigned(s@, usize::MAX as nat) {
            Some(v) => r == Ok::<usize, IntParseError>(v as usize),
            None => r == Err::<usize, IntParseError>(parse_error(s@, usize::MAX as nat)),
        },
{
    if s.len() == 0 {
        return Err(IntParseError::Empty);
    }
    let start: usize = if s[0] == '+' { 1 } else { 0 };
    let ghost d = if s@[0] == '+' {
        s@.drop_first()
    } else {
        s@
    };
    assert(d =~= s@.skip(start as int));
    if start >= s.len() {
        assert(d.len() == 0);
        return Err(IntParseError::InvalidDigit);
    }
    let mut acc: usize = 0;
    let mut i: usize = start;
    assert(d.take(0) =~= Seq::<char>::empty());
    while i < s.len()
        invariant
            start <= i <= s.len(),
            start < s.len(),
            d =~= s@.skip(start as int),
            d == (if s@[0] == '+' {
                s@.drop_first()
            } else {
                s@
            }),
            acc as nat == dec_value(d.take(i - start)),
            all_digits(d.take(i - start)),
            first_failure(d.take(i - start), usize::MAX as nat) is None,
        decreases s.len() - i,
    {
        let c = s[i];
        let ghost t = d.take(i + 1 - start);
        assert(t.drop_last() =~= d.take(i - start));
        assert(t.last() == c);
        if !('0' <= c && c <= '9') {
            proof {
                assert(first_failure(t, usize::MAX as nat) == Some(IntParseError::InvalidDigit));
                lemma_failure_prefix(d, i + 1 - start, usize::MAX as nat);
                lemma_no_failure(d, usize::MAX as nat);
            }
            return Err(IntParseError::InvalidDigit);
        }
        let dv = (c as u32 - '0' as u32) as usize;
        assert(dv == digit_value(c));
        assert(dec_value(t) == acc * 10 + digit_value(c));
        let next = match acc.checked_mul(10) {
            Some(m) => m.checked_add(dv),
            None => None,
        };
        match next {
            Some(a) => {
                acc = a;
            },
            None => {
                proof {
                    assert(dec_value(t) > usize::MAX);
                    assert(first_failure(t, usize::MAX as nat) == Some(IntParseError::PosOverflow));
                    lemma_failure_prefix(d, i + 1 - start, usize::MAX as nat);
                    lemma_no_failure(d, usize::MAX as nat);
                }
                return Err(IntParseError::PosOverflow);
            },
        }
        proof {
            lemma_no_failure(t, usize::MAX as nat);
            assert(all_digits(t)) by {
                assert forall|q: int| 0 <= q < t.len() implies is_digit(#[trigger] t[q]) by {
                    if q < t.len() - 1 {
                        assert(is_digit(d.take(i - start)[q]));
                    }
                }
            }
        }
        i = i + 1;
    }
    assert(d.take(i - start) =~= d);
    Ok(acc)
}

/// A failure in a prefix is the first failure of the whole.
proof fn lemma_failure_prefix(d: Seq<char>, k: int, max: nat)
    requires
        0 <= k <= d.len(),
        first_failure(d.take(k), max) is Some,
    ensures
        first_failure(d, max) == first_failure(d.take(k), max),
    decreases d.len() - k,
{
    if k < d.len() {
        assert(d.take(k + 1).drop_last() =~= d.take(k));
        lemma_failure_prefix(d, k + 1, max);
    } else {
        assert(d.take(k) =~= d);
    }
}

/// Why a class name is rejected: a bad block size, or no such class.
#[derive(Clone, Copy, Debug, PartialEq, Eq, Structural)]
pub enum ClassNameError {
    Number(IntParseError),
    UnknownVariant,
}

/// The name of a class.
pub open spec fn name_of_class(c: PlacementClass) -> Seq<char> {
    match c {
        PlacementClass::IntraL1 => "intra-l1"@,
        PlacementClass::IntraGroup => "intra-group"@,
        PlacementClass::InterGroup => "inter-group"@,
        PlacementClass::IntraGroupSameL1(n) => "intra-group-same-l1-"@ + dec_digits(n as nat),
        PlacementClass::InterGroupSameL1(n) => "inter-group-same-l1-"@ + dec_digits(n as nat),
    }
}

/// The class a name denotes.
pub open spec fn class_of_name(s: Seq<char>) -> Result<PlacementClass, ClassNameError> {
    if s == "intra-l1"@ {
        Ok(PlacementClass::IntraL1)
    } else if s == "intra-group"@ {
        Ok(PlacementClass::IntraGroup)
    } else if s == "inter-group"@ {
        Ok(PlacementClass::InterGroup)
    } else if has_prefix(s, "intra-group-same-l1-"@) {
        match parse_unsigned(s.skip(20), usize::MAX as nat) {
            Some(n) => Ok(PlacementClass::IntraGroupSameL1(n as usize)),
            None => Err(ClassNameError::Number(parse_error(s.skip(20), usize::MAX as nat))),
        }
    } else if has_prefix(s, "inter-group-same-l1-"@) {
        match parse_unsigned(s.skip(20), usize::MAX as nat) {
            Some(n) => Ok(PlacementClass::InterGroupSameL1(n as usize)),
            None => Err(ClassNameError::Number(parse_error(s.skip(20), usize::MAX as nat))),
        }
    } else {
        Err(ClassNameError::UnknownVariant)
    }
}

/// The class a name denotes.
pub fn class_from_name(raw: &str) -> (r: Result<PlacementClass, ClassNameError>)
    ensures
        r == class_of_name(raw@),
{
    let c = chars_of(raw);
    let a = chars_of("intra-l1");
    let b = chars_of("intra-group");
    let e = chars_of("inter-group");
    if crate::text::chars_eq(c.as_slice(), a.as_slice()) {
        return Ok(PlacementClass::IntraL1);
    }
    if crate::text::chars_eq(c.as_slice(), b.as_slice()) {
        return Ok(PlacementClass::IntraGroup);
    }
    if crate::text::chars_eq(c.as_slice(), e.as_slice()) {
        return Ok(PlacementClass::InterGroup);
    }
    let p1 = chars_of("intra-group-same-l1-");
    let p2 = chars_of("inter-group-same-l1-");
    proof {
        reveal_strlit("intra-group-same-l1-");
        reveal_strlit("inter-group-same-l1-");
    }
    if starts_with(c.as_slice(), p1.as_slice()) {
        let rest = slice_chars(c.as_slice(), 20, c.len());
        assert(rest@ =~= raw@.skip(20));
        return match parse_usize_why(rest.as_slice()) {
            Ok(n) => Ok(PlacementClass::IntraGroupSameL1(n)),
            Err(k) => Err(ClassNameError::Number(k)),
        };
    }
    if starts_with(c.as_slice(), p2.as_slice()) {
        let rest = slice_chars(c.as_slice(), 20, c.len());
        assert(rest@ =~= raw@.skip(20));
        return match parse_usize_why(rest.as_slice()) {
            Ok(n) => Ok(PlacementClass::InterGroupSameL1(n)),
            Err(k) => Err(ClassNameError::Number(k)),
        };
    }
    Err(ClassNameError::UnknownVariant)
}

/// The name of a class.
pub fn class_name(c: PlacementClass) -> (s: String)
    ensures
        s@ == name_of_class(c),
{
    match c {
        PlacementClass::IntraL1 => String::from_str("intra-l1"),
        PlacementClass::IntraGroup => String::from_str("intra-group"),
        PlacementClass::InterGroup => String::from_str("inter-group"),
        PlacementClass::IntraGroupSameL1(n) => {
            let mut v = chars_of("intra-group-same-l1-");
            let d = format_padded(n, 0);
            crate::text::extend_chars(&mut v, d.as_slice());
            string_of(v.as_slice())
        },
        PlacementClass::InterGroupSameL1(n) => {
            let mut v = chars_of("inter-group-same-l1-");
            let d = format_padded(n, 0);
            crate::text::extend_chars(&mut v, d.as_slice());
            string_of(v.as_slice())
        },
    }
}

proof fn lemma_dec_digits_value(n: nat)
    ensures
        dec_value(dec_digits(n)) == n,
        dec_digits(n).len() > 0,
        all_digits(dec_digits(n)),
        dec_digits(n)[0] != '+',
    decreases n,
{
    crate::nodelist::lemma_dec_digits_digits(n);
    if n < 10 {
        assert(dec_digits(n) == seq![digit_char(n)]);
        assert(dec_digits(n).drop_last() =~= Seq::<char>::empty());
        assert(dec_value(dec_digits(n).drop_last()) == 0);
        assert(digit_value(digit_char(n)) == n);
        assert(dec_value(dec_digits(n)) == dec_value(dec_digits(n).drop_last()) * 10 + digit_value(dec_digits(n).last()));
    } else {
        lemma_dec_digits_value(n / 10);
        let d = dec_digits(n);
        assert(d.drop_last() =~= dec_digits(n / 10));
        assert(digit_value(digit_char(n % 10)) == n % 10);
        assert(d.last() == digit_char(n % 10));
        assert(dec_value(d) == dec_value(d.drop_last()) * 10 + digit_value(d.last()));
        assert((n / 10) * 10 + n % 10 == n) by (nonlinear_arith);
        assert(d[0] == dec_digits(n / 10)[0]);
    }
}

/// Writing a class's name and reading it back gives the class.
pub proof fn lemma_class_name_round_trip(c: PlacementClass)
    ensures
        class_of_name(name_of_class(c)) == Ok::<PlacementClass, ClassNameError>(c),
{
    reveal_strlit("intra-l1");
    reveal_strlit("intra-group");
    reveal_strlit("inter-group");
    reveal_strlit("intra-group-same-l1-");
    reveal_strlit("inter-group-same-l1-");
    match c {
        PlacementClass::IntraGroupSameL1(n) => {
            let s = name_of_class(c);
            lemma_dec_digits_value(n as nat);
            assert(s.skip(20) =~= dec_digits(n as nat));
            assert(s.take(20) =~= "intra-group-same-l1-"@);
            assert(s != "intra-l1"@ && s != "intra-group"@ && s != "inter-group"@) by {
                assert(s.len() > 11);
            }
        },
        PlacementClass::InterGroupSameL1(n) => {
            let s = name_of_class(c);
            lemma_dec_digits_value(n as nat);
            assert(s.skip(20) =~= dec_digits(n as nat));
            assert(s.take(20) =~= "inter-group-same-l1-"@);
            assert(s != "intra-l1"@ && s != "intra-group"@ && s != "inter-group"@) by {
                assert(s.len() > 11);
            }
            assert(!has_prefix(s, "intra-group-same-l1-"@)) by {
                assert(s.take(20)[3] != "intra-group-same-l1-"@[3]);
            }
        },
        PlacementClass::IntraGroup => {
            assert("intra-group"@ != "intra-l1"@) by {
                assert("intra-group"@.len() != "intra-l1"@.len());
            }
        },
        PlacementClass::InterGroup => {
            assert("inter-group"@ != "intra-l1"@) by {
                assert("inter-group"@.len() != "intra-l1"@.len());
            }
            assert("inter-group"@ != "intra-group"@) by {
                assert("inter-group"@[3] != "intra-group"@[3]);
            }
        },
        PlacementClass::IntraL1 => {},
    }
}

} // verus!
