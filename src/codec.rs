//! Converting typed attribute values to and from their text.
use vstd::prelude::*;
use crate::parse::chars_of;
use crate::reader::ReadError;
use crate::schema::chars_eq;

verus! {

/// The value of a decimal digit, or -1 for another character.
pub open spec fn digit_val(c: char) -> int {
    if c == '0' { 0 }
    else if c == '1' { 1 }
    else if c == '2' { 2 }
    else if c == '3' { 3 }
    else if c == '4' { 4 }
    else if c == '5' { 5 }
    else if c == '6' { 6 }
    else if c == '7' { 7 }
    else if c == '8' { 8 }
    else if c == '9' { 9 }
    else { -1 }
}

/// The digit of a value below ten.
pub open spec fn digit_char(d: int) -> char {
    if d == 0 { '0' }
    else if d == 1 { '1' }
    else if d == 2 { '2' }
    else if d == 3 { '3' }
    else if d == 4 { '4' }
    else if d == 5 { '5' }
    else if d == 6 { '6' }
    else if d == 7 { '7' }
    else if d == 8 { '8' }
    else { '9' }
}

/// A non-empty run of decimal digits.
pub open spec fn is_decimal(s: Seq<char>) -> bool {
    s.len() > 0 && forall|i: int| 0 <= i < s.len() ==> digit_val(#[trigger] s[i]) >= 0
}

/// The number that a run of decimal digits denotes.
pub open spec fn decimal_value(s: Seq<char>) -> int
    decreases s.len(),
{
    if s.len() == 0 {
        0
    } else {
        decimal_value(s.drop_last()) * 10 + digit_val(s.last())
    }
}

/// The shortest decimal text of a number.
pub open spec fn decimal_of(v: nat) -> Seq<char>
    decreases v,
{
    if v < 10 {
        seq![digit_char(v as int)]
    } else {
        decimal_of(v / 10).push(digit_char((v % 10) as int))
    }
}

fn digit_of(d: u64) -> (c: char)
    requires
        d < 10,
    ensures
        c == digit_char(d as int),
        digit_val(c) == d,
{
    if d == 0 { '0' }
    else if d == 1 { '1' }
    else if d == 2 { '2' }
    else if d == 3 { '3' }
    else if d == 4 { '4' }
    else if d == 5 { '5' }
    else if d == 6 { '6' }
    else if d == 7 { '7' }
    else if d == 8 { '8' }
    else { '9' }
}

fn value_of(c: char) -> (r: Option<u64>)
    ensures
        match r {
            Some(d) => d < 10 && digit_val(c) == d,
            None => digit_val(c) < 0,
        },
{
    if c == '0' { Some(0) }
    else if c == '1' { Some(1) }
    else if c == '2' { Some(2) }
    else if c == '3' { Some(3) }
    else if c == '4' { Some(4) }
    else if c == '5' { Some(5) }
    else if c == '6' { Some(6) }
    else if c == '7' { Some(7) }
    else if c == '8' { Some(8) }
    else if c == '9' { Some(9) }
    else { None }
}

/// The decimal text of an integer attribute value.
pub fn encode_u64(v: u64) -> (r: Vec<char>)
    ensures
        r@ == decimal_of(v as nat),
    decreases v,
{
    if v < 10 {
        let mut r: Vec<char> = Vec::new();
        r.push(digit_of(v));
        assert(r@ =~= decimal_of(v as nat));
        r
    } else {
        let mut r = encode_u64(v / 10);
        r.push(digit_of(v % 10));
        r
    }
}

proof fn lemma_prefix_value(s: Seq<char>, i: int)
    requires
        0 <= i <= s.len(),
        forall|j: int| 0 <= j < s.len() ==> digit_val(#[trigger] s[j]) >= 0,
    ensures
        decimal_value(s) >= decimal_value(s.subrange(0, i)),
    decreases s.len() - i,
{
    if i < s.len() {
        lemma_prefix_value(s, i + 1);
        let pre = s.subrange(0, i + 1);
        assert(pre.drop_last() =~= s.subrange(0, i));
        assert(pre.last() == s[i]);
        let a = decimal_value(s.subrange(0, i));
        let d = digit_val(s[i]);
        assert(a >= 0) by {
            lemma_value_nonneg(s.subrange(0, i));
        }
        assert(d >= 0);
        assert(decimal_value(pre) == a * 10 + d);
        assert(a * 10 + d >= a) by (nonlinear_arith)
            requires
                a >= 0,
                d >= 0,
        ;
    } else {
        assert(s.subrange(0, i) =~= s);
    }
}

proof fn lemma_value_nonneg(s: Seq<char>)
    requires
        forall|j: int| 0 <= j < s.len() ==> digit_val(#[trigger] s[j]) >= 0,
    ensures
        decimal_value(s) >= 0,
    decreases s.len(),
{
    if s.len() > 0 {
        lemma_value_nonneg(s.drop_last());
    }
}

/// Reads an integer attribute value: a non-empty run of decimal digits whose
/// value fits in 64 bits.
pub fn decode_u64(t: &Vec<char>) -> (r: Result<u64, ReadError>)
    ensures
        r == if is_decimal(t@) && decimal_value(t@) <= u64::MAX {
            Ok::<u64, ReadError>(decimal_value(t@) as u64)
        } else {
            Err::<u64, ReadError>(ReadError::InvalidAttributeValue)
        },
{
    if t.len() == 0 {
        return Err(ReadError::InvalidAttributeValue);
    }
    let mut v: u64 = 0;
    let mut i: usize = 0;
    while i < t.len()
        invariant
            i <= t@.len(),
            forall|j: int| 0 <= j < i ==> digit_val(#[trigger] t@[j]) >= 0,
            v == decimal_value(t@.subrange(0, i as int)),
        decreases t@.len() - i,
    {
        assert(t@.subrange(0, i + 1).drop_last() =~= t@.subrange(0, i as int));
        match value_of(t[i]) {
            None => {
                return Err(ReadError::InvalidAttributeValue);
            },
            Some(d) => {
                if v > (u64::MAX - d) / 10 {
                    proof {
                        assert(v * 10 + d > u64::MAX) by (nonlinear_arith)
                            requires
                                v > (u64::MAX - d) / 10,
                                d < 10,
                        ;
                        if forall|j: int| 0 <= j < t@.len() ==> digit_val(#[trigger] t@[j]) >= 0 {
                            lemma_prefix_value(t@, i + 1);
                        }
                    }
                    return Err(ReadError::InvalidAttributeValue);
                }
                assert(v * 10 + d <= u64::MAX) by (nonlinear_arith)
                    requires
                        v <= (u64::MAX - d) / 10,
                        d < 10,
                ;
                v = v * 10 + d;
            },
        }
        i = i + 1;
    }
    assert(t@.subrange(0, i as int) =~= t@);
    Ok(v)
}

/// The text of a boolean.
pub open spec fn bool_text(b: bool) -> Seq<char> {
    if b {
        "true"@
    } else {
        "false"@
    }
}

/// The boolean that a text denotes, if any.
pub open spec fn bool_of(t: Seq<char>) -> Option<bool> {
    if t == "true"@ {
        Some(true)
    } else if t == "false"@ {
        Some(false)
    } else {
        None
    }
}

/// The text of a boolean attribute value.
pub fn encode_bool(b: bool) -> (r: Vec<char>)
    ensures
        r@ == bool_text(b),
{
    if b {
        chars_of("true")
    } else {
        chars_of("false")
    }
}

/// Reads a boolean attribute value: `true` or `false`.
pub fn decode_bool(t: &Vec<char>) -> (r: Result<bool, ReadError>)
    ensures
        r == match bool_of(t@) {
            Some(b) => Ok::<bool, ReadError>(b),
            None => Err::<bool, ReadError>(ReadError::InvalidAttributeValue),
        },
{
    if chars_eq(t, &chars_of("true")) {
        Ok(true)
    } else if chars_eq(t, &chars_of("false")) {
        Ok(false)
    } else {
        Err(ReadError::InvalidAttributeValue)
    }
}

/// Decoding the text of an integer gives the integer back.
pub proof fn lemma_u64_round_trip(v: u64)
    ensures
        is_decimal(decimal_of(v as nat)),
        decimal_value(decimal_of(v as nat)) == v,
{
    lemma_decimal_of(v as nat);
}

proof fn lemma_decimal_of(v: nat)
    ensures
        is_decimal(decimal_of(v)),
        decimal_value(decimal_of(v)) == v,
    decreases v,
{
    if v >= 10 {
        lemma_decimal_of(v / 10);
        let s = decimal_of(v);
        assert(s.drop_last() =~= decimal_of(v / 10));
        assert(digit_val(digit_char((v % 10) as int)) == v % 10);
        assert(s.last() == digit_char((v % 10) as int));
        assert((v / 10) * 10 + v % 10 == v) by (nonlinear_arith);
        assert(decimal_value(s) == decimal_value(s.drop_last()) * 10 + digit_val(s.last()));
        assert forall|i: int| 0 <= i < s.len() implies digit_val(#[trigger] s[i]) >= 0 by {
            if i < s.len() - 1 {
                assert(s[i] == decimal_of(v / 10)[i]);
            }
        }
    } else {
        let s = decimal_of(v);
        assert(digit_val(digit_char(v as int)) == v);
        assert(s.drop_last() =~= Seq::<char>::empty());
        assert(decimal_value(s) == decimal_value(s.drop_last()) * 10 + digit_val(s.last()));
    }
}

/// Decoding the text of a boolean gives the boolean back.
pub proof fn lemma_bool_round_trip(b: bool)
    ensures
        bool_of(bool_text(b)) == Some(b),
{
    reveal_strlit("true");
    reveal_strlit("false");
    assert("true"@.len() != "false"@.len());
}

} // verus!
