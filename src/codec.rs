use vstd::prelude::*;
use vstd::utf8::is_scalar;
use crate::lemmas::lemma_index_of_unique;
use crate::model::over;

verus! {

/// The value of the digit string `s` in the base whose digits are `t`, in order.
pub open spec fn value(s: Seq<char>, t: Seq<char>) -> nat
    decreases s.len(),
{
    if s.len() == 0 {
        0
    } else {
        value(s.drop_last(), t) * t.len() + t.index_of(s.last()) as nat
    }
}

/// The shortest digit string of `v` in the base whose digits are `t`: zero is `t[0]`.
pub open spec fn numeral(v: nat, t: Seq<char>) -> Seq<char>
    decreases v via numeral_decreases
{
    if t.len() < 2 || v < t.len() {
        seq![t[v as int]]
    } else {
        numeral(v / t.len(), t).push(t[(v % t.len()) as int])
    }
}

#[via_fn]
proof fn numeral_decreases(v: nat, t: Seq<char>) {
    if !(t.len() < 2 || v < t.len()) {
        assert(v / t.len() < v) by (nonlinear_arith)
            requires
                t.len() >= 2,
                v >= t.len(),
        ;
    }
}

/// The ten decimal digits.
pub open spec fn decimal_digits() -> Seq<char> {
    seq!['0', '1', '2', '3', '4', '5', '6', '7', '8', '9']
}

/// A numeral is a non-empty string over its digits, and it reads back as its value.
pub proof fn lemma_numeral(v: nat, t: Seq<char>)
    requires
        t.len() >= 2,
        t.no_duplicates(),
    ensures
        numeral(v, t).len() >= 1,
        over(t, numeral(v, t)),
        value(numeral(v, t), t) == v,
    decreases v,
{
    let b = t.len();
    if v < b {
        let s = numeral(v, t);
        lemma_index_of_unique(t, v as int);
        assert(s.drop_last() =~= Seq::<char>::empty());
        assert(t.contains(s[0]));
        assert(value(s.drop_last(), t) == 0);
        assert(value(s, t) == value(s.drop_last(), t) * b + t.index_of(s.last()) as nat);
    } else {
        assert(v / b < v) by (nonlinear_arith)
            requires
                b >= 2,
                v >= b,
        ;
        lemma_numeral(v / b, t);
        let p = numeral(v / b, t);
        let s = p.push(t[(v % b) as int]);
        assert(0 <= v % b < b);
        lemma_index_of_unique(t, (v % b) as int);
        assert(s.drop_last() =~= p);
        assert(v == (v / b) * b + v % b) by (nonlinear_arith)
            requires
                b >= 2,
        ;
        assert(s.last() == t[(v % b) as int]);
        assert(value(s, t) == value(p, t) * b + t.index_of(s.last()) as nat);
        assert forall|i: int| 0 <= i < s.len() implies t.contains(#[trigger] s[i]) by {
            if i < p.len() {
                assert(t.contains(p[i]));
            } else {
                assert(t.contains(t[(v % b) as int]));
            }
        }
    }
}

/// Relies on `anybase::convert_base`: reads `input` as a number written with the digits of
/// `src_table` and writes it, without leading zeros, with the digits of `dst_table`.
/// It fails exactly when `input` holds a character outside `src_table`. Both tables
/// must be free of repeats; a one-digit destination table would never terminate.
#[verifier::external_body]
pub(crate) fn convert_base(input: &str, src_table: &str, dst_table: &str) -> (r: Result<
    String,
    String,
>)
    requires
        src_table@.len() >= 1,
        src_table@.no_duplicates(),
        dst_table@.len() >= 2,
        dst_table@.no_duplicates(),
    ensures
        r is Ok <==> over(src_table@, input@),
        r matches Ok(s) ==> s@ == numeral(value(input@, src_table@), dst_table@),
{
    anybase::convert_base(input, src_table, dst_table)
}

/// Relies on `u32`'s `to_string`: the decimal digits of `n`, without leading zeros.
#[verifier::external_body]
pub(crate) fn decimal_of(n: u32) -> (r: String)
    ensures
        r@ == numeral(n as nat, decimal_digits()),
{
    n.to_string()
}

/// Relies on `u32::from_str`: a non-empty string of decimal digits parses to its value,
/// unless that value overflows `u32`.
#[verifier::external_body]
pub(crate) fn parse_decimal(s: &str) -> (r: Option<u32>)
    requires
        s@.len() >= 1,
        over(decimal_digits(), s@),
    ensures
        r is Some <==> value(s@, decimal_digits()) <= u32::MAX,
        r matches Some(v) ==> v == value(s@, decimal_digits()),
{
    <u32 as std::str::FromStr>::from_str(s).ok()
}

/// Relies on `char::from_u32`: the character with code point `v`, where `v` is a Unicode
/// scalar value.
#[verifier::external_body]
pub(crate) fn char_of(v: u32) -> (r: Option<char>)
    ensures
        r is Some <==> is_scalar(v),
        r matches Some(c) ==> c as u32 == v,
{
    char::from_u32(v)
}

} // verus!
