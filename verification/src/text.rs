//! Rendering of field values as text: the decimal form of numbers and the
//! display form of fields, used for span names, event messages and the
//! serialized field attribute.

use vstd::prelude::*;

use crate::activity::{Field, FieldV};

verus! {

/// The character for one decimal digit.
pub open spec fn digit_char(d: nat) -> char
    recommends
        d < 10,
{
    if d == 0 {
        '0'
    } else if d == 1 {
        '1'
    } else if d == 2 {
        '2'
    } else if d == 3 {
        '3'
    } else if d == 4 {
        '4'
    } else if d == 5 {
        '5'
    } else if d == 6 {
        '6'
    } else if d == 7 {
        '7'
    } else if d == 8 {
        '8'
    } else {
        '9'
    }
}

/// The decimal digits of a number, most significant first.
pub open spec fn dec_chars(n: nat) -> Seq<char>
    decreases n,
{
    if n < 10 {
        seq![digit_char(n)]
    } else {
        dec_chars(n / 10).push(digit_char(n % 10))
    }
}

fn digit_char_exec(d: u64) -> (r: char)
    requires
        d < 10,
    ensures
        r == digit_char(d as nat),
{
    match d {
        0 => '0',
        1 => '1',
        2 => '2',
        3 => '3',
        4 => '4',
        5 => '5',
        6 => '6',
        7 => '7',
        8 => '8',
        _ => '9',
    }
}

/// The decimal digits of `n`, most significant first.
pub fn u64_dec_chars(n: u64) -> (r: Vec<char>)
    ensures
        r@ == dec_chars(n as nat),
    decreases n,
{
    if n < 10 {
        let mut v: Vec<char> = Vec::new();
        v.push(digit_char_exec(n));
        proof {
            assert(v@ =~= dec_chars(n as nat));
        }
        v
    } else {
        let mut v = u64_dec_chars(n / 10);
        v.push(digit_char_exec(n % 10));
        proof {
            assert(v@ =~= dec_chars(n as nat));
        }
        v
    }
}

/// Relies on `String::from_iter` over `char`: builds the string holding
/// exactly the given characters in order.
#[verifier::external_body]
pub(crate) fn chars_to_string(chars: &Vec<char>) -> (r: String)
    ensures
        r@ == chars@,
{
    chars.iter().collect()
}

/// The decimal rendering of `n` as a `String`.
pub fn u64_to_string(n: u64) -> (r: String)
    ensures
        r@ == dec_chars(n as nat),
{
    let chars = u64_dec_chars(n);
    chars_to_string(&chars)
}

/// The display form of a field: text verbatim, numbers in decimal.
pub open spec fn field_chars(f: FieldV) -> Seq<char> {
    match f {
        FieldV::S(s) => s,
        FieldV::N(n) => dec_chars(n as nat),
    }
}

/// Render one field for display.
pub fn field_string(f: &Field) -> (r: String)
    ensures
        r@ == field_chars(f@),
{
    match f {
        Field::String(s) => s.clone(),
        Field::Num(n) => u64_to_string(*n),
    }
}

/// The display forms of a field sequence, in order.
pub open spec fn fields_chars(fields: Seq<FieldV>) -> Seq<Seq<char>> {
    fields.map_values(|f: FieldV| field_chars(f))
}

/// Render every field of a sequence for display, keeping order and count.
pub fn field_strings(fields: &Vec<Field>) -> (r: Vec<String>)
    ensures
        r@.len() == fields@.len(),
        forall|i: int|
            0 <= i < fields@.len() ==> #[trigger] r@[i]@ == field_chars(fields@[i]@),
{
    let mut out: Vec<String> = Vec::new();
    let mut i: usize = 0;
    while i < fields.len()
        invariant
            i <= fields.len(),
            out@.len() == i,
            forall|j: int| 0 <= j < i ==> #[trigger] out@[j]@ == field_chars(fields@[j]@),
        decreases fields.len() - i,
    {
        out.push(field_string(&fields[i]));
        i += 1;
    }
    out
}

} // verus!
