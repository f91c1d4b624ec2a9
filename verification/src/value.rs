//! The shared document model: one tagged union for a parsed configuration
//! node, whichever format produced it, together with the text rendering of
//! leaf nodes.

use vstd::prelude::*;

use crate::chars::push_char;

verus! {

/// One node of a parsed configuration document.
///
/// Every format adapter produces this shape: scalars are leaves, and the
/// two container variants carry their children in document order. A number
/// that fits `i64` is carried as [`ConfigValue::Int`] and rendered by this crate;
/// any other numeric value arrives already rendered by the source parser
/// as [`ConfigValue::Number`].
pub enum ConfigValue {
    /// An absent value; renders as the empty string.
    Null,
    /// A boolean; renders as `true` or `false`.
    Bool(bool),
    /// An integer; renders as its decimal digits, with `-` when negative.
    Int(i64),
    /// A number outside `i64`, carried as the source parser rendered it.
    Number(String),
    /// A string leaf; renders as its literal content.
    Text(String),
    /// An ordered list of child values.
    Sequence(Vec<ConfigValue>),
    /// Key-value pairs in document order; keys are unique within one mapping.
    Mapping(Vec<(String, ConfigValue)>),
}

/// The decimal digit character for `d`.
pub open spec fn digit_char(d: nat) -> char {
    if d == 0 {
        '0'
    } else if d == 1 {
        '1'
    } else if d == 2 {
        '2'
    } else if d == 3 {
        '3'
    } else if d == 4 {
        '4'
    } else if d == 5 {
        '5'
    } else if d == 6 {
        '6'
    } else if d == 7 {
        '7'
    } else if d == 8 {
        '8'
    } else {
        '9'
    }
}

/// The decimal digits of `n`, most significant first, without a sign and
/// without leading zeros (except for `n == 0`, which is `"0"`).
pub open spec fn dec_digits(n: nat) -> Seq<char>
    decreases n,
{
    if n < 10 {
        seq![digit_char(n)]
    } else {
        dec_digits(n / 10).push(digit_char(n % 10))
    }
}

/// The decimal text of a signed integer: a `-` sign when negative, then
/// the digits of its magnitude.
pub open spec fn int_text(n: int) -> Seq<char> {
    if n < 0 {
        seq!['-'] + dec_digits((-n) as nat)
    } else {
        dec_digits(n as nat)
    }
}

/// The text of `true` and `false`.
pub open spec fn bool_text(b: bool) -> Seq<char> {
    if b {
        seq!['t', 'r', 'u', 'e']
    } else {
        seq!['f', 'a', 'l', 's', 'e']
    }
}

/// Whether `v` is a leaf (carries no children).
pub open spec fn is_leaf(v: ConfigValue) -> bool {
    match v {
        ConfigValue::Sequence(_) => false,
        ConfigValue::Mapping(_) => false,
        _ => true,
    }
}

/// The text a leaf renders to: strings verbatim, numbers in decimal,
/// booleans as `true`/`false`, null as the empty string.
pub open spec fn leaf_text(v: ConfigValue) -> Seq<char>
    recommends
        is_leaf(v),
{
    match v {
        ConfigValue::Null => Seq::empty(),
        ConfigValue::Bool(b) => bool_text(b),
        ConfigValue::Int(n) => int_text(n as int),
        ConfigValue::Number(s) => s@,
        ConfigValue::Text(s) => s@,
        _ => Seq::empty(),
    }
}

/// How many leaves the tree `v` holds.
pub open spec fn leaf_count(v: ConfigValue) -> nat
    decreases v,
{
    match v {
        ConfigValue::Sequence(items) => leaf_count_all(items@),
        ConfigValue::Mapping(pairs) => leaf_count_pairs(pairs@),
        _ => 1,
    }
}

/// The sum of the leaf counts of the values of `items`.
pub open spec fn leaf_count_all(items: Seq<ConfigValue>) -> nat
    decreases items,
{
    if items.len() == 0 {
        0
    } else {
        leaf_count(items[0]) + leaf_count_all(items.drop_first())
    }
}

/// The sum of the leaf counts of the values of `pairs`.
pub open spec fn leaf_count_pairs(pairs: Seq<(String, ConfigValue)>) -> nat
    decreases pairs,
{
    if pairs.len() == 0 {
        0
    } else {
        leaf_count(pairs[0].1) + leaf_count_pairs(pairs.drop_first())
    }
}

/// The exec counterpart of [`digit_char`].
fn digit_to_char(d: u64) -> (c: char)
    requires
        d < 10,
    ensures
        c == digit_char(d as nat),
{
    if d == 0 {
        '0'
    } else if d == 1 {
        '1'
    } else if d == 2 {
        '2'
    } else if d == 3 {
        '3'
    } else if d == 4 {
        '4'
    } else if d == 5 {
        '5'
    } else if d == 6 {
        '6'
    } else if d == 7 {
        '7'
    } else if d == 8 {
        '8'
    } else {
        '9'
    }
}

/// Appends the decimal digits of `n` to `out`.
fn push_u64_digits(n: u64, out: &mut String)
    ensures
        final(out)@ == old(out)@ + dec_digits(n as nat),
    decreases n,
{
    if n >= 10 {
        push_u64_digits(n / 10, out);
    }
    push_char(out, digit_to_char(n % 10));
}

/// Appends the decimal digits of the index `n` to `out`.
fn push_usize_digits(n: usize, out: &mut String)
    ensures
        final(out)@ == old(out)@ + dec_digits(n as nat),
    decreases n,
{
    if n >= 10 {
        push_usize_digits(n / 10, out);
    }
    let d = n % 10;
    push_char(out, digit_to_char(d as u64));
}

/// Renders a zero-based sequence index as decimal text.
pub fn usize_to_text(n: usize) -> (s: String)
    ensures
        s@ == dec_digits(n as nat),
{
    let mut out = String::new();
    push_usize_digits(n, &mut out);
    out
}

/// Renders a signed integer as decimal text; the one stringification rule
/// this crate owns rather than delegating to a source parser.
pub fn int_to_text(n: i64) -> (s: String)
    ensures
        s@ == int_text(n as int),
{
    let mut out = String::new();
    if n >= 0 {
        push_u64_digits(n as u64, &mut out);
    } else {
        push_char(&mut out, '-');
        let mag: u64 = if n == i64::MIN {
            9223372036854775808u64
        } else {
            (-n) as u64
        };
        assert(mag as nat == (-(n as int)) as nat);
        push_u64_digits(mag, &mut out);
    }
    out
}

} // verus!
