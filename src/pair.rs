//! Grammar of the command-line pairs `<left><sep><right>`, such as the
//! image size `"1000x750"` or a corner point of the plane.

use vstd::prelude::*;

verus! {

/// The text before and after the first `sep` of `s`, or `None` where `s`
/// holds no `sep`.
pub open spec fn pair_parts(s: Seq<char>, sep: char) -> Option<(Seq<char>, Seq<char>)> {
    match s.index_of_first(sep) {
        None => None,
        Some(i) => Some((s.take(i), s.skip(i + 1))),
    }
}

/// An ASCII decimal digit.
pub open spec fn is_digit(c: char) -> bool {
    '0' <= c && c <= '9'
}

/// Value of a run of decimal digits.
pub open spec fn digits_value(d: Seq<char>) -> nat
    decreases d.len(),
{
    if d.len() == 0 {
        0
    } else {
        digits_value(d.drop_last()) * 10 + ((d.last() as u32) - ('0' as u32)) as nat
    }
}

/// The digits of an unsigned literal: all of `s` but a leading `+`.
pub open spec fn literal_digits(s: Seq<char>) -> Seq<char> {
    if s.len() > 0 && s[0] == '+' {
        s.skip(1)
    } else {
        s
    }
}

/// `s` is an unsigned decimal literal: an optional `+`, then one or more
/// ASCII digits.
pub open spec fn is_unsigned_literal(s: Seq<char>) -> bool {
    let d = literal_digits(s);
    &&& d.len() > 0
    &&& forall|i: int| 0 <= i < d.len() ==> is_digit(#[trigger] d[i])
}

/// The `usize` that `s` denotes, or `None` where `s` is no unsigned literal
/// or its value does not fit.
pub open spec fn usize_literal(s: Seq<char>) -> Option<usize> {
    if is_unsigned_literal(s) && digits_value(literal_digits(s)) <= usize::MAX {
        Some(digits_value(literal_digits(s)) as usize)
    } else {
        None
    }
}

/// The pair of `usize` that `s` denotes with separator `sep`.
pub open spec fn usize_pair(s: Seq<char>, sep: char) -> Option<(usize, usize)> {
    match pair_parts(s, sep) {
        None => None,
        Some((l, r)) => match (usize_literal(l), usize_literal(r)) {
            (Some(a), Some(b)) => Some((a, b)),
            _ => None,
        },
    }
}

/// Relies on `str::parse::<usize>` (`usize::from_str`): an optional `+`
/// followed by decimal digits only, whose value fits in `usize`; any other
/// text is an error.
#[verifier::external_body]
fn parse_usize(s: &str) -> (r: Option<usize>)
    ensures
        r == usize_literal(s@),
{
    s.parse::<usize>().ok()
}

/// Relies on `str::parse::<T>` (`T::from_str`); what it accepts is up to `T`.
#[verifier::external_body]
fn parse_value<T: std::str::FromStr>(s: &str) -> Option<T> {
    s.parse::<T>().ok()
}

/// Splits `s` at its first `separator`: the text before it and the text
/// after it, or `None` where `s` holds no `separator`.
pub fn split_pair<'a>(s: &'a str, separator: char) -> (r: Option<(&'a str, &'a str)>)
    ensures
        match (pair_parts(s@, separator), r) {
            (None, None) => true,
            (Some((left, right)), Some((a, b))) => a@ == left && b@ == right,
            _ => false,
        },
{
    let n = s.unicode_len();
    let mut i: usize = 0;
    while i < n
        invariant
            n == s@.len(),
            i <= n,
            forall|j: int| 0 <= j < i ==> s@[j] != separator,
        decreases n - i,
    {
        if s.get_char(i) == separator {
            let left = s.substring_char(0, i);
            let right = s.substring_char(i + 1, n);
            proof {
                assert(s@[i as int] == separator);
                assert(s@.contains(separator));
                s@.index_of_first_ensures(separator);
                let k = s@.index_of_first(separator).unwrap();
                assert(s@[k] == separator);
                if k < i {
                    assert(s@[k] != separator);
                }
                assert(k == i as int);
                assert(left@ =~= s@.take(i as int));
                assert(right@ =~= s@.skip(i + 1));
            }
            return Some((left, right));
        }
        i = i + 1;
    }
    proof {
        assert(!s@.contains(separator));
        s@.index_of_first_ensures(separator);
    }
    None
}

/// Both values, where both sides of a pair parsed.
pub fn zip_parsed<T>(left: Option<T>, right: Option<T>) -> (r: Option<(T, T)>)
    ensures
        r == match (left, right) {
            (Some(a), Some(b)) => Some((a, b)),
            _ => None,
        },
{
    match (left, right) {
        (Some(a), Some(b)) => Some((a, b)),
        _ => None,
    }
}

/// Parses `s` as `<left><separator><right>`, both sides as `T`. There is no
/// pair where `s` holds no `separator`; the text after the first one must
/// parse as a whole, so where `T`'s syntax has no `separator` a second one
/// fails too.
pub fn parse_pair<T: std::str::FromStr>(s: &str, separator: char) -> (r: Option<(T, T)>)
    ensures
        pair_parts(s@, separator) is None ==> r is None,
{
    match split_pair(s, separator) {
        None => None,
        Some((left, right)) => zip_parsed(parse_value::<T>(left), parse_value::<T>(right)),
    }
}

/// Parses `s` as a pair of unsigned integers `<left><separator><right>`,
/// such as the size `"1000x750"`.
pub fn parse_usize_pair(s: &str, separator: char) -> (r: Option<(usize, usize)>)
    ensures
        r == usize_pair(s@, separator),
{
    match split_pair(s, separator) {
        None => None,
        Some((left, right)) => zip_parsed(parse_usize(left), parse_usize(right)),
    }
}

/// A character that no unsigned literal holds.
pub open spec fn is_separator_char(c: char) -> bool {
    !is_digit(c) && c != '+'
}

proof fn lemma_literal_lacks(s: Seq<char>, c: char)
    requires
        is_unsigned_literal(s),
        is_separator_char(c),
    ensures
        !s.contains(c),
{
    let d = literal_digits(s);
    assert forall|j: int| 0 <= j < s.len() implies s[j] != c by {
        if s.len() > 0 && s[0] == '+' {
            if j > 0 {
                assert(s[j] == d[j - 1]);
            }
        } else {
            assert(s[j] == d[j]);
        }
    }
}

/// A pair of unsigned integers is read only from text that holds its
/// separator exactly once, and only where both sides are literals: any
/// other text gives no pair.
pub proof fn lemma_usize_pair_needs_one_separator(s: Seq<char>, sep: char)
    requires
        is_separator_char(sep),
    ensures
        usize_pair(s, sep) is Some ==> exists|i: int|
            0 <= i < s.len() && s[i] == sep && forall|j: int|
                0 <= j < s.len() && j != i ==> #[trigger] s[j] != sep,
        !s.contains(sep) ==> usize_pair(s, sep) is None,
        pair_parts(s, sep) matches Some((l, r)) && (usize_literal(l) is None || usize_literal(r)
            is None) ==> usize_pair(s, sep) is None,
{
    s.index_of_first_ensures(sep);
    if usize_pair(s, sep) is Some {
        let i = s.index_of_first(sep).unwrap();
        let r = s.skip(i + 1);
        lemma_literal_lacks(r, sep);
        assert forall|j: int| 0 <= j < s.len() && j != i implies #[trigger] s[j] != sep by {
            if j > i {
                assert(s[j] == r[j - i - 1]);
            }
        }
    }
}

/// Text made of two unsigned literals around a separator reads as the pair
/// of their values.
pub proof fn lemma_usize_pair_of_literals(a: Seq<char>, b: Seq<char>, sep: char)
    requires
        is_separator_char(sep),
        usize_literal(a) is Some,
        usize_literal(b) is Some,
    ensures
        usize_pair(a + seq![sep] + b, sep) == Some(
            (usize_literal(a).unwrap(), usize_literal(b).unwrap()),
        ),
{
    let s = a + seq![sep] + b;
    lemma_literal_lacks(a, sep);
    assert(s[a.len() as int] == sep);
    assert(s.contains(sep));
    s.index_of_first_ensures(sep);
    let k = s.index_of_first(sep).unwrap();
    if k < a.len() {
        assert(s[k] == a[k]);
    }
    assert(k == a.len());
    assert(s.take(k) =~= a);
    assert(s.skip(k + 1) =~= b);
}

} // verus!
