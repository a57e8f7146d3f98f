//! Small string helpers with contracts over the character view of strings.

use vstd::prelude::*;
use vstd::std_specs::iter::IteratorSpec;

verus! {

/// Whether two string slices hold the same characters, in the same order.
pub fn str_eq(a: &str, b: &str) -> (r: bool)
    ensures
        r == (a@ == b@),
{
    let x = chars_of(a);
    let y = chars_of(b);
    if x.len() != y.len() {
        return false;
    }
    let mut i: usize = 0;
    while i < x.len()
        invariant
            x@ == a@,
            y@ == b@,
            x@.len() == y@.len(),
            i <= x@.len(),
            forall|j: int| 0 <= j < i ==> x@[j] == y@[j],
        decreases x.len() - i,
    {
        if x[i] != y[i] {
            return false;
        }
        i = i + 1;
    }
    assert(a@ =~= b@);
    true
}

/// Collects a vector of characters into a `String` (`FromIterator<char>`);
/// the string holds exactly those characters, in order.
#[verifier::external_body]
pub fn string_from_chars(v: &Vec<char>) -> (s: String)
    ensures
        s@ == v@,
{
    v.iter().collect()
}

/// Copies a string slice into a new `String` with the same characters.
pub fn owned(s: &str) -> (r: String)
    ensures
        r@ == s@,
{
    String::from_str(s)
}

/// Concatenates two strings.
pub fn concat2(a: &str, b: &str) -> (r: String)
    ensures
        r@ == a@ + b@,
{
    let mut r = String::from_str(a);
    r.append(b);
    r
}

/// Concatenates three strings.
pub fn concat3(a: &str, b: &str, c: &str) -> (r: String)
    ensures
        r@ == a@ + b@ + c@,
{
    let mut r = String::from_str(a);
    r.append(b);
    r.append(c);
    r
}

/// The characters of a string slice as a vector.
pub fn chars_of(s: &str) -> (v: Vec<char>)
    ensures
        v@ == s@,
{
    let mut v: Vec<char> = Vec::new();
    let mut it = s.chars();
    let ghost all = s@;
    proof {
        broadcast use vstd::string::group_string_axioms;
    }
    loop
        invariant
            it.obeys_prophetic_iter_laws(),
            v@ + it.remaining() == all,
            it.decrease() is Some,
        ensures
            v@ == all,
        decreases it.decrease()->0,
    {
        match it.next() {
            Some(c) => {
                proof {
                    broadcast use vstd::string::group_string_axioms;
                }
                v.push(c);
                assert(v@ + it.remaining() =~= all);
            },
            None => {
                assert(v@ =~= all);
                break;
            },
        }
    }
    v
}

/// The character of a decimal digit.
pub open spec fn digit_char(d: nat) -> char {
    (48 + d) as char
}

/// The decimal digits of a natural number, most significant first.
pub open spec fn nat_digits(n: nat) -> Seq<char>
    decreases n,
{
    if n < 10 {
        seq![digit_char(n)]
    } else {
        nat_digits(n / 10).push(digit_char(n % 10))
    }
}

/// The decimal text of an integer, with a leading `-` when it is negative.
pub open spec fn spec_decimal(v: i64) -> Seq<char> {
    if v < 0 {
        seq!['-'] + nat_digits((-v) as nat)
    } else {
        nat_digits(v as nat)
    }
}

/// The text of one decimal digit.
fn digit_text(d: u64) -> (r: &'static str)
    requires
        d < 10,
    ensures
        r@ == seq![digit_char(d as nat)],
{
    proof {
        reveal_strlit("0");
        reveal_strlit("1");
        reveal_strlit("2");
        reveal_strlit("3");
        reveal_strlit("4");
        reveal_strlit("5");
        reveal_strlit("6");
        reveal_strlit("7");
        reveal_strlit("8");
        reveal_strlit("9");
    }
    match d {
        0 => "0",
        1 => "1",
        2 => "2",
        3 => "3",
        4 => "4",
        5 => "5",
        6 => "6",
        7 => "7",
        8 => "8",
        _ => "9",
    }
}

/// Appends the decimal digits of `n`, most significant first.
fn append_digits(out: &mut String, n: u64)
    ensures
        final(out)@ == old(out)@ + nat_digits(n as nat),
    decreases n,
{
    if n >= 10 {
        append_digits(out, n / 10);
    }
    out.append(digit_text(n % 10));
    proof {
        if n < 10 {
            assert(nat_digits(n as nat) == seq![digit_char(n as nat)]);
        }
    }
}

/// The decimal text of an integer, with a leading `-` when it is negative
/// and no leading zeros (what `i64::to_string` gives).
pub fn decimal(v: i64) -> (r: String)
    ensures
        r@ == spec_decimal(v),
{
    let mut out = String::new();
    if v < 0 {
        proof {
            reveal_strlit("-");
        }
        out.append("-");
        let m: u64 = (0i128 - v as i128) as u64;
        append_digits(&mut out, m);
    } else {
        append_digits(&mut out, v as u64);
    }
    out
}

/// The decimal digits of a count, without leading zeros (what
/// `usize::to_string` gives).
pub fn count_text(n: usize) -> (r: String)
    ensures
        r@ == nat_digits(n as nat),
{
    let mut out = String::new();
    append_digits(&mut out, n as u64);
    out
}

} // verus!
