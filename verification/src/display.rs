//! Texts built for display: user ids, shortened fingerprints and numbers.
use vstd::prelude::*;
use vstd::string::StringSliceAdditionalSpecFns;
use vstd::utf8::{decode_utf8, encode_utf8_decode_utf8, is_char_boundary};
use crate::text::{chars_of, extend_chars, push_char, string_of, trim, trim_chars};

verus! {

broadcast use vstd::string::group_string_axioms;

/// The user id of a new key: "name <email>", or whichever of the two is
/// given, each with surrounding white space removed.
pub open spec fn uid_of(name: Seq<char>, email: Seq<char>) -> Seq<char> {
    let n = trim(name);
    let e = trim(email);
    if n.len() > 0 && e.len() > 0 {
        n + seq![' ', '<'] + e + seq!['>']
    } else if n.len() > 0 {
        n
    } else {
        e
    }
}

/// Builds the user id of a new key from a name and an email address.
pub fn build_uid(name: &str, email: &str) -> (r: String)
    ensures
        r@ == uid_of(name@, email@),
{
    let n = trim_chars(&chars_of(name));
    let e = trim_chars(&chars_of(email));
    let mut out: Vec<char> = Vec::new();
    if n.len() > 0 && e.len() > 0 {
        extend_chars(&mut out, &n);
        out.push(' ');
        out.push('<');
        extend_chars(&mut out, &e);
        out.push('>');
        assert(out@ =~= n@ + seq![' ', '<'] + e@ + seq!['>']);
    } else if n.len() > 0 {
        extend_chars(&mut out, &n);
        assert(out@ =~= n@);
    } else {
        extend_chars(&mut out, &e);
        assert(out@ =~= e@);
    }
    string_of(&out)
}

/// The user id is empty exactly when both the name and the email address
/// are empty once surrounding white space is removed.
pub proof fn lemma_uid_empty_iff_no_name_or_email(name: Seq<char>, email: Seq<char>)
    ensures
        uid_of(name, email).len() == 0 <==> (trim(name).len() == 0 && trim(email).len() == 0),
{
}

/// The fingerprint can be shortened: either it is at most 20 bytes long or
/// bytes 10 and `len - 10` start characters.
pub open spec fn shortens(bytes: Seq<u8>) -> bool {
    bytes.len() > 20 ==> is_char_boundary(bytes, 10) && is_char_boundary(bytes, bytes.len() - 10)
}

/// A fingerprint of at most 20 bytes as it is; a longer one as its first and
/// last 10 bytes with an ellipsis between them.
pub open spec fn short_fingerprint_of(bytes: Seq<u8>) -> Seq<char> {
    if bytes.len() <= 20 {
        decode_utf8(bytes)
    } else {
        decode_utf8(bytes.subrange(0, 10)) + seq!['\u{2026}'] + decode_utf8(
            bytes.subrange(bytes.len() - 10, bytes.len() as int),
        )
    }
}

/// Whether `fpr` can be shortened by [`short_fingerprint`].
pub fn fingerprint_shortens(fpr: &str) -> (b: bool)
    ensures
        b == shortens(fpr.spec_bytes()),
{
    let n = fpr.as_bytes().len();
    n <= 20 || (fpr.is_char_boundary(10) && fpr.is_char_boundary(n - 10))
}

/// Shortens a fingerprint for display: at most 20 bytes unchanged, else the
/// first and last 10 bytes joined by an ellipsis.
pub fn short_fingerprint(fpr: &str) -> (r: String)
    requires
        shortens(fpr.spec_bytes()),
    ensures
        r@ == short_fingerprint_of(fpr.spec_bytes()),
        fpr.spec_bytes().len() <= 20 ==> r@ == fpr@,
{
    proof {
        encode_utf8_decode_utf8(fpr@);
    }
    let n = fpr.as_bytes().len();
    if n <= 20 {
        return fpr.to_owned();
    }
    let (head, _) = fpr.split_at(10);
    let (_, tail) = fpr.split_at(n - 10);
    proof {
        encode_utf8_decode_utf8(head@);
        encode_utf8_decode_utf8(tail@);
    }
    let mut out = head.to_owned();
    push_char(&mut out, '\u{2026}');
    out.append(tail);
    out
}

/// The decimal digit for `d` (0 to 9).
pub open spec fn digit_char(d: nat) -> char {
    if d == 0 {
        '0'
    } else if d == 1 {
        '1'
    } else if d == 2 {
        '2'
    } else if d == 3 {
        '3'
    } else if d == 4 {
        '4'
    } else if d == 5 {
        '5'
    } else if d == 6 {
        '6'
    } else if d == 7 {
        '7'
    } else if d == 8 {
        '8'
    } else {
        '9'
    }
}

/// The decimal notation of `n`, without leading zeros.
pub open spec fn decimal(n: nat) -> Seq<char>
    decreases n,
{
    if n < 10 {
        seq![digit_char(n)]
    } else {
        decimal(n / 10).push(digit_char(n % 10))
    }
}

fn digit(d: usize) -> (c: char)
    requires
        d < 10,
    ensures
        c == digit_char(d as nat),
{
    if d == 0 {
        '0'
    } else if d == 1 {
        '1'
    } else if d == 2 {
        '2'
    } else if d == 3 {
        '3'
    } else if d == 4 {
        '4'
    } else if d == 5 {
        '5'
    } else if d == 6 {
        '6'
    } else if d == 7 {
        '7'
    } else if d == 8 {
        '8'
    } else {
        '9'
    }
}

/// Appends the decimal notation of `n` to `out`.
pub fn push_decimal(out: &mut Vec<char>, n: usize)
    ensures
        final(out)@ == old(out)@ + decimal(n as nat),
    decreases n,
{
    if n >= 10 {
        push_decimal(out, n / 10);
    }
    out.push(digit(n % 10));
    assert(out@ =~= old(out)@ + decimal(n as nat));
}

} // verus!
