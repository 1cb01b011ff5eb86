use vstd::prelude::*;
use vstd::string::{StrSliceExecFns, StringSliceAdditionalSpecFns};

verus! {

/// Appends `c` to `s`.
///
/// Trusted: `String::push`, which std documents as appending the given
/// char to the end of the string.
#[verifier::external_body]
pub fn push_char(s: &mut String, c: char)
    ensures
        final(s)@ == old(s)@.push(c),
{
    s.push(c);
}

/// The ASCII digit for `d`, below ten.
pub open spec fn digit_char(d: int) -> char {
    (48 + d) as char
}

/// Decimal digits of `n`, most significant first.
pub open spec fn decimal(n: nat) -> Seq<char>
    decreases n,
{
    if n < 10 {
        seq![digit_char(n as int)]
    } else {
        decimal(n / 10) + seq![digit_char((n % 10) as int)]
    }
}

fn digit(d: u64) -> (c: char)
    requires
        d < 10,
    ensures
        c == digit_char(d as int),
{
    match d {
        0 => '0',
        1 => '1',
        2 => '2',
        3 => '3',
        4 => '4',
        5 => '5',
        6 => '6',
        7 => '7',
        8 => '8',
        _ => '9',
    }
}

/// Appends the decimal digits of `n` to `out`.
pub fn push_decimal(out: &mut String, n: u64)
    ensures
        final(out)@ == old(out)@ + decimal(n as nat),
    decreases n,
{
    if n < 10 {
        push_char(out, digit(n));
        proof {
            assert(decimal(n as nat) =~= seq![digit_char(n as int)]);
        }
    } else {
        push_decimal(out, n / 10);
        push_char(out, digit(n % 10));
        proof {
            assert(decimal(n as nat) =~= decimal((n / 10) as nat) + seq![digit_char((n % 10) as int)]);
        }
    }
}

/// Decimal digits of `n` with a comma before every group of three from
/// the right.
pub open spec fn with_commas(digits: Seq<char>) -> Seq<char>
    decreases digits.len(),
{
    if digits.len() <= 3 {
        digits
    } else {
        with_commas(digits.subrange(0, digits.len() - 3)) + seq![','] + digits.subrange(
            digits.len() - 3,
            digits.len() as int,
        )
    }
}

proof fn lemma_decimal_nonempty(n: nat)
    ensures
        decimal(n).len() >= 1,
    decreases n,
{
    if n >= 10 {
        lemma_decimal_nonempty(n / 10);
    }
}

/// `value` in decimal with thousands separators, as counts are shown.
pub fn format_count(value: u64) -> (text: String)
    ensures
        text@ == with_commas(decimal(value as nat)),
{
    let mut digits = String::new();
    push_decimal(&mut digits, value);
    let ghost d = decimal(value as nat);
    proof {
        lemma_decimal_nonempty(value as nat);
    }
    let n: usize = digits.as_str().unicode_len();
    let mut output = String::new();
    let mut index: usize = 0;
    while index < n
        invariant
            n == d.len(),
            digits@ == d,
            index <= n,
            output@ == commas_prefix(d, index as int),
        decreases n - index,
    {
        if index > 0 && (n - index) % 3 == 0 {
            push_char(&mut output, ',');
        }
        push_char(&mut output, digits.as_str().get_char(index));
        index = index + 1;
    }
    proof {
        lemma_commas_prefix_full(d);
    }
    output
}

/// The first `i` digits of `d` with the separators placed as in the full
/// number.
spec fn commas_prefix(d: Seq<char>, i: int) -> Seq<char>
    decreases i,
{
    if i <= 0 {
        seq![]
    } else {
        commas_prefix(d, i - 1) + (if i - 1 > 0 && (d.len() - (i - 1)) % 3 == 0 {
            seq![',']
        } else {
            seq![]
        }) + seq![d[i - 1]]
    }
}

proof fn lemma_commas_prefix_full(d: Seq<char>)
    ensures
        commas_prefix(d, d.len() as int) == with_commas(d),
    decreases d.len(),
{
    if d.len() > 3 {
        let head = d.subrange(0, d.len() - 3);
        lemma_commas_prefix_full(head);
        lemma_commas_prefix_shift(d, head, head.len() as int);
        let n = d.len() as int;
        // the last three digits follow a separator
        assert(commas_prefix(d, n - 2) == commas_prefix(d, n - 3) + seq![','] + seq![d[n - 3]]);
        assert(commas_prefix(d, n - 1) == commas_prefix(d, n - 2) + seq![] + seq![d[n - 2]]);
        assert(commas_prefix(d, n) == commas_prefix(d, n - 1) + seq![] + seq![d[n - 1]]);
        assert(commas_prefix(d, n - 3) == with_commas(head));
        assert(with_commas(d) == with_commas(head) + seq![','] + d.subrange(n - 3, n));
        assert(commas_prefix(d, n) =~= with_commas(head) + seq![','] + d.subrange(n - 3, n));
    } else {
        lemma_commas_prefix_short(d, d.len() as int);
        assert(commas_prefix(d, d.len() as int) =~= d);
    }
}

/// While fewer than three digits of `d` remain after position `i`, no
/// separator precedes them... for short numbers the prefix is the digits.
proof fn lemma_commas_prefix_short(d: Seq<char>, i: int)
    requires
        d.len() <= 3,
        0 <= i <= d.len(),
    ensures
        commas_prefix(d, i) == d.subrange(0, i),
    decreases i,
{
    if i > 0 {
        lemma_commas_prefix_short(d, i - 1);
        assert(d.subrange(0, i) =~= d.subrange(0, i - 1) + seq![d[i - 1]]);
    }
}

/// Dropping the last three digits does not move the separators before
/// them.
proof fn lemma_commas_prefix_shift(d: Seq<char>, head: Seq<char>, i: int)
    requires
        d.len() > 3,
        head == d.subrange(0, d.len() - 3),
        0 <= i <= head.len(),
    ensures
        commas_prefix(d, i) == commas_prefix(head, i),
    decreases i,
{
    if i > 0 {
        lemma_commas_prefix_shift(d, head, i - 1);
        assert((d.len() - (i - 1)) % 3 == (head.len() - (i - 1)) % 3);
    }
}


/// Uppercase hexadecimal digit of `value`, below sixteen.
pub open spec fn hex_char(value: int) -> char {
    if value < 10 {
        (48 + value) as char
    } else {
        (55 + value) as char
    }
}

/// Uppercase hexadecimal digit of `value`.
pub fn hex_digit(value: u8) -> (c: char)
    requires
        value < 16,
    ensures
        c == hex_char(value as int),
{
    if value < 10 {
        (48u8 + value) as char
    } else {
        (55u8 + value) as char
    }
}

/// A byte that a relative URI may carry as it is.
pub open spec fn uri_unreserved(b: u8) -> bool {
    ||| 48 <= b <= 57
    ||| 65 <= b <= 90
    ||| 97 <= b <= 122
    ||| b == 45 || b == 46 || b == 95 || b == 126 || b == 47
}

/// Percent-encoding of `bytes`, with `\` read as `/`.
pub open spec fn uri_encoded(bytes: Seq<u8>) -> Seq<char>
    decreases bytes.len(),
{
    if bytes.len() == 0 {
        seq![]
    } else {
        let b = if bytes.last() == 92 {
            47u8
        } else {
            bytes.last()
        };
        uri_encoded(bytes.drop_last()) + if uri_unreserved(b) {
            seq![b as char]
        } else {
            seq!['%', hex_char((b / 16) as int), hex_char((b % 16) as int)]
        }
    }
}

/// A relative URI for a project-relative path: separators become `/`,
/// and every byte outside the unreserved set is percent-encoded.
pub fn relative_uri(path: &str) -> (uri: String)
    ensures
        uri@ == uri_encoded(path.spec_bytes()),
{
    let bytes = path.as_bytes();
    let mut uri = String::new();
    let mut i: usize = 0;
    while i < bytes.len()
        invariant
            i <= bytes@.len(),
            bytes@ == path.spec_bytes(),
            uri@ == uri_encoded(bytes@.take(i as int)),
        decreases bytes@.len() - i,
    {
        let raw = bytes[i];
        let b = if raw == 92u8 {
            47u8
        } else {
            raw
        };
        proof {
            assert(bytes@.take(i + 1).drop_last() =~= bytes@.take(i as int));
            assert(bytes@.take(i + 1).last() == raw);
        }
        if (48u8 <= b && b <= 57u8) || (65u8 <= b && b <= 90u8) || (97u8 <= b && b <= 122u8) || b == 45u8
            || b == 46u8 || b == 95u8 || b == 126u8 || b == 47u8 {
            push_char(&mut uri, b as char);
        } else {
            push_char(&mut uri, '%');
            push_char(&mut uri, hex_digit(b / 16));
            push_char(&mut uri, hex_digit(b % 16));
            proof {
                assert(seq!['%', hex_char((b / 16) as int), hex_char((b % 16) as int)] =~= seq!['%'] + seq![hex_char((b / 16) as int)] + seq![hex_char((b % 16) as int)]);
            }
        }
        i = i + 1;
    }
    proof {
        assert(bytes@.take(i as int) =~= bytes@);
    }
    uri
}

} // verus!
