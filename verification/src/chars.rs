use vstd::prelude::*;
use vstd::string::{StringSliceAdditionalSpecFns, StrSliceExecFns};
use vstd::utf8::*;

verus! {

broadcast use vstd::string::axiom_spec_iter;

/// The characters of `s`.
pub fn chars_of(s: &str) -> (chars: Vec<char>)
    ensures
        chars@ == s@,
{
    let mut chars: Vec<char> = Vec::new();
    for c in it: s.chars()
        invariant
            chars@ == it.seq().take(it.index() as int),
            it.seq() == s@,
    {
        chars.push(c);
    }
    chars
}

/// True when `a` and `b` hold the same characters.
pub fn same_text(a: &str, b: &str) -> (same: bool)
    ensures
        same == (a@ == b@),
{
    let n = a.unicode_len();
    if n != b.unicode_len() {
        return false;
    }
    let mut i: usize = 0;
    while i < n
        invariant
            n == a@.len(),
            n == b@.len(),
            i <= n,
            forall|t: int| 0 <= t < i ==> a@[t] == b@[t],
        decreases n - i,
    {
        if a.get_char(i) != b.get_char(i) {
            return false;
        }
        i = i + 1;
    }
    proof {
        assert(a@ =~= b@);
    }
    true
}

// ----------------------------------------------------------------------
// Whitespace and trimming.
/// Unicode `White_Space`, the property `char::is_whitespace` tests.
pub open spec fn is_white_space(c: char) -> bool {
    let v = c as u32;
    ||| 0x09 <= v <= 0x0D
    ||| v == 0x20
    ||| v == 0x85
    ||| v == 0xA0
    ||| v == 0x1680
    ||| 0x2000 <= v <= 0x200A
    ||| v == 0x2028
    ||| v == 0x2029
    ||| v == 0x202F
    ||| v == 0x205F
    ||| v == 0x3000
}

/// True for a Unicode `White_Space` character.
pub fn is_whitespace(c: char) -> (white: bool)
    ensures
        white == is_white_space(c),
{
    let v = c as u32;
    (0x09 <= v && v <= 0x0D) || v == 0x20 || v == 0x85 || v == 0xA0 || v == 0x1680 || (0x2000 <= v
        && v <= 0x200A) || v == 0x2028 || v == 0x2029 || v == 0x202F || v == 0x205F || v == 0x3000
}

/// `s` without its leading whitespace.
pub open spec fn trim_start_chars(s: Seq<char>) -> Seq<char>
    decreases s.len(),
{
    if s.len() > 0 && is_white_space(s[0]) {
        trim_start_chars(s.drop_first())
    } else {
        s
    }
}

/// `s` without its trailing whitespace.
pub open spec fn trim_end_chars(s: Seq<char>) -> Seq<char>
    decreases s.len(),
{
    if s.len() > 0 && is_white_space(s.last()) {
        trim_end_chars(s.drop_last())
    } else {
        s
    }
}

/// `s` without leading and trailing whitespace, as `str::trim` gives it.
pub open spec fn trim_chars(s: Seq<char>) -> Seq<char> {
    trim_end_chars(trim_start_chars(s))
}

proof fn lemma_trim_start_at(s: Seq<char>, i: int)
    requires
        0 <= i <= s.len(),
        forall|k: int| 0 <= k < i ==> is_white_space(#[trigger] s[k]),
        i < s.len() ==> !is_white_space(s[i]),
    ensures
        trim_start_chars(s) == s.skip(i),
    decreases i,
{
    if i == 0 {
        assert(s.skip(0) =~= s);
    } else {
        assert(is_white_space(s[0]));
        let t = s.drop_first();
        assert forall|k: int| 0 <= k < i - 1 implies is_white_space(#[trigger] t[k]) by {
            assert(t[k] == s[k + 1]);
        }
        if i - 1 < t.len() {
            assert(t[i - 1] == s[i]);
        }
        lemma_trim_start_at(t, i - 1);
        assert(t.skip(i - 1) =~= s.skip(i));
    }
}

proof fn lemma_trim_end_at(s: Seq<char>, j: int)
    requires
        0 <= j <= s.len(),
        forall|k: int| j <= k < s.len() ==> is_white_space(#[trigger] s[k]),
        j > 0 ==> !is_white_space(s[j - 1]),
    ensures
        trim_end_chars(s) == s.take(j),
    decreases s.len() - j,
{
    if j == s.len() {
        assert(s.take(j) =~= s);
    } else {
        assert(is_white_space(s.last()));
        let t = s.drop_last();
        assert forall|k: int| j <= k < t.len() implies is_white_space(#[trigger] t[k]) by {
            assert(t[k] == s[k]);
        }
        if j > 0 {
            assert(t[j - 1] == s[j - 1]);
        }
        lemma_trim_end_at(t, j);
        assert(t.take(j) =~= s.take(j));
    }
}

/// Bounds `(a, b)` such that `chars[a..b]` is `chars` trimmed.
pub fn trim_bounds(chars: &Vec<char>) -> (bounds: (usize, usize))
    ensures
        bounds.0 <= bounds.1 <= chars@.len(),
        chars@.subrange(bounds.0 as int, bounds.1 as int) == trim_chars(chars@),
{
    let n = chars.len();
    let mut a: usize = 0;
    while a < n && is_whitespace(chars[a])
        invariant
            a <= n == chars@.len(),
            forall|k: int| 0 <= k < a ==> is_white_space(#[trigger] chars@[k]),
        decreases n - a,
    {
        a = a + 1;
    }
    let mut b: usize = n;
    while b > a && is_whitespace(chars[b - 1])
        invariant
            a <= b <= n == chars@.len(),
            forall|k: int| b <= k < n ==> is_white_space(#[trigger] chars@[k]),
        decreases b - a,
    {
        b = b - 1;
    }
    proof {
        let s = chars@;
        lemma_trim_start_at(s, a as int);
        let t = s.skip(a as int);
        assert forall|k: int| b - a <= k < t.len() implies is_white_space(#[trigger] t[k]) by {
            assert(t[k] == s[k + a]);
        }
        if b > a {
            assert(t[b - a - 1] == s[b - 1]);
        }
        lemma_trim_end_at(t, b - a);
        assert(t.take(b - a) =~= s.subrange(a as int, b as int));
    }
    (a, b)
}

/// `s` without leading and trailing whitespace.
pub fn trim(s: &str) -> (trimmed: String)
    ensures
        trimmed@ == trim_chars(s@),
{
    let chars = chars_of(s);
    let (a, b) = trim_bounds(&chars);
    s.substring_char(a, b).to_owned()
}

// ----------------------------------------------------------------------
// Alphanumeric characters.
/// What `char::is_alphanumeric` answers for `c`.
pub uninterp spec fn alphanumeric(c: char) -> bool;

/// True for an ASCII letter or digit.
pub open spec fn ascii_alphanumeric(c: char) -> bool {
    ('a' <= c && c <= 'z') || ('A' <= c && c <= 'Z') || ('0' <= c && c <= '9')
}

/// True when `c` is alphabetic or numeric.
///
/// Trusted: `char::is_alphanumeric`, which std documents as the Unicode
/// `Alphabetic` property or a numeric general category; its answer is
/// named by `alphanumeric`, and on ASCII it holds exactly for letters and
/// digits.
#[verifier::external_body]
pub fn is_alphanumeric(c: char) -> (result: bool)
    ensures
        result == alphanumeric(c),
        (c as u32) < 128 ==> (result <==> ascii_alphanumeric(c)),
{
    c.is_alphanumeric()
}

// ----------------------------------------------------------------------
// Byte positions of characters.
/// Byte offset of character `i` of `s` in its UTF-8 encoding.
pub open spec fn char_pos(s: Seq<char>, i: int) -> int {
    encode_utf8(s.take(i)).len() as int
}

/// Encoding a concatenation concatenates the encodings.
pub proof fn lemma_encode_concat(a: Seq<char>, b: Seq<char>)
    ensures
        encode_utf8(a + b) == encode_utf8(a) + encode_utf8(b),
    decreases a.len(),
{
    if a.len() == 0 {
        assert(a + b =~= b);
        assert(encode_utf8(a) =~= Seq::<u8>::empty());
        assert(encode_utf8(a) + encode_utf8(b) =~= encode_utf8(b));
    } else {
        assert((a + b).drop_first() =~= a.drop_first() + b);
        assert((a + b)[0] == a[0]);
        lemma_encode_concat(a.drop_first(), b);
        assert(encode_utf8(a + b) =~= encode_scalar(a[0] as u32) + encode_utf8(a.drop_first() + b));
        assert(encode_utf8(a) + encode_utf8(b) =~= encode_scalar(a[0] as u32) + (encode_utf8(
            a.drop_first(),
        ) + encode_utf8(b)));
    }
}

/// Every character takes at least one byte.
pub proof fn lemma_encode_len_at_least(s: Seq<char>)
    ensures
        s.len() <= encode_utf8(s).len(),
    decreases s.len(),
{
    if s.len() > 0 {
        lemma_encode_concat(seq![s[0]], s.drop_first());
        assert(seq![s[0]] + s.drop_first() =~= s);
        lemma_encode_single(s[0]);
        lemma_encode_len_at_least(s.drop_first());
        assert(encode_scalar(s[0] as u32).len() >= 1);
    }
}

/// Number of bytes of the UTF-8 encoding of `c`.
pub open spec fn utf8_width(c: char) -> int {
    encode_scalar(c as u32).len() as int
}

/// The encoding of one character is that of the character alone.
pub proof fn lemma_encode_single(c: char)
    ensures
        encode_utf8(seq![c]) == encode_scalar(c as u32),
{
    assert(seq![c].drop_first() =~= Seq::<char>::empty());
    assert(encode_utf8(Seq::<char>::empty()) =~= Seq::<u8>::empty());
    assert(encode_scalar(c as u32) + Seq::<u8>::empty() =~= encode_scalar(c as u32));
}

pub proof fn lemma_char_pos_step(s: Seq<char>, i: int)
    requires
        0 <= i < s.len(),
    ensures
        char_pos(s, i + 1) == char_pos(s, i) + utf8_width(s[i]),
{
    assert(s.take(i + 1) =~= s.take(i) + seq![s[i]]);
    lemma_encode_concat(s.take(i), seq![s[i]]);
    lemma_encode_single(s[i]);
}

pub proof fn lemma_char_pos_monotone(s: Seq<char>, i: int, j: int)
    requires
        0 <= i <= j <= s.len(),
    ensures
        char_pos(s, i) <= char_pos(s, j),
        i < j ==> char_pos(s, i) < char_pos(s, j),
    decreases j - i,
{
    if i < j {
        lemma_char_pos_step(s, j - 1);
        lemma_width_positive(s[j - 1]);
        lemma_char_pos_monotone(s, i, j - 1);
    }
}

/// Every character takes at least one byte.
pub proof fn lemma_char_pos_at_least(s: Seq<char>, i: int)
    requires
        0 <= i <= s.len(),
    ensures
        char_pos(s, i) >= i,
    decreases i,
{
    if i > 0 {
        lemma_char_pos_step(s, i - 1);
        lemma_width_positive(s[i - 1]);
        lemma_char_pos_at_least(s, i - 1);
    } else {
        assert(s.take(0) =~= Seq::<char>::empty());
        assert(encode_utf8(Seq::<char>::empty()) =~= Seq::<u8>::empty());
    }
}

pub proof fn lemma_width_positive(c: char)
    ensures
        1 <= utf8_width(c) <= 4,
{
    char_is_scalar(c);
}

/// The whole string ends at its byte length.
pub proof fn lemma_char_pos_end(s: Seq<char>)
    ensures
        char_pos(s, s.len() as int) == encode_utf8(s).len(),
{
    assert(s.take(s.len() as int) =~= s);
}

/// Bytes of the UTF-8 encoding of `c`.
pub fn utf8_len(c: char) -> (width: usize)
    ensures
        width == utf8_width(c),
{
    proof {
        char_is_scalar(c);
    }
    let v = c as u32;
    if v <= 0x7F {
        1
    } else if v <= 0x7FF {
        2
    } else if v <= 0xFFFF {
        3
    } else {
        4
    }
}

/// For each byte offset `0..=len` of `s`: the index of the character that
/// starts there, or `usize::MAX` inside a character.
pub fn char_index_table(s: &str) -> (table: Vec<usize>)
    ensures
        table@.len() == s.spec_bytes().len() + 1,
        forall|i: int| 0 <= i <= s@.len() ==> #[trigger] table@[char_pos(s@, i)] == i,
        forall|p: int|
            0 <= p < table@.len() && table@[p] != usize::MAX ==> table@[p] <= s@.len() && char_pos(
                s@,
                table@[p] as int,
            ) == p,
{
    let chars = chars_of(s);
    let ghost v = s@;
    let mut table: Vec<usize> = Vec::new();
    let mut i: usize = 0;
    proof {
        assert(v.take(0) =~= Seq::<char>::empty());
        assert(encode_utf8(Seq::<char>::empty()) =~= Seq::<u8>::empty());
    }
    while i < chars.len()
        invariant
            chars@ == v,
            i <= v.len(),
            table@.len() == char_pos(v, i as int),
            forall|k: int| 0 <= k < i ==> #[trigger] table@[char_pos(v, k)] == k,
            forall|p: int|
                0 <= p < table@.len() && table@[p] != usize::MAX ==> table@[p] < i && char_pos(
                    v,
                    table@[p] as int,
                ) == p,
        decreases v.len() - i,
    {
        let width = utf8_len(chars[i]);
        proof {
            lemma_char_pos_step(v, i as int);
            lemma_width_positive(v[i as int]);
            lemma_char_pos_monotone(v, i as int, v.len() as int);
            lemma_char_pos_end(v);
        }
        let ghost before = table@;
        table.push(i);
        let mut w: usize = 1;
        while w < width
            invariant
                1 <= w <= width <= 4,
                table@.len() == before.len() + w,
                table@.take(before.len() as int) == before,
                table@[before.len() as int] == i,
                forall|q: int| before.len() < q < table@.len() ==> #[trigger] table@[q] == usize::MAX,
            decreases width - w,
        {
            table.push(usize::MAX);
            proof {
                assert(table@.take(before.len() as int) =~= before);
            }
            w = w + 1;
        }
        proof {
            assert forall|k: int| 0 <= k < i + 1 implies #[trigger] table@[char_pos(v, k)] == k by {
                if k < i {
                    lemma_char_pos_monotone(v, k, i as int);
                    assert(table@[char_pos(v, k)] == table@.take(before.len() as int)[char_pos(v, k)]);
                }
            }
            assert forall|p: int|
                0 <= p < table@.len() && table@[p] != usize::MAX implies table@[p] < i + 1 && char_pos(
                    v,
                    table@[p] as int,
                ) == p by {
                if p < before.len() {
                    assert(table@[p] == table@.take(before.len() as int)[p]);
                }
            }
        }
        i = i + 1;
    }
    proof {
        lemma_char_pos_end(v);
        assert(s.spec_bytes() == encode_utf8(v));
    }
    let ghost before = table@;
    table.push(chars.len());
    proof {
        assert forall|k: int| 0 <= k <= v.len() implies #[trigger] table@[char_pos(v, k)] == k by {
            if k < v.len() {
                lemma_char_pos_monotone(v, k, v.len() as int);
                assert(table@[char_pos(v, k)] == before[char_pos(v, k)]);
            }
        }
    }
    table
}

} // verus!
