use vstd::prelude::*;
use vstd::utf8::*;
use vstd::string::StringSliceAdditionalSpecFns;

verus! {

broadcast use vstd::utf8::group_utf8_lib;

/// The byte of an ASCII space.
pub const SPACE: u8 = 32;

/// The index of the first `c` in `s`, if any.
pub open spec fn first_index_of(s: Seq<u8>, c: u8) -> Option<int>
    decreases s.len(),
{
    if s.len() == 0 {
        None
    } else if s[0] == c {
        Some(0)
    } else {
        match first_index_of(s.drop_first(), c) {
            Some(i) => Some(i + 1),
            None => None,
        }
    }
}

/// The index of the last `c` in `s`, if any.
pub open spec fn last_index_of(s: Seq<u8>, c: u8) -> Option<int>
    decreases s.len(),
{
    if s.len() == 0 {
        None
    } else if s.last() == c {
        Some(s.len() - 1)
    } else {
        last_index_of(s.drop_last(), c)
    }
}

/// `first_index_of` is the least index holding `c`.
pub proof fn lemma_first_index_of(s: Seq<u8>, c: u8)
    ensures
        match first_index_of(s, c) {
            Some(i) => 0 <= i < s.len() && s[i] == c && forall|j: int| 0 <= j < i ==> s[j] != c,
            None => forall|j: int| 0 <= j < s.len() ==> s[j] != c,
        },
    decreases s.len(),
{
    if s.len() > 0 && s[0] != c {
        lemma_first_index_of(s.drop_first(), c);
        assert forall|j: int| 0 < j < s.len() implies s[j] == s.drop_first()[j - 1] by {}
    }
}

/// `last_index_of` is the greatest index holding `c`.
pub proof fn lemma_last_index_of(s: Seq<u8>, c: u8)
    ensures
        match last_index_of(s, c) {
            Some(i) => 0 <= i < s.len() && s[i] == c && forall|j: int| i < j < s.len() ==> s[j] != c,
            None => forall|j: int| 0 <= j < s.len() ==> s[j] != c,
        },
    decreases s.len(),
{
    if s.len() > 0 && s.last() != c {
        lemma_last_index_of(s.drop_last(), c);
        assert forall|j: int| 0 <= j < s.len() - 1 implies s[j] == s.drop_last()[j] by {}
    }
}

/// An ASCII decimal digit.
pub open spec fn is_digit(b: u8) -> bool {
    48 <= b <= 57
}

/// The value of a string of decimal digits.
pub open spec fn digits_value(d: Seq<u8>) -> int
    decreases d.len(),
{
    if d.len() == 0 {
        0
    } else {
        digits_value(d.drop_last()) * 10 + (d.last() - 48)
    }
}

/// Every byte of `d` is a decimal digit.
pub open spec fn all_digits(d: Seq<u8>) -> bool {
    forall|i: int| 0 <= i < d.len() ==> is_digit(#[trigger] d[i])
}

/// `s` without a leading `+` or `-`.
pub open spec fn unsigned_part(s: Seq<u8>) -> Seq<u8> {
    if s.len() > 0 && (s[0] == 43u8 || s[0] == 45u8) {
        s.drop_first()
    } else {
        s
    }
}

/// What `str::parse::<i64>` gives for the bytes `s`: an optional `+` or `-`,
/// then one or more decimal digits, whose value must fit in an `i64`.
pub open spec fn parse_i64_spec(s: Seq<u8>) -> Option<i64> {
    let digits = unsigned_part(s);
    if s.len() == 0 || digits.len() == 0 || !all_digits(digits) {
        None
    } else {
        let v = if s[0] == 45u8 {
            -digits_value(digits)
        } else {
            digits_value(digits)
        };
        if i64::MIN <= v <= i64::MAX {
            Some(v as i64)
        } else {
            None
        }
    }
}

/// A longer string of digits has at least the value of its prefix.
proof fn lemma_digits_value_prefix(d: Seq<u8>, k: int)
    requires
        0 <= k <= d.len(),
        all_digits(d),
    ensures
        digits_value(d.subrange(0, k)) <= digits_value(d),
        0 <= digits_value(d.subrange(0, k)),
    decreases d.len(),
{
    if k < d.len() {
        lemma_digits_value_prefix(d.drop_last(), k);
        assert(d.drop_last().subrange(0, k) =~= d.subrange(0, k));
    } else {
        assert(d.subrange(0, k) =~= d);
        if d.len() > 0 {
            lemma_digits_value_prefix(d.drop_last(), k - 1);
            assert(d.drop_last().subrange(0, k - 1) =~= d.drop_last());
        }
    }
}

/// Parses the bytes `s` as `str::parse::<i64>` does: `None` where it fails.
pub fn parse_i64(s: &[u8]) -> (res: Option<i64>)
    ensures
        res == parse_i64_spec(s@),
{
    if s.len() == 0 {
        return None;
    }
    let negative = s[0] == 45u8;
    let start: usize = if s[0] == 43u8 || s[0] == 45u8 {
        1
    } else {
        0
    };
    let ghost digits = unsigned_part(s@);
    assert(digits =~= s@.subrange(start as int, s@.len() as int));
    if start == s.len() {
        return None;
    }
    let limit: u64 = if negative {
        9223372036854775808u64
    } else {
        9223372036854775807u64
    };
    let mut mag: u64 = 0;
    let mut i: usize = start;
    assert(digits.subrange(0, 0) =~= Seq::<u8>::empty());
    while i < s.len()
        invariant
            start <= i <= s@.len(),
            s@.len() > 0,
            negative == (s@[0] == 45u8),
            digits == unsigned_part(s@),
            digits =~= s@.subrange(start as int, s@.len() as int),
            forall|j: int| 0 <= j < i - start ==> is_digit(#[trigger] digits[j]),
            mag == digits_value(digits.subrange(0, i - start)),
            mag <= limit,
            limit == if negative {
                9223372036854775808u64
            } else {
                9223372036854775807u64
            },
        decreases s@.len() - i,
    {
        let b = s[i];
        if b < 48u8 || b > 57u8 {
            proof {
                assert(digits[i - start] == b);
                assert(!is_digit(digits[i - start]));
                assert(!all_digits(digits));
            }
            return None;
        }
        let d: u64 = (b - 48u8) as u64;
        proof {
            assert(digits.subrange(0, i - start + 1).drop_last() =~= digits.subrange(0, i - start));
            assert(digits.subrange(0, i - start + 1).last() == b);
        }
        if mag > (limit - d) / 10 {
            proof {
                assert(mag * 10 + d > limit) by (nonlinear_arith)
                    requires
                        mag > (limit - d) / 10,
                        d <= limit,
                ;
                assert(digits[i - start] == b);
                assert(digits_value(digits.subrange(0, i - start + 1)) == mag * 10 + d);
                if all_digits(digits) {
                    lemma_digits_value_prefix(digits, i - start + 1);
                    assert(digits_value(digits) > limit);
                }
            }
            return None;
        }
        proof {
            assert(mag * 10 + d <= limit) by (nonlinear_arith)
                requires
                    mag <= (limit - d) / 10,
                    d <= limit,
            ;
        }
        mag = mag * 10 + d;
        i = i + 1;
    }
    assert(digits.subrange(0, i - start) =~= digits);
    if negative {
        if mag == 9223372036854775808u64 {
            Some(i64::MIN)
        } else {
            Some(-(mag as i64))
        }
    } else {
        Some(mag as i64)
    }
}

/// A character with the Unicode `White_Space` property.
pub open spec fn is_white_space(c: char) -> bool {
    let u = c as u32;
    ||| 0x09 <= u <= 0x0d
    ||| u == 0x20
    ||| u == 0x85
    ||| u == 0xa0
    ||| u == 0x1680
    ||| 0x2000 <= u <= 0x200a
    ||| u == 0x2028
    ||| u == 0x2029
    ||| u == 0x202f
    ||| u == 0x205f
    ||| u == 0x3000
}

/// `s` without its leading and trailing white space.
pub open spec fn trim_chars(s: Seq<char>) -> Seq<char>
    decreases s.len(),
{
    if s.len() > 0 && is_white_space(s[0]) {
        trim_chars(s.drop_first())
    } else if s.len() > 0 && is_white_space(s.last()) {
        trim_chars(s.drop_last())
    } else {
        s
    }
}

/// Law: trimming keeps a stretch `s[i..j]` of the text and removes only
/// white space before and after it; what it keeps neither begins nor ends
/// with white space. The returned pair is `(i, j)`.
pub proof fn lemma_trim_chars(s: Seq<char>) -> (ij: (int, int))
    ensures
        0 <= ij.0 <= ij.1 <= s.len(),
        trim_chars(s) == s.subrange(ij.0, ij.1),
        forall|k: int| 0 <= k < ij.0 ==> is_white_space(#[trigger] s[k]),
        forall|k: int| ij.1 <= k < s.len() ==> is_white_space(#[trigger] s[k]),
        ij.0 < ij.1 ==> !is_white_space(s[ij.0]) && !is_white_space(s[ij.1 - 1]),
    decreases s.len(),
{
    if s.len() > 0 && is_white_space(s[0]) {
        let (i, j) = lemma_trim_chars(s.drop_first());
        assert(s.drop_first().subrange(i, j) =~= s.subrange(i + 1, j + 1));
        assert forall|k: int| 0 <= k < i + 1 implies is_white_space(#[trigger] s[k]) by {
            if k > 0 {
                assert(s[k] == s.drop_first()[k - 1]);
            }
        }
        assert forall|k: int| j + 1 <= k < s.len() implies is_white_space(#[trigger] s[k]) by {
            assert(s[k] == s.drop_first()[k - 1]);
        }
        if i < j {
            assert(s[i + 1] == s.drop_first()[i]);
            assert(s[j] == s.drop_first()[j - 1]);
        }
        (i + 1, j + 1)
    } else if s.len() > 0 && is_white_space(s.last()) {
        let (i, j) = lemma_trim_chars(s.drop_last());
        assert(s.drop_last().subrange(i, j) =~= s.subrange(i, j));
        assert forall|k: int| 0 <= k < i implies is_white_space(#[trigger] s[k]) by {
            assert(s[k] == s.drop_last()[k]);
        }
        assert forall|k: int| j <= k < s.len() implies is_white_space(#[trigger] s[k]) by {
            if k < s.len() - 1 {
                assert(s[k] == s.drop_last()[k]);
            }
        }
        if i < j {
            assert(s[i] == s.drop_last()[i]);
            assert(s[j - 1] == s.drop_last()[j - 1]);
        }
        (i, j)
    } else {
        assert(s.subrange(0, s.len() as int) =~= s);
        (0, s.len() as int)
    }
}

/// `str::trim`: the text without its leading and trailing white space.
#[verifier::external_body]
fn str_trim(s: &str) -> (res: &str)
    ensures
        res@ == trim_chars(s@),
{
    s.trim()
}

/// The bytes of a token from its written form `x`: written as `b'..'` or
/// `b".."`, the bytes between the quotes (`None` where there are fewer than
/// three bytes or the closing quote does not start a character); otherwise
/// the bytes of `x` itself.
pub open spec fn token_bytes_spec(x: Seq<u8>) -> Option<Seq<u8>> {
    if x.len() >= 2 && x[0] == 98u8 && (x[1] == 39u8 || x[1] == 34u8) {
        if x.len() >= 3 && is_char_boundary(x, x.len() - 1) {
            Some(x.subrange(2, x.len() - 1))
        } else {
            None
        }
    } else {
        Some(x)
    }
}

/// One line of a vocabulary file, `<id> <token> <length>`: the id is what
/// stands before the first space; the token is what stands from the first
/// space to the last, trimmed. `None` where the line has no space, the id is
/// no `i64` or the token cannot be read.
pub open spec fn parse_vocab_line_spec(b: Seq<u8>) -> Option<(i64, Seq<u8>)> {
    match (first_index_of(b, SPACE), last_index_of(b, SPACE)) {
        (Some(first), Some(last)) => match parse_i64_spec(b.subrange(0, first)) {
            Some(id) => match token_bytes_spec(
                encode_utf8(trim_chars(decode_utf8(b.subrange(first, last)))),
            ) {
                Some(t) => Some((id, t)),
                None => None,
            },
            None => None,
        },
        _ => None,
    }
}

/// Law: a vocabulary line `b` whose first space is at `f` and whose last
/// space is at `l` reads as the id written before `f` and the token `x`
/// written between `f` and `l`, trimmed of white space: where `x` is not
/// written as `b'..'` or `b".."`, the token's bytes are exactly those of `x`,
/// whatever quotes `x` holds; where it is, they are the bytes between its
/// opening `b'` or `b"` and its last byte, and the line reads exactly where
/// `x` has at least three bytes and its last byte starts a character. Where
/// the id does not read as an `i64`, the line does not read.
pub proof fn lemma_vocab_line_fields(b: Seq<u8>, f: int, l: int)
    requires
        0 <= f <= l < b.len(),
        b[f] == SPACE,
        b[l] == SPACE,
        forall|j: int| 0 <= j < f ==> b[j] != SPACE,
        forall|j: int| l < j < b.len() ==> b[j] != SPACE,
    ensures
        ({
            let x = encode_utf8(trim_chars(decode_utf8(b.subrange(f, l))));
            let quoted = x.len() >= 2 && x[0] == 98u8 && (x[1] == 39u8 || x[1] == 34u8);
            match parse_i64_spec(b.subrange(0, f)) {
                None => parse_vocab_line_spec(b) == None::<(i64, Seq<u8>)>,
                Some(id) => if !quoted {
                    parse_vocab_line_spec(b) == Some((id, x))
                } else if x.len() >= 3 && is_char_boundary(x, x.len() - 1) {
                    parse_vocab_line_spec(b) == Some((id, x.subrange(2, x.len() - 1)))
                } else {
                    parse_vocab_line_spec(b) == None::<(i64, Seq<u8>)>
                },
            }
        }),
{
    lemma_first_index_of(b, SPACE);
    lemma_last_index_of(b, SPACE);
    assert(first_index_of(b, SPACE) == Some(f));
    assert(last_index_of(b, SPACE) == Some(l));
}

/// Law: a line without a space does not read as a vocabulary entry.
pub proof fn lemma_vocab_line_needs_space(b: Seq<u8>)
    requires
        forall|j: int| 0 <= j < b.len() ==> b[j] != SPACE,
    ensures
        parse_vocab_line_spec(b) is None,
{
    lemma_first_index_of(b, SPACE);
    assert(first_index_of(b, SPACE) is None);
}

/// An ASCII byte in valid UTF-8 starts a character.
proof fn lemma_ascii_boundary(bytes: Seq<u8>, i: int)
    requires
        valid_utf8(bytes),
        0 <= i < bytes.len(),
        bytes[i] < 0x80,
    ensures
        is_char_boundary(bytes, i),
{
    is_char_boundary_iff_not_is_continuation_byte(bytes, i);
}

/// After two ASCII bytes, valid UTF-8 starts a character.
proof fn lemma_boundary_after_two_ascii(bytes: Seq<u8>)
    requires
        valid_utf8(bytes),
        bytes.len() >= 3,
        bytes[0] < 0x80,
        bytes[1] < 0x80,
    ensures
        is_char_boundary(bytes, 2),
{
    let tail = bytes.subrange(1, bytes.len() as int);
    lemma_ascii_boundary(bytes, 1);
    valid_utf8_split(bytes, 1);
    assert(valid_utf8(tail));
    assert(length_of_first_scalar(bytes) == 1);
    assert(pop_first_scalar(bytes) =~= tail);
    assert(length_of_first_scalar(tail) == 1);
    assert(is_char_boundary(tail, 1)) by {
        reveal_with_fuel(is_char_boundary, 2);
    }
    reveal_with_fuel(is_char_boundary, 2);
}

/// Reads one line of a vocabulary file; see `parse_vocab_line_spec`.
pub fn parse_vocab_line(line: &str) -> (res: Option<(i64, Vec<u8>)>)
    ensures
        match res {
            Some(r) => parse_vocab_line_spec(line.spec_bytes()) == Some((r.0, r.1@)),
            None => parse_vocab_line_spec(line.spec_bytes()) is None,
        },
{
    let bytes = line.as_bytes();
    let ghost b = line.spec_bytes();
    proof {
        lemma_first_index_of(b, SPACE);
        lemma_last_index_of(b, SPACE);
    }
    let mut first: usize = 0;
    while first < bytes.len() && bytes[first] != SPACE
        invariant
            first <= bytes@.len(),
            bytes@ == b,
            forall|j: int| 0 <= j < first ==> b[j] != SPACE,
        decreases bytes@.len() - first,
    {
        first = first + 1;
    }
    if first == bytes.len() {
        return None;
    }
    let mut last: usize = bytes.len() - 1;
    while bytes[last] != SPACE
        invariant
            first <= last < bytes@.len(),
            bytes@ == b,
            b[first as int] == SPACE,
            forall|j: int| last < j < b.len() ==> b[j] != SPACE,
        decreases last,
    {
        last = last - 1;
    }
    proof {
        assert(first_index_of(b, SPACE) == Some(first as int));
        assert(last_index_of(b, SPACE) == Some(last as int));
    }
    let id = match parse_i64(vstd::slice::slice_subrange(bytes, 0, first)) {
        Some(id) => id,
        None => {
            return None;
        },
    };
    proof {
        encode_utf8_valid_utf8(line@);
        lemma_ascii_boundary(b, first as int);
    }
    let (_, rest) = line.split_at(first);
    proof {
        encode_utf8_valid_utf8(rest@);
        assert(rest.spec_bytes()[last - first] == SPACE);
        lemma_ascii_boundary(rest.spec_bytes(), last - first);
    }
    let (middle, _) = rest.split_at(last - first);
    proof {
        assert(middle.spec_bytes() =~= b.subrange(first as int, last as int));
        encode_utf8_decode_utf8(middle@);
    }
    let x = str_trim(middle);
    let xb = x.as_bytes();
    let n = xb.len();
    proof {
        encode_utf8_valid_utf8(x@);
    }
    if n >= 2 && xb[0] == 98u8 && (xb[1] == 39u8 || xb[1] == 34u8) {
        if n >= 3 && x.is_char_boundary(n - 1) {
            proof {
                lemma_boundary_after_two_ascii(xb@);
            }
            let token = vstd::slice::slice_to_vec(vstd::slice::slice_subrange(xb, 2, n - 1));
            Some((id, token))
        } else {
            None
        }
    } else {
        Some((id, vstd::slice::slice_to_vec(xb)))
    }
}

} // verus!
