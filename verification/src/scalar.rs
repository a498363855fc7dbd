//! Typed parsing of raw strings from the environment and the command line.
//!
//! One shared rule turns untyped text into a value: booleans first, then
//! integers, then other numbers, then — for bracket- or brace-delimited
//! text — a full structured parse, and finally a plain string. The ordering
//! is deliberate: numeric-looking text always becomes a number.

use vstd::prelude::*;

use crate::formats::json_of;
use crate::formats::parse_json;
use crate::value::SpecValue;
use crate::value::Value;
use crate::value::value_wf;

verus! {

pub open spec fn is_digit(c: char) -> bool {
    '0' <= c && c <= '9'
}

pub open spec fn digit_val(c: char) -> int {
    (c as u8) - 48
}

/// The value of a most-significant-first digit sequence.
pub open spec fn digits_val(s: Seq<char>) -> int
    decreases s.len(),
{
    if s.len() == 0 {
        0
    } else {
        digits_val(s.drop_last()) * 10 + digit_val(s.last())
    }
}

pub open spec fn all_digits(s: Seq<char>) -> bool {
    s.len() >= 1 && forall|i: int| 0 <= i < s.len() ==> is_digit(#[trigger] s[i])
}

/// Text shaped like a decimal integer: an optional sign and digits.
pub open spec fn int_grammar(s: Seq<char>) -> bool {
    if s.len() == 0 {
        false
    } else if s[0] == '+' || s[0] == '-' {
        all_digits(s.drop_first())
    } else {
        all_digits(s)
    }
}

/// The signed value of integer-shaped text.
pub open spec fn int_value(s: Seq<char>) -> int
    recommends
        int_grammar(s),
{
    if s.len() > 0 && s[0] == '-' {
        -digits_val(s.drop_first())
    } else if s.len() > 0 && s[0] == '+' {
        digits_val(s.drop_first())
    } else {
        digits_val(s)
    }
}

/// Integer-shaped text whose value a 64-bit signed integer can hold.
pub open spec fn parses_as_i64(s: Seq<char>) -> bool {
    int_grammar(s) && i64::MIN <= int_value(s) <= i64::MAX
}

/// A digit sequence's value never shrinks when digits are appended.
proof fn lemma_digits_val_nonneg(s: Seq<char>)
    requires
        forall|i: int| 0 <= i < s.len() ==> is_digit(#[trigger] s[i]),
    ensures
        digits_val(s) >= 0,
    decreases s.len(),
{
    if s.len() > 0 {
        assert(forall|i: int| 0 <= i < s.drop_last().len() ==> #[trigger] s.drop_last()[i] == s[i]);
        lemma_digits_val_nonneg(s.drop_last());
    }
}

/// Appending digits can only grow a digit sequence's value.
proof fn lemma_digits_val_extend(s: Seq<char>, i: int)
    requires
        forall|j: int| 0 <= j < s.len() ==> is_digit(#[trigger] s[j]),
        0 <= i <= s.len(),
    ensures
        digits_val(s.subrange(0, i)) <= digits_val(s),
    decreases s.len() - i,
{
    assert(forall|j: int| 0 <= j < s.subrange(0, i).len() ==> is_digit(
        #[trigger] s.subrange(0, i)[j],
    ));
    if i == s.len() {
        assert(s.subrange(0, i) =~= s);
    } else {
        let p = s.subrange(0, i + 1);
        assert(p.drop_last() =~= s.subrange(0, i));
        lemma_digits_val_nonneg(s.subrange(0, i));
        assert(digits_val(p) == digits_val(s.subrange(0, i)) * 10 + digit_val(s[i]));
        assert(digits_val(s.subrange(0, i)) * 10 >= digits_val(s.subrange(0, i))) by (nonlinear_arith)
            requires
                digits_val(s.subrange(0, i)) >= 0,
        ;
        assert(digit_val(s[i]) >= 0);
        lemma_digits_val_extend(s, i + 1);
    }
}

/// Parse the digits of `s` from index `from` on, guarding the running value
/// against exceeding `limit`.
fn parse_digits(s: &str, from: usize, limit: u64) -> (r: Option<u64>)
    requires
        from < s@.len() <= usize::MAX,
        9 <= limit,
    ensures
        match r {
            Some(v) => all_digits(s@.subrange(from as int, s@.len() as int)) && v == digits_val(
                s@.subrange(from as int, s@.len() as int),
            ) && v <= limit,
            None => !all_digits(s@.subrange(from as int, s@.len() as int)) || digits_val(
                s@.subrange(from as int, s@.len() as int),
            ) > limit,
        },
{
    let n = s.unicode_len();
    let ghost whole = s@.subrange(from as int, s@.len() as int);
    let mut acc: u64 = 0;
    let mut i: usize = from;
    while i < n
        invariant
            9 <= limit,
            from <= i <= n,
            n == s@.len(),
            whole == s@.subrange(from as int, s@.len() as int),
            acc <= limit,
            all_digits(s@.subrange(from as int, i as int)) || i == from,
            acc == digits_val(s@.subrange(from as int, i as int)),
            forall|j: int| from <= j < i ==> is_digit(#[trigger] s@[j]),
        decreases n - i,
    {
        let c = s.get_char(i);
        if !('0' <= c && c <= '9') {
            proof {
                assert(whole[i - from] == c);
                assert(!all_digits(whole));
            }
            return None;
        }
        let d: u64 = ((c as u8) - 48) as u64;
        proof {
            assert(d <= 9);
            assert(s@.subrange(from as int, i + 1).drop_last() =~= s@.subrange(
                from as int,
                i as int,
            ));
            assert(s@.subrange(from as int, i + 1).last() == c);
        }
        if acc > (limit - d) / 10 {
            proof {
                let p = s@.subrange(from as int, i + 1);
                assert(digits_val(p) == acc * 10 + d);
                assert(acc * 10 + d > limit) by (nonlinear_arith)
                    requires
                        acc > (limit - d) / 10,
                        0 <= d <= 9,
                        d <= limit,
                        limit <= u64::MAX,
                ;
                if all_digits(whole) {
                    lemma_digits_val_extend(whole, i + 1 - from);
                    assert(whole.subrange(0, i + 1 - from) =~= p);
                    assert(digits_val(whole) > limit);
                }
            }
            return None;
        }
        proof {
            assert(acc * 10 + d <= limit) by (nonlinear_arith)
                requires
                    acc <= (limit - d) / 10,
                    0 <= d <= 9,
                    d <= limit,
                    limit <= u64::MAX,
            ;
        }
        acc = acc * 10 + d;
        i = i + 1;
    }
    if i == from {
        proof {
            assert(whole.len() == 0);
            assert(!all_digits(whole));
        }
        return None;
    }
    proof {
        assert(s@.subrange(from as int, n as int) == whole);
    }
    Some(acc)
}

/// Parse a decimal 64-bit signed integer, exactly as the integer grammar
/// describes: an optional sign, then digits, with the value in range.
pub fn parse_i64(s: &str) -> (r: Option<i64>)
    ensures
        (r is Some) == parses_as_i64(s@),
        r matches Some(v) ==> v == int_value(s@),
{
    let n = s.unicode_len();
    if n == 0 {
        return None;
    }
    let first = s.get_char(0);
    if first == '-' {
        if n == 1 {
            proof {
                assert(s@.drop_first().len() == 0);
            }
            return None;
        }
        let ghost digits = s@.subrange(1, s@.len() as int);
        proof {
            assert(digits =~= s@.drop_first());
        }
        match parse_digits(s, 1, 9223372036854775808u64) {
            None => {
                proof {
                    if parses_as_i64(s@) {
                        assert(all_digits(digits));
                        assert(int_value(s@) == -digits_val(digits));
                        assert(digits_val(digits) <= 9223372036854775808);
                    }
                }
                None
            },
            Some(mag) => {
                if mag == 9223372036854775808u64 {
                    Some(i64::MIN)
                } else {
                    Some(-(mag as i64))
                }
            },
        }
    } else if first == '+' {
        if n == 1 {
            proof {
                assert(s@.drop_first().len() == 0);
            }
            return None;
        }
        let ghost digits = s@.subrange(1, s@.len() as int);
        proof {
            assert(digits =~= s@.drop_first());
        }
        match parse_digits(s, 1, 9223372036854775807u64) {
            None => {
                proof {
                    if parses_as_i64(s@) {
                        assert(all_digits(digits));
                        assert(int_value(s@) == digits_val(digits));
                    }
                }
                None
            },
            Some(mag) => Some(mag as i64),
        }
    } else {
        let ghost digits = s@.subrange(0, s@.len() as int);
        proof {
            assert(digits =~= s@);
        }
        match parse_digits(s, 0, 9223372036854775807u64) {
            None => {
                proof {
                    if parses_as_i64(s@) {
                        assert(all_digits(s@));
                        assert(int_value(s@) == digits_val(s@));
                    }
                }
                None
            },
            Some(mag) => Some(mag as i64),
        }
    }
}

/// The decimal text of the non-integer number the text denotes, if any: a
/// function of the text alone.
pub uninterp spec fn float_text_of(s: Seq<char>) -> Option<Seq<char>>;

/// The text without one leading plus sign.
pub open spec fn drop_plus(s: Seq<char>) -> Seq<char> {
    if s.len() > 0 && s[0] == '+' {
        s.drop_first()
    } else {
        s
    }
}

/// A zero slipped in before a bare leading dot, behind the sign if any.
pub open spec fn pad_leading(t: Seq<char>) -> Seq<char> {
    if t.len() > 1 && t[0] == '.' {
        seq!['0'] + t
    } else if t.len() > 2 && t[0] == '-' && t[1] == '.' {
        seq!['-', '0'] + t.drop_first()
    } else {
        t
    }
}

/// A zero appended after a bare trailing dot.
pub open spec fn pad_trailing(u: Seq<char>) -> Seq<char> {
    if u.len() > 1 && u.last() == '.' {
        u + seq!['0']
    } else {
        u
    }
}

/// The text handed to the number parser: a leading plus is dropped and a
/// bare leading or trailing dot is zero-padded, so that host-style float
/// spellings such as a trailing dot, a leading dot, or an explicit plus fit
/// the number grammar the parser accepts.
pub open spec fn float_query(s: Seq<char>) -> Seq<char> {
    pad_trailing(pad_leading(drop_plus(s)))
}

/// The characters of `s` between `from` and `to`, appended to `out`.
#[verifier::loop_isolation(false)]
fn push_range(out: &mut String, s: &str, from: usize, to: usize)
    requires
        from <= to <= s@.len(),
    ensures
        final(out)@ == old(out)@ + s@.subrange(from as int, to as int),
{
    let mut i = from;
    proof {
        assert(out@ =~= old(out)@ + s@.subrange(from as int, from as int));
    }
    while i < to
        invariant
            from <= i <= to,
            out@ == old(out)@ + s@.subrange(from as int, i as int),
        decreases to - i,
    {
        crate::text::push_char(out, s.get_char(i));
        proof {
            assert(s@.subrange(from as int, i + 1) =~= s@.subrange(from as int, i as int).push(
                s@[i as int],
            ));
            assert(out@ =~= old(out)@ + s@.subrange(from as int, i + 1));
        }
        i = i + 1;
    }
}

/// Build the normalized text the number parser is asked about.
fn float_query_text(s: &str) -> (r: String)
    ensures
        r@ == float_query(s@),
{
    let n = s.unicode_len();
    let start: usize = if n > 0 && s.get_char(0) == '+' {
        1
    } else {
        0
    };
    let ghost t = drop_plus(s@);
    proof {
        assert(t =~= s@.subrange(start as int, n as int));
    }
    let mut out = String::new();
    if n - start > 1 && s.get_char(start) == '.' {
        crate::text::push_char(&mut out, '0');
        push_range(&mut out, s, start, n);
        proof {
            assert(out@ =~= pad_leading(t));
        }
    } else if n - start > 2 && s.get_char(start) == '-' && s.get_char(start + 1) == '.' {
        crate::text::push_char(&mut out, '-');
        crate::text::push_char(&mut out, '0');
        push_range(&mut out, s, start + 1, n);
        proof {
            assert(t.drop_first() =~= s@.subrange(start + 1, n as int));
            assert(out@ =~= pad_leading(t));
        }
    } else {
        push_range(&mut out, s, start, n);
        proof {
            assert(out@ =~= pad_leading(t));
        }
    }
    let ghost u = pad_leading(t);
    let ulen = out.as_str().unicode_len();
    if ulen > 1 && n > start && s.get_char(n - 1) == '.' {
        proof {
            assert(u.last() == s@[n - 1]);
        }
        crate::text::push_char(&mut out, '0');
        proof {
            assert(out@ =~= pad_trailing(u));
        }
    } else {
        proof {
            if n > start {
                assert(u.last() == s@[n - 1]);
            }
            assert(out@ == pad_trailing(u));
        }
    }
    out
}

/// Relies on serde_json's number parsing and rendering: whether text parses
/// as a bare number, and the decimal text it renders back to, depend on the
/// characters alone.
#[verifier::external_body]
fn parse_float_text(s: &str) -> (r: Option<String>)
    ensures
        (r is Some) == (float_text_of(s@) is Some),
        r matches Some(t) ==> Some(t@) == float_text_of(s@),
{
    match serde_json::from_str::<serde_json::Number>(s) {
        Ok(n) => Some(n.to_string()),
        Err(_) => None,
    }
}

/// JSON's whitespace characters.
pub open spec fn json_ws(c: char) -> bool {
    c == ' ' || c == '\t' || c == '\n' || c == '\r'
}

/// Text without leading or trailing whitespace. Padded text never becomes a
/// number: the number grammar itself would forgive the padding.
pub open spec fn unpadded(s: Seq<char>) -> bool {
    s.len() == 0 || (!json_ws(s[0]) && !json_ws(s.last()))
}

/// Bracket- or brace-delimited text, which may denote a structured value.
pub open spec fn is_delimited(s: Seq<char>) -> bool {
    s.len() >= 1 && ((s[0] == '[' && s.last() == ']') || (s[0] == '{' && s.last() == '}'))
}

/// What a raw scalar string parses to: `"true"`/`"false"` become booleans,
/// integer-shaped text becomes an integer, other numeric text becomes a
/// number, delimited text that parses as JSON becomes that tree, and
/// everything else stays a string.
pub open spec fn spec_parse_scalar(s: Seq<char>) -> SpecValue {
    if s == "true"@ {
        SpecValue::Bool(true)
    } else if s == "false"@ {
        SpecValue::Bool(false)
    } else if parses_as_i64(s) {
        SpecValue::Int(int_value(s) as i64)
    } else if unpadded(s) && float_text_of(float_query(s)) is Some {
        SpecValue::Float(float_text_of(float_query(s))->0)
    } else if is_delimited(s) && json_of(s) is Some {
        json_of(s)->0
    } else {
        SpecValue::Text(s)
    }
}

/// Parse one raw string from the environment or the command line.
pub fn parse_scalar(raw: &str) -> (v: Value)
    ensures
        v@ == spec_parse_scalar(raw@),
        value_wf(v@),
{
    if crate::text::str_eq(raw, "true") {
        return Value::Bool(true);
    }
    if crate::text::str_eq(raw, "false") {
        return Value::Bool(false);
    }
    match parse_i64(raw) {
        Some(n) => {
            return Value::Int(n);
        },
        None => {},
    }
    let n = raw.unicode_len();
    let not_padded: bool = if n == 0 {
        true
    } else {
        let first = raw.get_char(0);
        let last = raw.get_char(n - 1);
        !(first == ' ' || first == '\t' || first == '\n' || first == '\r') && !(last == ' '
            || last == '\t' || last == '\n' || last == '\r')
    };
    if not_padded {
        let query = float_query_text(raw);
        match parse_float_text(query.as_str()) {
            Some(t) => {
                return Value::Float(t);
            },
            None => {},
        }
    }
    let delimited: bool = if n >= 1 {
        let open = raw.get_char(0);
        let close = raw.get_char(n - 1);
        (open == '[' && close == ']') || (open == '{' && close == '}')
    } else {
        false
    };
    if delimited {
        match parse_json(raw) {
            Some(v) => {
                return v;
            },
            None => {},
        }
    }
    Value::Text(raw.to_owned())
}

} // verus!
