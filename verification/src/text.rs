//! Text helpers: white space, fields, decimal numbers, and shortening names
//! for a fixed-width column.

use vstd::prelude::*;
use vstd::string::*;
use vstd::utf8::*;

verus! {

/// The number of characters kept before the ellipsis when `text` must be cut to `max_len`.
pub open spec fn kept_chars(text: Seq<char>, max_len: nat) -> nat {
    if (max_len - 1) as nat <= text.len() {
        (max_len - 1) as nat
    } else {
        text.len()
    }
}

/// `text` as shown in a column of `max_len` bytes.
pub open spec fn shortened(text: Seq<char>, max_len: nat) -> Seq<char> {
    if encode_utf8(text).len() <= max_len {
        text
    } else {
        text.take(kept_chars(text, max_len) as int).push('…')
    }
}

/// A UTF-8 encoding has at least one byte per character.
pub proof fn lemma_chars_at_most_bytes(text: Seq<char>)
    ensures
        text.len() <= encode_utf8(text).len(),
    decreases text.len(),
{
    if text.len() > 0 {
        lemma_chars_at_most_bytes(text.drop_first());
    }
}

/// Shortens `text` for a column of `max_len` bytes: a text whose UTF-8 form fits is
/// returned whole; a longer one keeps its first `max_len - 1` characters followed by `…`.
/// Either way the result has at most `max_len` characters.
pub fn truncate(text: &str, max_len: usize) -> (result: String)
    requires
        text.spec_bytes().len() <= max_len || max_len >= 1,
    ensures
        result@ == shortened(text@, max_len as nat),
        result@.len() <= max_len,
{
    let byte_len = text.as_bytes().len();
    if byte_len <= max_len {
        proof {
            lemma_chars_at_most_bytes(text@);
        }
        text.to_owned()
    } else {
        let n = text.unicode_len();
        let keep = if max_len - 1 <= n {
            max_len - 1
        } else {
            n
        };
        let mut result = text.substring_char(0, keep).to_owned();
        let ellipsis = "…";
        proof {
            reveal_strlit("…");
        }
        result.append(ellipsis);
        assert(result@ =~= text@.take(keep as int).push('…'));
        result
    }
}

/// Whether `c` has the Unicode `White_Space` property (as `char::is_whitespace` tests).
pub open spec fn is_white_space(c: char) -> bool {
    ||| '\u{9}' <= c <= '\u{d}'
    ||| c == ' '
    ||| c == '\u{85}'
    ||| c == '\u{a0}'
    ||| c == '\u{1680}'
    ||| '\u{2000}' <= c <= '\u{200a}'
    ||| c == '\u{2028}'
    ||| c == '\u{2029}'
    ||| c == '\u{202f}'
    ||| c == '\u{205f}'
    ||| c == '\u{3000}'
}

/// Tests whether `c` is white space.
pub fn white_space(c: char) -> (b: bool)
    ensures
        b == is_white_space(c),
{
    ('\u{9}' <= c && c <= '\u{d}') || c == ' ' || c == '\u{85}' || c == '\u{a0}' || c == '\u{1680}'
        || ('\u{2000}' <= c && c <= '\u{200a}') || c == '\u{2028}' || c == '\u{2029}' || c
        == '\u{202f}' || c == '\u{205f}' || c == '\u{3000}'
}

/// `s` without its leading white space.
pub open spec fn trim_start(s: Seq<char>) -> Seq<char>
    decreases s.len(),
{
    if s.len() > 0 && is_white_space(s[0]) {
        trim_start(s.drop_first())
    } else {
        s
    }
}

/// `s` without its trailing white space.
pub open spec fn trim_end(s: Seq<char>) -> Seq<char>
    decreases s.len(),
{
    if s.len() > 0 && is_white_space(s.last()) {
        trim_end(s.drop_last())
    } else {
        s
    }
}

/// `s` without white space at either end (as `str::trim` gives it).
pub open spec fn trimmed(s: Seq<char>) -> Seq<char> {
    trim_end(trim_start(s))
}

/// The characters of `s`, one by one.
pub fn chars_of(s: &str) -> (chars: Vec<char>)
    ensures
        chars@ == s@,
{
    let mut chars: Vec<char> = Vec::new();
    for c in it: s.chars()
        invariant
            it.seq() == s@,
            chars@ == it.seq().take(it.index() as int),
            it.index() == it.seq().len() ==> chars@ == it.seq(),
    {
        chars.push(c);
        assert(chars@ =~= it.seq().take(it.index() + 1));
        assert(it.index() + 1 == it.seq().len() ==> chars@ =~= it.seq());
    }
    chars
}

/// The bounds `(start, end)` of `chars[lo..hi]` with white space removed at both ends.
pub fn trim_bounds(chars: &Vec<char>, lo: usize, hi: usize) -> (bounds: (usize, usize))
    requires
        lo <= hi <= chars@.len(),
    ensures
        lo <= bounds.0 <= bounds.1 <= hi,
        chars@.subrange(bounds.0 as int, bounds.1 as int) == trimmed(chars@.subrange(lo as int, hi as int)),
{
    let ghost whole = chars@.subrange(lo as int, hi as int);
    let mut start = lo;
    while start < hi && white_space(chars[start])
        invariant
            lo <= start <= hi <= chars@.len(),
            whole == chars@.subrange(lo as int, hi as int),
            trim_start(whole) == trim_start(chars@.subrange(start as int, hi as int)),
        decreases hi - start,
    {
        assert(chars@.subrange(start as int, hi as int).drop_first() =~= chars@.subrange(
            start + 1,
            hi as int,
        ));
        start = start + 1;
    }
    assert(trim_start(whole) == chars@.subrange(start as int, hi as int));
    let mut end = hi;
    while end > start && white_space(chars[end - 1])
        invariant
            lo <= start <= end <= hi <= chars@.len(),
            trim_end(trim_start(whole)) == trim_end(chars@.subrange(start as int, end as int)),
        decreases end - start,
    {
        assert(chars@.subrange(start as int, end as int).drop_last() =~= chars@.subrange(
            start as int,
            end - 1,
        ));
        end = end - 1;
    }
    (start, end)
}

/// Whether every character of `d` is an ASCII digit.
pub open spec fn all_digits(d: Seq<char>) -> bool {
    forall|i: int| 0 <= i < d.len() ==> '0' <= #[trigger] d[i] <= '9'
}

/// The number written by the decimal digits `d`.
pub open spec fn digits_value(d: Seq<char>) -> nat
    decreases d.len(),
{
    if d.len() == 0 {
        0
    } else {
        digits_value(d.drop_last()) * 10 + (d.last() as nat - '0' as nat) as nat
    }
}

/// The digits of an unsigned number: the text without one leading `+`.
pub open spec fn unsigned_digits(t: Seq<char>) -> Seq<char> {
    if t.len() > 0 && t[0] == '+' {
        t.drop_first()
    } else {
        t
    }
}

/// The `usize` that `t` denotes, as `str::parse::<usize>` reads it: an optional `+`, then
/// one or more decimal digits, of a value that fits; `None` for anything else.
pub open spec fn parse_usize(t: Seq<char>) -> Option<usize> {
    let d = unsigned_digits(t);
    if d.len() > 0 && all_digits(d) && digits_value(d) <= usize::MAX {
        Some(digits_value(d) as usize)
    } else {
        None
    }
}

/// Reads `chars[lo..hi]` as an unsigned decimal number.
pub fn parse_usize_in(chars: &Vec<char>, lo: usize, hi: usize) -> (value: Option<usize>)
    requires
        lo <= hi <= chars@.len(),
    ensures
        value == parse_usize(chars@.subrange(lo as int, hi as int)),
{
    let ghost t = chars@.subrange(lo as int, hi as int);
    let mut start = lo;
    if lo < hi && chars[lo] == '+' {
        start = lo + 1;
    }
    assert(unsigned_digits(t) =~= chars@.subrange(start as int, hi as int));
    if start == hi {
        return None;
    }
    let mut value: usize = 0;
    let mut overflow = false;
    let mut i = start;
    while i < hi
        invariant
            lo <= start <= i <= hi <= chars@.len(),
            t == chars@.subrange(lo as int, hi as int),
            unsigned_digits(t) == chars@.subrange(start as int, hi as int),
            all_digits(chars@.subrange(start as int, i as int)),
            !overflow ==> value == digits_value(chars@.subrange(start as int, i as int)),
            overflow ==> digits_value(chars@.subrange(start as int, i as int)) > usize::MAX,
        decreases hi - i,
    {
        let c = chars[i];
        if !('0' <= c && c <= '9') {
            assert(!all_digits(chars@.subrange(start as int, hi as int))) by {
                assert(chars@.subrange(start as int, hi as int)[i - start] == c);
            }
            return None;
        }
        let ghost prefix = chars@.subrange(start as int, i as int);
        let ghost next = chars@.subrange(start as int, i + 1);
        assert(next.drop_last() =~= prefix);
        assert(next.last() == c);
        let digit = (c as u32 - '0' as u32) as usize;
        assert(digits_value(next) == digits_value(prefix) * 10 + digit);
        if !overflow {
            if value > (usize::MAX - digit) / 10 {
                overflow = true;
                assert(digits_value(next) > usize::MAX) by (nonlinear_arith)
                    requires
                        value > (usize::MAX - digit) / 10,
                        digits_value(next) == value * 10 + digit,
                        digit <= 9,
                ;
            } else {
                assert(value * 10 + digit <= usize::MAX) by (nonlinear_arith)
                    requires
                        value <= (usize::MAX - digit) / 10,
                        digit <= 9,
                ;
                value = value * 10 + digit;
            }
        } else {
            assert(digits_value(next) >= digits_value(prefix)) by (nonlinear_arith)
                requires
                    digits_value(next) == digits_value(prefix) * 10 + digit,
            ;
        }
        assert forall|k: int| 0 <= k < next.len() implies '0' <= #[trigger] next[k] <= '9' by {
            if k < prefix.len() {
                assert(next[k] == prefix[k]);
            }
        }
        i = i + 1;
    }
    if overflow {
        None
    } else {
        Some(value)
    }
}

/// The character of the decimal digit `d`.
pub open spec fn digit_char(d: nat) -> char {
    ((d + 48) as u32) as char
}

/// `n` written in decimal, without leading zeros.
pub open spec fn decimal(n: nat) -> Seq<char>
    decreases n,
{
    if n < 10 {
        seq![digit_char(n)]
    } else {
        decimal(n / 10).push(digit_char(n % 10))
    }
}

fn digit_str(d: usize) -> (s: &'static str)
    requires
        d < 10,
    ensures
        s@ == seq![digit_char(d as nat)],
{
    proof {
        reveal_strlit("0");
        reveal_strlit("1");
        reveal_strlit("2");
        reveal_strlit("3");
        reveal_strlit("4");
        reveal_strlit("5");
        reveal_strlit("6");
        reveal_strlit("7");
        reveal_strlit("8");
        reveal_strlit("9");
    }
    let s = match d {
        0 => "0",
        1 => "1",
        2 => "2",
        3 => "3",
        4 => "4",
        5 => "5",
        6 => "6",
        7 => "7",
        8 => "8",
        _ => "9",
    };
    assert(s@ =~= seq![digit_char(d as nat)]);
    s
}

/// Appends `n`, in decimal, to `out`.
pub fn push_decimal(out: &mut String, n: usize)
    ensures
        final(out)@ == old(out)@ + decimal(n as nat),
{
    let mut digits: Vec<usize> = Vec::new();
    let mut rest = n;
    loop
        invariant
            rest <= n,
            decimal(n as nat) == decimal(rest as nat) + Seq::new(
                digits@.len(),
                |i: int| digit_char(digits@[digits@.len() - 1 - i] as nat),
            ),
            forall|i: int| 0 <= i < digits@.len() ==> digits@[i] < 10,
        ensures
            rest < 10,
            decimal(n as nat) == decimal(rest as nat) + Seq::new(
                digits@.len(),
                |i: int| digit_char(digits@[digits@.len() - 1 - i] as nat),
            ),
            forall|i: int| 0 <= i < digits@.len() ==> digits@[i] < 10,
        decreases rest,
    {
        if rest < 10 {
            break;
        }
        let ghost before = digits@;
        digits.push(rest % 10);
        proof {
            let tail_before = Seq::new(before.len(), |i: int| digit_char(before[before.len() - 1 - i] as nat));
            let tail_after = Seq::new(digits@.len(), |i: int| digit_char(digits@[digits@.len() - 1 - i] as nat));
            assert(tail_after =~= seq![digit_char((rest % 10) as nat)] + tail_before);
            assert(decimal(rest as nat) == decimal((rest / 10) as nat).push(digit_char((rest % 10) as nat)));
            assert(decimal((rest / 10) as nat).push(digit_char((rest % 10) as nat)) + tail_before
                =~= decimal((rest / 10) as nat) + tail_after);
        }
        rest = rest / 10;
    }
    let ghost start = out@;
    out.append(digit_str(rest));
    let mut k = digits.len();
    while k > 0
        invariant
            k <= digits@.len(),
            forall|i: int| 0 <= i < digits@.len() ==> digits@[i] < 10,
            out@ == start + seq![digit_char(rest as nat)] + Seq::new(
                (digits@.len() - k) as nat,
                |i: int| digit_char(digits@[digits@.len() - 1 - i] as nat),
            ),
        decreases k,
    {
        k = k - 1;
        let ghost before = out@;
        out.append(digit_str(digits[k]));
        assert(out@ =~= start + seq![digit_char(rest as nat)] + Seq::new(
            (digits@.len() - k) as nat,
            |i: int| digit_char(digits@[digits@.len() - 1 - i] as nat),
        ));
    }
    assert(decimal(rest as nat) == seq![digit_char(rest as nat)]);
    assert(out@ =~= start + decimal(n as nat));
}

/// `n` in decimal.
pub fn decimal_string(n: usize) -> (s: String)
    ensures
        s@ == decimal(n as nat),
{
    let mut s = String::new();
    push_decimal(&mut s, n);
    assert(s@ =~= decimal(n as nat));
    s
}

proof fn lemma_decimal_digits(n: nat)
    ensures
        decimal(n).len() > 0,
        all_digits(decimal(n)),
        digits_value(decimal(n)) == n,
    decreases n,
{
    let d = (n % 10) as nat;
    assert(digit_char(d) as nat == d + 48);
    if n >= 10 {
        lemma_decimal_digits(n / 10);
        let s = decimal(n);
        assert(s.drop_last() =~= decimal(n / 10));
        assert(s.last() == digit_char(d));
        assert((s.last() as nat - '0' as nat) as nat == d);
        assert(digits_value(s) == digits_value(decimal(n / 10)) * 10 + d);
        assert(n == (n / 10) * 10 + n % 10);
        assert forall|i: int| 0 <= i < s.len() implies '0' <= #[trigger] s[i] <= '9' by {
            if i < s.len() - 1 {
                assert(s[i] == decimal(n / 10)[i]);
            }
        }
    } else {
        assert(decimal(n).drop_last() =~= Seq::<char>::empty());
        assert(decimal(n).last() == digit_char(d));
        assert(digits_value(Seq::<char>::empty()) == 0);
    }
}

/// Reading back a number written in decimal gives the number: every `usize` survives the
/// round trip through `decimal` and `parse_usize`.
pub proof fn law_parse_reads_decimal(n: usize)
    ensures
        parse_usize(decimal(n as nat)) == Some(n),
        parse_usize(seq!['+'] + decimal(n as nat)) == Some(n),
{
    lemma_decimal_digits(n as nat);
    let s = decimal(n as nat);
    assert('0' <= s[0] <= '9');
    assert(unsigned_digits(s) == s);
    assert((seq!['+'] + s).drop_first() =~= s);
}

/// A text reads as a number exactly when, after one optional leading `+`, it is a
/// non-empty run of decimal digits whose value fits in a `usize`; the number read is that
/// value.
pub proof fn law_parse_reads_digits(t: Seq<char>, v: usize)
    ensures
        parse_usize(t) == Some(v) <==> (exists|d: Seq<char>|
            (t == d || t == seq!['+'] + d) && d.len() > 0 && all_digits(d) && digits_value(d) == v),
{
    let d0 = unsigned_digits(t);
    if parse_usize(t) == Some(v) {
        if t.len() > 0 && t[0] == '+' {
            assert(t =~= seq!['+'] + d0);
        }
        assert((t == d0 || t == seq!['+'] + d0) && d0.len() > 0 && all_digits(d0) && digits_value(d0) == v);
    }
    if exists|d: Seq<char>|
        (t == d || t == seq!['+'] + d) && d.len() > 0 && all_digits(d) && digits_value(d) == v {
        let d = choose|d: Seq<char>|
            (t == d || t == seq!['+'] + d) && d.len() > 0 && all_digits(d) && digits_value(d) == v;
        if t == d {
            assert('0' <= d[0] <= '9');
            assert(d0 == d);
        } else {
            assert(t[0] == '+');
            assert(d0 =~= d);
        }
    }
}

} // verus!
