//! Character-level helpers: the small part of string handling the protocol
//! and path code needs, each stated over the characters of the text.

use vstd::prelude::*;
use vstd::std_specs::iter::IteratorSpec;

verus! {

broadcast use vstd::string::axiom_spec_iter;

/// `String::push`: the character is appended.
#[verifier::external_body]
pub(crate) fn push_char(text: &mut String, c: char)
    ensures
        final(text)@ == old(text)@.push(c),
{
    text.push(c);
}

/// The characters of `text`.
pub fn chars_of(text: &str) -> (chars: Vec<char>)
    ensures
        chars@ == text@,
{
    broadcast use vstd::string::next_postcondition;
    let mut chars: Vec<char> = Vec::new();
    let mut iter = text.chars();
    loop
        invariant
            iter.remaining() == text@.subrange(chars@.len() as int, text@.len() as int),
            chars@ == text@.subrange(0, chars@.len() as int),
            chars@.len() <= text@.len(),
            iter.obeys_prophetic_iter_laws(),
        ensures
            chars@ == text@,
        decreases text@.len() - chars@.len(),
    {
        match iter.next() {
            Some(c) => {
                proof {
                    assert(text@.subrange(0, chars@.len() as int + 1) =~= chars@.push(c));
                }
                chars.push(c);
            },
            None => {
                proof {
                    assert(chars@ =~= text@);
                }
                break;
            },
        }
    }
    chars
}

/// The text made of `chars`.
pub fn text_of(chars: &[char]) -> (text: String)
    ensures
        text@ == chars@,
{
    let mut text = String::new();
    let mut i: usize = 0;
    while i < chars.len()
        invariant
            i <= chars@.len(),
            text@ == chars@.subrange(0, i as int),
        decreases chars@.len() - i,
    {
        push_char(&mut text, chars[i]);
        proof {
            assert(chars@.subrange(0, i + 1) =~= chars@.subrange(0, i as int).push(chars@[i as int]));
        }
        i = i + 1;
    }
    proof {
        assert(chars@.subrange(0, i as int) =~= chars@);
    }
    text
}

/// The text made of the characters of `chars` from `start` to `end`.
pub fn text_between(chars: &[char], start: usize, end: usize) -> (text: String)
    requires
        start <= end <= chars@.len(),
    ensures
        text@ == chars@.subrange(start as int, end as int),
{
    let mut text = String::new();
    let mut i: usize = start;
    while i < end
        invariant
            start <= i <= end <= chars@.len(),
            text@ == chars@.subrange(start as int, i as int),
        decreases end - i,
    {
        push_char(&mut text, chars[i]);
        proof {
            assert(chars@.subrange(start as int, i + 1) =~= chars@.subrange(start as int, i as int).push(chars@[i as int]));
        }
        i = i + 1;
    }
    text
}

/// `text` followed by `more`.
pub fn concat(text: &str, more: &str) -> (joined: String)
    ensures
        joined@ == text@ + more@,
{
    let mut chars = chars_of(text);
    let tail = chars_of(more);
    let mut i: usize = 0;
    while i < tail.len()
        invariant
            i <= tail@.len(),
            chars@ == text@ + more@.subrange(0, i as int),
            tail@ == more@,
        decreases tail@.len() - i,
    {
        chars.push(tail[i]);
        proof {
            assert(more@.subrange(0, i + 1) =~= more@.subrange(0, i as int).push(more@[i as int]));
            assert(text@ + more@.subrange(0, i + 1) =~= (text@ + more@.subrange(0, i as int)).push(more@[i as int]));
        }
        i = i + 1;
    }
    proof {
        assert(more@.subrange(0, i as int) =~= more@);
    }
    text_of(chars.as_slice())
}

/// Whether two texts hold the same characters.
pub fn same_text(a: &str, b: &str) -> (same: bool)
    ensures
        same == (a@ == b@),
{
    let x = chars_of(a);
    let y = chars_of(b);
    same_chars(x.as_slice(), y.as_slice())
}

/// Whether two character slices are equal.
pub fn same_chars(x: &[char], y: &[char]) -> (same: bool)
    ensures
        same == (x@ == y@),
{
    if x.len() != y.len() {
        return false;
    }
    let mut i: usize = 0;
    while i < x.len()
        invariant
            x@.len() == y@.len(),
            i <= x@.len(),
            x@.subrange(0, i as int) == y@.subrange(0, i as int),
        decreases x@.len() - i,
    {
        if x[i] != y[i] {
            return false;
        }
        proof {
            assert(x@.subrange(0, i + 1) =~= x@.subrange(0, i as int).push(x@[i as int]));
            assert(y@.subrange(0, i + 1) =~= y@.subrange(0, i as int).push(y@[i as int]));
        }
        i = i + 1;
    }
    proof {
        assert(x@.subrange(0, i as int) =~= x@);
        assert(y@.subrange(0, i as int) =~= y@);
    }
    true
}

/// Whether `text` begins with `prefix`.
pub fn has_prefix(text: &[char], prefix: &[char]) -> (found: bool)
    ensures
        found == prefix@.is_prefix_of(text@),
{
    if prefix.len() > text.len() {
        return false;
    }
    let mut i: usize = 0;
    while i < prefix.len()
        invariant
            prefix@.len() <= text@.len(),
            i <= prefix@.len(),
            forall|j: int| 0 <= j < i ==> prefix@[j] == text@[j],
        decreases prefix@.len() - i,
    {
        if prefix[i] != text[i] {
            return false;
        }
        i = i + 1;
    }
    proof {
        assert(prefix@ =~= text@.subrange(0, prefix@.len() as int));
    }
    true
}

/// `text` without `prefix`, when it begins with it.
pub open spec fn spec_strip_prefix(text: Seq<char>, prefix: Seq<char>) -> Option<Seq<char>> {
    if prefix.is_prefix_of(text) {
        Some(text.subrange(prefix.len() as int, text.len() as int))
    } else {
        None
    }
}

/// `str::strip_prefix` over characters.
pub fn strip_prefix(text: &str, prefix: &str) -> (rest: Option<String>)
    ensures
        rest matches Some(r) ==> spec_strip_prefix(text@, prefix@) == Some(r@),
        rest is None ==> spec_strip_prefix(text@, prefix@) is None,
{
    let chars = chars_of(text);
    let lead = chars_of(prefix);
    if has_prefix(chars.as_slice(), lead.as_slice()) {
        Some(text_between(chars.as_slice(), lead.len(), chars.len()))
    } else {
        None
    }
}

/// Index of the first `c` in `text` at or after `from`, or the length when
/// there is none.
pub open spec fn next_index_of(text: Seq<char>, c: char, from: int) -> int
    decreases text.len() - from,
{
    if from >= text.len() {
        text.len() as int
    } else if text[from] == c {
        from
    } else {
        next_index_of(text, c, from + 1)
    }
}

/// What `next_index_of` finds: a position at or after `from`, holding `c`
/// unless it is the end, with no `c` before it.
pub proof fn lemma_next_index_of(text: Seq<char>, c: char, from: int)
    requires
        0 <= from <= text.len(),
    ensures
        from <= next_index_of(text, c, from) <= text.len(),
        next_index_of(text, c, from) < text.len() ==> text[next_index_of(text, c, from)] == c,
        forall|j: int| from <= j < next_index_of(text, c, from) ==> text[j] != c,
    decreases text.len() - from,
{
    if from < text.len() && text[from] != c {
        lemma_next_index_of(text, c, from + 1);
    }
}

/// Find the first `c` in `text` at or after `from`.
pub fn find_char(text: &[char], c: char, from: usize) -> (index: usize)
    requires
        from <= text@.len(),
    ensures
        index == next_index_of(text@, c, from as int),
{
    let mut i = from;
    while i < text.len()
        invariant
            from <= i <= text@.len(),
            next_index_of(text@, c, i as int) == next_index_of(text@, c, from as int),
        decreases text@.len() - i,
    {
        if text[i] == c {
            return i;
        }
        i = i + 1;
    }
    i
}

/// `str::split_once` at the first `delimiter`.
pub open spec fn spec_split_once(text: Seq<char>, delimiter: char) -> Option<(Seq<char>, Seq<char>)> {
    let at = next_index_of(text, delimiter, 0);
    if at < text.len() {
        Some((text.subrange(0, at), text.subrange(at + 1, text.len() as int)))
    } else {
        None
    }
}

/// Split `text` at its first `delimiter`.
pub fn split_once(text: &str, delimiter: char) -> (parts: Option<(String, String)>)
    ensures
        parts matches Some(p) ==> spec_split_once(text@, delimiter) == Some((p.0@, p.1@)),
        parts is None ==> spec_split_once(text@, delimiter) is None,
{
    let chars = chars_of(text);
    let at = find_char(chars.as_slice(), delimiter, 0);
    if at < chars.len() {
        Some((text_between(chars.as_slice(), 0, at), text_between(chars.as_slice(), at + 1, chars.len())))
    } else {
        None
    }
}

/// Unicode `White_Space`, the set `char::is_whitespace` tests.
pub open spec fn is_white_space(c: char) -> bool {
    let v = c as u32;
    (0x9 <= v <= 0xd) || v == 0x20 || v == 0x85 || v == 0xa0 || v == 0x1680 || (0x2000 <= v <= 0x200a)
        || v == 0x2028 || v == 0x2029 || v == 0x202f || v == 0x205f || v == 0x3000
}

/// Whether `c` is white space.
pub fn white_space(c: char) -> (white: bool)
    ensures
        white == is_white_space(c),
{
    let v = c as u32;
    (0x9 <= v && v <= 0xd) || v == 0x20 || v == 0x85 || v == 0xa0 || v == 0x1680 || (0x2000 <= v && v <= 0x200a)
        || v == 0x2028 || v == 0x2029 || v == 0x202f || v == 0x205f || v == 0x3000
}

/// Number of white space characters `text` starts with.
pub open spec fn leading_white(text: Seq<char>) -> int
    decreases text.len(),
{
    if text.len() > 0 && is_white_space(text[0]) {
        1 + leading_white(text.drop_first())
    } else {
        0
    }
}

/// Number of white space characters `text` ends with.
pub open spec fn trailing_white(text: Seq<char>) -> int
    decreases text.len(),
{
    if text.len() > 0 && is_white_space(text.last()) {
        1 + trailing_white(text.drop_last())
    } else {
        0
    }
}

/// `str::trim`: `text` without its leading and trailing white space.
pub open spec fn spec_trim(text: Seq<char>) -> Seq<char> {
    let start = text.subrange(leading_white(text), text.len() as int);
    start.subrange(0, start.len() - trailing_white(start))
}

proof fn lemma_leading_white(text: Seq<char>, i: int)
    requires
        0 <= i <= text.len(),
        forall|j: int| 0 <= j < i ==> is_white_space(text[j]),
        i == text.len() || !is_white_space(text[i]),
    ensures
        leading_white(text) == i,
    decreases i,
{
    if i > 0 {
        lemma_leading_white(text.drop_first(), i - 1);
    } else if text.len() > 0 {
        assert(!is_white_space(text[0]));
    }
}

proof fn lemma_trailing_white(text: Seq<char>, n: int)
    requires
        0 <= n <= text.len(),
        forall|j: int| text.len() - n <= j < text.len() ==> is_white_space(text[j]),
        n == text.len() || !is_white_space(text[text.len() - n - 1]),
    ensures
        trailing_white(text) == n,
    decreases n,
{
    if n > 0 {
        assert forall|j: int| text.drop_last().len() - (n - 1) <= j < text.drop_last().len()
            implies is_white_space(text.drop_last()[j]) by {
            assert(text.drop_last()[j] == text[j]);
        }
        lemma_trailing_white(text.drop_last(), n - 1);
    } else if text.len() > 0 {
        assert(!is_white_space(text.last()));
    }
}

/// `text` without leading and trailing white space.
pub fn trim(text: &str) -> (trimmed: String)
    ensures
        trimmed@ == spec_trim(text@),
{
    let chars = chars_of(text);
    let mut start: usize = 0;
    while start < chars.len() && white_space(chars[start])
        invariant
            start <= chars@.len(),
            forall|j: int| 0 <= j < start ==> is_white_space(chars@[j]),
        decreases chars@.len() - start,
    {
        start = start + 1;
    }
    let mut end: usize = chars.len();
    while end > start && white_space(chars[end - 1])
        invariant
            start <= end <= chars@.len(),
            forall|j: int| end <= j < chars@.len() ==> is_white_space(chars@[j]),
        decreases end - start,
    {
        end = end - 1;
    }
    proof {
        lemma_leading_white(text@, start as int);
        let rest = text@.subrange(start as int, text@.len() as int);
        lemma_trailing_white(rest, chars@.len() - end);
    }
    text_between(chars.as_slice(), start, end)
}

/// A line as `str::lines` yields it: without a carriage return that stood
/// just before its newline.
pub open spec fn without_cr(line: Seq<char>, ended_by_newline: bool) -> Seq<char> {
    if ended_by_newline && line.len() > 0 && line.last() == '\r' {
        line.drop_last()
    } else {
        line
    }
}

/// The lines of `text` from position `start` on, as `str::lines` yields
/// them: split at each newline, a final newline ending the last line.
pub open spec fn lines_from(text: Seq<char>, start: int) -> Seq<Seq<char>>
    decreases text.len() - start,
{
    if start >= text.len() || start < 0 {
        Seq::empty()
    } else {
        let end = next_index_of(text, '\n', start);
        proof {
            lemma_next_index_of(text, '\n', start);
        }
        if end >= text.len() {
            seq![text.subrange(start, text.len() as int)]
        } else {
            seq![without_cr(text.subrange(start, end), true)] + lines_from(text, end + 1)
        }
    }
}

/// `str::lines`.
pub open spec fn spec_lines(text: Seq<char>) -> Seq<Seq<char>> {
    lines_from(text, 0)
}

/// The lines of `text`.
pub fn lines(text: &str) -> (result: Vec<String>)
    ensures
        result@.map_values(|line: String| line@) == spec_lines(text@),
{
    let chars = chars_of(text);
    let mut result: Vec<String> = Vec::new();
    let mut start: usize = 0;
    while start < chars.len()
        invariant
            start <= chars@.len(),
            chars@ == text@,
            result@.map_values(|line: String| line@) + lines_from(text@, start as int) == spec_lines(text@),
        decreases chars@.len() - start,
    {
        proof {
            lemma_next_index_of(text@, '\n', start as int);
        }
        let end = find_char(chars.as_slice(), '\n', start);
        let ghost before = result@.map_values(|line: String| line@);
        if end < chars.len() {
            let mut stop = end;
            if stop > start && chars[stop - 1] == '\r' {
                stop = stop - 1;
            }
            let line = text_between(chars.as_slice(), start, stop);
            proof {
                assert(line@ == without_cr(text@.subrange(start as int, end as int), true)) by {
                    assert(line@ =~= without_cr(text@.subrange(start as int, end as int), true));
                }
            }
            result.push(line);
            proof {
                assert(result@.map_values(|line: String| line@) =~= before.push(line@));
                assert(lines_from(text@, start as int) == seq![line@] + lines_from(text@, end + 1));
                assert(before + lines_from(text@, start as int) =~= before.push(line@) + lines_from(text@, end + 1));
            }
            start = end + 1;
        } else {
            let line = text_between(chars.as_slice(), start, chars.len());
            result.push(line);
            proof {
                assert(result@.map_values(|line: String| line@) =~= before.push(line@));
                assert(lines_from(text@, end as int + 1) == Seq::<Seq<char>>::empty());
                assert(before + lines_from(text@, start as int) =~= before.push(line@));
            }
            start = chars.len();
        }
    }
    proof {
        assert(lines_from(text@, start as int) == Seq::<Seq<char>>::empty());
        assert(result@.map_values(|line: String| line@) =~= result@.map_values(|line: String| line@) + Seq::<Seq<char>>::empty());
    }
    result
}

// ---------------------------------------------------------------------------
// Decimal numbers
// ---------------------------------------------------------------------------

pub open spec fn is_digit(c: char) -> bool {
    '0' <= c <= '9'
}

pub open spec fn digit_value(c: char) -> int {
    c as int - '0' as int
}

/// Whether every character of `text` is an ASCII digit.
pub open spec fn all_digits(text: Seq<char>) -> bool {
    forall|i: int| 0 <= i < text.len() ==> is_digit(#[trigger] text[i])
}

/// The value of a run of decimal digits.
pub open spec fn digits_value(text: Seq<char>) -> int
    decreases text.len(),
{
    if text.len() == 0 {
        0
    } else {
        digits_value(text.drop_last()) * 10 + digit_value(text.last())
    }
}

/// What `FromStr` for an integer type from `min` to `max` makes of `text`:
/// an optional `+` (or `-` when `min` is negative) and at least one digit,
/// whose value must fit.
pub open spec fn spec_parse_int(text: Seq<char>, min: int, max: int) -> Option<int> {
    if text.len() == 0 {
        None
    } else {
        let negative = min < 0 && text[0] == '-';
        let digits = if negative || text[0] == '+' { text.drop_first() } else { text };
        let value = if negative { -digits_value(digits) } else { digits_value(digits) };
        if digits.len() == 0 || !all_digits(digits) || value < min || value > max {
            None
        } else {
            Some(value)
        }
    }
}

proof fn lemma_digits_value_grows(text: Seq<char>, n: int)
    requires
        all_digits(text),
        0 <= n <= text.len(),
    ensures
        0 <= digits_value(text.subrange(0, n)) <= digits_value(text),
    decreases text.len() - n,
{
    if n < text.len() {
        lemma_digits_value_grows(text, n + 1);
        let next = text.subrange(0, n + 1);
        assert(next.drop_last() =~= text.subrange(0, n));
        assert(is_digit(text[n]));
    } else {
        assert(text.subrange(0, n) =~= text);
        lemma_digits_value_nonnegative(text);
    }
}

proof fn lemma_digits_value_nonnegative(text: Seq<char>)
    requires
        all_digits(text),
    ensures
        0 <= digits_value(text),
    decreases text.len(),
{
    if text.len() > 0 {
        assert(all_digits(text.drop_last())) by {
            assert forall|i: int| 0 <= i < text.drop_last().len() implies is_digit(#[trigger] text.drop_last()[i]) by {
                assert(text.drop_last()[i] == text[i]);
            }
        }
        lemma_digits_value_nonnegative(text.drop_last());
        assert(is_digit(text[text.len() - 1]));
    }
}

/// Parse the digits of `text` from `start`, giving up once the value passes
/// `bound`: `Some(value)` when every character is a digit and the value is
/// at most `bound`.
fn parse_digits(text: &[char], start: usize, bound: u64) -> (value: Option<u64>)
    requires
        start <= text@.len(),
        9 <= bound,
    ensures
        ({
            let digits = text@.subrange(start as int, text@.len() as int);
            match value {
                Some(v) => all_digits(digits) && v == digits_value(digits) && v <= bound,
                None => !all_digits(digits) || digits_value(digits) > bound,
            }
        }),
{
    let ghost digits = text@.subrange(start as int, text@.len() as int);
    let mut value: u64 = 0;
    let mut i = start;
    while i < text.len()
        invariant
            start <= i <= text@.len(),
            digits == text@.subrange(start as int, text@.len() as int),
            all_digits(text@.subrange(start as int, i as int)),
            value == digits_value(text@.subrange(start as int, i as int)),
            value <= bound,
            9 <= bound,
        decreases text@.len() - i,
    {
        let c = text[i];
        let ghost prefix = text@.subrange(start as int, i + 1);
        proof {
            assert(prefix.drop_last() =~= text@.subrange(start as int, i as int));
            assert(prefix =~= digits.subrange(0, i + 1 - start));
        }
        if c < '0' || c > '9' {
            proof {
                assert(digits[i - start] == c);
            }
            return None;
        }
        let d = (c as u32 - '0' as u32) as u64;
        proof {
            assert(all_digits(prefix)) by {
                assert forall|j: int| 0 <= j < prefix.len() implies is_digit(#[trigger] prefix[j]) by {
                    if j < prefix.len() - 1 {
                        assert(prefix[j] == text@.subrange(start as int, i as int)[j]);
                    }
                }
            }
        }
        if value > (bound - d) / 10 {
            proof {
                assert(value * 10 + d > bound) by (nonlinear_arith)
                    requires value > (bound - d) / 10, d <= 9, d <= bound || true;
                if all_digits(digits) {
                    lemma_digits_value_grows(digits, i + 1 - start);
                    assert(digits_value(prefix) == value * 10 + d);
                }
            }
            return None;
        }
        value = value * 10 + d;
        i = i + 1;
    }
    proof {
        assert(text@.subrange(start as int, i as int) =~= digits);
    }
    Some(value)
}

/// `FromStr` for `i32`.
pub fn parse_i32(text: &str) -> (value: Option<i32>)
    ensures
        value matches Some(v) ==> spec_parse_int(text@, i32::MIN as int, i32::MAX as int) == Some(v as int),
        value is None ==> spec_parse_int(text@, i32::MIN as int, i32::MAX as int) is None,
{
    let chars = chars_of(text);
    if chars.len() == 0 {
        return None;
    }
    let negative = chars[0] == '-';
    let start: usize = if negative || chars[0] == '+' { 1 } else { 0 };
    proof {
        assert(chars@.subrange(start as int, chars@.len() as int) =~= if negative || chars@[0] == '+' { text@.drop_first() } else { text@ });
    }
    if start == chars.len() {
        return None;
    }
    let bound: u64 = if negative { 2147483648 } else { 2147483647 };
    match parse_digits(chars.as_slice(), start, bound) {
        Some(v) => {
            if negative {
                Some((0 - v as i64) as i32)
            } else {
                Some(v as i32)
            }
        },
        None => None,
    }
}

/// `FromStr` for `u64`.
pub fn parse_u64(text: &str) -> (value: Option<u64>)
    ensures
        value matches Some(v) ==> spec_parse_int(text@, 0, u64::MAX as int) == Some(v as int),
        value is None ==> spec_parse_int(text@, 0, u64::MAX as int) is None,
{
    let chars = chars_of(text);
    if chars.len() == 0 {
        return None;
    }
    let start: usize = if chars[0] == '+' { 1 } else { 0 };
    proof {
        assert(chars@.subrange(start as int, chars@.len() as int) =~= if chars@[0] == '+' { text@.drop_first() } else { text@ });
    }
    if start == chars.len() {
        return None;
    }
    parse_digits(chars.as_slice(), start, u64::MAX)
}

/// `FromStr` for `u32`.
pub fn parse_u32(text: &str) -> (value: Option<u32>)
    ensures
        value matches Some(v) ==> spec_parse_int(text@, 0, u32::MAX as int) == Some(v as int),
        value is None ==> spec_parse_int(text@, 0, u32::MAX as int) is None,
{
    let chars = chars_of(text);
    if chars.len() == 0 {
        return None;
    }
    let start: usize = if chars[0] == '+' { 1 } else { 0 };
    proof {
        assert(chars@.subrange(start as int, chars@.len() as int) =~= if chars@[0] == '+' { text@.drop_first() } else { text@ });
    }
    if start == chars.len() {
        return None;
    }
    match parse_digits(chars.as_slice(), start, u32::MAX as u64) {
        Some(v) => Some(v as u32),
        None => None,
    }
}

/// The decimal digits of `n`.
pub open spec fn spec_decimal(n: nat) -> Seq<char>
    decreases n,
{
    if n < 10 {
        seq![(('0' as u32) + n) as char]
    } else {
        spec_decimal(n / 10).push((('0' as u32) + (n % 10)) as char)
    }
}

/// The decimal representation of `n`, as `Display` writes it.
pub fn decimal(n: u64) -> (text: String)
    ensures
        text@ == spec_decimal(n as nat),
    decreases n,
{
    let digit = ((n % 10) as u32 + '0' as u32) as u8 as char;
    if n < 10 {
        let mut text = String::new();
        push_char(&mut text, digit);
        proof {
            assert(text@ =~= spec_decimal(n as nat));
        }
        text
    } else {
        let mut text = decimal(n / 10);
        push_char(&mut text, digit);
        text
    }
}

/// The decimal representation of `n` with a leading `-` when negative, as
/// `Display` writes it.
pub open spec fn spec_signed_decimal(n: int) -> Seq<char> {
    if n < 0 {
        seq!['-'] + spec_decimal((-n) as nat)
    } else {
        spec_decimal(n as nat)
    }
}

/// The decimal representation of `n`.
pub fn signed_decimal(n: i64) -> (text: String)
    requires
        n > i64::MIN,
    ensures
        text@ == spec_signed_decimal(n as int),
{
    if n < 0 {
        let digits = decimal((0 - n) as u64);
        proof {
            reveal_strlit("-");
        }
        concat("-", digits.as_str())
    } else {
        decimal(n as u64)
    }
}

/// The decimal digits of a number are digits, and read back as the number.
pub proof fn decimal_reads_back(n: nat)
    ensures
        all_digits(spec_decimal(n)),
        spec_decimal(n).len() > 0,
        digits_value(spec_decimal(n)) == n,
        n >= 10 ==> spec_decimal(n).len() >= 2,
    decreases n,
{
    let d = spec_decimal(n);
    if n < 10 {
        assert(d.drop_last() =~= Seq::<char>::empty());
        assert(digits_value(d.drop_last()) == 0);
        assert(digit_value(d.last()) == n);
        assert(digits_value(d) == n);
    } else {
        decimal_reads_back(n / 10);
        assert(d.drop_last() =~= spec_decimal(n / 10));
        assert(d.last() == ((('0' as u32) + (n % 10)) as char));
        assert(digit_value(d.last()) == n % 10);
        assert(digits_value(d) == digits_value(d.drop_last()) * 10 + digit_value(d.last()));
        assert forall|i: int| 0 <= i < d.len() implies is_digit(#[trigger] d[i]) by {
            if i < d.len() - 1 {
                assert(d[i] == spec_decimal(n / 10)[i]);
            }
        }
        assert(digits_value(d) == (n / 10) * 10 + n % 10);
        assert(digits_value(d) == n);
    }
}

/// `FromStr` gives back the number `Display` wrote, when it fits.
pub proof fn parse_reads_decimal(n: nat, max: int)
    requires
        n <= max,
    ensures
        spec_parse_int(spec_decimal(n), 0, max) == Some(n as int),
{
    decimal_reads_back(n);
}

/// Different numbers are written differently.
pub proof fn decimal_is_injective(n: nat, m: nat)
    requires
        spec_decimal(n) == spec_decimal(m),
    ensures
        n == m,
{
    decimal_reads_back(n);
    decimal_reads_back(m);
}

} // verus!
