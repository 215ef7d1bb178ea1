//! Scanning of definition text: white space, lines, comments, words and
//! numbers.

use vstd::prelude::*;
use vstd::slice::slice_subrange;
use vstd::slice::slice_to_vec;

verus! {

/// Whether `c` is white space.
pub open spec fn is_space(c: char) -> bool {
    let n = c as u32;
    (0x09 <= n <= 0x0D) || n == 0x20 || n == 0x85 || n == 0xA0 || n == 0x1680 || (0x2000 <= n
        <= 0x200A) || n == 0x2028 || n == 0x2029 || n == 0x202F || n == 0x205F || n == 0x3000
}

/// Whether `c` is white space.
pub fn space(c: char) -> (r: bool)
    ensures
        r == is_space(c),
{
    let n = c as u32;
    (0x09 <= n && n <= 0x0D) || n == 0x20 || n == 0x85 || n == 0xA0 || n == 0x1680 || (0x2000 <= n
        && n <= 0x200A) || n == 0x2028 || n == 0x2029 || n == 0x202F || n == 0x205F || n == 0x3000
}

/// The first position at or after `from` whose character is no white
/// space, or the length of `s`.
pub open spec fn skip_spaces(s: Seq<char>, from: int) -> int
    decreases s.len() - from,
{
    if from < 0 || from >= s.len() || !is_space(s[from]) {
        from
    } else {
        skip_spaces(s, from + 1)
    }
}

/// The least end at or after `low` such that no character between it and
/// `high` is anything but white space.
pub open spec fn drop_spaces(s: Seq<char>, low: int, high: int) -> int
    decreases high - low,
{
    if high <= low || high > s.len() || !is_space(s[high - 1]) {
        high
    } else {
        drop_spaces(s, low, high - 1)
    }
}

/// `s` without the white space at its two ends.
pub open spec fn trimmed(s: Seq<char>) -> Seq<char> {
    let start = skip_spaces(s, 0);
    if start >= s.len() {
        Seq::empty()
    } else {
        s.subrange(start, drop_spaces(s, start, s.len() as int))
    }
}

/// `s` without the white space at its two ends.
#[verifier::rlimit(50)]
pub fn trim(s: &[char]) -> (r: Vec<char>)
    ensures
        r@ == trimmed(s@),
{
    let mut start: usize = 0;
    while start < s.len() && space(s[start])
        invariant
            start <= s.len(),
            skip_spaces(s@, 0) == skip_spaces(s@, start as int),
        decreases s.len() - start,
    {
        start += 1;
    }
    if start >= s.len() {
        return Vec::new();
    }
    let mut end: usize = s.len();
    while end > start && space(s[end - 1])
        invariant
            start <= end <= s.len(),
            drop_spaces(s@, start as int, s@.len() as int) == drop_spaces(s@, start as int, end as int),
        decreases end - start,
    {
        end -= 1;
    }
    slice_to_vec(slice_subrange(s, start, end))
}

/// Where the comment of `line` starts, looking from `pos` on: at the first
/// `#` outside quotes, or at the end if there is none.
pub open spec fn comment_start(line: Seq<char>, pos: int, in_single: bool, in_double: bool) -> int
    decreases line.len() - pos,
{
    if pos < 0 || pos >= line.len() {
        line.len() as int
    } else if line[pos] == '\'' && !in_double {
        comment_start(line, pos + 1, !in_single, in_double)
    } else if line[pos] == '"' && !in_single {
        comment_start(line, pos + 1, in_single, !in_double)
    } else if line[pos] == '#' && !in_single && !in_double {
        pos
    } else {
        comment_start(line, pos + 1, in_single, in_double)
    }
}

/// What a line says: the line without its comment and without the white
/// space at its two ends.
pub open spec fn content_of(line: Seq<char>) -> Seq<char> {
    trimmed(line.take(comment_start(line, 0, false, false)))
}

/// What a line says: the line without its comment and without the white
/// space at its two ends.
pub fn remove_inline_comment(line: &[char]) -> (r: Vec<char>)
    ensures
        r@ == content_of(line@),
{
    let mut in_single = false;
    let mut in_double = false;
    let mut pos: usize = 0;
    let mut cut: usize = line.len();
    loop
        invariant_except_break
            pos <= line.len(),
            comment_start(line@, 0, false, false) == comment_start(
                line@,
                pos as int,
                in_single,
                in_double,
            ),
        ensures
            cut <= line.len(),
            cut == comment_start(line@, 0, false, false),
        decreases line.len() - pos,
    {
        if pos >= line.len() {
            cut = line.len();
            break ;
        }
        let c = line[pos];
        if c == '\'' && !in_double {
            in_single = !in_single;
        } else if c == '"' && !in_single {
            in_double = !in_double;
        } else if c == '#' && !in_single && !in_double {
            cut = pos;
            break ;
        }
        pos += 1;
    }
    let kept = slice_subrange(line, 0, cut);
    assert(kept@ =~= line@.take(cut as int));
    trim(kept)
}

/// `acc` with what `line` says behind it, unless it says nothing.
pub open spec fn with_line(acc: Seq<Seq<char>>, line: Seq<char>) -> Seq<Seq<char>> {
    if content_of(line).len() == 0 {
        acc
    } else {
        acc.push(content_of(line))
    }
}

/// What the lines of `text` say, from the line that starts at `start` and
/// has been looked at up to `pos`; lines that say nothing are left out.
pub open spec fn lines_from(text: Seq<char>, start: int, pos: int, acc: Seq<Seq<char>>) -> Seq<
    Seq<char>,
>
    decreases text.len() - pos,
{
    if pos < 0 || start < 0 || start > pos {
        acc
    } else if pos >= text.len() {
        with_line(acc, text.subrange(start, text.len() as int))
    } else if text[pos] == '\n' {
        lines_from(text, pos + 1, pos + 1, with_line(acc, text.subrange(start, pos)))
    } else {
        lines_from(text, start, pos + 1, acc)
    }
}

/// What the lines of `text` say, line by line; lines that say nothing
/// are left out.
pub open spec fn content_lines(text: Seq<char>) -> Seq<Seq<char>> {
    lines_from(text, 0, 0, Seq::empty())
}

/// The sequences of characters that the vectors hold.
pub open spec fn rows(v: Seq<Vec<char>>) -> Seq<Seq<char>> {
    Seq::new(v.len(), |i: int| v[i]@)
}

/// What the lines of `text` say, line by line; lines that say nothing
/// are left out.
pub fn split_content_lines(text: &[char]) -> (r: Vec<Vec<char>>)
    ensures
        rows(r@) == content_lines(text@),
{
    let mut out: Vec<Vec<char>> = Vec::new();
    let mut start: usize = 0;
    let mut pos: usize = 0;
    assert(rows(out@) =~= Seq::empty());
    while pos < text.len()
        invariant
            start <= pos <= text.len(),
            content_lines(text@) == lines_from(text@, start as int, pos as int, rows(out@)),
        decreases text.len() - pos,
    {
        if text[pos] == '\n' {
            let ghost acc = rows(out@);
            let line = remove_inline_comment(slice_subrange(text, start, pos));
            if line.len() > 0 {
                out.push(line);
                assert(rows(out@) =~= acc.push(content_of(text@.subrange(start as int, pos as int))));
            }
            start = pos + 1;
        }
        pos += 1;
    }
    let ghost acc = rows(out@);
    let line = remove_inline_comment(slice_subrange(text, start, text.len()));
    if line.len() > 0 {
        out.push(line);
        assert(rows(out@) =~= acc.push(
            content_of(text@.subrange(start as int, text@.len() as int)),
        ));
    }
    out
}

/// `acc` with the word from `start` to `end` behind it, if a word has
/// started.
pub open spec fn with_word(acc: Seq<Seq<char>>, s: Seq<char>, start: int, end: int) -> Seq<Seq<char>> {
    if 0 <= start <= end <= s.len() {
        acc.push(s.subrange(start, end))
    } else {
        acc
    }
}

/// The words of `s` from `pos` on, where a word that began at `start` is
/// still running if `start` is not negative. Words are the longest runs
/// of characters that are no white space.
pub open spec fn words_from(s: Seq<char>, start: int, pos: int, acc: Seq<Seq<char>>) -> Seq<Seq<char>>
    decreases s.len() - pos,
{
    if pos < 0 {
        acc
    } else if pos >= s.len() {
        with_word(acc, s, start, s.len() as int)
    } else if is_space(s[pos]) {
        words_from(s, -1, pos + 1, with_word(acc, s, start, pos))
    } else {
        words_from(
            s,
            if start >= 0 {
                start
            } else {
                pos
            },
            pos + 1,
            acc,
        )
    }
}

/// The words of `s`.
pub open spec fn words(s: Seq<char>) -> Seq<Seq<char>> {
    words_from(s, -1, 0, Seq::empty())
}

/// The words of `s`.
#[verifier::rlimit(50)]
pub fn split_words(s: &[char]) -> (r: Vec<Vec<char>>)
    ensures
        rows(r@) == words(s@),
{
    let mut out: Vec<Vec<char>> = Vec::new();
    let mut start: Option<usize> = None;
    let mut pos: usize = 0;
    assert(rows(out@) =~= Seq::empty());
    while pos < s.len()
        invariant
            pos <= s.len(),
            start is Some ==> start->0 <= pos,
            words(s@) == words_from(
                s@,
                match start {
                    Some(b) => b as int,
                    None => -1,
                },
                pos as int,
                rows(out@),
            ),
        decreases s.len() - pos,
    {
        if space(s[pos]) {
            match start {
                Some(b) => {
                    let ghost acc = rows(out@);
                    out.push(slice_to_vec(slice_subrange(s, b, pos)));
                    assert(rows(out@) =~= acc.push(s@.subrange(b as int, pos as int)));
                },
                None => {},
            }
            start = None;
        } else if start.is_none() {
            start = Some(pos);
        }
        pos += 1;
    }
    match start {
        Some(b) => {
            let ghost acc = rows(out@);
            out.push(slice_to_vec(slice_subrange(s, b, s.len())));
            assert(rows(out@) =~= acc.push(s@.subrange(b as int, s@.len() as int)));
        },
        None => {},
    }
    out
}

/// The first position at or after `from` where `c` stands in `s`.
pub open spec fn position_of(s: Seq<char>, c: char, from: int) -> Option<int>
    decreases s.len() - from,
{
    if from < 0 || from >= s.len() {
        None
    } else if s[from] == c {
        Some(from)
    } else {
        position_of(s, c, from + 1)
    }
}

/// The first position where `c` stands in `s`.
pub fn find_char(s: &[char], c: char) -> (r: Option<usize>)
    ensures
        match position_of(s@, c, 0) {
            Some(i) => r == Some(i as usize) && 0 <= i < s@.len() <= usize::MAX && s@[i] == c,
            None => r is None,
        },
{
    let mut i: usize = 0;
    while i < s.len()
        invariant
            i <= s.len(),
            position_of(s@, c, 0) == position_of(s@, c, i as int),
        decreases s.len() - i,
    {
        if s[i] == c {
            return Some(i);
        }
        i += 1;
    }
    None
}

/// Whether `pattern` stands in `s` at `at`.
pub open spec fn matches_at(s: Seq<char>, pattern: Seq<char>, at: int) -> bool {
    0 <= at && at + pattern.len() <= s.len() && s.subrange(at, at + pattern.len()) == pattern
}

/// Whether `pattern` stands in `s` at `at`.
pub fn stands_at(s: &[char], pattern: &[char], at: usize) -> (r: bool)
    ensures
        r == matches_at(s@, pattern@, at as int),
{
    if at > s.len() || pattern.len() > s.len() - at {
        return false;
    }
    crate::text::chars_equal(slice_subrange(s, at, at + pattern.len()), pattern)
}

/// The first position at or after `from` where `pattern` stands in `s`.
pub open spec fn position_of_text(s: Seq<char>, pattern: Seq<char>, from: int) -> Option<int>
    decreases s.len() - from,
{
    if from < 0 || from > s.len() {
        None
    } else if matches_at(s, pattern, from) {
        Some(from)
    } else if from == s.len() {
        None
    } else {
        position_of_text(s, pattern, from + 1)
    }
}

/// The first position where `pattern` stands in `s`.
pub fn find_text(s: &[char], pattern: &[char]) -> (r: Option<usize>)
    ensures
        match position_of_text(s@, pattern@, 0) {
            Some(i) => r == Some(i as usize) && 0 <= i <= s@.len() <= usize::MAX && matches_at(
                s@,
                pattern@,
                i,
            ),
            None => r is None,
        },
{
    let mut i: usize = 0;
    while i < s.len()
        invariant
            i <= s.len(),
            position_of_text(s@, pattern@, 0) == position_of_text(s@, pattern@, i as int),
        decreases s.len() - i,
    {
        if stands_at(s, pattern, i) {
            return Some(i);
        }
        i += 1;
    }
    if stands_at(s, pattern, i) {
        Some(i)
    } else {
        None
    }
}

/// Whether `c` is a decimal digit.
pub open spec fn is_digit(c: char) -> bool {
    '0' <= c <= '9'
}

/// The number that the digits of `s` from `pos` on make when they are put
/// behind the number `acc`; nothing if a character is no digit.
pub open spec fn digits_value(s: Seq<char>, pos: int, acc: nat) -> Option<nat>
    decreases s.len() - pos,
{
    if pos < 0 || pos >= s.len() {
        Some(acc)
    } else if is_digit(s[pos]) {
        digits_value(s, pos + 1, acc * 10 + ((s[pos] as u32) - 0x30) as nat)
    } else {
        None
    }
}

/// Digits never make a number less than the one they are put behind.
pub proof fn lemma_digits_grow(s: Seq<char>, pos: int, acc: nat)
    ensures
        digits_value(s, pos, acc) is Some ==> digits_value(s, pos, acc)->0 >= acc,
    decreases s.len() - pos,
{
    if !(pos < 0 || pos >= s.len()) && is_digit(s[pos]) {
        lemma_digits_grow(s, pos + 1, acc * 10 + ((s[pos] as u32) - 0x30) as nat);
    }
}

/// The number that `s` writes with digits alone, at least one, if it is
/// no greater than `max`.
pub open spec fn plain_number(s: Seq<char>, max: nat) -> Option<nat> {
    if s.len() == 0 {
        None
    } else {
        match digits_value(s, 0, 0) {
            Some(v) => if v <= max {
                Some(v)
            } else {
                None
            },
            None => None,
        }
    }
}

/// The number that `s` writes with digits alone, at least one, if it is
/// no greater than `max`.
#[verifier::rlimit(50)]
pub fn parse_digits(s: &[char], max: u64) -> (r: Option<u64>)
    ensures
        match plain_number(s@, max as nat) {
            Some(v) => r == Some(v as u64),
            None => r is None,
        },
{
    if s.len() == 0 {
        return None;
    }
    let mut acc: u64 = 0;
    let mut pos: usize = 0;
    while pos < s.len()
        invariant
            pos <= s.len(),
            acc <= max,
            digits_value(s@, 0, 0) == digits_value(s@, pos as int, acc as nat),
        decreases s.len() - pos,
    {
        let c = s[pos];
        if !('0' <= c && c <= '9') {
            return None;
        }
        let d = ((c as u32) - 0x30) as u64;
        proof {
            lemma_digits_grow(s@, pos + 1, (acc as nat) * 10 + d as nat);
        }
        if d > max {
            return None;
        }
        if acc > (max - d) / 10 {
            assert((acc as nat) * 10 + d as nat > max) by (nonlinear_arith)
                requires
                    acc > (max - d) / 10,
                    d <= 9,
                    d <= max,
            {
            }
            return None;
        }
        assert(acc * 10 + d <= max) by (nonlinear_arith)
            requires
                acc <= (max - d) / 10,
                d <= max,
        {
        }
        acc = acc * 10 + d;
        pos += 1;
    }
    Some(acc)
}

/// The number that `s` writes: digits, with `+` before them if one likes.
pub open spec fn unsigned_number(s: Seq<char>, max: nat) -> Option<nat> {
    if s.len() > 0 && s[0] == '+' {
        plain_number(s.skip(1), max)
    } else {
        plain_number(s, max)
    }
}

/// The number that `s` writes: digits, with `+` or `-` before them if one
/// likes; it must fit 64 bits with a sign.
pub open spec fn signed_number(s: Seq<char>) -> Option<int> {
    if s.len() > 0 && s[0] == '-' {
        match plain_number(s.skip(1), 0x8000_0000_0000_0000) {
            Some(v) => Some(-(v as int)),
            None => None,
        }
    } else {
        match unsigned_number(s, 0x7fff_ffff_ffff_ffff) {
            Some(v) => Some(v as int),
            None => None,
        }
    }
}

/// The number that `s` writes: digits, with `+` before them if one likes.
#[verifier::rlimit(50)]
pub fn parse_unsigned(s: &[char], max: u64) -> (r: Option<u64>)
    ensures
        match unsigned_number(s@, max as nat) {
            Some(v) => r == Some(v as u64),
            None => r is None,
        },
{
    if s.len() > 0 && s[0] == '+' {
        let rest = slice_subrange(s, 1, s.len());
        assert(rest@ =~= s@.skip(1));
        parse_digits(rest, max)
    } else {
        parse_digits(s, max)
    }
}

/// The number that `s` writes, with a sign if one likes.
#[verifier::rlimit(50)]
pub fn parse_signed(s: &[char]) -> (r: Option<i64>)
    ensures
        match signed_number(s@) {
            Some(v) => r == Some(v as i64),
            None => r is None,
        },
{
    if s.len() > 0 && s[0] == '-' {
        let rest = slice_subrange(s, 1, s.len());
        assert(rest@ =~= s@.skip(1));
        match parse_digits(rest, 0x8000_0000_0000_0000) {
            Some(v) => {
                if v == 0x8000_0000_0000_0000 {
                    Some(i64::MIN)
                } else {
                    Some(0 - (v as i64))
                }
            },
            None => None,
        }
    } else {
        match parse_unsigned(s, 0x7fff_ffff_ffff_ffff) {
            Some(v) => Some(v as i64),
            None => None,
        }
    }
}

/// The first position at or after `from` whose character is no digit, or
/// the length of `s`.
pub open spec fn digits_end(s: Seq<char>, from: int) -> int
    decreases s.len() - from,
{
    if from < 0 || from >= s.len() || !is_digit(s[from]) {
        from
    } else {
        digits_end(s, from + 1)
    }
}

/// The first position at or after `from` whose character is no digit.
pub fn skip_digits(s: &[char], from: usize) -> (r: usize)
    requires
        from <= s@.len(),
    ensures
        r == digits_end(s@, from as int),
        from <= r <= s@.len(),
{
    let mut pos = from;
    while pos < s.len() && '0' <= s[pos] && s[pos] <= '9'
        invariant
            from <= pos <= s.len(),
            digits_end(s@, from as int) == digits_end(s@, pos as int),
        decreases s.len() - pos,
    {
        pos += 1;
    }
    pos
}

/// The lower-case form of a capital letter of the Latin alphabet; any
/// other character as it is.
pub open spec fn lowered(c: char) -> char {
    if 'A' <= c <= 'Z' {
        ((c as u32) + 32) as char
    } else {
        c
    }
}

/// Whether `s` is one of the words for an infinite number or for no
/// number, in any mix of capital and small letters.
pub open spec fn is_special_number(s: Seq<char>) -> bool {
    ||| (s.len() == 3 && lowered(s[0]) == 'i' && lowered(s[1]) == 'n' && lowered(s[2]) == 'f')
    ||| (s.len() == 3 && lowered(s[0]) == 'n' && lowered(s[1]) == 'a' && lowered(s[2]) == 'n')
    ||| (s.len() == 8 && lowered(s[0]) == 'i' && lowered(s[1]) == 'n' && lowered(s[2]) == 'f'
        && lowered(s[3]) == 'i' && lowered(s[4]) == 'n' && lowered(s[5]) == 'i' && lowered(s[6])
        == 't' && lowered(s[7]) == 'y')
}

/// Whether an exponent stands in `s` from `from` to the end: `e` or `E`,
/// a sign if one likes, at least one digit.
pub open spec fn is_exponent(s: Seq<char>, from: int) -> bool {
    &&& 0 <= from < s.len()
    &&& (s[from] == 'e' || s[from] == 'E')
    &&& {
        let digits = if from + 1 < s.len() && (s[from + 1] == '+' || s[from + 1] == '-') {
            from + 2
        } else {
            from + 1
        };
        digits < s.len() && digits_end(s, digits) == s.len()
    }
}

/// Whether `s` is a decimal number: digits with a point among them, before
/// them or behind them if one likes, at least one digit, and an exponent
/// if one likes.
pub open spec fn is_decimal(s: Seq<char>) -> bool {
    let whole_end = digits_end(s, 0);
    if whole_end < s.len() && s[whole_end] == '.' {
        let fraction_end = digits_end(s, whole_end + 1);
        (whole_end > 0 || fraction_end > whole_end + 1) && (fraction_end == s.len() || is_exponent(
            s,
            fraction_end,
        ))
    } else {
        whole_end > 0 && (whole_end == s.len() || is_exponent(s, whole_end))
    }
}

/// Whether `s` writes a number with a fraction: a sign if one likes, then
/// a decimal number or one of the words for an infinite number or for no
/// number.
pub open spec fn is_float_text(s: Seq<char>) -> bool {
    let body = if s.len() > 0 && (s[0] == '+' || s[0] == '-') {
        s.skip(1)
    } else {
        s
    };
    is_special_number(body) || is_decimal(body)
}

/// The lower-case form of a capital letter of the Latin alphabet.
pub fn lower(c: char) -> (r: char)
    ensures
        r == lowered(c),
{
    if 'A' <= c && c <= 'Z' {
        match crate::encoding::cdr::char_from_code((c as u32) + 32) {
            Some(l) => l,
            None => c,
        }
    } else {
        c
    }
}

/// Whether an exponent stands in `s` from `from` to the end.
fn exponent_at(s: &[char], from: usize) -> (r: bool)
    requires
        from <= s@.len(),
    ensures
        r == is_exponent(s@, from as int),
{
    if from >= s.len() || !(s[from] == 'e' || s[from] == 'E') {
        return false;
    }
    let digits = if from + 1 < s.len() && (s[from + 1] == '+' || s[from + 1] == '-') {
        from + 2
    } else {
        from + 1
    };
    if digits >= s.len() {
        return false;
    }
    skip_digits(s, digits) == s.len()
}

/// Whether `s` writes a number with a fraction.
#[verifier::rlimit(50)]
pub fn float_text(s: &[char]) -> (r: bool)
    ensures
        r == is_float_text(s@),
{
    let body = if s.len() > 0 && (s[0] == '+' || s[0] == '-') {
        let rest = slice_subrange(s, 1, s.len());
        assert(rest@ =~= s@.skip(1));
        rest
    } else {
        s
    };
    let n = body.len();
    let special = (n == 3 && lower(body[0]) == 'i' && lower(body[1]) == 'n' && lower(body[2]) == 'f')
        || (n == 3 && lower(body[0]) == 'n' && lower(body[1]) == 'a' && lower(body[2]) == 'n') || (n
        == 8 && lower(body[0]) == 'i' && lower(body[1]) == 'n' && lower(body[2]) == 'f' && lower(
        body[3],
    ) == 'i' && lower(body[4]) == 'n' && lower(body[5]) == 'i' && lower(body[6]) == 't' && lower(
        body[7],
    ) == 'y');
    if special {
        return true;
    }
    let whole_end = skip_digits(body, 0);
    if whole_end < n && body[whole_end] == '.' {
        let fraction_end = skip_digits(body, whole_end + 1);
        (whole_end > 0 || fraction_end > whole_end + 1) && (fraction_end == n || exponent_at(
            body,
            fraction_end,
        ))
    } else {
        whole_end > 0 && (whole_end == n || exponent_at(body, whole_end))
    }
}

/// The first position at or after `from` whose character is not `c`.
pub open spec fn skip_char(s: Seq<char>, c: char, from: int) -> int
    decreases s.len() - from,
{
    if from < 0 || from >= s.len() || s[from] != c {
        from
    } else {
        skip_char(s, c, from + 1)
    }
}

/// The least end at or after `low` such that all characters between it
/// and `high` are `c`.
pub open spec fn drop_char(s: Seq<char>, c: char, low: int, high: int) -> int
    decreases high - low,
{
    if high <= low || high > s.len() || s[high - 1] != c {
        high
    } else {
        drop_char(s, c, low, high - 1)
    }
}

/// `s` without the characters `c` at its two ends.
pub open spec fn stripped(s: Seq<char>, c: char) -> Seq<char> {
    let start = skip_char(s, c, 0);
    if start >= s.len() {
        Seq::empty()
    } else {
        s.subrange(start, drop_char(s, c, start, s.len() as int))
    }
}

/// `s` without the characters `c` at its two ends.
#[verifier::rlimit(50)]
pub fn strip(s: &[char], c: char) -> (r: Vec<char>)
    ensures
        r@ == stripped(s@, c),
{
    let mut start: usize = 0;
    while start < s.len() && s[start] == c
        invariant
            start <= s.len(),
            skip_char(s@, c, 0) == skip_char(s@, c, start as int),
        decreases s.len() - start,
    {
        start += 1;
    }
    if start >= s.len() {
        return Vec::new();
    }
    let mut end: usize = s.len();
    while end > start && s[end - 1] == c
        invariant
            start <= end <= s.len(),
            drop_char(s@, c, start as int, s@.len() as int) == drop_char(
                s@,
                c,
                start as int,
                end as int,
            ),
        decreases end - start,
    {
        end -= 1;
    }
    slice_to_vec(slice_subrange(s, start, end))
}

/// The pieces of `s` between the characters `c`, from the piece that
/// starts at `start` and has been looked at up to `pos`.
pub open spec fn pieces_from(s: Seq<char>, c: char, start: int, pos: int, acc: Seq<Seq<char>>) -> Seq<
    Seq<char>,
>
    decreases s.len() - pos,
{
    if pos < 0 || start < 0 || start > pos {
        acc
    } else if pos >= s.len() {
        acc.push(s.subrange(start, s.len() as int))
    } else if s[pos] == c {
        pieces_from(s, c, pos + 1, pos + 1, acc.push(s.subrange(start, pos)))
    } else {
        pieces_from(s, c, start, pos + 1, acc)
    }
}

/// The pieces of `s` between the characters `c`: one more than there are
/// such characters.
pub open spec fn pieces(s: Seq<char>, c: char) -> Seq<Seq<char>> {
    pieces_from(s, c, 0, 0, Seq::empty())
}

/// The pieces of `s` between the characters `c`.
pub fn split_at_char(s: &[char], c: char) -> (r: Vec<Vec<char>>)
    ensures
        rows(r@) == pieces(s@, c),
{
    let mut out: Vec<Vec<char>> = Vec::new();
    let mut start: usize = 0;
    let mut pos: usize = 0;
    assert(rows(out@) =~= Seq::empty());
    while pos < s.len()
        invariant
            start <= pos <= s.len(),
            pieces(s@, c) == pieces_from(s@, c, start as int, pos as int, rows(out@)),
        decreases s.len() - pos,
    {
        if s[pos] == c {
            let ghost acc = rows(out@);
            out.push(slice_to_vec(slice_subrange(s, start, pos)));
            assert(rows(out@) =~= acc.push(s@.subrange(start as int, pos as int)));
            start = pos + 1;
        }
        pos += 1;
    }
    let ghost acc = rows(out@);
    out.push(slice_to_vec(slice_subrange(s, start, s.len())));
    assert(rows(out@) =~= acc.push(s@.subrange(start as int, s@.len() as int)));
    out
}

/// The words from the `from`-th to before the `upto`-th, with one blank
/// between each two.
pub open spec fn joined(words: Seq<Seq<char>>, from: int, upto: int) -> Seq<char>
    decreases upto - from,
{
    if from < 0 || upto > words.len() || upto <= from {
        Seq::empty()
    } else if upto == from + 1 {
        words[from]
    } else {
        joined(words, from, upto - 1) + seq![' '] + words[upto - 1]
    }
}

/// The words from the `from`-th on, with one blank between each two.
pub fn join_words(words: &Vec<Vec<char>>, from: usize) -> (r: Vec<char>)
    ensures
        r@ == joined(rows(words@), from as int, words@.len() as int),
{
    let mut out: Vec<char> = Vec::new();
    let mut k: usize = from;
    while k < words.len()
        invariant
            from <= k || k == from,
            k <= words.len() || from > words.len(),
            out@ == joined(rows(words@), from as int, k as int),
        decreases words.len() - k,
    {
        if k > from {
            out.push(' ');
        }
        let word = &words[k];
        let mut i: usize = 0;
        let ghost base = out@;
        while i < word.len()
            invariant
                i <= word.len(),
                out@ == base + word@.take(i as int),
            decreases word.len() - i,
        {
            out.push(word[i]);
            assert(out@ =~= base + word@.take(i + 1));
            i += 1;
        }
        assert(word@.take(word.len() as int) =~= word@);
        assert(rows(words@)[k as int] == word@);
        assert(out@ =~= joined(rows(words@), from as int, k + 1));
        k += 1;
    }
    out
}

} // verus!
