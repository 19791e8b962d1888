//! Text: the characters of strings, decimal numbers, padding and order.

use vstd::prelude::*;
use vstd::utf8::encode_utf8;

verus! {

/// `String::push` of std: the character is appended.
pub assume_specification[ String::push ](s: &mut String, c: char)
    ensures
        final(s)@ == old(s)@.push(c),
;

/// `==` on `str` of std: the two hold the same characters in the same order.
pub assume_specification[ <str as PartialEq>::eq ](a: &str, b: &str) -> (r: bool)
    ensures
        r == (a@ == b@),
;

/// Whether two texts hold the same characters.
pub fn same(a: &str, b: &str) -> (r: bool)
    ensures
        r == (a@ == b@),
{
    a.eq(b)
}

/// The characters of a text, in order.
pub fn chars_of(s: &str) -> (r: Vec<char>)
    ensures
        r@ == s@,
{
    let mut out: Vec<char> = Vec::new();
    for c in it: s.chars()
        invariant
            out@ == it.seq().take(it.index()),
            it.seq() == s@,
    {
        out.push(c);
    }
    out
}

/// The text of the characters from `from` up to `to`.
pub fn text_of(chars: &Vec<char>, from: usize, to: usize) -> (r: String)
    requires
        from <= to <= chars@.len(),
    ensures
        r@ == chars@.subrange(from as int, to as int),
{
    let mut out = String::new();
    let mut i: usize = from;
    while i < to
        invariant
            from <= i <= to <= chars@.len(),
            out@ == chars@.subrange(from as int, i as int),
        decreases to - i,
    {
        out.push(chars[i]);
        i += 1;
    }
    out
}

// ── Prefixes ───────────────────────────────────────────────────────────────

/// Whether `s` begins with `prefix`.
pub open spec fn begins_with(s: Seq<char>, prefix: Seq<char>) -> bool {
    prefix.len() <= s.len() && s.subrange(0, prefix.len() as int) == prefix
}

/// Whether `s` ends with `suffix`.
pub open spec fn ends_with(s: Seq<char>, suffix: Seq<char>) -> bool {
    suffix.len() <= s.len() && s.subrange(s.len() - suffix.len(), s.len() as int) == suffix
}

/// Whether the characters of `part` stand in `s` from position `at` on.
fn stands_at(s: &Vec<char>, part: &Vec<char>, at: usize) -> (r: bool)
    requires
        at + part@.len() <= s@.len(),
    ensures
        r == (s@.subrange(at as int, at + part@.len()) == part@),
{
    let n: usize = s.len();
    let mut i: usize = 0;
    while i < part.len()
        invariant
            at + part@.len() <= s@.len() == n,
            i <= part@.len(),
            forall|j: int| 0 <= j < i ==> s@[at + j] == part@[j],
        decreases part@.len() - i,
    {
        if s[at + i] != part[i] {
            assert(s@.subrange(at as int, at + part@.len())[i as int] != part@[i as int]);
            return false;
        }
        i += 1;
    }
    assert(s@.subrange(at as int, at + part@.len()) =~= part@);
    true
}

/// Whether `s` begins with `prefix`.
pub fn has_prefix(s: &str, prefix: &str) -> (r: bool)
    ensures
        r == begins_with(s@, prefix@),
{
    let chars = chars_of(s);
    let part = chars_of(prefix);
    part.len() <= chars.len() && stands_at(&chars, &part, 0)
}

/// What stands between `prefix` and `suffix`, where `s` has both and they do
/// not overlap.
pub open spec fn between(s: Seq<char>, prefix: Seq<char>, suffix: Seq<char>) -> Option<Seq<char>> {
    if !begins_with(s, prefix) {
        None
    } else {
        let rest = s.subrange(prefix.len() as int, s.len() as int);
        if ends_with(rest, suffix) {
            Some(rest.subrange(0, rest.len() - suffix.len()))
        } else {
            None
        }
    }
}

/// What stands between `prefix` and `suffix` in `s`.
pub fn strip(s: &str, prefix: &str, suffix: &str) -> (r: Option<String>)
    ensures
        r.deep_view() == between(s@, prefix@, suffix@),
{
    let chars = chars_of(s);
    let front = chars_of(prefix);
    let back = chars_of(suffix);
    if front.len() > chars.len() || !stands_at(&chars, &front, 0) {
        return None;
    }
    let ghost rest = s@.subrange(prefix@.len() as int, s@.len() as int);
    if back.len() > chars.len() - front.len() {
        return None;
    }
    let end: usize = chars.len() - back.len();
    proof {
        assert(rest.subrange(rest.len() - suffix@.len(), rest.len() as int) =~= s@.subrange(
            end as int,
            end + suffix@.len(),
        ));
    }
    if !stands_at(&chars, &back, end) {
        return None;
    }
    assert(rest.subrange(0, rest.len() - suffix@.len()) =~= s@.subrange(
        prefix@.len() as int,
        end as int,
    ));
    Some(text_of(&chars, front.len(), end))
}

// ── Decimal numbers ────────────────────────────────────────────────────────

/// The character of a decimal digit.
pub open spec fn digit(d: int) -> char {
    (('0' as int) + d) as char
}

/// The decimal digits of a number, without leading zeros.
pub open spec fn decimal(n: nat) -> Seq<char>
    decreases n,
{
    if n < 10 {
        seq![digit(n as int)]
    } else {
        decimal(n / 10).push(digit((n % 10) as int))
    }
}

/// The decimal text of a number that may be negative.
pub open spec fn signed_decimal(n: int) -> Seq<char> {
    if n < 0 {
        seq!['-'] + decimal((-n) as nat)
    } else {
        decimal(n as nat)
    }
}

/// The character of a decimal digit.
pub fn digit_char(d: u64) -> (c: char)
    requires
        d < 10,
    ensures
        c == digit(d as int),
{
    (48 + d as u8) as char
}

/// Appends the decimal digits of `n`.
pub fn push_decimal(out: &mut String, n: u64)
    ensures
        final(out)@ == old(out)@ + decimal(n as nat),
    decreases n,
{
    if n >= 10 {
        push_decimal(out, n / 10);
    }
    out.push(digit_char(n % 10));
    assert(out@ =~= old(out)@ + decimal(n as nat));
}

/// The decimal text of `n`.
pub fn decimal_text(n: u64) -> (r: String)
    ensures
        r@ == decimal(n as nat),
{
    let mut out = String::new();
    push_decimal(&mut out, n);
    assert(out@ =~= decimal(n as nat));
    out
}

/// Appends the decimal text of a number that may be negative.
pub fn push_signed(out: &mut String, n: i64)
    ensures
        final(out)@ == old(out)@ + signed_decimal(n as int),
{
    if n < 0 {
        out.push('-');
        let size: u64 = if n == i64::MIN { 0x8000_0000_0000_0000 } else { (-n) as u64 };
        push_decimal(out, size);
        assert(out@ =~= old(out)@ + signed_decimal(n as int));
    } else {
        push_decimal(out, n as u64);
    }
}

/// Whether a character is one of `0` to `9`.
pub open spec fn is_digit(c: char) -> bool {
    '0' <= c <= '9'
}

/// The number that a row of decimal digits writes.
pub open spec fn value_of(s: Seq<char>) -> nat
    decreases s.len(),
{
    if s.len() == 0 {
        0
    } else {
        (10 * value_of(s.drop_last()) + (s.last() as int - '0' as int)) as nat
    }
}

/// The digits of a written number: what follows a leading `+`, if there is one.
pub open spec fn unsigned_digits(s: Seq<char>) -> Seq<char> {
    if s.len() > 0 && s[0] == '+' {
        s.subrange(1, s.len() as int)
    } else {
        s
    }
}

/// The number below 2^64 that `s` writes: decimal digits, at least one, behind
/// an optional `+`.
pub open spec fn unsigned(s: Seq<char>) -> Option<u64> {
    let d = unsigned_digits(s);
    if d.len() > 0 && (forall|i: int| 0 <= i < d.len() ==> is_digit(#[trigger] d[i])) && value_of(d)
        <= u64::MAX {
        Some(value_of(d) as u64)
    } else {
        None
    }
}

proof fn lemma_value_grows(s: Seq<char>, n: int)
    requires
        0 <= n <= s.len(),
        forall|i: int| 0 <= i < s.len() ==> is_digit(#[trigger] s[i]),
    ensures
        value_of(s.subrange(0, n)) <= value_of(s),
    decreases s.len(),
{
    if n == s.len() {
        assert(s.subrange(0, n) =~= s);
    } else {
        let front = s.drop_last();
        assert(forall|i: int| 0 <= i < front.len() ==> front[i] == s[i]);
        lemma_value_grows(front, n);
        assert(front.subrange(0, n) =~= s.subrange(0, n));
        assert(is_digit(s[s.len() - 1]));
    }
}

/// Reads a number below 2^64 as std's `u64::from_str` does.
pub fn parse_unsigned(s: &str) -> (r: Option<u64>)
    ensures
        r == unsigned(s@),
{
    let chars = chars_of(s);
    let start: usize = if chars.len() > 0 && chars[0] == '+' { 1 } else { 0 };
    let ghost d = unsigned_digits(s@);
    assert(d =~= chars@.subrange(start as int, chars@.len() as int));
    if start == chars.len() {
        return None;
    }
    let mut i: usize = start;
    let mut n: u64 = 0;
    while i < chars.len()
        invariant
            start <= i <= chars@.len(),
            d == chars@.subrange(start as int, chars@.len() as int),
            d == unsigned_digits(s@),
            n == value_of(d.subrange(0, i - start)),
            forall|j: int| 0 <= j < i - start ==> is_digit(#[trigger] d[j]),
        decreases chars@.len() - i,
    {
        let c = chars[i];
        assert(d[i - start] == c);
        if c < '0' || c > '9' {
            assert(!is_digit(d[i - start]));
            return None;
        }
        let k: u64 = (c as u32 - 48) as u64;
        let ghost longer = d.subrange(0, i - start + 1);
        assert(longer.drop_last() =~= d.subrange(0, i - start));
        assert(longer.last() == c);
        assert(value_of(longer) == 10 * n + k);
        if n > (u64::MAX - k) / 10 {
            proof {
                if forall|j: int| 0 <= j < d.len() ==> is_digit(#[trigger] d[j]) {
                    lemma_value_grows(d, i - start + 1);
                }
            }
            return None;
        }
        n = 10 * n + k;
        i += 1;
    }
    assert(d.subrange(0, i - start) =~= d);
    Some(n)
}

/// The decimal digits of a number are digits, at least one, and write it.
pub proof fn decimal_writes_its_number(n: nat)
    ensures
        decimal(n).len() > 0,
        forall|i: int| 0 <= i < decimal(n).len() ==> is_digit(#[trigger] decimal(n)[i]),
        value_of(decimal(n)) == n,
    decreases n,
{
    if n >= 10 {
        decimal_writes_its_number(n / 10);
        assert(decimal(n).drop_last() =~= decimal(n / 10));
    } else {
        let s = seq![digit(n as int)];
        assert(s.drop_last() =~= Seq::<char>::empty());
        assert(value_of(s.drop_last()) == 0);
        assert(value_of(s) == n);
    }
}

/// Reading the decimal text of a number gives the number back.
pub proof fn unsigned_reads_decimal(n: u64)
    ensures
        unsigned(decimal(n as nat)) == Some(n),
{
    decimal_writes_its_number(n as nat);
    assert(is_digit(decimal(n as nat)[0]));
}

// ── Padding ────────────────────────────────────────────────────────────────

/// A row of spaces.
pub open spec fn spaces(n: nat) -> Seq<char> {
    Seq::new(n, |i: int| ' ')
}

/// `s`, filled up with spaces on the right to `width` characters.
pub open spec fn padded(s: Seq<char>, width: nat) -> Seq<char> {
    if s.len() < width {
        s + spaces((width - s.len()) as nat)
    } else {
        s
    }
}

/// Appends `s`, filled up with spaces on the right to `width` characters.
pub fn push_padded(out: &mut String, s: &str, width: usize)
    ensures
        final(out)@ == old(out)@ + padded(s@, width as nat),
{
    let len: usize = s.unicode_len();
    out.append(s);
    let mut i: usize = len;
    assert(out@ =~= old(out)@ + s@ + spaces(0));
    while i < width
        invariant
            len == s@.len(),
            len <= i,
            i <= width || i == len,
            out@ == old(out)@ + s@ + spaces((i - len) as nat),
        decreases width - i,
    {
        out.push(' ');
        i += 1;
        assert(out@ =~= old(out)@ + s@ + spaces((i - len) as nat));
    }
    assert(out@ =~= old(out)@ + padded(s@, width as nat));
}

// ── White space ────────────────────────────────────────────────────────────

/// Whether a character has the Unicode property White_Space.
pub open spec fn is_white_space(c: char) -> bool {
    ||| '\u{9}' <= c <= '\u{d}'
    ||| c == ' '
    ||| c == '\u{85}'
    ||| c == '\u{a0}'
    ||| c == '\u{1680}'
    ||| '\u{2000}' <= c <= '\u{200a}'
    ||| c == '\u{2028}'
    ||| c == '\u{2029}'
    ||| c == '\u{202f}'
    ||| c == '\u{205f}'
    ||| c == '\u{3000}'
}

/// Whether a line holds nothing but white space.
pub open spec fn is_blank(s: Seq<char>) -> bool {
    forall|i: int| 0 <= i < s.len() ==> is_white_space(#[trigger] s[i])
}

/// Whether a line holds nothing but white space.
pub fn blank(s: &str) -> (r: bool)
    ensures
        r == is_blank(s@),
{
    let chars = chars_of(s);
    let mut i: usize = 0;
    while i < chars.len()
        invariant
            i <= chars@.len(),
            chars@ == s@,
            forall|j: int| 0 <= j < i ==> is_white_space(#[trigger] s@[j]),
        decreases chars@.len() - i,
    {
        let c = chars[i];
        let white = ('\u{9}' <= c && c <= '\u{d}') || c == ' ' || c == '\u{85}' || c == '\u{a0}' || c
            == '\u{1680}' || ('\u{2000}' <= c && c <= '\u{200a}') || c == '\u{2028}' || c
            == '\u{2029}' || c == '\u{202f}' || c == '\u{205f}' || c == '\u{3000}';
        if !white {
            assert(!is_white_space(s@[i as int]));
            return false;
        }
        i += 1;
    }
    true
}

// ── ASCII case ─────────────────────────────────────────────────────────────

/// The lower-case form of an ASCII letter; any other character itself.
pub open spec fn lower(c: char) -> char {
    if 'A' <= c <= 'Z' {
        (c as int + 32) as char
    } else {
        c
    }
}

/// `s` with each ASCII letter in lower case.
pub open spec fn lowered(s: Seq<char>) -> Seq<char> {
    Seq::new(s.len(), |i: int| lower(s[i]))
}

/// `s` with each ASCII letter in lower case.
pub fn to_lower(s: &str) -> (r: String)
    ensures
        r@ == lowered(s@),
{
    let chars = chars_of(s);
    let mut out = String::new();
    let mut i: usize = 0;
    while i < chars.len()
        invariant
            i <= chars@.len(),
            chars@ == s@,
            out@ == lowered(s@.subrange(0, i as int)),
        decreases chars@.len() - i,
    {
        let c = chars[i];
        if 'A' <= c && c <= 'Z' {
            out.push((c as u8 + 32) as char);
        } else {
            out.push(c);
        }
        i += 1;
        assert(out@ =~= lowered(s@.subrange(0, i as int)));
    }
    assert(s@.subrange(0, i as int) =~= s@);
    out
}

// ── Order ──────────────────────────────────────────────────────────────────

/// Whether `a` stands before `b` in the order of std's strings: at the first
/// place where they differ `a` has the smaller character, or `a` is a proper
/// beginning of `b`.
pub open spec fn before(a: Seq<char>, b: Seq<char>) -> bool
    decreases a.len(),
{
    if b.len() == 0 {
        false
    } else if a.len() == 0 {
        true
    } else if a[0] != b[0] {
        a[0] < b[0]
    } else {
        before(a.subrange(1, a.len() as int), b.subrange(1, b.len() as int))
    }
}

/// Whether `a` stands before `b` in the order of std's strings.
pub fn stands_before(a: &str, b: &str) -> (r: bool)
    ensures
        r == before(a@, b@),
{
    let x = chars_of(a);
    let y = chars_of(b);
    let mut i: usize = 0;
    assert(a@.subrange(0, a@.len() as int) =~= a@);
    assert(b@.subrange(0, b@.len() as int) =~= b@);
    while i < x.len() && i < y.len()
        invariant
            x@ == a@,
            y@ == b@,
            i <= x@.len(),
            i <= y@.len(),
            before(a@, b@) == before(
                a@.subrange(i as int, a@.len() as int),
                b@.subrange(i as int, b@.len() as int),
            ),
        decreases x@.len() - i,
    {
        let ghost s = a@.subrange(i as int, a@.len() as int);
        let ghost t = b@.subrange(i as int, b@.len() as int);
        if x[i] != y[i] {
            return x[i] < y[i];
        }
        assert(s.subrange(1, s.len() as int) =~= a@.subrange(i + 1, a@.len() as int));
        assert(t.subrange(1, t.len() as int) =~= b@.subrange(i + 1, b@.len() as int));
        i += 1;
    }
    i < y.len()
}

proof fn lemma_not_before_itself(a: Seq<char>)
    ensures
        !before(a, a),
    decreases a.len(),
{
    if a.len() > 0 {
        lemma_not_before_itself(a.subrange(1, a.len() as int));
    }
}

proof fn lemma_same_head_and_tail(a: Seq<char>, b: Seq<char>)
    requires
        a.len() > 0,
        b.len() > 0,
        a[0] == b[0],
        a.subrange(1, a.len() as int) == b.subrange(1, b.len() as int),
    ensures
        a == b,
{
    let ta = a.subrange(1, a.len() as int);
    let tb = b.subrange(1, b.len() as int);
    assert(a.len() == ta.len() + 1 == tb.len() + 1 == b.len());
    assert forall|i: int| 0 <= i < a.len() implies a[i] == b[i] by {
        if i > 0 {
            assert(a[i] == ta[i - 1]);
            assert(b[i] == tb[i - 1]);
        }
    }
    assert(a =~= b);
}

/// Of two texts one stands before the other, unless they are the same, and never
/// both.
pub proof fn before_is_total(a: Seq<char>, b: Seq<char>)
    ensures
        before(a, b) ==> a != b && !before(b, a),
        a != b ==> before(a, b) || before(b, a),
    decreases a.len(),
{
    lemma_not_before_itself(a);
    if a.len() > 0 && b.len() > 0 && a[0] == b[0] {
        let ta = a.subrange(1, a.len() as int);
        let tb = b.subrange(1, b.len() as int);
        before_is_total(ta, tb);
        if ta == tb {
            lemma_same_head_and_tail(a, b);
        }
    } else if a.len() == 0 && b.len() == 0 {
        assert(a =~= b);
    }
}

/// What stands before a text stands before all that this one stands before.
pub proof fn before_is_transitive(a: Seq<char>, b: Seq<char>, c: Seq<char>)
    requires
        before(a, b),
        before(b, c),
    ensures
        before(a, c),
    decreases a.len(),
{
    if a.len() > 0 && a[0] == b[0] && b[0] == c[0] {
        before_is_transitive(
            a.subrange(1, a.len() as int),
            b.subrange(1, b.len() as int),
            c.subrange(1, c.len() as int),
        );
    }
}

// ── Lines ──────────────────────────────────────────────────────────────────

/// How many bytes a text takes in UTF-8.
pub open spec fn byte_len(s: Seq<char>) -> nat {
    encode_utf8(s).len()
}

/// How many bytes a text takes in UTF-8.
pub fn size(s: &str) -> (r: u64)
    ensures
        r == byte_len(s@),
{
    s.as_bytes().len() as u64
}

/// Two texts, one behind the other, take the bytes of both.
pub proof fn byte_len_of_both(a: Seq<char>, b: Seq<char>)
    ensures
        byte_len(a + b) == byte_len(a) + byte_len(b),
    decreases a.len(),
{
    if a.len() == 0 {
        assert(a + b =~= b);
    } else {
        let whole = a + b;
        assert(whole.drop_first() =~= a.drop_first() + b);
        assert(whole[0] == a[0]);
        byte_len_of_both(a.drop_first(), b);
    }
}

/// A line without the carriage return at its end, if it has one.
pub open spec fn chomped(line: Seq<char>) -> Seq<char> {
    if line.len() > 0 && line.last() == '\r' {
        line.drop_last()
    } else {
        line
    }
}

/// The lines of a text that a newline ends, and what stands behind the last
/// newline.
pub open spec fn split_lines(text: Seq<char>) -> (Seq<Seq<char>>, Seq<char>)
    decreases text.len(),
{
    if text.len() == 0 {
        (Seq::empty(), Seq::empty())
    } else {
        let (done, rest) = split_lines(text.drop_last());
        if text.last() == '\n' {
            (done.push(chomped(rest)), Seq::empty())
        } else {
            (done, rest.push(text.last()))
        }
    }
}

/// The lines of a text: a newline ends each, but the last may do without.
pub open spec fn lines(text: Seq<char>) -> Seq<Seq<char>> {
    let (done, rest) = split_lines(text);
    if rest.len() == 0 {
        done
    } else {
        done.push(rest)
    }
}

/// The lines of a text: a newline ends each, but the last may do without. A
/// carriage return before the newline goes with it.
pub fn lines_of(text: &str) -> (r: Vec<String>)
    ensures
        r.deep_view() == lines(text@),
{
    let chars = chars_of(text);
    let mut done: Vec<String> = Vec::new();
    let mut from: usize = 0;
    let mut i: usize = 0;
    assert(text@.subrange(0, 0) =~= Seq::empty());
    assert(done.deep_view() =~= Seq::empty());
    while i < chars.len()
        invariant
            from <= i <= chars@.len(),
            chars@ == text@,
            split_lines(text@.subrange(0, i as int)) == (
                done.deep_view(),
                text@.subrange(from as int, i as int),
            ),
        decreases chars@.len() - i,
    {
        let ghost upto = text@.subrange(0, i + 1);
        assert(upto.drop_last() =~= text@.subrange(0, i as int));
        if chars[i] == '\n' {
            let mut to: usize = i;
            if to > from && chars[to - 1] == '\r' {
                to -= 1;
            }
            let ghost rest = text@.subrange(from as int, i as int);
            assert(chomped(rest) =~= text@.subrange(from as int, to as int));
            let ghost was = done.deep_view();
            let line = text_of(&chars, from, to);
            done.push(line);
            assert(done.deep_view() =~= was.push(line@));
            from = i + 1;
        }
        i += 1;
        assert(split_lines(upto).1 =~= text@.subrange(from as int, i as int));
    }
    assert(text@.subrange(0, i as int) =~= text@);
    if from < i {
        let ghost was = done.deep_view();
        let line = text_of(&chars, from, i);
        done.push(line);
        assert(done.deep_view() =~= was.push(line@));
    }
    done
}

/// A line without a newline or a final carriage return, written with its
/// newline behind whole lines, is the next line.
pub proof fn a_written_line_is_the_next(text: Seq<char>, line: Seq<char>)
    requires
        split_lines(text).1.len() == 0,
        forall|i: int| 0 <= i < line.len() ==> #[trigger] line[i] != '\n',
        chomped(line) == line,
    ensures
        split_lines(text + line + seq!['\n']) == (
            split_lines(text).0.push(line),
            Seq::<char>::empty(),
        ),
{
    lemma_split_behind(text, line, line.len() as int);
    let whole = text + line + seq!['\n'];
    assert(whole.drop_last() =~= text + line.subrange(0, line.len() as int));
    assert(line.subrange(0, line.len() as int) =~= line);
}

proof fn lemma_split_behind(text: Seq<char>, line: Seq<char>, n: int)
    requires
        split_lines(text).1.len() == 0,
        forall|i: int| 0 <= i < line.len() ==> #[trigger] line[i] != '\n',
        0 <= n <= line.len(),
    ensures
        split_lines(text + line.subrange(0, n)) == (split_lines(text).0, line.subrange(0, n)),
    decreases n,
{
    let part = text + line.subrange(0, n);
    if n == 0 {
        assert(part =~= text);
        assert(split_lines(text).1 =~= line.subrange(0, 0));
    } else {
        lemma_split_behind(text, line, n - 1);
        assert(part.drop_last() =~= text + line.subrange(0, n - 1));
        assert(part.last() == line[n - 1]);
        assert(line.subrange(0, n - 1).push(line[n - 1]) =~= line.subrange(0, n));
    }
}

} // verus!
