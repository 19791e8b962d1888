//! Numbers, padding, order, case and lines.

use crate::order::{sort_order, sort_order_is_sorted};
use crate::segment::{name_of, number_of};
use crate::store::{data_dir, joined};
use crate::text::{
    before, begins_with, between, decimal, ends_with, is_blank, is_white_space, lines, lowered,
    padded, signed_decimal, split_lines, unsigned, value_of,
};
use vstd::prelude::*;

verus! {

/// The decimal text of a number is its last digit behind the text of the rest;
/// a number below ten is one digit.
pub proof fn decimals_are_positional(n: nat, d: nat)
    requires
        d < 10,
    ensures
        decimal(d).len() == 1,
        decimal(d)[0] as int == 48 + d,
        n > 0 ==> decimal(10 * n + d) == decimal(n) + decimal(d),
{
    if n > 0 {
        assert((10 * n + d) / 10 == n && (10 * n + d) % 10 == d);
        assert(decimal(10 * n + d) =~= decimal(n) + decimal(d));
    }
}

/// A number of one digit or more has no zero in front.
pub proof fn decimals_have_no_leading_zero(n: nat)
    ensures
        decimal(n).len() > 0,
        decimal(n)[0] == '0' ==> n == 0,
    decreases n,
{
    if n >= 10 {
        decimals_have_no_leading_zero(n / 10);
    }
}

/// A negative number is a minus sign and the number without it.
pub proof fn negative_numbers_have_a_sign(n: nat)
    ensures
        signed_decimal(n as int) == decimal(n),
        n > 0 ==> signed_decimal(-(n as int)) == "-"@ + decimal(n),
{
    reveal_strlit("-");
    if n > 0 {
        assert(signed_decimal(-(n as int)) =~= "-"@ + decimal(n));
    }
}

/// A padded text is the text with nothing but spaces behind it, at least as wide
/// as asked, and not touched where it is that wide by itself.
pub proof fn padding_fills_up_on_the_right(s: Seq<char>, width: nat)
    ensures
        padded(s, width).len() == (if s.len() < width {
            width
        } else {
            s.len()
        }),
        forall|i: int| 0 <= i < s.len() ==> #[trigger] padded(s, width)[i] == s[i],
        forall|i: int| s.len() <= i < padded(s, width).len() ==> #[trigger] padded(s, width)[i] == ' ',
{
}

/// A line is blank where each of its characters is one of Unicode's white
/// spaces.
pub proof fn blank_lines_are_white(s: Seq<char>)
    ensures
        is_blank(s) <==> forall|i: int|
            0 <= i < s.len() ==> {
                let c = #[trigger] s[i] as int;
                9 <= c <= 13 || c == 0x20 || c == 0x85 || c == 0xa0 || c == 0x1680 || 0x2000 <= c
                    <= 0x200a || c == 0x2028 || c == 0x2029 || c == 0x202f || c == 0x205f || c
                    == 0x3000
            },
{
    assert forall|i: int| 0 <= i < s.len() implies (is_white_space(#[trigger] s[i]) <==> {
        let c = s[i] as int;
        9 <= c <= 13 || c == 0x20 || c == 0x85 || c == 0xa0 || c == 0x1680 || 0x2000 <= c <= 0x200a
            || c == 0x2028 || c == 0x2029 || c == 0x202f || c == 0x205f || c == 0x3000
    }) by {}
}

/// A text begins with a prefix where it is the prefix with something behind.
pub proof fn prefixes_stand_in_front(s: Seq<char>, prefix: Seq<char>, rest: Seq<char>)
    ensures
        begins_with(prefix + rest, prefix),
        begins_with(s, prefix) ==> s == prefix + s.subrange(prefix.len() as int, s.len() as int),
{
    assert((prefix + rest).subrange(0, prefix.len() as int) =~= prefix);
    if begins_with(s, prefix) {
        let rest = s.subrange(prefix.len() as int, s.len() as int);
        assert(s =~= s.subrange(0, prefix.len() as int) + rest);
    }
}

/// A text ends with a suffix where it is the suffix with something before, or
/// nothing.
pub proof fn suffixes_stand_at_the_end(s: Seq<char>, suffix: Seq<char>, front: Seq<char>)
    ensures
        ends_with(front + suffix, suffix),
        ends_with(suffix, suffix),
        ends_with(s, suffix) ==> s == s.subrange(0, s.len() - suffix.len()) + suffix,
{
    let whole = front + suffix;
    assert(whole.subrange(whole.len() - suffix.len(), whole.len() as int) =~= suffix);
    assert(suffix.subrange(0, suffix.len() as int) =~= suffix);
    if ends_with(s, suffix) {
        let at = s.len() - suffix.len();
        assert(s =~= s.subrange(0, at) + s.subrange(at, s.len() as int));
    }
}

/// Lower case changes the letters `A` to `Z` to those 32 places on, and nothing
/// else.
pub proof fn lower_case_changes_capital_letters(s: Seq<char>)
    ensures
        lowered(s).len() == s.len(),
        forall|i: int|
            0 <= i < s.len() ==> (#[trigger] lowered(s)[i]) as int == (if 65 <= s[i] as int <= 90 {
                s[i] as int + 32
            } else {
                s[i] as int
            }),
{
    assert forall|i: int| 0 <= i < s.len() implies (#[trigger] lowered(s)[i]) as int == (if 65
        <= s[i] as int <= 90 {
        s[i] as int + 32
    } else {
        s[i] as int
    }) by {}
}

/// Two texts are ordered by the first character in which they differ; a text
/// that is the beginning of another stands before it.
pub proof fn texts_are_ordered_by_their_first_difference(a: Seq<char>, b: Seq<char>, k: int)
    requires
        0 <= k <= a.len(),
        k <= b.len(),
        forall|i: int| 0 <= i < k ==> a[i] == b[i],
    ensures
        k < a.len() && k < b.len() && a[k] != b[k] ==> (before(a, b) <==> (a[k] as int) < (
        b[k] as int)),
        k == a.len() ==> (before(a, b) <==> k < b.len()),
        k == b.len() ==> !before(a, b),
    decreases k,
{
    if k > 0 {
        let x = a.subrange(1, a.len() as int);
        let y = b.subrange(1, b.len() as int);
        assert(a[0] == b[0]);
        assert forall|i: int| 0 <= i < k - 1 implies x[i] == y[i] by {
            assert(a[i + 1] == b[i + 1]);
        }
        texts_are_ordered_by_their_first_difference(x, y, k - 1);
        if k < a.len() && k < b.len() {
            assert(x[k - 1] == a[k] && y[k - 1] == b[k]);
        }
    }
}

/// Sorting lists every position once, by ascending key, and positions with one
/// key in ascending order.
pub proof fn sorting_is_by_key_and_stable(keys: Seq<u64>)
    ensures
        sort_order(keys).len() == keys.len(),
        forall|x: int| 0 <= x < keys.len() ==> #[trigger] sort_order(keys).contains(x),
        forall|i: int| 0 <= i < keys.len() ==> 0 <= #[trigger] sort_order(keys)[i] < keys.len(),
        forall|i: int, j: int|
            #![trigger sort_order(keys)[i], sort_order(keys)[j]]
            0 <= i < j < keys.len() ==> {
                let a = sort_order(keys)[i];
                let b = sort_order(keys)[j];
                keys[a] < keys[b] || (keys[a] == keys[b] && a < b)
            },
{
    sort_order_is_sorted(keys);
}

/// Behind whole lines, a line is read without its newline, and without a
/// carriage return before that. What has no newline behind it is a line too, as
/// it stands.
pub proof fn a_line_ends_at_its_newline(text: Seq<char>, line: Seq<char>)
    requires
        split_lines(text).1.len() == 0,
        forall|i: int| 0 <= i < line.len() ==> #[trigger] line[i] != '\n',
    ensures
        lines(text + line + seq!['\n']) == lines(text).push(
            if line.len() > 0 && line.last() == '\r' {
                line.drop_last()
            } else {
                line
            },
        ),
        lines(text + line) == (if line.len() == 0 {
            lines(text)
        } else {
            lines(text).push(line)
        }),
{
    lemma_unfinished_line(text, line, line.len() as int);
    assert(line.subrange(0, line.len() as int) =~= line);
    assert((text + line + seq!['\n']).drop_last() =~= text + line);
    if line.len() == 0 {
        assert(text + line =~= text);
    }
}

proof fn lemma_unfinished_line(text: Seq<char>, line: Seq<char>, n: int)
    requires
        split_lines(text).1.len() == 0,
        forall|i: int| 0 <= i < line.len() ==> #[trigger] line[i] != '\n',
        0 <= n <= line.len(),
    ensures
        split_lines(text + line.subrange(0, n)) == (split_lines(text).0, line.subrange(0, n)),
    decreases n,
{
    let part = text + line.subrange(0, n);
    if n == 0 {
        assert(part =~= text);
        assert(split_lines(text).1 =~= line.subrange(0, 0));
    } else {
        lemma_unfinished_line(text, line, n - 1);
        assert(part.drop_last() =~= text + line.subrange(0, n - 1));
        assert(part.last() == line[n - 1]);
        assert(line.subrange(0, n - 1).push(line[n - 1]) =~= line.subrange(0, n));
    }
}

/// A row of digits that writes a number below 2^64 is read as that number, with
/// or without a plus sign; nothing else is.
pub proof fn numbers_are_rows_of_digits(s: Seq<char>)
    ensures
        s.len() > 0 && (forall|i: int| 0 <= i < s.len() ==> 48 <= #[trigger] s[i] as int <= 57)
            && value_of(s) <= u64::MAX ==> unsigned(s) == Some(value_of(s) as u64) && unsigned(
            "+"@ + s,
        ) == Some(value_of(s) as u64),
        s.len() == 0 ==> unsigned(s) is None,
        (exists|i: int| 0 <= i < s.len() && !(48 <= #[trigger] s[i] as int <= 57)) ==> unsigned(
            "+"@ + s,
        ) is None && (s[0] != '+' ==> unsigned(s) is None),
        value_of(s) > u64::MAX ==> unsigned("+"@ + s) is None,
{
    reveal_strlit("+");
    let signed = "+"@ + s;
    assert(signed.subrange(1, signed.len() as int) =~= s);
    assert(signed[0] == '+');
    if s.len() > 0 && (forall|i: int| 0 <= i < s.len() ==> 48 <= #[trigger] s[i] as int <= 57) {
        assert(s[0] as int >= 48);
        assert(s[0] != '+');
        assert forall|i: int| 0 <= i < s.len() implies crate::text::is_digit(#[trigger] s[i]) by {
            assert(48 <= s[i] as int <= 57);
        }
    }
    if exists|i: int| 0 <= i < s.len() && !(48 <= #[trigger] s[i] as int <= 57) {
        let i = choose|i: int| 0 <= i < s.len() && !(48 <= #[trigger] s[i] as int <= 57);
        assert(!crate::text::is_digit(s[i]));
    }
}

/// A row of digits writes ten times the number of all but the last, and the
/// last.
pub proof fn digits_write_their_number(s: Seq<char>, d: nat)
    requires
        d < 10,
    ensures
        value_of(Seq::empty()) == 0,
        value_of(s + decimal(d)) == 10 * value_of(s) + d,
{
    decimals_are_positional(0, d);
    let all = s + decimal(d);
    assert(all.drop_last() =~= s);
    assert(all.last() == decimal(d)[0]);
}

/// The file of segment `n` is `segment-<n>.ndjson`, and a file is a segment where
/// its name is a number between those two parts.
pub proof fn segments_are_named_by_number(n: u64, digits: Seq<char>)
    ensures
        name_of(n) == "segment-"@ + decimal(n as nat) + ".ndjson"@,
        number_of("segment-"@ + digits + ".ndjson"@) == unsigned(digits),
{
    reveal_strlit("segment-");
    reveal_strlit(".ndjson");
    let name = "segment-"@ + digits + ".ndjson"@;
    assert(name.subrange(0, 8) =~= "segment-"@);
    let rest = name.subrange(8, name.len() as int);
    assert(rest =~= digits + ".ndjson"@);
    assert(rest.subrange(rest.len() - 7, rest.len() as int) =~= ".ndjson"@);
    assert(rest.subrange(0, rest.len() - 7) =~= digits);
}

/// A name that does not begin with `segment-` and end with `.ndjson` is that of
/// no segment.
pub proof fn other_files_are_no_segments(name: Seq<char>)
    requires
        forall|digits: Seq<char>| name != #[trigger] ("segment-"@ + digits + ".ndjson"@),
    ensures
        number_of(name) is None,
{
    if between(name, "segment-"@, ".ndjson"@) is Some {
        let digits = between(name, "segment-"@, ".ndjson"@)->0;
        let rest = name.subrange("segment-"@.len() as int, name.len() as int);
        assert(name =~= name.subrange(0, "segment-"@.len() as int) + rest);
        assert(rest =~= digits + rest.subrange(rest.len() - ".ndjson"@.len(), rest.len() as int));
        assert(name =~= "segment-"@ + digits + ".ndjson"@);
    }
}

/// The data directory is `wintermute/lucid` under the cache directory: under
/// `XDG_CACHE_HOME` where that is set, under `.cache` in `HOME` where not.
pub proof fn the_log_is_kept_in_the_cache(dir: Seq<char>, home: Option<Seq<char>>)
    requires
        dir.len() > 0,
        dir.last() != '/',
    ensures
        data_dir(Some(dir), home) == dir + "/wintermute/lucid"@,
        data_dir(None, Some(dir)) == dir + "/.cache/wintermute/lucid"@,
        data_dir(Some(Seq::empty()), Some(dir)) == dir + "/.cache/wintermute/lucid"@,
        data_dir(None, None) == "./.cache/wintermute/lucid"@,
        data_dir(Some(dir + "/"@), home) == dir + "/wintermute/lucid"@,
        data_dir(None, Some(dir + "/"@)) == dir + "/.cache/wintermute/lucid"@,
{
    reveal_strlit("/");
    reveal_strlit(".");
    reveal_strlit("wintermute/lucid");
    reveal_strlit("/wintermute/lucid");
    reveal_strlit(".cache/wintermute/lucid");
    reveal_strlit("/.cache/wintermute/lucid");
    reveal_strlit("./.cache/wintermute/lucid");
    assert(dir + "/"@ + "wintermute/lucid"@ =~= dir + "/wintermute/lucid"@);
    assert(dir + "/"@ + ".cache/wintermute/lucid"@ =~= dir + "/.cache/wintermute/lucid"@);
    assert("."@.last() == '.');
    assert(joined("."@, ".cache/wintermute/lucid"@) =~= "./.cache/wintermute/lucid"@);
    assert((dir + "/"@).last() == '/');
}

} // verus!
