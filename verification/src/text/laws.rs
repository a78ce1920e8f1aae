//! The two statements of the grammar agree, and reading undoes writing.
//!
//! * [`lemma_written_is_read`] and [`lemma_read_is_written`]: a text is read
//!   as a rule if and only if it writes that rule and the rule has two states
//!   or more.
//! * [`lemma_parse_rule_text`]: the text that the writer chooses for a rule
//!   is read as that rule.
//! * [`lemma_read_write_read`]: a rule that was read from any text is read
//!   again from the text that the writer chooses for it.
//! * [`lemma_error_tells`]: what a text is turned down for is true of it.

use crate::rule::Neighbors;
use crate::rule::RuleError;
use crate::rule::RuleView;
use crate::rule::Token;
use crate::text::grammar::as_chars;
use crate::text::grammar::count_text;
use crate::text::grammar::decimal;
use crate::text::grammar::has_text;
use crate::text::grammar::is_ascii_bytes;
use crate::text::grammar::is_digit;
use crate::text::grammar::joined;
use crate::text::grammar::lemma_digits_end_bounds;
use crate::text::grammar::lemma_digits_end_from;
use crate::text::grammar::neighbors_byte;
use crate::text::grammar::parse_count;
use crate::text::grammar::parse_items;
use crate::text::grammar::parse_neighbors;
use crate::text::grammar::parse_range;
use crate::text::grammar::parse_ranges;
use crate::text::grammar::parse_rule;
use crate::text::grammar::parse_slash;
use crate::text::grammar::range_texts;
use crate::text::grammar::ranges_text;
use crate::text::grammar::rule_text;
use crate::text::grammar::writable;
use crate::text::grammar::writes_range;
use crate::text::grammar::writes_ranges;
use crate::text::grammar::writes_rule;
use crate::text::grammar::COMMA;
use crate::text::grammar::DASH;
use crate::text::grammar::MOORE;
use crate::text::grammar::NEUMANN;
use crate::text::grammar::SLASH;
use crate::text::grammar::ZERO;
use std::ops::Range;
use vstd::prelude::*;
use vstd::utf8::encode_utf8;
use vstd::utf8::is_ascii_chars;
use vstd::utf8::is_ascii_chars_encode_utf8;

verus! {

/// Whether the bytes `part` stand in `s` from `pos` on.
pub open spec fn stands_at(s: Seq<u8>, pos: int, part: Seq<u8>) -> bool {
    &&& 0 <= pos
    &&& pos + part.len() <= s.len()
    &&& s.subrange(pos, pos + part.len()) == part
}

/// Whether the byte of `s` at `pos`, if there is one, is none that could go
/// on a count.
pub open spec fn count_stops(s: Seq<u8>, pos: int) -> bool {
    pos < s.len() ==> !is_digit(s[pos])
}

/// Whether the byte of `s` at `pos`, if there is one, is none that could go
/// on an item.
pub open spec fn item_stops(s: Seq<u8>, pos: int) -> bool {
    pos < s.len() ==> !is_digit(s[pos]) && s[pos] != DASH
}

/// Whether the byte of `s` at `pos`, if there is one, is none that could go
/// on a list.
pub open spec fn list_stops(s: Seq<u8>, pos: int) -> bool {
    pos < s.len() ==> !is_digit(s[pos]) && s[pos] != DASH && s[pos] != COMMA
}

/// Where two parts stand one after the other, each of them stands.
proof fn lemma_stands_parts(s: Seq<u8>, pos: int, a: Seq<u8>, b: Seq<u8>)
    requires
        stands_at(s, pos, a + b),
    ensures
        stands_at(s, pos, a),
        stands_at(s, pos + a.len(), b),
{
    let whole = s.subrange(pos, pos + (a + b).len());
    assert(s.subrange(pos, pos + a.len()) =~= whole.subrange(0, a.len() as int));
    assert(whole.subrange(0, a.len() as int) =~= a);
    assert(s.subrange(pos + a.len(), pos + a.len() + b.len()) =~= whole.subrange(
        a.len() as int,
        (a + b).len() as int,
    ));
    assert(whole.subrange(a.len() as int, (a + b).len() as int) =~= b);
}

/// Where a part, a byte and a part stand one after the other, each of them
/// stands.
proof fn lemma_stands_around(s: Seq<u8>, pos: int, a: Seq<u8>, between: u8, b: Seq<u8>)
    requires
        stands_at(s, pos, a + seq![between] + b),
    ensures
        stands_at(s, pos, a),
        s[pos + a.len()] == between,
        stands_at(s, pos + a.len() + 1, b),
{
    assert(a + seq![between] + b =~= a + (seq![between] + b));
    lemma_stands_parts(s, pos, a, seq![between] + b);
    lemma_stands_parts(s, pos + a.len(), seq![between], b);
    assert(s[pos + a.len()] == s.subrange(pos + a.len(), pos + a.len() + 1)[0]);
}

/// The digits of a number are digits, they start with a zero only if the
/// number is zero, and they write that number.
pub proof fn lemma_count_text(n: nat)
    ensures
        count_text(n).len() >= 1,
        forall|i: int| 0 <= i < count_text(n).len() ==> is_digit(#[trigger] count_text(n)[i]),
        count_text(n)[0] == ZERO <==> n == 0,
        n == 0 ==> count_text(n).len() == 1,
        decimal(count_text(n)) == n,
    decreases n,
{
    reveal_with_fuel(decimal, 2);
    if n >= 10 {
        lemma_count_text(n / 10);
        assert(count_text(n).drop_last() == count_text(n / 10));
    } else {
        assert(count_text(n).drop_last() == Seq::<u8>::empty());
    }
}

/// Digits that do not start with a zero are the digits of the number that
/// they write.
pub proof fn lemma_decimal_text(digits: Seq<u8>)
    requires
        digits.len() >= 1,
        forall|i: int| 0 <= i < digits.len() ==> is_digit(#[trigger] digits[i]),
        digits[0] != ZERO,
    ensures
        decimal(digits) >= 1,
        count_text(decimal(digits)) == digits,
    decreases digits.len(),
{
    reveal_with_fuel(decimal, 2);
    let init = digits.drop_last();
    if digits.len() == 1 {
        assert(init =~= Seq::<u8>::empty());
        assert(count_text(decimal(digits)) =~= digits);
    } else {
        lemma_decimal_text(init);
        let n = decimal(digits);
        assert(n / 10 == decimal(init) && n % 10 == digits.last() - ZERO);
        assert(count_text(n) =~= digits);
    }
}

/// Where the digits of a count stand and no digit follows them, that count
/// is read.
pub proof fn lemma_count_written(s: Seq<u8>, pos: int, n: nat)
    requires
        n <= u8::MAX,
        stands_at(s, pos, count_text(n)),
        count_stops(s, pos + count_text(n).len()),
    ensures
        parse_count(s, pos) == Ok::<(u8, int), RuleError>((n as u8, pos + count_text(n).len())),
{
    let digits = count_text(n);
    let end = pos + digits.len();
    lemma_count_text(n);
    assert forall|j: int| pos <= j < end implies is_digit(#[trigger] s[j]) by {
        assert(s[j] == s.subrange(pos, end)[j - pos]);
    }
    assert(s[pos] == digits[0]);
    lemma_digits_end_from(s, pos, end);
}

/// The bytes of a count that was read are the digits of that count, and no
/// digit follows them unless the count is a zero.
pub proof fn lemma_count_read(s: Seq<u8>, pos: int)
    requires
        parse_count(s, pos) is Ok,
    ensures
        ({
            let (n, end) = parse_count(s, pos)->Ok_0;
            &&& pos < end <= s.len()
            &&& s.subrange(pos, end) == count_text(n as nat)
        }),
{
    let (n, end) = parse_count(s, pos)->Ok_0;
    let digits = s.subrange(pos, end);
    reveal_with_fuel(decimal, 2);
    if s[pos] == ZERO {
        assert(digits.drop_last() =~= Seq::<u8>::empty());
        assert(digits =~= count_text(0));
    } else {
        lemma_digits_end_bounds(s, pos);
        assert forall|i: int| 0 <= i < digits.len() implies is_digit(#[trigger] digits[i]) by {
            assert(digits[i] == s[pos + i]);
        }
        lemma_decimal_text(digits);
    }
}

/// Where an item stands and nothing follows that could go on it, the range
/// that it stands for is read.
pub proof fn lemma_range_written(s: Seq<u8>, pos: int, text: Seq<u8>, range: Range<u8>)
    requires
        writes_range(text, range),
        stands_at(s, pos, text),
        item_stops(s, pos + text.len()),
    ensures
        parse_range(s, pos) == Ok::<(Range<u8>, int), RuleError>((range, pos + text.len())),
{
    let lo = count_text(range.start as nat);
    if range.end == range.start + 1 && text == lo {
        lemma_count_written(s, pos, range.start as nat);
    } else {
        let hi = count_text((range.end - 1) as nat);
        lemma_stands_around(s, pos, lo, DASH, hi);
        lemma_count_written(s, pos, range.start as nat);
        lemma_count_written(s, pos + lo.len() + 1, (range.end - 1) as nat);
    }
}

/// The bytes of an item that was read are an item that stands for the range
/// that was read.
pub proof fn lemma_range_read(s: Seq<u8>, pos: int)
    requires
        parse_range(s, pos) is Ok,
    ensures
        ({
            let (range, end) = parse_range(s, pos)->Ok_0;
            &&& pos < end <= s.len()
            &&& writes_range(s.subrange(pos, end), range)
        }),
{
    let (range, end) = parse_range(s, pos)->Ok_0;
    let (lo, after) = parse_count(s, pos)->Ok_0;
    lemma_count_read(s, pos);
    if after < s.len() && s[after] == DASH {
        lemma_count_read(s, after + 1);
        assert(s.subrange(pos, end) =~= s.subrange(pos, after) + seq![DASH] + s.subrange(
            after + 1,
            end,
        ));
    }
}

/// Where items stand with commas between them and nothing follows that
/// could go on the list, the ranges that they stand for are read.
proof fn lemma_joined_written(s: Seq<u8>, pos: int, items: Seq<Seq<u8>>, ranges: Seq<Range<u8>>)
    requires
        ranges.len() >= 1,
        items.len() == ranges.len(),
        forall|i: int| 0 <= i < ranges.len() ==> #[trigger] writes_range(items[i], ranges[i]),
        stands_at(s, pos, joined(items)),
        list_stops(s, pos + joined(items).len()),
    ensures
        parse_items(s, pos) == Ok::<(Seq<Range<u8>>, int), RuleError>(
            (ranges, pos + joined(items).len()),
        ),
    decreases ranges.len(),
{
    assert(writes_range(items[0], ranges[0]));
    if ranges.len() == 1 {
        lemma_range_written(s, pos, items[0], ranges[0]);
        assert(seq![ranges[0]] =~= ranges);
    } else {
        let rest = items.drop_first();
        lemma_stands_around(s, pos, items[0], COMMA, joined(rest));
        lemma_range_written(s, pos, items[0], ranges[0]);
        assert forall|i: int| 0 <= i < ranges.len() - 1 implies #[trigger] writes_range(
            rest[i],
            ranges.drop_first()[i],
        ) by {
            assert(writes_range(items[i + 1], ranges[i + 1]));
        }
        lemma_joined_written(s, pos + items[0].len() + 1, rest, ranges.drop_first());
        assert(seq![ranges[0]] + ranges.drop_first() =~= ranges);
    }
}

/// The bytes of a list that was read are items with commas between them,
/// and the items stand for the ranges that were read.
proof fn lemma_items_read(s: Seq<u8>, pos: int) -> (items: Seq<Seq<u8>>)
    requires
        parse_items(s, pos) is Ok,
    ensures
        ({
            let (ranges, end) = parse_items(s, pos)->Ok_0;
            &&& ranges.len() >= 1
            &&& pos < end <= s.len()
            &&& joined(items) == s.subrange(pos, end)
            &&& items.len() == ranges.len()
            &&& forall|i: int|
                0 <= i < ranges.len() ==> #[trigger] writes_range(items[i], ranges[i])
        }),
    decreases s.len() - pos,
{
    let (ranges, end) = parse_items(s, pos)->Ok_0;
    let (first, after) = parse_range(s, pos)->Ok_0;
    lemma_range_read(s, pos);
    if after < s.len() && s[after] == COMMA {
        let rest = lemma_items_read(s, after + 1);
        let items = seq![s.subrange(pos, after)] + rest;
        assert(items.drop_first() =~= rest);
        assert(joined(items) =~= s.subrange(pos, end));
        items
    } else {
        seq![s.subrange(pos, end)]
    }
}

/// A list of items starts with a digit, unless it is empty.
proof fn lemma_written_starts(text: Seq<u8>, ranges: Seq<Range<u8>>)
    requires
        writes_ranges(text, ranges),
    ensures
        ranges.len() == 0 ==> text.len() == 0,
        ranges.len() >= 1 ==> text.len() >= 1 && is_digit(text[0]),
{
    let items = choose|items: Seq<Seq<u8>>|
        {
            &&& #[trigger] joined(items) == text
            &&& items.len() == ranges.len()
            &&& forall|i: int|
                0 <= i < ranges.len() ==> #[trigger] writes_range(items[i], ranges[i])
        };
    if ranges.len() >= 1 {
        lemma_count_text(ranges[0].start as nat);
        assert(writes_range(items[0], ranges[0]));
    }
}

/// Where a list stands and nothing follows that could go on it, the ranges
/// that it stands for are read.
pub proof fn lemma_ranges_written(s: Seq<u8>, pos: int, text: Seq<u8>, ranges: Seq<Range<u8>>)
    requires
        writes_ranges(text, ranges),
        stands_at(s, pos, text),
        list_stops(s, pos + text.len()),
    ensures
        parse_ranges(s, pos) == Ok::<(Seq<Range<u8>>, int), RuleError>((ranges, pos + text.len())),
{
    lemma_written_starts(text, ranges);
    if ranges.len() == 0 {
        assert(ranges =~= Seq::empty());
    } else {
        let items = choose|items: Seq<Seq<u8>>|
            {
                &&& #[trigger] joined(items) == text
                &&& items.len() == ranges.len()
                &&& forall|i: int|
                    0 <= i < ranges.len() ==> #[trigger] writes_range(items[i], ranges[i])
            };
        assert(s[pos] == s.subrange(pos, pos + text.len())[0]);
        lemma_joined_written(s, pos, items, ranges);
    }
}

/// The bytes of a list that was read are a list that stands for the ranges
/// that were read.
pub proof fn lemma_ranges_read(s: Seq<u8>, pos: int)
    requires
        0 <= pos <= s.len(),
        parse_ranges(s, pos) is Ok,
    ensures
        ({
            let (ranges, end) = parse_ranges(s, pos)->Ok_0;
            &&& pos <= end <= s.len()
            &&& writes_ranges(s.subrange(pos, end), ranges)
        }),
{
    if pos < s.len() && is_digit(s[pos]) {
        let items = lemma_items_read(s, pos);
        assert(joined(items) == s.subrange(pos, parse_ranges(s, pos)->Ok_0.1));
    } else {
        assert(joined(Seq::<Seq<u8>>::empty()) == s.subrange(pos, pos));
    }
}

/// Where the parts of a text that writes a rule stand in it.
proof fn lemma_rule_parts(text: Seq<u8>, a: Seq<u8>, b: Seq<u8>, c: Seq<u8>, letter: u8)
    requires
        text == a + seq![SLASH] + b + seq![SLASH] + c + seq![SLASH, letter],
    ensures
        ({
            let after_survival = a.len() as int;
            let after_birth = after_survival + 1 + b.len();
            let after_states = after_birth + 1 + c.len();
            &&& text.len() == after_states + 2
            &&& stands_at(text, 0, a)
            &&& text[after_survival] == SLASH
            &&& stands_at(text, after_survival + 1, b)
            &&& text[after_birth] == SLASH
            &&& stands_at(text, after_birth + 1, c)
            &&& text[after_states] == SLASH
            &&& text[after_states + 1] == letter
        }),
{
    let after_survival = a.len() as int;
    let after_birth = after_survival + 1 + b.len();
    let after_states = after_birth + 1 + c.len();
    assert(text.subrange(0, after_survival) =~= a);
    assert(text.subrange(after_survival + 1, after_birth) =~= b);
    assert(text.subrange(after_birth + 1, after_states) =~= c);
}

/// A text that writes a rule with two states or more is read as that rule.
pub proof fn lemma_written_is_read(text: Seq<u8>, rule: RuleView)
    requires
        writes_rule(text, rule),
        rule.valid(),
    ensures
        parse_rule(text) == Ok::<RuleView, RuleError>(rule),
{
    let (a, b) = choose|survival: Seq<u8>, birth: Seq<u8>|
        #![trigger writes_ranges(survival, rule.survival), writes_ranges(birth, rule.birth)]
        writes_ranges(survival, rule.survival) && writes_ranges(birth, rule.birth) && text
            == survival + seq![SLASH] + birth + seq![SLASH] + count_text(rule.states as nat)
            + seq![SLASH, neighbors_byte(rule.neighbors)];
    let c = count_text(rule.states as nat);
    let after_survival = a.len() as int;
    let after_birth = after_survival + 1 + b.len();
    let after_states = after_birth + 1 + c.len();
    lemma_rule_parts(text, a, b, c, neighbors_byte(rule.neighbors));
    lemma_ranges_written(text, 0, a, rule.survival);
    lemma_ranges_written(text, after_survival + 1, b, rule.birth);
    lemma_count_written(text, after_birth + 1, rule.states as nat);
    assert(parse_slash(text, after_survival) == Ok::<int, RuleError>(after_survival + 1));
    assert(parse_slash(text, after_birth) == Ok::<int, RuleError>(after_birth + 1));
    assert(parse_slash(text, after_states) == Ok::<int, RuleError>(after_states + 1));
    assert(parse_neighbors(text, after_states + 1) == Ok::<(Neighbors, int), RuleError>(
        (rule.neighbors, after_states + 2),
    ));
}

/// A text that is read as a rule writes that rule, and the rule has two
/// states or more.
pub proof fn lemma_read_is_written(text: Seq<u8>)
    requires
        parse_rule(text) is Ok,
    ensures
        writes_rule(text, parse_rule(text)->Ok_0),
        parse_rule(text)->Ok_0.valid(),
{
    let rule = parse_rule(text)->Ok_0;
    let after_survival = parse_ranges(text, 0)->Ok_0.1;
    let at_birth = parse_slash(text, after_survival)->Ok_0;
    let after_birth = parse_ranges(text, at_birth)->Ok_0.1;
    let at_states = parse_slash(text, after_birth)->Ok_0;
    let after_states = parse_count(text, at_states)->Ok_0.1;
    let at_letter = parse_slash(text, after_states)->Ok_0;
    lemma_ranges_read(text, 0);
    lemma_ranges_read(text, at_birth);
    lemma_count_read(text, at_states);
    let a = text.subrange(0, after_survival);
    let b = text.subrange(at_birth, after_birth);
    assert(text =~= a + seq![SLASH] + b + seq![SLASH] + count_text(rule.states as nat) + seq![
        SLASH,
        neighbors_byte(rule.neighbors),
    ]);
    assert(writes_ranges(a, rule.survival) && writes_ranges(b, rule.birth));
}

/// The list that the writer chooses for ranges stands for them.
proof fn lemma_ranges_text_writes(ranges: Seq<Range<u8>>)
    requires
        writable(ranges),
    ensures
        writes_ranges(ranges_text(ranges), ranges),
{
    let items = range_texts(ranges);
    assert(joined(items) == ranges_text(ranges));
}

/// Ranges that a list stands for can be written.
proof fn lemma_written_is_writable(text: Seq<u8>, ranges: Seq<Range<u8>>)
    requires
        writes_ranges(text, ranges),
    ensures
        writable(ranges),
{
    let items = choose|items: Seq<Seq<u8>>|
        {
            &&& #[trigger] joined(items) == text
            &&& items.len() == ranges.len()
            &&& forall|i: int|
                0 <= i < ranges.len() ==> #[trigger] writes_range(items[i], ranges[i])
        };
    assert forall|i: int| 0 <= i < ranges.len() implies (#[trigger] ranges[i]).end >= 1 by {
        assert(writes_range(items[i], ranges[i]));
    }
}

/// The text that the writer chooses for a rule writes that rule.
pub proof fn lemma_rule_text_writes(rule: RuleView)
    requires
        has_text(rule),
    ensures
        writes_rule(rule_text(rule), rule),
{
    lemma_ranges_text_writes(rule.survival);
    lemma_ranges_text_writes(rule.birth);
    assert(writes_ranges(ranges_text(rule.survival), rule.survival) && writes_ranges(
        ranges_text(rule.birth),
        rule.birth,
    ));
}

/// A rule that has a text and at least two states is read back from the
/// text that the writer chooses for it.
pub proof fn lemma_parse_rule_text(rule: RuleView)
    requires
        has_text(rule),
        rule.valid(),
    ensures
        parse_rule(rule_text(rule)) == Ok::<RuleView, RuleError>(rule),
{
    lemma_rule_text_writes(rule);
    lemma_written_is_read(rule_text(rule), rule);
}

/// Reading is the inverse of writing on everything that reading gives: a
/// rule that was read from a text has a text of its own, and reading that
/// gives the same rule again.
pub proof fn lemma_read_write_read(s: Seq<u8>)
    requires
        parse_rule(s) is Ok,
    ensures
        has_text(parse_rule(s)->Ok_0),
        parse_rule(s)->Ok_0.valid(),
        parse_rule(rule_text(parse_rule(s)->Ok_0)) == parse_rule(s),
{
    let rule = parse_rule(s)->Ok_0;
    lemma_read_is_written(s);
    let (a, b) = choose|survival: Seq<u8>, birth: Seq<u8>|
        #![trigger writes_ranges(survival, rule.survival), writes_ranges(birth, rule.birth)]
        writes_ranges(survival, rule.survival) && writes_ranges(birth, rule.birth) && s
            == survival + seq![SLASH] + birth + seq![SLASH] + count_text(rule.states as nat)
            + seq![SLASH, neighbors_byte(rule.neighbors)];
    lemma_written_is_writable(a, rule.survival);
    lemma_written_is_writable(b, rule.birth);
    lemma_parse_rule_text(rule);
}

/// Texts in ASCII are joined to a text in ASCII.
proof fn lemma_joined_ascii(items: Seq<Seq<u8>>)
    requires
        forall|i: int| 0 <= i < items.len() ==> is_ascii_bytes(#[trigger] items[i]),
    ensures
        is_ascii_bytes(joined(items)),
    decreases items.len(),
{
    if items.len() > 1 {
        let rest = items.drop_first();
        assert forall|i: int| 0 <= i < rest.len() implies is_ascii_bytes(#[trigger] rest[i]) by {
            assert(rest[i] == items[i + 1]);
        }
        lemma_joined_ascii(rest);
    }
}

/// The list that the writer chooses is written in ASCII.
proof fn lemma_ranges_text_ascii(ranges: Seq<Range<u8>>)
    ensures
        is_ascii_bytes(ranges_text(ranges)),
{
    let items = range_texts(ranges);
    assert forall|i: int| 0 <= i < items.len() implies is_ascii_bytes(#[trigger] items[i]) by {
        lemma_count_text(ranges[i].start as nat);
        lemma_count_text((ranges[i].end - 1) as nat);
    }
    lemma_joined_ascii(items);
}

/// The text of a rule is ASCII, so its bytes are the UTF-8 encoding of its
/// characters.
pub proof fn lemma_rule_text_ascii(rule: RuleView)
    ensures
        is_ascii_bytes(rule_text(rule)),
        encode_utf8(as_chars(rule_text(rule))) == rule_text(rule),
{
    lemma_ranges_text_ascii(rule.survival);
    lemma_ranges_text_ascii(rule.birth);
    lemma_count_text(rule.states as nat);
    let bytes = rule_text(rule);
    let chars = as_chars(bytes);
    assert(is_ascii_chars(chars));
    is_ascii_chars_encode_utf8(chars);
    assert forall|i: int| 0 <= i < bytes.len() implies encode_utf8(chars)[i] == bytes[i] by {
        assert(chars[i] as u8 == encode_utf8(chars)[i]);
    }
    assert(encode_utf8(chars) =~= bytes);
}

/// Whether the byte of `s` at `pos` is what `token` asks for.
pub open spec fn found(s: Seq<u8>, pos: int, token: Token) -> bool {
    match token {
        Token::Digit => 0 <= pos < s.len() && is_digit(s[pos]),
        Token::Slash => 0 <= pos < s.len() && s[pos] == SLASH,
        Token::Topology => 0 <= pos < s.len() && (s[pos] == MOORE || s[pos] == NEUMANN),
        Token::End => pos == s.len(),
    }
}

/// Whether `e` says something true of `s`: where it names a position, the
/// position lies in the text or at its end, and there stands something else
/// than what it says was expected, or a count that is too large starts
/// there.
pub open spec fn tells(s: Seq<u8>, e: RuleError) -> bool {
    match e {
        RuleError::Syntax { position, expected } => position <= s.len() && !found(
            s,
            position as int,
            expected,
        ),
        RuleError::CountTooLarge { position } => position < s.len() && is_digit(
            s[position as int],
        ),
        RuleError::TooFewStates { states } => states < 2,
    }
}

/// What a count is turned down for is true of the text.
proof fn lemma_count_error(s: Seq<u8>, pos: int)
    requires
        0 <= pos <= s.len() <= usize::MAX,
        parse_count(s, pos) is Err,
    ensures
        tells(s, parse_count(s, pos)->Err_0),
{
}

/// What an item is turned down for is true of the text.
proof fn lemma_range_error(s: Seq<u8>, pos: int)
    requires
        0 <= pos <= s.len() <= usize::MAX,
        parse_range(s, pos) is Err,
    ensures
        tells(s, parse_range(s, pos)->Err_0),
{
    if parse_count(s, pos) is Ok {
        lemma_count_read(s, pos);
        let after = parse_count(s, pos)->Ok_0.1;
        if after < s.len() && s[after] == DASH && parse_count(s, after + 1) is Ok {
            lemma_count_read(s, after + 1);
        }
    }
}

/// What a list is turned down for is true of the text.
proof fn lemma_items_error(s: Seq<u8>, pos: int)
    requires
        0 <= pos <= s.len() <= usize::MAX,
        parse_items(s, pos) is Err,
    ensures
        tells(s, parse_items(s, pos)->Err_0),
    decreases s.len() - pos,
{
    if parse_range(s, pos) is Ok {
        lemma_range_read(s, pos);
        lemma_items_error(s, parse_range(s, pos)->Ok_0.1 + 1);
    } else {
        lemma_range_error(s, pos);
    }
}

/// What a text is turned down for is true of it: at the position that is
/// named stands something else than what was expected, or a count that is
/// too large; or the text names fewer than two states.
pub proof fn lemma_error_tells(s: Seq<u8>)
    requires
        s.len() <= usize::MAX,
        parse_rule(s) is Err,
    ensures
        tells(s, parse_rule(s)->Err_0),
{
    if parse_ranges(s, 0) is Err {
        lemma_items_error(s, 0);
    } else {
        lemma_ranges_read(s, 0);
        let after_survival = parse_ranges(s, 0)->Ok_0.1;
        if parse_slash(s, after_survival) is Ok {
            let at_birth = after_survival + 1;
            if parse_ranges(s, at_birth) is Err {
                lemma_items_error(s, at_birth);
            } else {
                lemma_ranges_read(s, at_birth);
                let after_birth = parse_ranges(s, at_birth)->Ok_0.1;
                if parse_slash(s, after_birth) is Ok {
                    let at_states = after_birth + 1;
                    if parse_count(s, at_states) is Err {
                        lemma_count_error(s, at_states);
                    } else {
                        lemma_count_read(s, at_states);
                    }
                }
            }
        }
    }
}

} // verus!
