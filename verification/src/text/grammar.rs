//! The grammar of a rule's text, as mathematics on its bytes.
//!
//! The grammar is stated twice. [`writes_rule`] says which texts write a
//! rule: it is the grammar as one would put it down on paper. [`parse_rule`]
//! goes through a text from left to right and says what rule it writes, or
//! where it first breaks the grammar: it is what the reader computes. The
//! two agree: see [`crate::text::laws`].
//!
//! [`rule_text`] is the one text of a rule that the writer chooses: a range
//! of one count is written as that count, any other range as a pair.
//!
//! A count is at most 255. The count of a single item and the last count of
//! a pair are at most 254, because a range ends one after its last count.

use crate::rule::Neighbors;
use crate::rule::Rule;
use crate::rule::RuleError;
use crate::rule::RuleView;
use crate::rule::Token;
use std::ops::Range;
use vstd::prelude::*;

verus! {

/// The byte `/`, which parts the segments.
pub const SLASH: u8 = 0x2f;

/// The byte `,`, which parts the items of a list.
pub const COMMA: u8 = 0x2c;

/// The byte `-`, which stands between the two counts of a pair.
pub const DASH: u8 = 0x2d;

/// The byte `0`.
pub const ZERO: u8 = 0x30;

/// The byte `9`.
pub const NINE: u8 = 0x39;

/// The byte `M`, for the neighbours of Moore.
pub const MOORE: u8 = 0x4d;

/// The byte `N`, for the neighbours of von Neumann.
pub const NEUMANN: u8 = 0x4e;

/// The byte that writes the digit `d`.
pub open spec fn digit_byte(d: int) -> u8 {
    (ZERO + d) as u8
}

/// The decimal digits of `n`, without a leading zero.
pub open spec fn count_text(n: nat) -> Seq<u8>
    decreases n,
{
    if n < 10 {
        seq![digit_byte(n as int)]
    } else {
        count_text(n / 10).push(digit_byte((n % 10) as int))
    }
}

/// The letter of a neighbourhood.
pub open spec fn neighbors_byte(n: Neighbors) -> u8 {
    match n {
        Neighbors::Moore => MOORE,
        Neighbors::Neumann => NEUMANN,
    }
}

/// Whether `text` is an item that stands for the counts of `range`: the one
/// count of the range, or its first and its last count with a dash between
/// them.
pub open spec fn writes_range(text: Seq<u8>, range: Range<u8>) -> bool {
    ||| range.end == range.start + 1 && text == count_text(range.start as nat)
    ||| range.end >= 1 && text == count_text(range.start as nat) + seq![DASH] + count_text(
        (range.end - 1) as nat,
    )
}

/// The texts `items`, one after the other with commas between them.
pub open spec fn joined(items: Seq<Seq<u8>>) -> Seq<u8>
    decreases items.len(),
{
    if items.len() == 0 {
        Seq::empty()
    } else if items.len() == 1 {
        items[0]
    } else {
        items[0] + seq![COMMA] + joined(items.drop_first())
    }
}

/// Whether `text` is a list of items that stand for `ranges`, one after the
/// other with commas between them.
pub open spec fn writes_ranges(text: Seq<u8>, ranges: Seq<Range<u8>>) -> bool {
    exists|items: Seq<Seq<u8>>|
        {
            &&& #[trigger] joined(items) == text
            &&& items.len() == ranges.len()
            &&& forall|i: int|
                0 <= i < ranges.len() ==> #[trigger] writes_range(items[i], ranges[i])
        }
}

/// Whether `text` writes `rule`: the list of the counts to survive with, the
/// list of the counts to be born with, the number of states and the letter
/// of the neighbourhood, with slashes between them.
pub open spec fn writes_rule(text: Seq<u8>, rule: RuleView) -> bool {
    exists|survival: Seq<u8>, birth: Seq<u8>|
        #![trigger writes_ranges(survival, rule.survival), writes_ranges(birth, rule.birth)]
        writes_ranges(survival, rule.survival) && writes_ranges(birth, rule.birth) && text
            == survival + seq![SLASH] + birth + seq![SLASH] + count_text(rule.states as nat)
            + seq![SLASH, neighbors_byte(rule.neighbors)]
}

/// Whether `b` is a decimal digit.
pub open spec fn is_digit(b: u8) -> bool {
    ZERO <= b <= NINE
}

/// Where the run of digits that starts at `pos` ends.
pub open spec fn digits_end(s: Seq<u8>, pos: int) -> int
    decreases s.len() - pos,
{
    if 0 <= pos < s.len() && is_digit(s[pos]) {
        digits_end(s, pos + 1)
    } else {
        pos
    }
}

/// A run of digits lies within the text, holds digits only, and ends before
/// a byte that is no digit or at the end of the text.
pub proof fn lemma_digits_end_bounds(s: Seq<u8>, pos: int)
    requires
        0 <= pos <= s.len(),
    ensures
        pos <= digits_end(s, pos) <= s.len(),
        forall|j: int| pos <= j < digits_end(s, pos) ==> is_digit(#[trigger] s[j]),
        digits_end(s, pos) < s.len() ==> !is_digit(s[digits_end(s, pos)]),
    decreases s.len() - pos,
{
    if pos < s.len() && is_digit(s[pos]) {
        lemma_digits_end_bounds(s, pos + 1);
    }
}

/// The run of digits from `pos` ends where the run from a later digit of it
/// ends.
pub proof fn lemma_digits_end_from(s: Seq<u8>, pos: int, i: int)
    requires
        0 <= pos <= i <= s.len(),
        forall|j: int| pos <= j < i ==> is_digit(#[trigger] s[j]),
    ensures
        digits_end(s, pos) == digits_end(s, i),
        i <= digits_end(s, i) <= s.len(),
    decreases s.len() - pos,
{
    if pos < i {
        lemma_digits_end_from(s, pos + 1, i);
    } else {
        lemma_digits_end_bounds(s, i);
    }
}

/// The number that the digits `digits` write.
pub open spec fn decimal(digits: Seq<u8>) -> nat
    decreases digits.len(),
{
    if digits.len() == 0 {
        0
    } else {
        10 * decimal(digits.drop_last()) + (digits.last() - ZERO) as nat
    }
}

/// Where the number that starts with the digit at `pos` ends: a zero stands
/// alone, any other digit takes the digits after it along.
pub open spec fn count_end(s: Seq<u8>, pos: int) -> int {
    if s[pos] == ZERO {
        pos + 1
    } else {
        digits_end(s, pos)
    }
}

/// Reads a count at `pos`: the count and where it ends.
pub open spec fn parse_count(s: Seq<u8>, pos: int) -> Result<(u8, int), RuleError> {
    if !(0 <= pos < s.len() && is_digit(s[pos])) {
        Err(RuleError::Syntax { position: pos as usize, expected: Token::Digit })
    } else if decimal(s.subrange(pos, count_end(s, pos))) > u8::MAX {
        Err(RuleError::CountTooLarge { position: pos as usize })
    } else {
        Ok((decimal(s.subrange(pos, count_end(s, pos))) as u8, count_end(s, pos)))
    }
}

/// Reads an item of a list at `pos`, a count or a pair of counts with a
/// dash between them: the counts it stands for, as a range, and where it
/// ends.
pub open spec fn parse_range(s: Seq<u8>, pos: int) -> Result<(Range<u8>, int), RuleError> {
    match parse_count(s, pos) {
        Err(e) => Err(e),
        Ok((lo, after)) => if after < s.len() && s[after] == DASH {
            match parse_count(s, after + 1) {
                Err(e) => Err(e),
                Ok((hi, end)) => if hi == u8::MAX {
                    Err(RuleError::CountTooLarge { position: (after + 1) as usize })
                } else {
                    Ok((Range { start: lo, end: (hi + 1) as u8 }, end))
                },
            }
        } else if lo == u8::MAX {
            Err(RuleError::CountTooLarge { position: pos as usize })
        } else {
            Ok((Range { start: lo, end: (lo + 1) as u8 }, after))
        },
    }
}

/// An item that was read ends after it starts, within the text.
pub proof fn lemma_range_advances(s: Seq<u8>, pos: int)
    ensures
        parse_range(s, pos) matches Ok((_, end)) ==> pos < end <= s.len(),
{
    if 0 <= pos < s.len() && is_digit(s[pos]) {
        lemma_digits_end_bounds(s, pos);
        let after = count_end(s, pos);
        if after < s.len() && s[after] == DASH && is_digit(s[after + 1]) {
            lemma_digits_end_bounds(s, after + 1);
        }
    }
}

/// Reads the items of a list from `pos` on, the first of which starts at
/// `pos`: the ranges and where the list ends.
pub open spec fn parse_items(s: Seq<u8>, pos: int) -> Result<(Seq<Range<u8>>, int), RuleError>
    decreases s.len() - pos,
{
    match parse_range(s, pos) {
        Err(e) => Err(e),
        Ok((first, after)) => if after < s.len() && s[after] == COMMA {
            proof {
                lemma_range_advances(s, pos);
            }
            match parse_items(s, after + 1) {
                Err(e) => Err(e),
                Ok((rest, end)) => Ok((seq![first] + rest, end)),
            }
        } else {
            Ok((seq![first], after))
        },
    }
}

/// Reads a list at `pos`, which is empty unless a digit stands there.
pub open spec fn parse_ranges(s: Seq<u8>, pos: int) -> Result<(Seq<Range<u8>>, int), RuleError> {
    if 0 <= pos < s.len() && is_digit(s[pos]) {
        parse_items(s, pos)
    } else {
        Ok((Seq::empty(), pos))
    }
}

/// Reads the letter of the neighbourhood at `pos`.
pub open spec fn parse_neighbors(s: Seq<u8>, pos: int) -> Result<(Neighbors, int), RuleError> {
    if 0 <= pos < s.len() && s[pos] == MOORE {
        Ok((Neighbors::Moore, pos + 1))
    } else if 0 <= pos < s.len() && s[pos] == NEUMANN {
        Ok((Neighbors::Neumann, pos + 1))
    } else {
        Err(RuleError::Syntax { position: pos as usize, expected: Token::Topology })
    }
}

/// Passes the slash at `pos`: where the next segment starts.
pub open spec fn parse_slash(s: Seq<u8>, pos: int) -> Result<int, RuleError> {
    if 0 <= pos < s.len() && s[pos] == SLASH {
        Ok(pos + 1)
    } else {
        Err(RuleError::Syntax { position: pos as usize, expected: Token::Slash })
    }
}

/// Reads a rule from the whole of `s`. The first byte that breaks the
/// grammar is reported; a text that keeps to the grammar and names fewer than
/// two states is turned down for that.
pub open spec fn parse_rule(s: Seq<u8>) -> Result<RuleView, RuleError> {
    match parse_ranges(s, 0) {
        Err(e) => Err(e),
        Ok((survival, after_survival)) => match parse_slash(s, after_survival) {
            Err(e) => Err(e),
            Ok(at_birth) => match parse_ranges(s, at_birth) {
                Err(e) => Err(e),
                Ok((birth, after_birth)) => match parse_slash(s, after_birth) {
                    Err(e) => Err(e),
                    Ok(at_states) => match parse_count(s, at_states) {
                        Err(e) => Err(e),
                        Ok((states, after_states)) => match parse_slash(s, after_states) {
                            Err(e) => Err(e),
                            Ok(at_letter) => match parse_neighbors(s, at_letter) {
                                Err(e) => Err(e),
                                Ok((neighbors, end)) => if end != s.len() {
                                    Err(
                                        RuleError::Syntax {
                                            position: end as usize,
                                            expected: Token::End,
                                        },
                                    )
                                } else if states < 2 {
                                    Err(RuleError::TooFewStates { states })
                                } else {
                                    Ok(RuleView { survival, birth, states, neighbors })
                                },
                            },
                        },
                    },
                },
            },
        },
    }
}

/// What [`Rule::parse`] returns, taken as mathematics.
pub open spec fn parsed(read: Result<Rule, RuleError>) -> Result<RuleView, RuleError> {
    match read {
        Ok(rule) => Ok(rule@),
        Err(e) => Err(e),
    }
}

/// The item that the writer chooses for the counts of `range`: the one
/// count, or the first and the last with a dash between them.
pub open spec fn range_text(range: Range<u8>) -> Seq<u8> {
    if range.end == range.start + 1 {
        count_text(range.start as nat)
    } else {
        count_text(range.start as nat) + seq![DASH] + count_text((range.end - 1) as nat)
    }
}

/// The items that the writer chooses for `ranges`.
pub open spec fn range_texts(ranges: Seq<Range<u8>>) -> Seq<Seq<u8>> {
    Seq::new(ranges.len(), |i: int| range_text(ranges[i]))
}

/// The list that the writer chooses for `ranges`.
pub open spec fn ranges_text(ranges: Seq<Range<u8>>) -> Seq<u8> {
    joined(range_texts(ranges))
}

/// The text that the writer chooses for `rule`.
pub open spec fn rule_text(rule: RuleView) -> Seq<u8> {
    ranges_text(rule.survival) + seq![SLASH] + ranges_text(rule.birth) + seq![SLASH] + count_text(
        rule.states as nat,
    ) + seq![SLASH, neighbors_byte(rule.neighbors)]
}

/// Whether every range of `ranges` can be written as an item: its end is
/// one more than a count.
pub open spec fn writable(ranges: Seq<Range<u8>>) -> bool {
    forall|i: int| 0 <= i < ranges.len() ==> (#[trigger] ranges[i]).end >= 1
}

/// Whether the rule has a text.
pub open spec fn has_text(rule: RuleView) -> bool {
    writable(rule.survival) && writable(rule.birth)
}

/// The characters that the bytes `bytes` of a text in ASCII stand for.
pub open spec fn as_chars(bytes: Seq<u8>) -> Seq<char> {
    Seq::new(bytes.len(), |i: int| bytes[i] as char)
}

/// Whether all of `bytes` are ASCII.
pub open spec fn is_ascii_bytes(bytes: Seq<u8>) -> bool {
    forall|i: int| 0 <= i < bytes.len() ==> #[trigger] bytes[i] < 0x80
}

} // verus!
