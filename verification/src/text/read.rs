//! Reading a rule from its text.

use crate::rule::Neighbors;
use crate::rule::Rule;
use crate::rule::RuleError;
use crate::rule::RuleView;
use crate::rule::Token;
use crate::text::grammar::decimal;
use crate::text::grammar::digits_end;
use crate::text::grammar::is_digit;
use crate::text::grammar::lemma_digits_end_bounds;
use crate::text::grammar::lemma_digits_end_from;
use crate::text::grammar::parse_count;
use crate::text::grammar::parse_items;
use crate::text::grammar::parse_neighbors;
use crate::text::grammar::parse_range;
use crate::text::grammar::parse_ranges;
use crate::text::grammar::parse_rule;
use crate::text::grammar::parse_slash;
use crate::text::grammar::parsed;
use crate::text::grammar::writes_rule;
use crate::text::laws::lemma_error_tells;
use crate::text::laws::lemma_read_is_written;
use crate::text::laws::lemma_written_is_read;
use crate::text::laws::tells;
use crate::text::grammar::COMMA;
use crate::text::grammar::DASH;
use crate::text::grammar::MOORE;
use crate::text::grammar::NEUMANN;
use crate::text::grammar::NINE;
use crate::text::grammar::SLASH;
use crate::text::grammar::ZERO;
use std::ops::Range;
use vstd::prelude::*;
use vstd::utf8::encode_utf8;

verus! {

/// More digits do not write a smaller number.
proof fn lemma_decimal_grows(s: Seq<u8>, pos: int, i: int, end: int)
    requires
        0 <= pos <= i <= end <= s.len(),
        forall|j: int| pos <= j < end ==> is_digit(#[trigger] s[j]),
    ensures
        decimal(s.subrange(pos, i)) <= decimal(s.subrange(pos, end)),
    decreases end - i,
{
    if i < end {
        lemma_decimal_grows(s, pos, i, end - 1);
        assert(s.subrange(pos, end).drop_last() == s.subrange(pos, end - 1));
    }
}

/// Reads a count at `pos`.
fn read_count(text: &[u8], pos: usize) -> (read: Result<(u8, usize), RuleError>)
    requires
        pos <= text.len(),
    ensures
        match parse_count(text@, pos as int) {
            Ok((count, end)) => read == Ok::<(u8, usize), RuleError>((count, end as usize))
                && pos < end <= text.len(),
            Err(e) => read == Err::<(u8, usize), RuleError>(e),
        },
{
    if pos >= text.len() || text[pos] < ZERO || text[pos] > NINE {
        return Err(RuleError::Syntax { position: pos, expected: Token::Digit });
    }
    if text[pos] == ZERO {
        assert(decimal(text@.subrange(pos as int, pos + 1)) == 0) by {
            reveal_with_fuel(decimal, 2);
        }
        return Ok((0, pos + 1));
    }
    let mut value: u16 = 0;
    let mut i: usize = pos;
    proof {
        lemma_digits_end_bounds(text@, pos as int);
    }
    while i < text.len() && ZERO <= text[i] && text[i] <= NINE
        invariant
            pos <= i <= text.len(),
            pos < text.len(),
            is_digit(text@[pos as int]),
            text@[pos as int] != ZERO,
            forall|j: int| pos <= j < i ==> is_digit(#[trigger] text@[j]),
            value == decimal(text@.subrange(pos as int, i as int)),
            value <= u8::MAX,
        decreases text.len() - i,
    {
        let digit = (text[i] - ZERO) as u16;
        assert(text@.subrange(pos as int, i + 1).drop_last() == text@.subrange(
            pos as int,
            i as int,
        ));
        assert(value * 10 + digit == decimal(text@.subrange(pos as int, i + 1)));
        if value * 10 + digit > u8::MAX as u16 {
            proof {
                lemma_digits_end_from(text@, pos as int, i + 1);
                lemma_digits_end_bounds(text@, i + 1);
                lemma_decimal_grows(text@, pos as int, i + 1, digits_end(text@, pos as int));
            }
            return Err(RuleError::CountTooLarge { position: pos });
        }
        value = value * 10 + digit;
        i += 1;
    }
    proof {
        lemma_digits_end_from(text@, pos as int, i as int);
    }
    Ok((value as u8, i))
}

/// Reads an item of a list at `pos`.
fn read_range(text: &[u8], pos: usize) -> (read: Result<(Range<u8>, usize), RuleError>)
    requires
        pos <= text.len(),
    ensures
        match parse_range(text@, pos as int) {
            Ok((range, end)) => read == Ok::<(Range<u8>, usize), RuleError>((range, end as usize))
                && pos < end <= text.len(),
            Err(e) => read == Err::<(Range<u8>, usize), RuleError>(e),
        },
{
    let (lo, after) = read_count(text, pos)?;
    if after < text.len() && text[after] == DASH {
        let (hi, end) = read_count(text, after + 1)?;
        if hi == u8::MAX {
            return Err(RuleError::CountTooLarge { position: after + 1 });
        }
        Ok((Range { start: lo, end: hi + 1 }, end))
    } else if lo == u8::MAX {
        Err(RuleError::CountTooLarge { position: pos })
    } else {
        Ok((Range { start: lo, end: lo + 1 }, after))
    }
}

/// The list that starts with `head` and goes on as `tail` was read.
spec fn after_head(head: Seq<Range<u8>>, tail: Result<(Seq<Range<u8>>, int), RuleError>) -> Result<
    (Seq<Range<u8>>, int),
    RuleError,
> {
    match tail {
        Ok((rest, end)) => Ok((head + rest, end)),
        Err(e) => Err(e),
    }
}

/// Reads a list at `pos`.
fn read_ranges(text: &[u8], pos: usize) -> (read: Result<(Vec<Range<u8>>, usize), RuleError>)
    requires
        pos <= text.len(),
    ensures
        match parse_ranges(text@, pos as int) {
            Ok((ranges, end)) => read matches Ok((list, stop)) && list@ == ranges && stop == end
                && pos <= end <= text.len(),
            Err(e) => read matches Err(error) && error == e,
        },
{
    let mut list: Vec<Range<u8>> = Vec::new();
    if pos >= text.len() || text[pos] < ZERO || text[pos] > NINE {
        return Ok((list, pos));
    }
    let mut at: usize = pos;
    proof {
        let all = parse_items(text@, pos as int);
        if all is Ok {
            assert(list@ + all->Ok_0.0 =~= all->Ok_0.0);
        }
    }
    loop
        invariant
            pos <= at <= text.len(),
            pos < text.len(),
            is_digit(text@[pos as int]),
            parse_items(text@, pos as int) == after_head(list@, parse_items(text@, at as int)),
        decreases text.len() - at,
    {
        let (range, after) = read_range(text, at)?;
        let ghost before = list@;
        list.push(range);
        if after < text.len() && text[after] == COMMA {
            proof {
                let tail = parse_items(text@, after + 1);
                if tail is Ok {
                    assert(before + (seq![range] + tail->Ok_0.0) =~= list@ + tail->Ok_0.0);
                }
            }
            at = after + 1;
        } else {
            assert(before + seq![range] =~= list@);
            return Ok((list, after));
        }
    }
}

/// Reads the letter of the neighbourhood at `pos`.
fn read_neighbors(text: &[u8], pos: usize) -> (read: Result<(Neighbors, usize), RuleError>)
    requires
        pos <= text.len(),
    ensures
        match parse_neighbors(text@, pos as int) {
            Ok((n, end)) => read == Ok::<(Neighbors, usize), RuleError>((n, end as usize)) && end
                <= text.len(),
            Err(e) => read == Err::<(Neighbors, usize), RuleError>(e),
        },
{
    if pos < text.len() && text[pos] == MOORE {
        Ok((Neighbors::Moore, pos + 1))
    } else if pos < text.len() && text[pos] == NEUMANN {
        Ok((Neighbors::Neumann, pos + 1))
    } else {
        Err(RuleError::Syntax { position: pos, expected: Token::Topology })
    }
}

/// Passes the slash at `pos`.
fn read_slash(text: &[u8], pos: usize) -> (read: Result<usize, RuleError>)
    requires
        pos <= text.len(),
    ensures
        match parse_slash(text@, pos as int) {
            Ok(next) => read == Ok::<usize, RuleError>(next as usize) && next <= text.len(),
            Err(e) => read == Err::<usize, RuleError>(e),
        },
{
    if pos < text.len() && text[pos] == SLASH {
        Ok(pos + 1)
    } else {
        Err(RuleError::Syntax { position: pos, expected: Token::Slash })
    }
}

/// Reads a rule from the whole of `text`.
fn read_rule(text: &[u8]) -> (read: Result<Rule, RuleError>)
    ensures
        parsed(read) == parse_rule(text@),
{
    let (survival, after_survival) = read_ranges(text, 0)?;
    let at_birth = read_slash(text, after_survival)?;
    let (birth, after_birth) = read_ranges(text, at_birth)?;
    let at_states = read_slash(text, after_birth)?;
    let (states, after_states) = read_count(text, at_states)?;
    let at_letter = read_slash(text, after_states)?;
    let (neighbors, end) = read_neighbors(text, at_letter)?;
    if end != text.len() {
        return Err(RuleError::Syntax { position: end, expected: Token::End });
    }
    if states < 2 {
        return Err(RuleError::TooFewStates { states });
    }
    Ok(Rule { survival, birth, states, neighbors })
}

impl Rule {
    /// Reads a rule from its text.
    ///
    /// The text is read as a rule if and only if it writes that rule and
    /// the rule has two states or more. Any other text is turned down for
    /// the first byte that breaks the grammar, or for its number of states
    /// if it keeps to the grammar.
    pub fn parse(text: &[u8]) -> (read: Result<Rule, RuleError>)
        ensures
            parsed(read) == parse_rule(text@),
            read matches Ok(rule) ==> writes_rule(text@, rule@) && rule@.valid(),
            forall|rule: RuleView|
                writes_rule(text@, rule) && rule.valid() ==> parsed(read) == Ok::<
                    RuleView,
                    RuleError,
                >(rule),
            read matches Err(e) ==> tells(text@, e),
    {
        let read = read_rule(text);
        proof {
            assert(text@.len() == text.len());
            if read is Ok {
                lemma_read_is_written(text@);
            } else {
                lemma_error_tells(text@);
            }
            assert forall|rule: RuleView| writes_rule(text@, rule) && rule.valid() implies parsed(
                read,
            ) == Ok::<RuleView, RuleError>(rule) by {
                lemma_written_is_read(text@, rule);
            }
        }
        read
    }
}

impl std::str::FromStr for Rule {
    type Err = RuleError;

    /// Reads a rule from its text, taken as the bytes of its encoding in
    /// UTF-8.
    fn from_str(s: &str) -> (read: Result<Rule, RuleError>)
        ensures
            parsed(read) == parse_rule(encode_utf8(s@)),
            read matches Ok(rule) ==> writes_rule(encode_utf8(s@), rule@) && rule@.valid(),
    {
        Rule::parse(s.as_bytes())
    }
}

} // verus!
