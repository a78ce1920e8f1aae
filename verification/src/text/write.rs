//! Writing a rule as text.

use crate::rule::Neighbors;
use crate::rule::Rule;
use crate::rule::RuleError;
use crate::rule::RuleView;
use crate::text::grammar::as_chars;
use crate::text::grammar::count_text;
use crate::text::grammar::digit_byte;
use crate::text::grammar::has_text;
use crate::text::grammar::neighbors_byte;
use crate::text::grammar::parse_rule;
use crate::text::grammar::joined;
use crate::text::grammar::range_text;
use crate::text::grammar::range_texts;
use crate::text::grammar::ranges_text;
use crate::text::grammar::rule_text;
use crate::text::grammar::writable;
use crate::text::grammar::writes_rule;
use crate::text::laws::lemma_parse_rule_text;
use crate::text::laws::lemma_rule_text_ascii;
use crate::text::laws::lemma_rule_text_writes;
use crate::text::grammar::COMMA;
use crate::text::grammar::DASH;
use crate::text::grammar::SLASH;
use std::ops::Range;
use vstd::prelude::*;
use vstd::string::StringExecFns;
use vstd::utf8::encode_utf8;

verus! {

/// The text of a sequence of bytes is the texts of its parts, one after the
/// other.
proof fn lemma_as_chars_add(a: Seq<u8>, b: Seq<u8>)
    ensures
        as_chars(a + b) == as_chars(a) + as_chars(b),
{
    assert(as_chars(a + b) =~= as_chars(a) + as_chars(b));
}

/// The digit `d` as text.
fn digit_str(d: u8) -> (s: &'static str)
    requires
        d < 10,
    ensures
        s@ == as_chars(seq![digit_byte(d as int)]),
{
    proof {
        reveal_strlit("0");
        reveal_strlit("1");
        reveal_strlit("2");
        reveal_strlit("3");
        reveal_strlit("4");
        reveal_strlit("5");
        reveal_strlit("6");
        reveal_strlit("7");
        reveal_strlit("8");
        reveal_strlit("9");
    }
    let s = match d {
        0 => "0",
        1 => "1",
        2 => "2",
        3 => "3",
        4 => "4",
        5 => "5",
        6 => "6",
        7 => "7",
        8 => "8",
        _ => "9",
    };
    assert(s@ =~= as_chars(seq![digit_byte(d as int)]));
    s
}

/// Writes the digits of `n` at the end of `out`.
fn write_count(out: &mut String, n: u8)
    ensures
        final(out)@ == old(out)@ + as_chars(count_text(n as nat)),
{
    proof {
        reveal_with_fuel(count_text, 3);
    }
    if n >= 100 {
        out.append(digit_str(n / 100));
    }
    if n >= 10 {
        out.append(digit_str((n / 10) % 10));
    }
    out.append(digit_str(n % 10));
    assert(out@ =~= old(out)@ + as_chars(count_text(n as nat)));
}

/// Writes the item that stands for the counts of `range` at the end of
/// `out`.
fn write_range(out: &mut String, range: &Range<u8>)
    requires
        range.end >= 1,
    ensures
        final(out)@ == old(out)@ + as_chars(range_text(*range)),
{
    write_count(out, range.start);
    if range.start == u8::MAX || range.end != range.start + 1 {
        proof {
            reveal_strlit("-");
            lemma_as_chars_add(count_text(range.start as nat), seq![DASH]);
            lemma_as_chars_add(
                count_text(range.start as nat) + seq![DASH],
                count_text((range.end - 1) as nat),
            );
            assert("-"@ =~= as_chars(seq![DASH]));
        }
        out.append("-");
        write_count(out, range.end - 1);
        assert(out@ =~= old(out)@ + as_chars(range_text(*range)));
    }
}

/// Texts with one more text at their end are joined as the texts, a comma
/// if there were any, and that text.
proof fn lemma_joined_push(items: Seq<Seq<u8>>, last: Seq<u8>)
    ensures
        joined(items.push(last)) == if items.len() == 0 {
            last
        } else {
            joined(items) + seq![COMMA] + last
        },
    decreases items.len(),
{
    let longer = items.push(last);
    if items.len() > 0 {
        assert(longer.drop_first() == items.drop_first().push(last));
        lemma_joined_push(items.drop_first(), last);
        assert(joined(longer) =~= joined(items) + seq![COMMA] + last);
    }
}

/// Writes the list `ranges` at the end of `out`.
fn write_ranges(out: &mut String, ranges: &Vec<Range<u8>>)
    requires
        writable(ranges@),
    ensures
        final(out)@ == old(out)@ + as_chars(ranges_text(ranges@)),
{
    let mut i: usize = 0;
    assert(out@ =~= old(out)@ + as_chars(ranges_text(ranges@.take(0))));
    while i < ranges.len()
        invariant
            i <= ranges.len(),
            writable(ranges@),
            out@ == old(out)@ + as_chars(ranges_text(ranges@.take(i as int))),
        decreases ranges.len() - i,
    {
        let ghost written = ranges_text(ranges@.take(i as int));
        proof {
            assert(range_texts(ranges@.take(i + 1)) == range_texts(ranges@.take(i as int)).push(
                range_text(ranges@[i as int]),
            ));
            lemma_joined_push(range_texts(ranges@.take(i as int)), range_text(ranges@[i as int]));
            reveal_strlit(",");
            assert(","@ =~= as_chars(seq![COMMA]));
            lemma_as_chars_add(written, seq![COMMA]);
            lemma_as_chars_add(written + seq![COMMA], range_text(ranges@[i as int]));
        }
        if i > 0 {
            out.append(",");
        }
        write_range(out, &ranges[i]);
        assert(out@ =~= old(out)@ + as_chars(ranges_text(ranges@.take(i + 1))));
        i += 1;
    }
    assert(ranges@.take(i as int) == ranges@);
}

/// Whether every range of `ranges` can be written as an item.
fn all_writable(ranges: &Vec<Range<u8>>) -> (all: bool)
    ensures
        all == writable(ranges@),
{
    let mut i: usize = 0;
    while i < ranges.len()
        invariant
            i <= ranges.len(),
            forall|j: int| 0 <= j < i ==> (#[trigger] ranges@[j]).end >= 1,
        decreases ranges.len() - i,
    {
        if ranges[i].end == 0 {
            return false;
        }
        i += 1;
    }
    true
}

impl Rule {
    /// The text of the rule, if it has one: a range that ends at 0 stands
    /// for no counts that an item could name.
    ///
    /// The text is read back as the rule, if the rule has two states or
    /// more.
    pub fn to_text(&self) -> (text: Option<String>)
        ensures
            has_text(self@) ==> (text matches Some(t) && t@ == as_chars(rule_text(self@))),
            !has_text(self@) ==> text is None,
            text matches Some(t) ==> encode_utf8(t@) == rule_text(self@) && writes_rule(
                rule_text(self@),
                self@,
            ),
            text matches Some(t) ==> (self@.valid() ==> parse_rule(encode_utf8(t@)) == Ok::<
                RuleView,
                RuleError,
            >(self@)),
    {
        if !all_writable(&self.survival) || !all_writable(&self.birth) {
            return None;
        }
        let mut out = String::new();
        write_ranges(&mut out, &self.survival);
        out.append("/");
        write_ranges(&mut out, &self.birth);
        out.append("/");
        write_count(&mut out, self.states);
        out.append("/");
        match self.neighbors {
            Neighbors::Moore => out.append("M"),
            Neighbors::Neumann => out.append("N"),
        }
        proof {
            reveal_strlit("/");
            reveal_strlit("M");
            reveal_strlit("N");
            let a = ranges_text(self@.survival);
            let b = ranges_text(self@.birth);
            let c = count_text(self.states as nat);
            let n = neighbors_byte(self.neighbors);
            assert(out@ =~= as_chars(a) + as_chars(seq![SLASH]) + as_chars(b) + as_chars(
                seq![SLASH],
            ) + as_chars(c) + as_chars(seq![SLASH]) + as_chars(seq![n]));
            assert(as_chars(rule_text(self@)) =~= as_chars(a) + as_chars(seq![SLASH]) + as_chars(
                b,
            ) + as_chars(seq![SLASH]) + as_chars(c) + as_chars(seq![SLASH]) + as_chars(seq![n]));
            lemma_rule_text_ascii(self@);
            lemma_rule_text_writes(self@);
            if self@.valid() {
                lemma_parse_rule_text(self@);
            }
        }
        Some(out)
    }
}

} // verus!
