use generations3d::rule::{rule_contains, Neighbors, Rule, RuleError, Token};

#[test]
fn parse_rule() {
    let input = "4/4/5/M";
    let rule = Rule::parse(input.as_bytes()).unwrap();
    assert_eq!(
        rule,
        Rule {
            survival: vec![4..5],
            birth: vec![4..5],
            states: 5,
            neighbors: Neighbors::Moore
        }
    );
    let input = "9-26/5-7,12-13,15/5/M";
    let rule = Rule::parse(input.as_bytes()).unwrap();
    assert_eq!(
        rule,
        Rule {
            survival: vec![9..27],
            birth: vec![5..8, 12..14, 15..16],
            states: 5,
            neighbors: Neighbors::Moore
        }
    );
}

#[test]
fn parse_through_from_str() {
    let rule: Rule = "4-5/4/6/N".parse().unwrap();
    assert_eq!(
        rule,
        Rule {
            survival: vec![4..6],
            birth: vec![4..5],
            states: 6,
            neighbors: Neighbors::Neumann
        }
    );
    assert_eq!(
        "4/4/5/Ω".parse::<Rule>(),
        Err(RuleError::Syntax { position: 6, expected: Token::Topology })
    );
}

#[test]
fn lists_may_be_empty() {
    assert_eq!(
        Rule::parse(b"//2/N"),
        Ok(Rule {
            survival: vec![],
            birth: vec![],
            states: 2,
            neighbors: Neighbors::Neumann
        })
    );
    assert_eq!(
        Rule::parse(b"/0/255/M"),
        Ok(Rule {
            survival: vec![],
            birth: vec![0..1],
            states: 255,
            neighbors: Neighbors::Moore
        })
    );
}

#[test]
fn pairs_keep_their_counts_as_written() {
    assert_eq!(
        Rule::parse(b"5-3,4-4,0-254/255-0/3/N"),
        Ok(Rule {
            survival: vec![5..4, 4..5, 0..255],
            birth: vec![255..1],
            states: 3,
            neighbors: Neighbors::Neumann
        })
    );
}

fn syntax(position: usize, expected: Token) -> Result<Rule, RuleError> {
    Err(RuleError::Syntax { position, expected })
}

#[test]
fn missing_digits_are_reported_where_they_are_missing() {
    assert_eq!(Rule::parse(b"4,/4/5/M"), syntax(2, Token::Digit));
    assert_eq!(Rule::parse(b"4-/4/5/M"), syntax(2, Token::Digit));
    assert_eq!(Rule::parse(b"4-5,x/4/5/M"), syntax(4, Token::Digit));
    assert_eq!(Rule::parse(b"4/4//M"), syntax(4, Token::Digit));
    assert_eq!(Rule::parse(b"4/4/"), syntax(4, Token::Digit));
    assert_eq!(Rule::parse(b"4/4/M"), syntax(4, Token::Digit));
    assert_eq!(Rule::parse(b"4/3,"), syntax(4, Token::Digit));
}

#[test]
fn missing_slashes_are_reported_where_they_are_missing() {
    assert_eq!(Rule::parse(b""), syntax(0, Token::Slash));
    assert_eq!(Rule::parse(b"x/4/5/M"), syntax(0, Token::Slash));
    assert_eq!(Rule::parse(b" 4/4/5/M"), syntax(0, Token::Slash));
    assert_eq!(Rule::parse(b"-4/4/5/M"), syntax(0, Token::Slash));
    assert_eq!(Rule::parse(b"4 /4/5/M"), syntax(1, Token::Slash));
    assert_eq!(Rule::parse(b"04/4/5/M"), syntax(1, Token::Slash));
    assert_eq!(Rule::parse(b"4-5-6/4/5/M"), syntax(3, Token::Slash));
    assert_eq!(Rule::parse(b"4"), syntax(1, Token::Slash));
    assert_eq!(Rule::parse(b"4/4"), syntax(3, Token::Slash));
    assert_eq!(Rule::parse(b"4/4/5"), syntax(5, Token::Slash));
    assert_eq!(Rule::parse(b"4/4/5M"), syntax(5, Token::Slash));
    assert_eq!(Rule::parse(b"4/4/5,6/M"), syntax(5, Token::Slash));
}

#[test]
fn unknown_neighbors_are_reported() {
    assert_eq!(Rule::parse(b"4/4/5/"), syntax(6, Token::Topology));
    assert_eq!(Rule::parse(b"4/4/5/X"), syntax(6, Token::Topology));
    assert_eq!(Rule::parse(b"4/4/5/m"), syntax(6, Token::Topology));
    assert_eq!(Rule::parse(b"4/4/5//M"), syntax(6, Token::Topology));
    assert_eq!(Rule::parse(b"9-26/5-7,12-13,15/5/V"), syntax(20, Token::Topology));
}

#[test]
fn anything_after_the_neighbors_is_reported() {
    assert_eq!(Rule::parse(b"4/4/5/M/7"), syntax(7, Token::End));
    assert_eq!(Rule::parse(b"4/4/5/MN"), syntax(7, Token::End));
    assert_eq!(Rule::parse(b"4/4/5/M "), syntax(7, Token::End));
    assert_eq!(Rule::parse(b"4/4/5/M\n"), syntax(7, Token::End));
}

#[test]
fn counts_that_do_not_fit_are_reported() {
    assert_eq!(Rule::parse(b"256/4/5/M"), Err(RuleError::CountTooLarge { position: 0 }));
    assert_eq!(Rule::parse(b"4,99999999999999999999999/4/5/M"), Err(RuleError::CountTooLarge { position: 2 }));
    assert_eq!(Rule::parse(b"255/4/5/M"), Err(RuleError::CountTooLarge { position: 0 }));
    assert_eq!(Rule::parse(b"254/4/5/M").unwrap().survival, vec![254..255]);
    assert_eq!(Rule::parse(b"1-255/4/5/M"), Err(RuleError::CountTooLarge { position: 2 }));
    assert_eq!(Rule::parse(b"4/3-300/5/M"), Err(RuleError::CountTooLarge { position: 4 }));
    assert_eq!(Rule::parse(b"4/4/256/M"), Err(RuleError::CountTooLarge { position: 4 }));
    // the count is looked at before what follows it
    assert_eq!(Rule::parse(b"4/4/1000"), Err(RuleError::CountTooLarge { position: 4 }));
}

#[test]
fn fewer_than_two_states_are_reported() {
    assert_eq!(Rule::parse(b"4/4/0/M"), Err(RuleError::TooFewStates { states: 0 }));
    assert_eq!(Rule::parse(b"4/4/1/N"), Err(RuleError::TooFewStates { states: 1 }));
    assert_eq!(Rule::parse(b"4/4/2/N").unwrap().states, 2);
    // the grammar comes first
    assert_eq!(Rule::parse(b"4/4/1/Q"), syntax(6, Token::Topology));
    assert_eq!(Rule::parse(b"4/4/1/M!"), syntax(7, Token::End));
}

#[test]
fn validate_asks_for_two_states() {
    let mut rule = Rule {
        survival: vec![4..5],
        birth: vec![4..5],
        states: 2,
        neighbors: Neighbors::Moore,
    };
    assert_eq!(rule.validate(), Ok(()));
    rule.states = 1;
    assert_eq!(rule.validate(), Err(RuleError::TooFewStates { states: 1 }));
    rule.states = 0;
    assert_eq!(rule.validate(), Err(RuleError::TooFewStates { states: 0 }));
    rule.states = 255;
    assert_eq!(rule.validate(), Ok(()));
}

#[test]
fn text_of_a_rule() {
    let rule = Rule {
        survival: vec![9..27],
        birth: vec![5..8, 12..14, 15..16],
        states: 5,
        neighbors: Neighbors::Moore,
    };
    assert_eq!(rule.to_text(), Some(String::from("9-26/5-7,12-13,15/5/M")));
    let rule = Rule {
        survival: vec![],
        birth: vec![0..1, 0..255, 100..110, 10..100],
        states: 255,
        neighbors: Neighbors::Neumann,
    };
    assert_eq!(rule.to_text(), Some(String::from("/0,0-254,100-109,10-99/255/N")));
    let rule = Rule {
        survival: vec![5..4, 7..7, 255..1, 255..255],
        birth: vec![],
        states: 0,
        neighbors: Neighbors::Neumann,
    };
    assert_eq!(rule.to_text(), Some(String::from("5-3,7-6,255-0,255-254//0/N")));
}

#[test]
fn a_range_that_ends_at_zero_has_no_text() {
    let rule = Rule {
        survival: vec![4..5, 3..0],
        birth: vec![4..5],
        states: 5,
        neighbors: Neighbors::Moore,
    };
    assert_eq!(rule.to_text(), None);
    let rule = Rule {
        survival: vec![4..5],
        birth: vec![0..0],
        states: 5,
        neighbors: Neighbors::Moore,
    };
    assert_eq!(rule.to_text(), None);
}

#[test]
fn what_was_read_is_written_and_read_again() {
    for input in [
        "4/4/5/M",
        "9-26/5-7,12-13,15/5/M",
        "4-5/4/6/N",
        "//2/N",
        "5-3,4-4,0-254/255-0/3/N",
        "0,1,2,3,4,5,6/0-0,1-1/100/M",
        "2,6,9/4,6,8-9/10/M",
    ] {
        let rule: Rule = input.parse().unwrap();
        let text = rule.to_text().unwrap();
        let again: Rule = text.parse().unwrap();
        assert_eq!(again, rule);
        assert_eq!(again.to_text(), Some(text));
    }
    let rule: Rule = "4-4,5-6/7/5/N".parse().unwrap();
    assert_eq!(rule.to_text(), Some(String::from("4,5-6/7/5/N")));
}

#[test]
fn what_was_written_is_read_back() {
    for states in [2u8, 9, 10, 99, 100, 199, 200, 255] {
        for lo in [0u8, 1, 9, 10, 26, 99, 100, 254, 255] {
            for end in [1u8, 2, 10, 11, 27, 100, 101, 255] {
                let rule = Rule {
                    survival: vec![lo..end],
                    birth: vec![lo..end, 0..1],
                    states,
                    neighbors: Neighbors::Neumann,
                };
                let text = rule.to_text().unwrap();
                assert_eq!(Rule::parse(text.as_bytes()), Ok(rule));
            }
        }
    }
}

#[test]
fn counts_pass_where_a_range_holds_them() {
    let rule: Rule = "9-26/5-7,12-13,15/5/M".parse().unwrap();
    for count in 0..40usize {
        assert_eq!(rule.passes_survive(count), (9..=26).contains(&count));
        assert_eq!(
            rule.passes_birth(count),
            (5..=7).contains(&count) || (12..=13).contains(&count) || count == 15
        );
    }
    assert!(rule_contains(13, &[5..8, 12..14, 15..16]));
    assert!(!rule_contains(14, &[5..8, 12..14, 15..16]));
    assert!(!rule_contains(3, &[5..3, 3..3]));
    assert!(!rule_contains(0, &[]));
}
