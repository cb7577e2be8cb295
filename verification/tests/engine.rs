use dice_engine::error::{ErrorKind, RollError};
use dice_engine::evaluate::Evaluation;
use dice_engine::limits::{Limits, MAX_DICE_SIDES, MAX_ROLLED_DICE};
use dice_engine::rolls::dice::DiceRoll;
use dice_engine::rolls::options::{Explode, Options};
use dice_engine::rolls::{
    evaluate_vals, integer_of_evaluation, is_single_simple_roll, roll_expression,
    roll_expression_value, roll_expression_value_with, roll_expression_with, roll_expressions,
    roll_expressions_with, text_of_evaluation, text_of_single_roll,
};
use dice_engine::source::{DrawSource, RandomSource, ScriptedSource};

fn test_rng() -> RandomSource {
    RandomSource::from_seed([0; 32])
}

fn texts(msg: &str) -> (String, String) {
    let (_, dice, vals) = roll_expressions(msg, &mut test_rng()).unwrap();
    (dice, vals)
}

#[test]
fn dice_roll_from_str() {
    assert_eq!(
        DiceRoll::from_str("1d1", &mut RandomSource::from_entropy()).unwrap(),
        DiceRoll {
            options: Options {
                number_of_dice: 1,
                dice_sides: vec![1],
                explode: None,
                min: None,
                max: None
            },
            rolls: vec![1]
        }
    );
}

#[test]
fn roll_expression_simple() {
    assert_eq!(texts("(1d1+1d1)"), ("([1]+[1])".to_string(), "(1+1)".to_string()));
    assert_eq!(texts("(1d1 + 1d1)"), ("([1] + [1])".to_string(), "(1 + 1)".to_string()));
    assert_eq!(
        texts("(5d11<5)"),
        ("([~~8~~, ~~7~~, 2, ~~9~~, ~~6~~])".to_string(), "(2)".to_string())
    );
}

#[test]
fn roll_expression_exploded() {
    assert_eq!(
        texts("11d3!"),
        (
            "[3, 2, 3, 1, 3, 1, 3, 3, 2, 2, 1, 1, 1, 2, 2, 3, 2]".to_string(),
            "35".to_string()
        )
    );
}

#[test]
fn roll_expression_compounded() {
    assert_eq!(
        texts("11d3!!"),
        ("[5, 4, 4, 8, 2, 1, 1, 1, 2, 2, 5]".to_string(), "35".to_string())
    );
}

#[test]
fn roll_negative() {
    assert!(roll_expression("-1d-1").is_err());
}

#[test]
fn roll_oversized_sides() {
    assert!(roll_expression("2d4294967295").is_err());
}

#[test]
fn roll_oversized_dice() {
    assert!(roll_expression("4294967295d2").is_err());
}

#[test]
fn roll_oversized_result() {
    assert!(roll_expression("999999999d999999999").is_err());
}

#[test]
fn roll_oversized_unparseable() {
    {
        let roll = roll_expression("999999999999999999d1");
        assert!(roll.is_err(), "{:?}", roll);
    }
    {
        let roll = roll_expression("1d999999999999999999999999");
        assert!(roll.is_err(), "{:?}", roll);
    }
}

#[test]
fn roll_barely_acceptably_sized() {
    {
        let roll = roll_expression(&format!("{}d1", MAX_ROLLED_DICE - 1));
        assert!(roll.is_ok(), "{:?}", roll);
    }
    {
        let roll = roll_expression(&format!("1d{}", MAX_DICE_SIDES - 1));
        assert!(roll.is_ok(), "{:?}", roll);
    }
    {
        let roll = roll_expression(&format!("{}d{}", MAX_ROLLED_DICE - 1, MAX_DICE_SIDES - 1));
        assert!(roll.is_ok(), "{:?}", roll);
    }
}

fn scripted(draws: &[u32]) -> ScriptedSource {
    ScriptedSource::new(draws.to_vec())
}

fn plain(count: i32, sides: i32) -> Options {
    Options {
        number_of_dice: count,
        dice_sides: (1..=sides).collect(),
        explode: None,
        min: None,
        max: None,
    }
}

#[test]
fn simple_expression_is_evaluated() {
    assert_eq!(
        roll_expression_with("(1d1+1d1)", &Limits::standard(), &mut test_rng()),
        Ok("([1]+[1]) => **2**".to_string())
    );
    assert_eq!(roll_expression("(1d1+1d1)"), Ok("([1]+[1]) => **2**".to_string()));
    assert_eq!(roll_expression_value("(1d1+1d1)"), Ok(2));
}

#[test]
fn one_plain_die_is_answered_directly() {
    assert_eq!(roll_expression("1d1"), Ok("**1**".to_string()));
    assert_eq!(roll_expression("-1d1"), Ok("**-1**".to_string()));
    assert_eq!(roll_expression("+1d1"), Ok("**+1**".to_string()));
    let mut source = scripted(&[4]);
    assert_eq!(
        roll_expression_with("1d6", &Limits::standard(), &mut source),
        Ok("**5**".to_string())
    );
}

#[test]
fn bounded_or_exploding_single_die_is_evaluated() {
    assert_eq!(roll_expression("1d1<5"), Ok("[1] => **1**".to_string()));
    assert_eq!(roll_expression("1d1>5"), Ok("[~~1~~] => **0**".to_string()));
    assert_eq!(roll_expression("2d1"), Ok("[1, 1] => **2**".to_string()));
    assert_eq!(roll_expression(" 1d1"), Ok(" [1] => **1**".to_string()));
    let mut source = scripted(&[0]);
    assert_eq!(
        roll_expression_with("1d6!", &Limits::standard(), &mut source),
        Ok("[1] => **1**".to_string())
    );
}

#[test]
fn arithmetic_around_the_dice() {
    assert_eq!(roll_expression("(3d1*2)+1d1"), Ok("([1, 1, 1]*2)+[1] => **7**".to_string()));
    assert_eq!(roll_expression("3d1/2"), Ok("[1, 1, 1]/2 => **1.5**".to_string()));
    assert_eq!(roll_expression_value("3d1/2"), Ok(1));
    assert_eq!(roll_expression_value("0-3d1/2"), Ok(-1));
    assert_eq!(roll_expression("2 + 2"), Ok("2 + 2 => **4**".to_string()));
    assert_eq!(roll_expression("1d1/0"), Ok("[1]/0 => **inf**".to_string()));
}

#[test]
fn fudge_dice_have_three_faces() {
    let mut source = scripted(&[0, 1, 2, 0]);
    let (rolls, dice, vals) = roll_expressions("4dF", &mut source).unwrap();
    assert_eq!(rolls[0].rolls, vec![-3, 0, 3, -3]);
    assert_eq!(dice, "[-3, 0, 3, -3]");
    assert_eq!(vals, "-3");
}

#[test]
fn exploding_dice_roll_extra_dice() {
    // 2d3!: 3, 1, then the extra die for the 3: 3, then its extra die: 2.
    let mut source = scripted(&[2, 0, 2, 1]);
    let roll = DiceRoll::from_str("2d3!", &mut source).unwrap();
    assert_eq!(roll.rolls, vec![3, 1, 3, 2]);
    assert_eq!(roll.options.explode, Some(Explode::Standard));
    assert_eq!(roll.val(), Ok(9));
}

#[test]
fn compounding_dice_add_up() {
    // 2d3!!: the first die shows 3, 3, 1 and the second 2.
    let mut source = scripted(&[2, 2, 0, 1]);
    let roll = DiceRoll::from_str("2d3!!", &mut source).unwrap();
    assert_eq!(roll.rolls, vec![7, 2]);
    assert_eq!(roll.dice(), "[7, 2]");
}

#[test]
fn a_plain_roll_ignores_the_highest_face() {
    let mut source = scripted(&[2, 2, 0]);
    let roll = DiceRoll::roll(plain(3, 3), &Limits::standard(), &mut source).unwrap();
    assert_eq!(roll.rolls, vec![3, 3, 1]);
}

#[test]
fn bounds_strike_totals_out() {
    let mut source = scripted(&[0, 4, 9, 5]);
    let roll = DiceRoll::from_str("4d10>1<10", &mut source).unwrap();
    assert_eq!(roll.rolls, vec![1, 5, 10, 6]);
    assert!(!roll.check_dice(1));
    assert!(roll.check_dice(2));
    assert!(roll.check_dice(9));
    assert!(!roll.check_dice(10));
    assert_eq!(roll.dice(), "[~~1~~, 5, ~~10~~, 6]");
    assert_eq!(roll.val(), Ok(11));
}

#[test]
fn an_empty_roll_is_shown_empty() {
    let roll = DiceRoll { options: plain(0, 6), rolls: vec![] };
    assert_eq!(roll.dice(), "[]");
    assert_eq!(roll.val(), Ok(0));
}

#[test]
fn a_die_that_never_stops_is_stopped() {
    assert_eq!(roll_expression("1d1!"), Err(RollError::TooManyDraws { limit: 100_000 }));
    assert_eq!(roll_expression("1d1!!"), Err(RollError::TooManyDraws { limit: 100_000 }));
    let limits = Limits { max_draws: 3, ..Limits::standard() };
    let mut source = scripted(&[0, 0, 0, 0, 0]);
    assert_eq!(
        DiceRoll::from_str_with("3d6", &limits, &mut source).map(|roll| roll.rolls),
        Ok(vec![1, 1, 1])
    );
    assert_eq!(
        DiceRoll::from_str_with("4d6", &limits, &mut source),
        Err(RollError::TooManyDraws { limit: 3 })
    );
}

#[test]
fn compounding_overflow_is_an_error() {
    let options = Options {
        number_of_dice: 1,
        dice_sides: vec![i32::MAX],
        explode: Some(Explode::Compounding),
        min: None,
        max: None,
    };
    let mut source = scripted(&[]);
    assert_eq!(DiceRoll::roll(options, &Limits::standard(), &mut source), Err(RollError::Overflow));
}

#[test]
fn a_die_without_sides_cannot_be_rolled() {
    let options =
        Options { number_of_dice: 1, dice_sides: vec![], explode: None, min: None, max: None };
    let mut source = scripted(&[]);
    assert_eq!(DiceRoll::roll(options, &Limits::standard(), &mut source), Err(RollError::NoSides));
}

#[test]
fn sum_overflow_is_an_error() {
    let roll = DiceRoll { options: plain(2, 1), rolls: vec![i32::MAX, 1] };
    assert_eq!(roll.val(), Err(RollError::Overflow));
    assert_eq!(RollError::Overflow.kind(), ErrorKind::Overflow);
    // An overflow on the way counts even if the sum would come back.
    let roll = DiceRoll { options: plain(3, 1), rolls: vec![i32::MAX, 1, -5] };
    assert_eq!(roll.val(), Err(RollError::Overflow));
    // A total that is struck out is not added.
    let mut options = plain(2, 1);
    options.max = Some(10);
    let roll = DiceRoll { options, rolls: vec![i32::MAX, 1] };
    assert_eq!(roll.val(), Ok(1));
}

#[test]
fn the_first_failing_term_decides() {
    assert_eq!(roll_expression("1d6x+0d6"), Err(RollError::UnknownToken("x".to_string())));
    assert_eq!(roll_expression("0d6+1d6x"), Err(RollError::NoDice));
    assert_eq!(roll_expression("1d1+2d"), Err(RollError::Malformed("1+2d".to_string())));
}

#[test]
fn failures_have_their_kind() {
    let kind = |text: &str| roll_expression(text).map_err(|error| error.kind());
    assert_eq!(kind(""), Err(ErrorKind::Parse));
    assert_eq!(kind(" \t"), Err(ErrorKind::Parse));
    assert_eq!(kind("-1d-1"), Err(ErrorKind::Parse));
    assert_eq!(kind("1dx"), Err(ErrorKind::Parse));
    assert_eq!(kind("hello"), Err(ErrorKind::Parse));
    assert_eq!(kind("2d4294967295"), Err(ErrorKind::Range));
    assert_eq!(kind("4294967295d2"), Err(ErrorKind::Range));
    assert_eq!(kind("0d6"), Err(ErrorKind::Range));
    assert_eq!(kind("1d0"), Err(ErrorKind::Range));
    assert_eq!(kind("1d1!!"), Err(ErrorKind::Overflow));
    assert_eq!(kind("1d1+"), Err(ErrorKind::Evaluation));
    assert_eq!(kind("(1d1"), Err(ErrorKind::Evaluation));
    assert_eq!(roll_expression(""), Err(RollError::EmptyExpression));
    assert_eq!(roll_expression("1d1+"), Err(RollError::Evaluation("1+".to_string())));
    assert_eq!(roll_expression_value(""), Err(RollError::EmptyExpression));
    assert_eq!(roll_expression_value("1d1+"), Err(RollError::Evaluation("1+".to_string())));
}

#[test]
fn a_result_out_of_range_is_an_error() {
    assert_eq!(roll_expression_value("499d1*99999999"), Err(RollError::ResultRange));
    assert_eq!(roll_expression_value("1d1/0"), Err(RollError::ResultRange));
    assert_eq!(roll_expression_value("0/0"), Err(RollError::ResultRange));
    assert_eq!(roll_expression_value("1d1*2147483647"), Ok(i32::MAX));
    assert_eq!(roll_expression_value("0-1d1*2147483648"), Ok(i32::MIN));
    assert_eq!(roll_expression_value("1d1*2147483648"), Err(RollError::ResultRange));
    assert_eq!(roll_expression_value("1d1*2147483647.9"), Ok(i32::MAX));
    assert_eq!(RollError::ResultRange.kind(), ErrorKind::ResultRange);
}

#[test]
fn limits_are_exclusive() {
    assert!(roll_expression(&format!("{}d1", MAX_ROLLED_DICE)).is_err());
    assert!(roll_expression(&format!("1d{}", MAX_DICE_SIDES)).is_err());
    assert!(roll_expression(&format!("{}d{}", MAX_ROLLED_DICE, MAX_DICE_SIDES)).is_err());
    assert!(roll_expression(&format!("{}d{}", MAX_ROLLED_DICE - 1, MAX_DICE_SIDES - 1)).is_ok());
}

#[test]
fn limits_can_be_set() {
    let limits = Limits { max_rolled_dice: 3, max_dice_sides: 4, max_draws: 10 };
    let mut source = scripted(&[0, 1, 2]);
    assert_eq!(
        roll_expression_with("2d3", &limits, &mut source),
        Ok("[1, 2] => **3**".to_string())
    );
    assert_eq!(
        roll_expression_with("3d3", &limits, &mut source),
        Err(RollError::TooManyDice { limit: 3, found: "3".to_string() })
    );
    assert_eq!(
        roll_expression_with("2d4", &limits, &mut source),
        Err(RollError::TooManySides { limit: 4, found: "4".to_string() })
    );
    assert_eq!(
        roll_expression_value_with("2dF", &Limits { max_dice_sides: 3, ..limits }, &mut source),
        Err(RollError::TooManySides { limit: 3, found: "F".to_string() })
    );
    assert_eq!(Limits::default(), Limits::standard());
    assert_eq!(Limits::standard().max_rolled_dice, 500);
    assert_eq!(Limits::standard().max_dice_sides, 10_000);
}

#[test]
fn the_same_seed_gives_the_same_answer() {
    let text = "(3d6!+2d20!!>3) * 4d10<8 - 1dF";
    let first = roll_expressions(text, &mut RandomSource::from_seed([7; 32]));
    let second = roll_expressions(text, &mut RandomSource::from_seed([7; 32]));
    assert!(first.is_ok());
    assert_eq!(first, second);
    let first = roll_expression_with(text, &Limits::standard(), &mut RandomSource::from_seed([9; 32]));
    let second = roll_expression_with(text, &Limits::standard(), &mut RandomSource::from_seed([9; 32]));
    assert!(first.is_ok());
    assert_eq!(first, second);
}

#[test]
fn the_same_draws_give_the_same_answer() {
    let first = roll_expressions("2d6+1d4", &mut scripted(&[3, 5, 1, 9, 9]));
    let second = roll_expressions("2d6+1d4", &mut scripted(&[3, 5, 1]));
    assert_eq!(first, second);
    let (rolls, dice, vals) = first.unwrap();
    assert_eq!(rolls.len(), 2);
    assert_eq!(dice, "[4, 6]+[2]");
    assert_eq!(vals, "10+2");
}

#[test]
fn roll_lengths_follow_the_count() {
    for seed in 0..20u8 {
        let mut source = RandomSource::from_seed([seed; 32]);
        let plain = DiceRoll::from_str("20d4", &mut source).unwrap();
        assert_eq!(plain.rolls.len(), 20);
        let compounding = DiceRoll::from_str("20d4!!", &mut source).unwrap();
        assert_eq!(compounding.rolls.len(), 20);
        let exploding = DiceRoll::from_str("20d4!", &mut source).unwrap();
        let fours = exploding.rolls.iter().filter(|&&total| total == 4).count();
        assert_eq!(exploding.rolls.len(), 20 + fours);
    }
}

#[test]
fn unbounded_value_is_the_sum_of_all_totals() {
    let mut source = RandomSource::from_seed([3; 32]);
    let (rolls, dice, vals) = roll_expressions("12d20", &mut source).unwrap();
    let sum: i32 = rolls[0].rolls.iter().sum();
    assert_eq!(vals, sum.to_string());
    assert_eq!(dice, rolls[0].dice());
    assert!(!dice.contains('~'));
}

#[test]
fn looser_bounds_keep_more() {
    let roll = |min, max| DiceRoll {
        options: Options { number_of_dice: 1, dice_sides: vec![1], explode: None, min, max },
        rolls: vec![],
    };
    let tight = roll(Some(3), Some(8));
    for (min, max) in [(Some(3), Some(8)), (Some(2), Some(9)), (None, Some(8)), (Some(0), None), (None, None)] {
        let wide = roll(min, max);
        for total in -2..12 {
            if tight.check_dice(total) {
                assert!(wide.check_dice(total));
            }
        }
    }
}

#[test]
fn a_term_needs_a_lead_before_it() {
    // `*` and `/` end a term but lead none.
    assert_eq!(roll_expression("2*1d1"), Err(RollError::Malformed("2*1d1".to_string())));
    assert_eq!(roll_expression("2* 1d1"), Ok("2* [1] => **2**".to_string()));
    assert_eq!(roll_expression("x1d1"), Err(RollError::Malformed("x1d1".to_string())));
    // A term runs up to the next end, whatever it holds.
    assert_eq!(roll_expression("1d1x"), Err(RollError::UnknownToken("x".to_string())));
    assert_eq!(roll_expression("2d(1d6)"), Err(RollError::UnknownToken("d(".to_string())));
}

#[test]
fn terms_keep_what_stands_around_them() {
    let mut source = scripted(&[0, 0, 0, 0, 0, 0]);
    let (_, dice, vals) = roll_expressions("4 + (5d11 / 2)", &mut source).unwrap();
    assert_eq!(dice, "4 + ([1, 1, 1, 1, 1] / 2)");
    assert_eq!(vals, "4 + (5 / 2)");
    let (rolls, dice, vals) = roll_expressions("no dice here", &mut source).unwrap();
    assert!(rolls.is_empty());
    assert_eq!(dice, "no dice here");
    assert_eq!(vals, "no dice here");
}

#[test]
fn the_finishing_steps_take_any_evaluation() {
    let rolls = vec![DiceRoll { options: plain(1, 6), rolls: vec![4] }];
    assert!(is_single_simple_roll(&rolls, "4"));
    assert!(is_single_simple_roll(&rolls, "-4"));
    assert!(!is_single_simple_roll(&rolls, "4+1"));
    assert!(!is_single_simple_roll(&rolls, "99999999999"));
    assert!(!is_single_simple_roll(&vec![], "4"));
    let two = vec![DiceRoll { options: plain(2, 6), rolls: vec![4, 1] }];
    assert!(!is_single_simple_roll(&two, "5"));
    assert_eq!(text_of_single_roll("4"), "**4**");
    let evaluation = |text: &str, integer| Some(Evaluation { text: text.to_string(), integer });
    assert_eq!(
        text_of_evaluation("[4]+1", "4+1".to_string(), evaluation("5", Some(5))),
        Ok("[4]+1 => **5**".to_string())
    );
    assert_eq!(
        text_of_evaluation("[4]+", "4+".to_string(), None),
        Err(RollError::Evaluation("4+".to_string()))
    );
    assert_eq!(integer_of_evaluation("4+1".to_string(), evaluation("5", Some(5))), Ok(5));
    assert_eq!(
        integer_of_evaluation("4e99".to_string(), evaluation("4e99", None)),
        Err(RollError::ResultRange)
    );
    assert_eq!(
        integer_of_evaluation("4+".to_string(), None),
        Err(RollError::Evaluation("4+".to_string()))
    );
}

#[test]
fn the_evaluator_is_asked_for_plain_arithmetic_only() {
    assert_eq!(
        evaluate_vals("1+2*3"),
        Ok(Some(Evaluation { text: "7".to_string(), integer: Some(7) }))
    );
    assert_eq!(
        evaluate_vals("-(1.5)"),
        Ok(Some(Evaluation { text: "-1.5".to_string(), integer: Some(-1) }))
    );
    assert_eq!(evaluate_vals("1+"), Ok(None));
    assert_eq!(evaluate_vals(" \n"), Err(RollError::EmptyExpression));
    assert_eq!(evaluate_vals("sin(1)"), Err(RollError::Malformed("sin(1)".to_string())));
    assert_eq!(evaluate_vals("2^3"), Err(RollError::Malformed("2^3".to_string())));
}

#[test]
fn a_source_records_nothing_it_does_not_draw() {
    let mut source = scripted(&[7, 8]);
    assert_eq!(source.draw(5), 2);
    assert_eq!(source.draw(5), 3);
    assert_eq!(source.draw(5), 0);
    let mut random = RandomSource::from_seed([1; 32]);
    for bound in 1..50u32 {
        assert!(random.draw(bound) < bound);
    }
    assert!(roll_expressions_with("1d6", &Limits::standard(), &mut random).is_ok());
}

#[test]
fn plain_arithmetic_never_stops_the_evaluator() {
    let alphabet = ['1', '0', '.', '+', '-', '*', '/', '(', ')', ' ', '\t', '\n'];
    let mut level: Vec<String> = vec![String::new()];
    let mut answered = 0;
    for _ in 0..5 {
        let mut next = Vec::new();
        for text in &level {
            for c in alphabet {
                let mut longer = text.clone();
                longer.push(c);
                match evaluate_vals(&longer) {
                    Ok(Some(_)) => answered += 1,
                    Ok(None) => {}
                    Err(error) => assert_eq!(error, RollError::EmptyExpression, "{:?}", longer),
                }
                next.push(longer);
            }
        }
        level = next;
    }
    assert!(answered > 1000);
    assert_eq!(
        evaluate_vals("1/0-1/0"),
        Ok(Some(Evaluation { text: "NaN".to_string(), integer: None }))
    );
}
