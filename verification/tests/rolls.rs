use dice_engine::error::RollError;
use dice_engine::limits::DiceInt;
use dice_engine::rolls::dice::DiceRoll;
use dice_engine::rolls::options::{parse, split_keeping_delimiters, Explode, Options};
use dice_engine::rolls::scan::has_dice_term;

#[test]
fn check_regex() {
    assert!(has_dice_term("(1d20)"));
    assert!(has_dice_term("1d20"));
    assert!(has_dice_term("2 + 1d20"));
    assert!(has_dice_term("4 + (5d11 / 2)"));
}

#[test]
fn handle_overflow_in_sum() {
    assert!(DiceRoll {
        options: Options {
            number_of_dice: 1,
            dice_sides: vec![1],
            explode: None,
            min: None,
            max: None
        },
        rolls: vec![DiceInt::max_value() - 1, 2]
    }
    .val()
    .is_err())
}

#[test]
fn split_keeps_every_piece() {
    assert_eq!(split_keeping_delimiters("10d20!!>20"), vec!["10", "d", "20", "!!", ">", "20"]);
    assert_eq!(split_keeping_delimiters("4dF"), vec!["4", "d", "F"]);
    assert_eq!(split_keeping_delimiters("1d6!!!"), vec!["1", "d", "6", "!!", "!"]);
    assert_eq!(split_keeping_delimiters("ab12cd"), vec!["ab", "12", "cd"]);
    assert_eq!(split_keeping_delimiters(""), Vec::<String>::new());
}

#[test]
fn parse_reads_every_option() {
    assert_eq!(
        parse("10d20!!>20"),
        Ok(Options {
            number_of_dice: 10,
            dice_sides: (1..=20).collect(),
            explode: Some(Explode::Compounding),
            min: Some(20),
            max: None
        })
    );
    assert_eq!(
        parse(" 4dF<2 "),
        Ok(Options {
            number_of_dice: 4,
            dice_sides: vec![-3, 0, 3],
            explode: None,
            min: None,
            max: Some(2)
        })
    );
    assert_eq!(parse("3d6!").map(|o| o.explode), Ok(Some(Explode::Standard)));
    assert_eq!(parse("3d6!!!").map(|o| o.explode), Ok(Some(Explode::Compounding)));
}

#[test]
fn parse_names_what_is_wrong() {
    assert_eq!(parse("   "), Err(RollError::EmptyExpression));
    assert_eq!(parse("d6"), Err(RollError::MissingCount("d".to_string())));
    assert_eq!(parse("2d6x"), Err(RollError::UnknownToken("x".to_string())));
    assert_eq!(parse("2d"), Err(RollError::MissingValue('d')));
    assert_eq!(parse("2d6<"), Err(RollError::MissingValue('<')));
    assert_eq!(parse("2d!"), Err(RollError::InvalidValue("!".to_string())));
    assert_eq!(parse("2d6>99999999999"), Err(RollError::InvalidValue("99999999999".to_string())));
    assert_eq!(parse("2"), Err(RollError::MissingSides));
    assert_eq!(parse("2d0"), Err(RollError::NoSides));
    assert_eq!(parse("0d6"), Err(RollError::NoDice));
    assert_eq!(
        parse("500d6"),
        Err(RollError::TooManyDice { limit: 500, found: "500".to_string() })
    );
    assert_eq!(
        parse("2d10000"),
        Err(RollError::TooManySides { limit: 10000, found: "10000".to_string() })
    );
    assert_eq!(
        parse("2d4294967295"),
        Err(RollError::TooManySides { limit: 10000, found: "4294967295".to_string() })
    );
    assert!(parse("499d9999").is_ok());
}
