use dice_engine::commands::dice::{
    batch, expression_or_default, find_inlines, inline_rolls, messages_of_many, messages_of_tally,
    nick, roll_bincount, roll_many, tally_values, CommandError,
};
use dice_engine::error::RollError;
use dice_engine::limits::Limits;
use dice_engine::source::{RandomSource, ScriptedSource};
use regex::{Captures, Regex};

fn chars(text: &str) -> Vec<char> {
    text.chars().collect()
}

fn texts(lines: &[&str]) -> Vec<Vec<char>> {
    lines.iter().map(|line| chars(line)).collect()
}

fn strings(messages: Vec<Vec<char>>) -> Vec<String> {
    messages.into_iter().map(|message| message.into_iter().collect()).collect()
}

fn scripted(draws: &[u32]) -> ScriptedSource {
    ScriptedSource::new(draws.to_vec())
}

#[test]
fn lines_are_gathered_under_the_limit() {
    assert_eq!(strings(batch(&texts(&[]), 10)), Vec::<String>::new());
    assert_eq!(strings(batch(&texts(&["abc\n", "de\n"]), 10)), vec!["abc\nde\n"]);
    // Nine bytes stay together, ten do not.
    assert_eq!(strings(batch(&texts(&["abcd\n", "efg\n"]), 10)), vec!["abcd\nefg\n"]);
    assert_eq!(strings(batch(&texts(&["abcd\n", "efgh\n"]), 10)), vec!["abcd\n", "efgh\n"]);
    assert_eq!(
        strings(batch(&texts(&["abcd\n", "efgh\n", "i\n", "jklmnopq\n"]), 10)),
        vec!["abcd\n", "efgh\ni\n", "jklmnopq\n"]
    );
    // A line that is too long by itself closes the message before it, even an empty one.
    assert_eq!(strings(batch(&texts(&["abcdefghijkl\n"]), 10)), vec!["", "abcdefghijkl\n"]);
    // Bytes count, not characters.
    assert_eq!(strings(batch(&texts(&["äää\n", "ää\n"]), 10)), vec!["äää\n", "ää\n"]);
    assert_eq!(strings(batch(&texts(&["aaa\n", "aa\n"]), 10)), vec!["aaa\naa\n"]);
    assert_eq!(strings(batch(&texts(&["a", "b"]), 0)), vec!["", "a", "b"]);
}

#[test]
fn many_rolls_are_numbered() {
    assert_eq!(
        messages_of_many(&texts(&["**3**", "**20**"]), 2000),
        Ok(vec!["1: **3**\n2: **20**".to_string()])
    );
    assert_eq!(messages_of_many(&texts(&[]), 2000), Ok(vec![]));
    assert_eq!(
        messages_of_many(&texts(&["a", "b", "c"]), 6),
        Ok(vec!["1: a".to_string(), "2: b".to_string(), "3: c".to_string()])
    );
    assert_eq!(
        messages_of_many(&texts(&["a", "b", "c", "d"]), 6),
        Err(CommandError::TooManyMessages { limit: 3 })
    );
}

#[test]
fn roll_many_rolls_as_often_as_asked() {
    let limits = Limits::standard();
    let mut source = scripted(&[2, 19, 0]);
    assert_eq!(
        roll_many(3, "", 2000, &limits, &mut source),
        Ok(vec!["1: **3**\n2: **20**\n3: **1**".to_string()])
    );
    let mut source = scripted(&[0, 1, 2, 3]);
    assert_eq!(
        roll_many(2, "2d6+1", 2000, &limits, &mut source),
        Ok(vec!["1: [1, 2]+1 => **4**\n2: [3, 4]+1 => **8**".to_string()])
    );
    assert_eq!(roll_many(0, "1d6", 2000, &limits, &mut source), Ok(vec![]));
    assert_eq!(
        roll_many(101, "1d6", 2000, &limits, &mut source),
        Err(CommandError::TooManyRolls { limit: 100 })
    );
    assert_eq!(
        roll_many(2, "1d6x", 2000, &limits, &mut source),
        Err(CommandError::Roll(RollError::UnknownToken("x".to_string())))
    );
    let long = roll_many(100, "20d20", 2000, &limits, &mut RandomSource::from_seed([1; 32]));
    assert_eq!(long, Err(CommandError::TooManyMessages { limit: 3 }));
    let fits = roll_many(100, "1d20", 2000, &limits, &mut RandomSource::from_seed([1; 32])).unwrap();
    assert_eq!(fits.len(), 1);
    assert_eq!(fits[0].lines().count(), 100);
}

#[test]
fn values_are_tallied_in_order() {
    assert_eq!(tally_values(&vec![]), vec![]);
    assert_eq!(tally_values(&vec![5]), vec![(5, 1)]);
    assert_eq!(
        tally_values(&vec![3, -1, 3, 7, 3, -1, 0]),
        vec![(-1, 2), (0, 1), (3, 3), (7, 1)]
    );
    assert_eq!(
        messages_of_tally(&vec![3, -1, 3, 7, 3, -1, 0], 2000),
        vec!["-1: 2\n0: 1\n3: 3\n7: 1".to_string()]
    );
    assert_eq!(
        messages_of_tally(&vec![1, 2, 3], 11),
        vec!["1: 1\n2: 1".to_string(), "3: 1".to_string()]
    );
}

#[test]
fn roll_bincount_counts_each_value() {
    let limits = Limits::standard();
    let mut source = scripted(&[5, 0, 5, 2, 0, 5]);
    assert_eq!(
        roll_bincount(6, "1d6", 2000, &limits, &mut source),
        Ok(vec!["1: 2\n3: 1\n6: 3".to_string()])
    );
    assert_eq!(
        roll_bincount(501, "1d6", 2000, &limits, &mut source),
        Err(CommandError::TooManyRolls { limit: 500 })
    );
    assert_eq!(
        roll_bincount(1, "1d6+", 2000, &limits, &mut source),
        Err(CommandError::Roll(RollError::Evaluation("1+".to_string())))
    );
    let tallied =
        roll_bincount(500, "", 2000, &limits, &mut RandomSource::from_seed([5; 32])).unwrap();
    let total: u32 = tallied[0]
        .lines()
        .map(|line| line.split(": ").nth(1).unwrap().parse::<u32>().unwrap())
        .sum();
    assert_eq!(total, 500);
}

#[test]
fn the_default_expression_is_one_d_twenty() {
    assert_eq!(expression_or_default(""), chars("1d20"));
    assert_eq!(expression_or_default("2d6"), chars("2d6"));
    assert_eq!(expression_or_default(" "), chars(" "));
}

#[test]
fn the_nick_stops_at_the_last_bar() {
    assert_eq!(nick("Thorin"), chars("Thorin"));
    assert_eq!(nick(" Thorin "), chars(" Thorin "));
    assert_eq!(nick("Thorin | Dwarf"), chars("Thorin"));
    assert_eq!(nick("Thorin | Dwarf | 12 HP"), chars("Thorin | Dwarf"));
    assert_eq!(nick("|"), chars(""));
    assert_eq!(nick(""), chars(""));
}

#[test]
fn inline_rolls_are_replaced() {
    let limits = Limits::standard();
    let mut source = scripted(&[16, 3]);
    assert_eq!(
        inline_rolls("Thorin | Dwarf", "I attack [[1d20]] and hit for [[1d8+2]].", &limits, &mut source),
        Ok("Thorin: I attack **17** and hit for [4]+2 => **6**.".to_string())
    );
    assert_eq!(
        inline_rolls("Thorin", "no rolls [[]] here [x]", &limits, &mut source),
        Ok("Thorin: no rolls [[]] here [x]".to_string())
    );
    // Every roll is made, and the last failure is the one reported.
    let mut source = scripted(&[0, 1, 2]);
    assert_eq!(
        inline_rolls("Thorin", "[[1d6x]] [[1d6]] [[0d6]]", &limits, &mut source),
        Err(RollError::NoDice)
    );
    assert_eq!(
        inline_rolls("Thorin", "[[1d6]]", &limits, &mut source),
        Ok("Thorin: **2**".to_string())
    );
}

#[test]
fn inline_rolls_are_found_where_the_pattern_finds_them() {
    let regex = Regex::new(r"\[\[([^\]]+)\]\]").unwrap();
    let alphabet = ['[', ']', '1', 'x'];
    let mut level: Vec<String> = vec![String::new()];
    let mut corpus: Vec<String> = vec![String::new()];
    for _ in 0..8 {
        let mut next = Vec::new();
        for text in &level {
            for c in alphabet {
                let mut longer = text.clone();
                longer.push(c);
                next.push(longer);
            }
        }
        corpus.extend(next.iter().cloned());
        level = next;
    }
    for text in corpus {
        let found: Vec<(usize, usize)> = regex.find_iter(&text).map(|m| (m.start(), m.end())).collect();
        assert_eq!(find_inlines(&chars(&text)), found, "{:?}", text);
        let mut source = scripted(&[]);
        let ours = inline_rolls("n", &text, &Limits::standard(), &mut source);
        let mut failed = false;
        let theirs = regex.replace_all(&text, |caps: &Captures| {
            let mut source = scripted(&[]);
            match dice_engine::rolls::roll_expression_with(&caps[1], &Limits::standard(), &mut source) {
                Ok(answer) => answer,
                Err(_) => {
                    failed = true;
                    String::new()
                }
            }
        });
        match ours {
            Ok(answer) => {
                assert!(!failed, "{:?}", text);
                assert_eq!(answer, format!("n: {}", theirs), "{:?}", text);
            }
            Err(_) => assert!(failed, "{:?}", text),
        }
    }
}
