use dice_engine::rolls::dice::DiceRoll;
use dice_engine::rolls::options::split_keeping_delimiters;
use dice_engine::rolls::roll_expressions;
use dice_engine::rolls::scan::has_dice_term;
use dice_engine::source::ScriptedSource;
use regex::{Captures, Regex};

const TERM: &str = r"(^|[+\- (])(\d+d[^+\-\*/ )]+)($|[$+\-\*/ )])";
const DELIMITER: &str = r"(\d+|!{1, 2}|F)";

fn corpus() -> Vec<String> {
    let mut texts: Vec<String> = [
        "",
        " ",
        "1d20",
        "(1d20)",
        "2 + 1d20",
        "4 + (5d11 / 2)",
        "(1d1+1d1)",
        "(1d1 + 1d1)",
        "(3d3*2)+1d10",
        "10d20!!>20",
        "10d20<15",
        "4dF",
        "1d6+2d6+3d6",
        "1d6 2d6 3d6",
        "1d6-2d6",
        "1d6*2d6",
        "2*1d6",
        "2/1d6",
        "1d6/2",
        "x1d6",
        "1d6x",
        "1d6$",
        "1d6$+1d4",
        "$1d6",
        "1d",
        "1d+",
        "1d 6",
        "d6",
        "12",
        "1dd6",
        "1d6d4",
        "2d(1d6)",
        "(2d(1d6))",
        "((1d4))",
        "1d4)(1d4",
        "-1d-1",
        "1d-1",
        "+1d4",
        "-1d4",
        "1d4+",
        "1d4 ",
        " 1d4",
        "a 1d4 b",
        "3(1d6)d4",
        "5 1d6",
        "51d6",
        "1d6!",
        "1d6!!",
        "1d6!!!",
        "1d6!!!!",
        "1d6<3>1",
        "1d6>1<3!",
        "1dF!",
        "1dFF",
        "1dF6",
        "1d6F",
        "1d06",
        "01d6",
        "1d6\t+1d4",
        "1d6\n1d4",
        "1d6,1d4",
        "[1d6]",
        "[[1d6]]",
        "1d6~~",
        "1d1+1d1+1d1+1d1+1d1",
        "(1d1)(1d1)",
        "1d1(1d1)",
        "1d1 (1d1)",
        "1d2d3d4",
        "1.5d6",
        "1d6.5",
        "1d6 => **3**",
    ]
    .iter()
    .map(|text| text.to_string())
    .collect();
    // Every text of up to four characters over a small alphabet.
    let alphabet = ['1', 'd', '+', ' ', '(', ')', '*', '!', 'F', '<'];
    let mut level: Vec<String> = vec![String::new()];
    for _ in 0..4 {
        let mut next = Vec::new();
        for text in &level {
            for c in alphabet {
                let mut longer = text.clone();
                longer.push(c);
                next.push(longer);
            }
        }
        texts.extend(next.iter().cloned());
        level = next;
    }
    texts
}

/// Replaces the first match over and over until none is left.
fn replace_all_overlapping(regex: &Regex, text: &str, mut fill: impl FnMut(&str) -> String) -> String {
    let mut text = text.to_string();
    loop {
        let replaced = regex
            .replace(&text, |caps: &Captures| format!("{}{}{}", &caps[1], fill(&caps[2]), &caps[3]))
            .to_string();
        if replaced == text {
            return text;
        }
        text = replaced;
    }
}

fn all_ones() -> ScriptedSource {
    ScriptedSource::new(vec![])
}

#[test]
fn terms_are_found_where_the_pattern_finds_them() {
    let regex = Regex::new(TERM).unwrap();
    for text in corpus() {
        assert_eq!(has_dice_term(&text), regex.is_match(&text), "{:?}", text);
        let mut failed = false;
        let mut rolls = Vec::new();
        let dice = replace_all_overlapping(&regex, &text, |body| {
            match DiceRoll::from_str(body, &mut all_ones()) {
                Ok(roll) => {
                    let shown = roll.dice();
                    rolls.push(roll);
                    shown
                }
                Err(_) => {
                    failed = true;
                    String::new()
                }
            }
        });
        let mut next = 0;
        let vals = replace_all_overlapping(&regex, &text, |_| {
            let sum = rolls.get(next).map(|roll| roll.val().unwrap().to_string());
            next += 1;
            sum.unwrap_or_default()
        });
        match roll_expressions(&text, &mut all_ones()) {
            Ok((ours, our_dice, our_vals)) => {
                assert!(!failed, "{:?}", text);
                assert_eq!(ours, rolls, "{:?}", text);
                assert_eq!(our_dice, dice, "{:?}", text);
                assert_eq!(our_vals, vals, "{:?}", text);
            }
            Err(_) => assert!(failed, "{:?}", text),
        }
    }
}

#[test]
fn tokens_are_cut_where_the_pattern_cuts_them() {
    let regex = Regex::new(DELIMITER).unwrap();
    for text in corpus() {
        let mut parts: Vec<String> = Vec::new();
        let mut last = 0;
        for found in regex.find_iter(&text) {
            if last != found.start() {
                parts.push(text[last..found.start()].to_string());
            }
            parts.push(found.as_str().to_string());
            last = found.end();
        }
        if last < text.len() {
            parts.push(text[last..].to_string());
        }
        assert_eq!(split_keeping_delimiters(&text), parts, "{:?}", text);
    }
}
