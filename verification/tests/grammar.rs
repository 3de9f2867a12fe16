use qwato::grammar::{scan_entry, scan_entry_prefix};
use regex::Regex;

const STRICT: &str = r"^\s*(?:[-]\s|\d+[.]\s)(?:\[(.)\]\s*)?(\d{2}:\d{2}:\d{2})\s+(.*)$";
const ALL: &str = r"^\s*(?:[-]\s|\d+[.]\s)(?:\[(.)\]\s*)?(?:(\d{2}:\d{2}:\d{2})\s+)?(.*)$";
const PREFIX: &str = r"^(\s*(?:[-*+]\s|\d+[.]\s)(?:\[[ xX]\]\s*)?(?:\d{2}:\d{2}:\d{2}\s+)?)";

fn samples() -> Vec<&'static str> {
    vec![
        "- 12:00:00 memo",
        "- [ ] 12:00:00 task",
        "- [x] 12:00:00 done",
        "- [X]12:00:00 tight",
        "  - 01:02:03    spaced   ",
        "12. 10:00:00 numbered",
        "1.10:00:00 no space",
        "- memo without clock",
        "- [ ] task without clock",
        "- [ ] 12:00:00",
        "- 12:00:00",
        "- 12:00:00 ",
        "-12:00:00 no marker space",
        "* 12:00:00 star",
        "+ 12:00:00 plus",
        "- 1:00:00 short",
        "- 12:00:000 long",
        "- ١٢:٠٠:٠٠ arabic digits",
        "- 99:99:99 impossible clock",
        "\u{3000}- 12:00:00 ideographic space",
        "- [] 12:00:00 empty box",
        "- [ab] 12:00:00 wide box",
        "- [ ]   ",
        "",
        "text",
        "# heading",
        "- \t12:00:00\tmessage",
    ]
}

fn expected(line: &str, is_all: bool) -> Option<(Option<String>, Option<String>, String)> {
    let strict = Regex::new(STRICT).unwrap();
    let all = Regex::new(ALL).unwrap();
    if let Some(c) = strict.captures(line) {
        return Some((c.get(1).map(|m| m.as_str().to_string()), Some(c[2].to_string()), c[3].to_string()));
    }
    let c = all.captures(line)?;
    if !is_all && c.get(1).is_none() {
        return None;
    }
    Some((
        c.get(1).map(|m| m.as_str().to_string()),
        c.get(2).map(|m| m.as_str().to_string()),
        c[3].to_string(),
    ))
}

fn actual(line: &str, is_all: bool) -> Option<(Option<String>, Option<String>, String)> {
    let v: Vec<char> = line.chars().collect();
    let (cb, clock, m) = scan_entry(&v, is_all)?;
    Some((
        cb.map(|c| c.to_string()),
        clock.map(|e| v[e..e + 8].iter().collect()),
        v[m..].iter().collect(),
    ))
}

#[test]
fn entry_grammar_agrees_with_the_regular_expressions() {
    for line in samples() {
        for is_all in [false, true] {
            assert_eq!(actual(line, is_all), expected(line, is_all), "line {:?}, all {}", line, is_all);
        }
    }
}

#[test]
fn edit_prefix_agrees_with_the_regular_expression() {
    let re = Regex::new(PREFIX).unwrap();
    for line in samples() {
        let v: Vec<char> = line.chars().collect();
        let want = re.captures(line).map(|c| c[1].chars().count());
        assert_eq!(scan_entry_prefix(&v), want, "line {:?}", line);
    }
}
