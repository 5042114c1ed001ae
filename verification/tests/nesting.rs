use roadnet::xml::{is_shallow, read_document, MAX_NESTING};

struct Dice(u64);

impl Dice {
    fn roll(&mut self, sides: usize) -> usize {
        self.0 = self.0.wrapping_mul(6364136223846793005).wrapping_add(1442695040888963407);
        ((self.0 >> 33) as usize) % sides
    }

    fn pick<'a>(&mut self, from: &[&'a str]) -> &'a str {
        from[self.roll(from.len())]
    }

    fn mix(&mut self, from: &[&str]) -> String {
        let mut text = String::new();
        for _ in 0..self.roll(6) {
            text.push_str(self.pick(from));
        }
        text
    }
}

const IN_COMMENT: [&str; 14] =
    ["</a>", "<a>", "<a b='", "/>", ">", "->", "'", "\"", "<!", "<?", "?>", "]]>", "<![CDATA[", "-"];
const IN_VALUE: [&str; 9] = ["/>", ">", "-->", "?>", "]]>", " x", "/", "=", "!--"];
const IN_TEXT: [&str; 9] = [">", "/>", "-->", "?>", "'", "\"", "x", " ", "]"];

fn comment(dice: &mut Dice) -> String {
    let mut content = dice.mix(&IN_COMMENT).replace("--", "-_");
    if content.ends_with('-') {
        content.push('_');
    }
    format!("<!--{}-->", content)
}

fn section(dice: &mut Dice) -> String {
    format!("<![CDATA[{}]]>", dice.mix(&IN_COMMENT).replace("]]>", "]]_"))
}

fn instruction(dice: &mut Dice) -> String {
    format!("<?p {}?>", dice.mix(&IN_COMMENT).replace("?>", "?_"))
}

fn attributes(dice: &mut Dice) -> String {
    let mut text = String::new();
    for k in 0..dice.roll(3) {
        if dice.roll(2) == 0 {
            text.push_str(&format!(" k{}=\"{}'\"", k, dice.mix(&IN_VALUE)));
        } else {
            text.push_str(&format!(" k{} = '{}\"'", k, dice.mix(&IN_VALUE)));
        }
    }
    if dice.roll(3) == 0 {
        text.push(' ');
    }
    text
}

fn filler(dice: &mut Dice, room: usize) -> String {
    match dice.roll(7) {
        0 => comment(dice),
        1 => section(dice),
        2 => instruction(dice),
        3 => format!("{}.", dice.mix(&IN_TEXT).replace("]", "] ")),
        4 => format!("<leaf{}/>", attributes(dice)),
        5 if room >= 2 => format!("<b{}><c{}/>{}</b >", attributes(dice), attributes(dice), comment(dice)),
        _ => format!("<empty{}></empty>", attributes(dice)),
    }
}

/// A well-formed document in which exactly `depth` elements are open at the
/// deepest place.
fn document(dice: &mut Dice, depth: usize) -> String {
    let mut text = String::from("<?xml version=\"1.0\" encoding='UTF-8?>'?>");
    text.push_str(&comment(dice));
    text.push_str(&instruction(dice));
    let mut tail = String::new();
    for level in 1..=depth {
        text.push_str(&format!("<a{}>", attributes(dice)));
        if level < depth {
            for _ in 0..dice.roll(3) {
                text.push_str(&filler(dice, depth - level - 1));
            }
        }
        let mut after = String::new();
        if level < depth {
            for _ in 0..dice.roll(3) {
                after.push_str(&filler(dice, depth - level - 1));
            }
        }
        tail = format!("{}</a>{}", after, tail);
    }
    text.push_str(&tail);
    text.push_str(&comment(dice));
    text
}

fn open_at_once(text: &str) -> usize {
    let doc = match roxmltree::Document::parse(text) {
        Ok(doc) => doc,
        Err(error) => panic!("parser: {}", error),
    };
    doc.descendants().filter(|n| n.is_element()).map(|n| n.ancestors().filter(|a| a.is_element()).count()).max().unwrap()
}

#[test]
fn documents_deeper_than_the_limit_are_never_shallow() {
    let mut dice = Dice(1);
    for round in 0..300 {
        let depth = MAX_NESTING + 1 + round % 12;
        let text = document(&mut dice, depth);
        assert_eq!(open_at_once(&text), depth);
        assert!(!is_shallow(&text), "scan in round {}", round);
    }
}

#[test]
fn documents_within_the_limit_are_shallow_and_read() {
    let mut dice = Dice(2);
    for round in 0..300 {
        let depth = 1 + (round * 7) % MAX_NESTING;
        let text = document(&mut dice, depth);
        assert_eq!(open_at_once(&text), depth);
        assert!(is_shallow(&text), "scan in round {}", round);
        let nodes = read_document(&text).unwrap();
        let expected = roxmltree::Document::parse(&text).unwrap().root_element().descendants().count();
        assert_eq!(nodes.len(), expected);
    }
    let edge = document(&mut dice, MAX_NESTING);
    assert!(is_shallow(&edge));
    assert_eq!(open_at_once(&edge), MAX_NESTING);
}
