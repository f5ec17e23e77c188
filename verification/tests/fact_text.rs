use fact_store::fact::{Fact, Term};
use fact_store::text::{char_is_whitespace, split_tokens};

fn text(s: &str) -> Term {
    Term::Text(s.to_string())
}

#[test]
fn parses_each_kind_of_token() {
    let fact = Fact::from_string("#7 $x is  %rest\tplain");
    assert_eq!(
        fact.terms,
        vec![
            Term::Id("7".to_string()),
            Term::Variable("x".to_string()),
            text("is"),
            Term::Postfix("rest".to_string()),
            text("plain"),
        ]
    );
    assert_eq!(fact.to_string(), "#7 $x is %rest plain");
}

#[test]
fn term_kinds_by_first_character() {
    assert_eq!(Term::new("fox"), text("fox"));
    assert_eq!(Term::new("#fox"), Term::Id("fox".to_string()));
    assert_eq!(Term::new("$fox"), Term::Variable("fox".to_string()));
    assert_eq!(Term::new("%fox"), Term::Postfix("fox".to_string()));
    assert_eq!(Term::new(""), text(""));
    assert_eq!(Term::new("$"), Term::Variable("".to_string()));
    assert_eq!(Term::new("%"), Term::Postfix("".to_string()));
    assert_eq!(Term::new("#"), Term::Id("".to_string()));
    assert_eq!(Term::new("a$b"), text("a$b"));
    assert_eq!(Term::new("$$x"), Term::Variable("$x".to_string()));
    assert_eq!(Term::new("é#"), text("é#"));
    assert_eq!(Term::new("#日本"), Term::Id("日本".to_string()));
}

#[test]
fn term_text_puts_the_mark_back() {
    assert_eq!(text("fox").to_string(), "fox");
    assert_eq!(Term::Id("fox".to_string()).to_string(), "#fox");
    assert_eq!(Term::Variable("fox".to_string()).to_string(), "$fox");
    assert_eq!(Term::Postfix("fox".to_string()).to_string(), "%fox");
    assert_eq!(Term::Variable("".to_string()).to_string(), "$");
    assert_eq!(text("").to_string(), "");
}

#[test]
fn term_equality_is_kind_and_text() {
    assert!(text("a") == text("a"));
    assert!(text("a") != text("b"));
    assert!(text("a") != Term::Id("a".to_string()));
    assert!(Term::Variable("a".to_string()) != Term::Postfix("a".to_string()));
    assert!(Term::Postfix("a".to_string()) == Term::Postfix("a".to_string()).clone());
}

#[test]
fn round_trip_of_canonical_text() {
    for t in ["fox is red", "#0cv program 12 at 1.5 -2 3 4", "$x %rest", "$ %", "one", "a$b c#d é"] {
        assert_eq!(Fact::from_string(t).to_string(), t);
    }
    assert_eq!(Fact::from_string("").to_string(), "");
    assert_eq!(Fact::from_string("").terms.len(), 0);
}

#[test]
fn whitespace_is_normalised() {
    assert_eq!(Fact::from_string("  fox \t is\n\nred  ").to_string(), "fox is red");
    assert_eq!(Fact::from_string("fox\u{a0}is\u{3000}red").terms.len(), 3);
    assert_eq!(Fact::from_string(" \t\r\n ").terms.len(), 0);
}

#[test]
fn splitting_agrees_with_the_standard_library() {
    for t in [
        "",
        " ",
        "a",
        " a",
        "a ",
        "a  b",
        "\ta\u{b}b\u{c}c\rd\ne",
        "x\u{85}y\u{a0}z\u{1680}w",
        "p\u{2000}q\u{200a}r\u{2028}s\u{2029}t\u{202f}u\u{205f}v\u{3000}w",
        "no\u{200b}split\u{feff}here\u{180e}either",
        "日本 語",
    ] {
        let expected: Vec<String> = t.split_whitespace().map(|s| s.to_string()).collect();
        assert_eq!(split_tokens(t), expected, "{:?}", t);
    }
}

#[test]
fn whitespace_is_what_the_standard_library_says() {
    let mut n: u32 = 0;
    while n <= 0x10FFFF {
        if let Some(c) = char::from_u32(n) {
            assert_eq!(char_is_whitespace(c), c.is_whitespace(), "U+{:04X}", n);
        }
        n += 1;
    }
}

#[test]
fn from_terms_copies_in_order() {
    let terms = vec![Term::Id("00".to_string()), text("7"), text("source code"), text("")];
    let fact = Fact::from_terms(&terms);
    assert_eq!(fact.terms, terms);
    assert_eq!(fact.to_string(), "#00 7 source code ");
    assert_eq!(Fact::from_terms(&terms[1..2]).terms, vec![text("7")]);
    assert_eq!(Fact::from_terms(&[]).terms, vec![]);
    assert_eq!(fact.clone().terms, terms);
}
