use org_outline::parser::{parse, Node};
use org_outline::scanner::{scan, ScanError, Token, TokenType};

fn tok(token_type: TokenType, lexeme: &str, line: usize) -> Token {
    Token {
        token_type,
        lexeme: lexeme.to_string(),
        line,
    }
}

fn kinds(text: &str) -> Vec<TokenType> {
    scan(text.to_string())
        .unwrap()
        .into_iter()
        .map(|t| t.token_type)
        .collect()
}

fn child<'a>(node: &'a Node, title: &str) -> &'a Node {
    let found: Vec<&(String, Node)> = node.children.iter().filter(|c| c.0 == title).collect();
    assert_eq!(found.len(), 1, "one child titled {:?}", title);
    &found[0].1
}

#[test]
fn empty_text_gives_only_eof() {
    assert_eq!(scan(String::new()), Ok(vec![tok(TokenType::EOF, "", 1)]));
}

#[test]
fn unrecognized_character_is_an_error() {
    assert_eq!(
        scan("ok\n  @".to_string()),
        Err(ScanError::UnrecognizedCharacter {
            line: 2,
            character: '@'
        })
    );
}

#[test]
fn lines_are_counted_from_one() {
    assert_eq!(
        scan("a\n\nb\r\n\tc".to_string()),
        Ok(vec![
            tok(TokenType::String, "a", 1),
            tok(TokenType::String, "b", 3),
            tok(TokenType::String, "c", 4),
            tok(TokenType::EOF, "", 4),
        ])
    );
}

#[test]
fn keywords_are_recognised() {
    assert_eq!(
        kinds("#+AUTHOR: #+DATE: SCHEDULED: DEADLINE: DONE TODO :END: CLOCK: :LOGBOOK: #+TITLE: TITLE"),
        vec![
            TokenType::Author,
            TokenType::InitiationDate,
            TokenType::Scheduled,
            TokenType::Deadline,
            TokenType::Done,
            TokenType::Todo,
            TokenType::End,
            TokenType::Clock,
            TokenType::LogBook,
            TokenType::Title,
            TokenType::String,
            TokenType::EOF,
        ]
    );
}

#[test]
fn numbers_without_colon_are_plain() {
    assert_eq!(
        scan("12 3:45".to_string()),
        Ok(vec![
            tok(TokenType::String, "12", 1),
            tok(TokenType::Duration, "3:45", 1),
            tok(TokenType::EOF, "", 1),
        ])
    );
}

#[test]
fn spans_that_do_not_close_are_plain() {
    assert_eq!(
        kinds("*bold /it _un +st"),
        vec![
            TokenType::String,
            TokenType::String,
            TokenType::String,
            TokenType::String,
            TokenType::EOF,
        ]
    );
}

#[test]
fn single_marker_is_a_heading() {
    assert_eq!(kinds("* x"), vec![TokenType::Asterisk, TokenType::String, TokenType::EOF]);
}

#[test]
fn unterminated_bracket_runs_to_the_end() {
    assert_eq!(
        scan("[abc def".to_string()),
        Ok(vec![tok(TokenType::String, "[abc def", 1), tok(TokenType::EOF, "", 1)])
    );
}

#[test]
fn plain_brackets_are_plain() {
    assert_eq!(
        scan("[x] [[a]]".to_string()),
        Ok(vec![
            tok(TokenType::String, "[x]", 1),
            tok(TokenType::String, "[[a]]", 1),
            tok(TokenType::EOF, "", 1),
        ])
    );
}

#[test]
fn angle_without_date_is_plain() {
    assert_eq!(
        scan("<abc> <2019-09-25 Wed".to_string()),
        Ok(vec![
            tok(TokenType::String, "<abc>", 1),
            tok(TokenType::String, "<2019-09-25 Wed", 1),
            tok(TokenType::EOF, "", 1),
        ])
    );
}

#[test]
fn lexemes_keep_every_non_blank_character() {
    let text = "** TODO Futurice \n *** brainstorming <2019-09-25 Wed> [[a][b]] 1:13";
    let joined: String = scan(text.to_string())
        .unwrap()
        .iter()
        .map(|t| t.lexeme.clone())
        .collect::<Vec<String>>()
        .concat();
    let strip = |s: &str| s.chars().filter(|c| !c.is_whitespace()).collect::<String>();
    assert_eq!(strip(&joined), strip(text));
}

#[test]
fn two_level_outline() {
    let tree = parse(scan("** TODO Futurice \n *** brainstorming".to_string()).unwrap());
    assert_eq!(tree.data, vec![tok(TokenType::EOF, "", 2)]);
    assert_eq!(tree.children.len(), 1);
    let futurice = child(&tree, "Futurice");
    assert_eq!(
        futurice.data,
        vec![
            tok(TokenType::Asterisk, "**", 1),
            tok(TokenType::Todo, "TODO", 1),
            tok(TokenType::String, "Futurice", 1),
        ]
    );
    assert_eq!(futurice.children.len(), 1);
    let brainstorming = child(futurice, "brainstorming");
    assert_eq!(
        brainstorming.data,
        vec![
            tok(TokenType::Asterisk, "***", 2),
            tok(TokenType::String, "brainstorming", 2),
        ]
    );
    assert!(brainstorming.children.is_empty());
}

#[test]
fn body_lines_belong_to_their_heading() {
    let tree = parse(scan("* Plan\nfirst step\n* Done".to_string()).unwrap());
    assert_eq!(tree.children.len(), 2);
    let plan = child(&tree, "Plan");
    assert_eq!(
        plan.data,
        vec![
            tok(TokenType::Asterisk, "*", 1),
            tok(TokenType::String, "Plan", 1),
            tok(TokenType::String, "first", 2),
            tok(TokenType::String, "step", 2),
        ]
    );
    assert!(child(&tree, "Done").children.is_empty());
}

#[test]
fn later_heading_with_same_title_replaces_earlier() {
    let tree = parse(scan("* A\n* A".to_string()).unwrap());
    assert_eq!(tree.children.len(), 1);
    assert_eq!(
        child(&tree, "A").data,
        vec![tok(TokenType::Asterisk, "*", 2), tok(TokenType::String, "A", 2)]
    );
}

#[test]
fn scope_closes_only_at_equal_marker() {
    // The shallower heading inside the first body is nested, not a sibling.
    let tree = parse(scan("** a\n* b\n** c".to_string()).unwrap());
    assert_eq!(tree.children.len(), 2);
    let a = child(&tree, "a");
    assert_eq!(a.children.len(), 1);
    assert!(child(a, "b").children.is_empty());
    assert!(child(&tree, "c").children.is_empty());
}

#[test]
fn depth_is_bounded_by_marker_lengths() {
    // Two distinct marker lengths: at most two levels of nesting.
    let tree = parse(scan("* a\n** b\n** c\n* d\n** e".to_string()).unwrap());
    let a = child(&tree, "a");
    assert_eq!(a.children.len(), 2);
    assert!(child(a, "b").children.is_empty());
    assert!(child(a, "c").children.is_empty());
    let d = child(&tree, "d");
    assert!(child(d, "e").children.is_empty());
}

#[test]
fn parse_of_no_tokens_is_empty() {
    let tree = parse(Vec::new());
    assert!(tree.data.is_empty());
    assert!(tree.children.is_empty());
}

#[test]
fn tokens_on_one_line_stay_together() {
    let tree = parse(scan("x * y\nz".to_string()).unwrap());
    assert_eq!(
        tree.data,
        vec![
            tok(TokenType::String, "x", 1),
            tok(TokenType::Asterisk, "*", 1),
            tok(TokenType::String, "y", 1),
            tok(TokenType::String, "z", 2),
            tok(TokenType::EOF, "", 2),
        ]
    );
    assert!(tree.children.is_empty());
}

#[test]
fn each_lexeme_rescans_alone() {
    let text = ":LOGBOOK:\n CLOCK: [2019-09-21 Sat 17:11]--[2019-09-21 Sat 18:24] =>  1:13\n*** _Agenda_ *b* /i/ +s+ [[a][b]] <2019-09-25 Wed> TODO x\n:END:";
    let tokens = scan(text.to_string()).unwrap();
    for t in tokens.iter().filter(|t| t.token_type != TokenType::EOF) {
        assert_eq!(
            scan(t.lexeme.clone()),
            Ok(vec![tok(t.token_type, &t.lexeme, 1), tok(TokenType::EOF, "", 1)])
        );
    }
}

#[test]
fn lexemes_run_together_may_merge() {
    // Joined without the blank between them, the title marker and its text
    // read as one word.
    assert_eq!(
        scan("#+TITLE:LifeRepo".to_string()),
        Ok(vec![tok(TokenType::String, "#+TITLE:LifeRepo", 1), tok(TokenType::EOF, "", 1)])
    );
}

#[test]
fn stream_ends_with_one_eof_and_lines_never_decrease() {
    let tokens = scan("* a\n\n** b c\n   d\n".to_string()).unwrap();
    let eofs = tokens.iter().filter(|t| t.token_type == TokenType::EOF).count();
    assert_eq!(eofs, 1);
    assert_eq!(tokens.last().unwrap().token_type, TokenType::EOF);
    assert_eq!(tokens.last().unwrap().line, 5);
    for pair in tokens.windows(2) {
        assert!(pair[0].line <= pair[1].line);
    }
}

#[test]
fn empty_bracket_pair_closes_at_once() {
    assert_eq!(
        scan("[] a".to_string()),
        Ok(vec![
            tok(TokenType::String, "[]", 1),
            tok(TokenType::String, "a", 1),
            tok(TokenType::EOF, "", 1),
        ])
    );
    assert_eq!(
        kinds("[]x [[a]] [[a][b]]"),
        vec![
            TokenType::String,
            TokenType::String,
            TokenType::String,
            TokenType::Link,
            TokenType::EOF,
        ]
    );
}

#[test]
fn first_bad_character_is_reported() {
    assert_eq!(
        scan("ab @@ cd".to_string()),
        Err(ScanError::UnrecognizedCharacter {
            line: 1,
            character: '@'
        })
    );
}
