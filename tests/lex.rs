use logic_circuit::lex::{Lexer, Token};

fn lexer(text: &str) -> Lexer {
    Lexer::new(text.chars().collect(), "t.cct")
}

fn all_tokens(text: &str) -> Vec<Token> {
    let mut l = lexer(text);
    let mut out = Vec::new();
    loop {
        let t = l.get_token();
        if t == Token::TokEof {
            break;
        }
        out.push(t);
    }
    out
}

#[test]
fn lexes_a_line() {
    let toks = all_tokens("$a, @b = AND{1,2} 0x1f 017 0b101 9 \"s\\\"t\" ; comment\n#defunit X_1 %x\n");
    assert_eq!(
        toks,
        vec![
            Token::TokLine("a".to_string()),
            Token::TokComma,
            Token::TokGroup("b".to_string()),
            Token::TokAssign,
            Token::TokIdent("AND".to_string()),
            Token::TokBraceOpen,
            Token::TokNumber(1),
            Token::TokComma,
            Token::TokNumber(2),
            Token::TokBraceClose,
            Token::TokNumber(31),
            Token::TokNumber(15),
            Token::TokNumber(5),
            Token::TokNumber(9),
            Token::TokString("s\"t".to_string()),
            Token::TokNewline,
            Token::TokMetaOp("defunit".to_string()),
            Token::TokIdent("X_1".to_string()),
            Token::TokNewline,
        ]
    );
}

#[test]
fn punctuation_and_comments() {
    let toks = all_tokens(": + - * / [ ] ( ) // rest\n0 ?");
    assert_eq!(
        toks,
        vec![
            Token::TokColon,
            Token::TokPlus,
            Token::TokMinus,
            Token::TokStar,
            Token::TokSlash,
            Token::TokSqOpen,
            Token::TokSqClose,
            Token::TokParenOpen,
            Token::TokParenClose,
            Token::TokNewline,
            Token::TokNumber(0),
            Token::TokInval,
        ]
    );
}

#[test]
fn backslashes_and_lines() {
    let mut l = lexer("a \\\n b \\\\ c\n");
    assert_eq!(l.get_token(), Token::TokIdent("a".to_string()));
    assert_eq!(l.get_token(), Token::TokIdent("b".to_string()));
    assert_eq!(l.get_token(), Token::TokNewline);
    assert_eq!(l.get_token(), Token::TokIdent("c".to_string()));
    assert_eq!(l.curline(), 2);
    assert_eq!(l.get_token(), Token::TokNewline);
    assert_eq!(l.curline(), 3);
}

#[test]
fn line_directive_sets_line_and_file() {
    let mut l = lexer("%line 40+1 other.cct\nx\n");
    assert_eq!(l.get_token(), Token::TokIdent("x".to_string()));
    assert_eq!(l.curline(), 40);
    assert_eq!(l.filename, "other.cct");
}

#[test]
fn put_back_and_look_ahead() {
    let mut l = lexer("a b");
    assert_eq!(l.look_ahead(), Token::TokIdent("a".to_string()));
    assert_eq!(l.get_token(), Token::TokIdent("a".to_string()));
    l.put_back(Token::TokComma);
    assert_eq!(l.get_token(), Token::TokComma);
    assert_eq!(l.get_token(), Token::TokIdent("b".to_string()));
    assert_eq!(l.get_token(), Token::TokEof);
}

#[test]
fn bad_strings_and_escapes() {
    assert_eq!(all_tokens("\"open"), vec![Token::TokInval]);
    assert_eq!(all_tokens("\"a\\qb\""), vec![Token::TokInval]);
    assert_eq!(all_tokens("\"a\\nb\""), vec![Token::TokString("a\nb".to_string())]);
    assert_eq!(all_tokens("\\ x"), vec![Token::TokInval]);
}

#[test]
fn comment_then_newline_counts_the_line() {
    let mut l = lexer("$a = 0x1F ; c\n");
    assert_eq!(l.get_token(), Token::TokLine("a".to_string()));
    assert_eq!(l.get_token(), Token::TokAssign);
    assert_eq!(l.get_token(), Token::TokNumber(31));
    assert_eq!(l.get_token(), Token::TokNewline);
    assert_eq!(l.get_token(), Token::TokEof);
    assert_eq!(l.curline(), 2);
}

#[test]
fn unicode_spaces_separate_tokens() {
    assert_eq!(
        all_tokens("a\u{00a0}b\u{3000}\tc\r"),
        vec![
            Token::TokIdent("a".to_string()),
            Token::TokIdent("b".to_string()),
            Token::TokIdent("c".to_string()),
        ]
    );
}
