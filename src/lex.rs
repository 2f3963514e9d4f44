//! The lexer of the circuit description language: turns characters into tokens.
use vstd::prelude::*;
use vstd::string::StringExecFns;

verus! {

/// A token of the circuit description language.
#[derive(PartialEq, Eq, Clone, Debug)]
pub enum Token {
    TokInval,
    TokEof,
    TokNumber(u64),
    TokLine(String),
    TokGroup(String),
    TokIdent(String),
    TokString(String),
    TokMetaOp(String),
    TokPreproc(String),
    TokNewline,
    TokComma,
    TokColon,
    TokAssign,
    TokPlus,
    TokMinus,
    TokStar,
    TokSlash,
    TokBackslash,
    TokSqOpen,
    TokSqClose,
    TokParenOpen,
    TokParenClose,
    TokBraceOpen,
    TokBraceClose,
    TokComment,
}

/// A token with the text of its payload as a sequence.
pub enum TokModel {
    Inval,
    Eof,
    Number(u64),
    Line(Seq<char>),
    Group(Seq<char>),
    Ident(Seq<char>),
    Str(Seq<char>),
    MetaOp(Seq<char>),
    Preproc(Seq<char>),
    Newline,
    Comma,
    Colon,
    Assign,
    Plus,
    Minus,
    Star,
    Slash,
    Backslash,
    SqOpen,
    SqClose,
    ParenOpen,
    ParenClose,
    BraceOpen,
    BraceClose,
    Comment,
}

impl View for Token {
    type V = TokModel;

    open spec fn view(&self) -> TokModel {
        match self {
            Token::TokInval => TokModel::Inval,
            Token::TokEof => TokModel::Eof,
            Token::TokNumber(v) => TokModel::Number(*v),
            Token::TokLine(s) => TokModel::Line(s@),
            Token::TokGroup(s) => TokModel::Group(s@),
            Token::TokIdent(s) => TokModel::Ident(s@),
            Token::TokString(s) => TokModel::Str(s@),
            Token::TokMetaOp(s) => TokModel::MetaOp(s@),
            Token::TokPreproc(s) => TokModel::Preproc(s@),
            Token::TokNewline => TokModel::Newline,
            Token::TokComma => TokModel::Comma,
            Token::TokColon => TokModel::Colon,
            Token::TokAssign => TokModel::Assign,
            Token::TokPlus => TokModel::Plus,
            Token::TokMinus => TokModel::Minus,
            Token::TokStar => TokModel::Star,
            Token::TokSlash => TokModel::Slash,
            Token::TokBackslash => TokModel::Backslash,
            Token::TokSqOpen => TokModel::SqOpen,
            Token::TokSqClose => TokModel::SqClose,
            Token::TokParenOpen => TokModel::ParenOpen,
            Token::TokParenClose => TokModel::ParenClose,
            Token::TokBraceOpen => TokModel::BraceOpen,
            Token::TokBraceClose => TokModel::BraceClose,
            Token::TokComment => TokModel::Comment,
        }
    }
}

/// Whether `c` has the Unicode White_Space property (the characters that
/// `char::is_whitespace` accepts).
pub open spec fn white_of(c: char) -> bool {
    let v = c as u32;
    (0x09 <= v <= 0x0d) || v == 0x20 || v == 0x85 || v == 0xa0 || v == 0x1680 || (0x2000 <= v <= 0x200a)
        || v == 0x2028 || v == 0x2029 || v == 0x202f || v == 0x205f || v == 0x3000
}

/// What `char::is_alphanumeric` answers for `c`.
pub uninterp spec fn alnum_of(c: char) -> bool;

/// Whether `c` is whitespace.
fn is_white(c: char) -> (r: bool)
    ensures
        r == white_of(c),
        c == '\n' ==> r,
{
    let v = c as u32;
    (0x09 <= v && v <= 0x0d) || v == 0x20 || v == 0x85 || v == 0xa0 || v == 0x1680 || (0x2000 <= v && v <= 0x200a)
        || v == 0x2028 || v == 0x2029 || v == 0x202f || v == 0x205f || v == 0x3000
}

/// Relies on `char::is_alphanumeric`: whether `c` is alphabetic or numeric, a function of
/// `c` alone.
#[verifier::external_body]
fn is_alnum(c: char) -> (r: bool)
    ensures
        r == alnum_of(c),
{
    c.is_alphanumeric()
}

/// A character that may continue an identifier.
pub open spec fn ident_char(c: char) -> bool {
    alnum_of(c) || c == '_'
}

/// A character that spaces skip: whitespace other than a newline.
pub open spec fn space_char(c: char) -> bool {
    white_of(c) && c != '\n'
}

/// The value of digit `c` in `base` (2, 8, 10 or 16; hex letters in either case).
pub open spec fn digit_val(c: char, base: u64) -> Option<u64> {
    let v = c as u32;
    let d: u32 = if 48 <= v <= 57 {
        (v - 48) as u32
    } else if 97 <= v <= 102 {
        (v - 87) as u32
    } else if 65 <= v <= 70 {
        (v - 55) as u32
    } else {
        99
    };
    if (d as u64) < base { Some(d as u64) } else { None }
}

/// The first position from `i` whose character `pred` rejects, or the end.
pub open spec fn skip_spaces(chars: Seq<char>, i: int) -> int
    decreases chars.len() - i,
{
    if i < 0 || i >= chars.len() || !space_char(chars[i]) { i } else { skip_spaces(chars, i + 1) }
}

pub open spec fn ident_end(chars: Seq<char>, i: int) -> int
    decreases chars.len() - i,
{
    if i < 0 || i >= chars.len() || !ident_char(chars[i]) { i } else { ident_end(chars, i + 1) }
}

/// The position of the first newline from `i`, or the end.
pub open spec fn eol(chars: Seq<char>, i: int) -> int
    decreases chars.len() - i,
{
    if i < 0 || i >= chars.len() || chars[i] == '\n' { i } else { eol(chars, i + 1) }
}

pub open spec fn number_end(chars: Seq<char>, i: int, base: u64) -> int
    decreases chars.len() - i,
{
    if i < 0 || i >= chars.len() || digit_val(chars[i], base) is None { i } else { number_end(chars, i + 1, base) }
}

/// The value of the digits `chars[i..j]` in `base`, modulo 2^64.
pub open spec fn number_val(chars: Seq<char>, i: int, j: int, base: u64) -> u64
    decreases j - i,
{
    if j <= i {
        0
    } else {
        ((number_val(chars, i, j - 1, base) as nat * base as nat + digit_val(chars[j - 1], base)->0 as nat) % 0x1_0000_0000_0000_0000) as u64
    }
}

/// The body of a string from `i` (after its opening quote) to its closing quote, with the
/// escapes `\\`, `\"`, `\n` decoded and an escaped newline dropped, and the position after
/// the closing quote; `None` when the input ends first or an escape is unknown.
pub open spec fn string_body(chars: Seq<char>, i: int) -> Option<(Seq<char>, int)>
    decreases chars.len() - i,
{
    if i < 0 || i >= chars.len() {
        None
    } else if chars[i] == '"' {
        Some((Seq::empty(), i + 1))
    } else if chars[i] == '\\' {
        if i + 1 >= chars.len() {
            None
        } else {
            let e = chars[i + 1];
            let dec: Option<Seq<char>> = if e == '\\' {
                Some(seq!['\\'])
            } else if e == '"' {
                Some(seq!['"'])
            } else if e == 'n' {
                Some(seq!['\n'])
            } else if e == '\n' {
                Some(Seq::empty())
            } else {
                None
            };
            match dec {
                None => None,
                Some(d) => match string_body(chars, i + 2) {
                    None => None,
                    Some((rest, e2)) => Some((d + rest, e2)),
                },
            }
        }
    } else {
        match string_body(chars, i + 1) {
            None => None,
            Some((rest, e2)) => Some((seq![chars[i]] + rest, e2)),
        }
    }
}

/// The line count after one more line, kept at most `u32::MAX`.
pub open spec fn next_line(line: u32) -> u32 {
    if line < u32::MAX { (line + 1) as u32 } else { line }
}

/// One raw token from position `pos` (after skipping spaces): the token, the position after
/// it, and the line count after it.
#[verifier::opaque]
pub open spec fn lex_one(chars: Seq<char>, pos: int, line: u32) -> (TokModel, int, u32) {
    let p = skip_spaces(chars, pos);
    if p >= chars.len() || p < 0 {
        (TokModel::Eof, p, line)
    } else {
        let c = chars[p];
        let q = p + 1;
        if c == ';' {
            (TokModel::Comment, eol(chars, q), line)
        } else if c == '$' {
            (TokModel::Line(chars.subrange(q, ident_end(chars, q))), ident_end(chars, q), line)
        } else if c == '@' {
            (TokModel::Group(chars.subrange(q, ident_end(chars, q))), ident_end(chars, q), line)
        } else if c == '%' {
            (TokModel::Preproc(chars.subrange(q, ident_end(chars, q))), ident_end(chars, q), line)
        } else if c == '#' {
            (TokModel::MetaOp(chars.subrange(q, ident_end(chars, q))), ident_end(chars, q), line)
        } else if c == '\n' {
            (TokModel::Newline, q, next_line(line))
        } else if c == ',' {
            (TokModel::Comma, q, line)
        } else if c == ':' {
            (TokModel::Colon, q, line)
        } else if c == '=' {
            (TokModel::Assign, q, line)
        } else if c == '+' {
            (TokModel::Plus, q, line)
        } else if c == '-' {
            (TokModel::Minus, q, line)
        } else if c == '*' {
            (TokModel::Star, q, line)
        } else if c == '/' {
            if q < chars.len() && chars[q] == '/' {
                (TokModel::Comment, eol(chars, q + 1), line)
            } else {
                (TokModel::Slash, q, line)
            }
        } else if c == '\\' {
            (TokModel::Backslash, q, line)
        } else if c == '[' {
            (TokModel::SqOpen, q, line)
        } else if c == ']' {
            (TokModel::SqClose, q, line)
        } else if c == '(' {
            (TokModel::ParenOpen, q, line)
        } else if c == ')' {
            (TokModel::ParenClose, q, line)
        } else if c == '{' {
            (TokModel::BraceOpen, q, line)
        } else if c == '}' {
            (TokModel::BraceClose, q, line)
        } else if c == '"' {
            match string_body(chars, q) {
                Some((s, e)) => (TokModel::Str(s), e, line),
                None => (TokModel::Inval, chars.len() as int, line),
            }
        } else if c == '0' {
            if q >= chars.len() {
                (TokModel::Number(0), q, line)
            } else if 49 <= (chars[q] as u32) <= 55 {
                (TokModel::Number(number_val(chars, q, number_end(chars, q, 8), 8)), number_end(chars, q, 8), line)
            } else if chars[q] == 'x' {
                (TokModel::Number(number_val(chars, q + 1, number_end(chars, q + 1, 16), 16)), number_end(chars, q + 1, 16), line)
            } else if chars[q] == 'b' {
                (TokModel::Number(number_val(chars, q + 1, number_end(chars, q + 1, 2), 2)), number_end(chars, q + 1, 2), line)
            } else {
                (TokModel::Number(0), q, line)
            }
        } else if 49 <= (c as u32) <= 57 {
            (TokModel::Number(number_val(chars, p, number_end(chars, p, 10), 10)), number_end(chars, p, 10), line)
        } else if (97 <= (c as u32) <= 122) || (65 <= (c as u32) <= 90) || c == '_' {
            (TokModel::Ident(seq![c] + chars.subrange(q, ident_end(chars, q))), ident_end(chars, q), line)
        } else {
            (TokModel::Inval, q, line)
        }
    }
}

/// Relies on `String: FromIterator<&char>`: the string of exactly these characters, in order.
#[verifier::external_body]
fn string_from_chars(v: &Vec<char>) -> (r: String)
    ensures
        r@ == v@,
{
    v.iter().collect()
}

pub fn digit_value(c: char, base: u64) -> (r: Option<u64>)
    requires
        base <= 16,
    ensures
        r == digit_val(c, base),
{
    let v = c as u32;
    let d: u32 = if 48 <= v && v <= 57 {
        v - 48
    } else if 97 <= v && v <= 102 {
        v - 87
    } else if 65 <= v && v <= 70 {
        v - 55
    } else {
        99
    };
    if (d as u64) < base {
        Some(d as u64)
    } else {
        None
    }
}

/// The lexer: the input characters, the position in them, the current file and line, and a
/// token put back by the parser.
pub struct Lexer {
    pub chars: Vec<char>,
    pub pos: usize,
    pub filename: String,
    pub line: u32,
    pub saved_tok: Option<Token>,
}

impl Lexer {
    /// A lexer at the start of `input`, on line 1 of `root_filename`.
    pub fn new(input: Vec<char>, root_filename: &str) -> (r: Lexer)
        ensures
            r.chars@ == input@,
            r.pos == 0,
            r.line == 1,
            r.filename@ == root_filename@,
            r.saved_tok is None,
    {
        Lexer { chars: input, pos: 0, filename: String::from_str(root_filename), line: 1, saved_tok: None }
    }

    pub fn curline(&self) -> (r: u32)
        ensures
            r == self.line,
    {
        self.line
    }

    /// Skip spaces (not newlines); true when the input ends.
    fn eat_spaces(&mut self) -> (r: bool)
        requires
            old(self).pos <= old(self).chars@.len(),
        ensures
            final(self).pos == skip_spaces(old(self).chars@, old(self).pos as int),
            r == (final(self).pos >= final(self).chars@.len()),
            final(self).chars == old(self).chars,
            final(self).line == old(self).line,
            final(self).filename == old(self).filename,
            final(self).saved_tok == old(self).saved_tok,
            old(self).pos <= final(self).pos <= final(self).chars@.len(),
    {
        let n = self.chars.len();
        while self.pos < n && is_white(self.chars[self.pos]) && self.chars[self.pos] != '\n'
            invariant
                n == self.chars@.len(),
                old(self).pos <= self.pos <= n,
                self.chars == old(self).chars,
                self.line == old(self).line,
                self.filename == old(self).filename,
                self.saved_tok == old(self).saved_tok,
                skip_spaces(self.chars@, self.pos as int) == skip_spaces(old(self).chars@, old(self).pos as int),
            decreases n - self.pos,
        {
            self.pos = self.pos + 1;
        }
        self.pos >= n
    }

    /// The rest of the line, up to (not including) its newline.
    fn read_to_eol(&mut self) -> (r: String)
        requires
            old(self).pos <= old(self).chars@.len(),
        ensures
            final(self).pos == eol(old(self).chars@, old(self).pos as int),
            r@ == old(self).chars@.subrange(old(self).pos as int, final(self).pos as int),
            final(self).chars == old(self).chars,
            final(self).line == old(self).line,
            final(self).filename == old(self).filename,
            final(self).saved_tok == old(self).saved_tok,
            old(self).pos <= final(self).pos <= final(self).chars@.len(),
    {
        let start = self.pos;
        let n = self.chars.len();
        let mut buf: Vec<char> = Vec::new();
        while self.pos < n && self.chars[self.pos] != '\n'
            invariant
                n == self.chars@.len(),
                start <= self.pos <= n,
                self.chars == old(self).chars,
                start == old(self).pos,
                self.line == old(self).line,
                self.filename == old(self).filename,
                self.saved_tok == old(self).saved_tok,
                buf@ == self.chars@.subrange(start as int, self.pos as int),
                eol(self.chars@, self.pos as int) == eol(old(self).chars@, start as int),
            decreases n - self.pos,
        {
            buf.push(self.chars[self.pos]);
            self.pos = self.pos + 1;
            assert(buf@ =~= self.chars@.subrange(start as int, self.pos as int));
        }
        string_from_chars(&buf)
    }

    /// A run of identifier characters.
    fn read_ident(&mut self) -> (r: String)
        requires
            old(self).pos <= old(self).chars@.len(),
        ensures
            final(self).pos == ident_end(old(self).chars@, old(self).pos as int),
            r@ == old(self).chars@.subrange(old(self).pos as int, final(self).pos as int),
            final(self).chars == old(self).chars,
            final(self).line == old(self).line,
            final(self).filename == old(self).filename,
            final(self).saved_tok == old(self).saved_tok,
            old(self).pos <= final(self).pos <= final(self).chars@.len(),
    {
        let start = self.pos;
        let n = self.chars.len();
        let mut buf: Vec<char> = Vec::new();
        while self.pos < n && (is_alnum(self.chars[self.pos]) || self.chars[self.pos] == '_')
            invariant
                n == self.chars@.len(),
                start <= self.pos <= n,
                self.chars == old(self).chars,
                start == old(self).pos,
                self.line == old(self).line,
                self.filename == old(self).filename,
                self.saved_tok == old(self).saved_tok,
                buf@ == self.chars@.subrange(start as int, self.pos as int),
                ident_end(self.chars@, self.pos as int) == ident_end(old(self).chars@, start as int),
            decreases n - self.pos,
        {
            buf.push(self.chars[self.pos]);
            self.pos = self.pos + 1;
            assert(buf@ =~= self.chars@.subrange(start as int, self.pos as int));
        }
        string_from_chars(&buf)
    }

    /// A number in `base`, modulo 2^64.
    fn read_number(&mut self, base: u64) -> (r: u64)
        requires
            old(self).pos <= old(self).chars@.len(),
            2 <= base <= 16,
        ensures
            final(self).pos == number_end(old(self).chars@, old(self).pos as int, base),
            r == number_val(old(self).chars@, old(self).pos as int, final(self).pos as int, base),
            final(self).chars == old(self).chars,
            final(self).line == old(self).line,
            final(self).filename == old(self).filename,
            final(self).saved_tok == old(self).saved_tok,
            old(self).pos <= final(self).pos <= final(self).chars@.len(),
    {
        let start = self.pos;
        let n = self.chars.len();
        let mut val: u64 = 0;
        loop
            invariant
                n == self.chars@.len(),
                start <= self.pos <= n,
                2 <= base <= 16,
                self.chars == old(self).chars,
                start == old(self).pos,
                self.line == old(self).line,
                self.filename == old(self).filename,
                self.saved_tok == old(self).saved_tok,
                val == number_val(self.chars@, start as int, self.pos as int, base),
                number_end(self.chars@, self.pos as int, base) == number_end(old(self).chars@, start as int, base),
            decreases n - self.pos,
        {
            if self.pos >= n {
                return val;
            }
            match digit_value(self.chars[self.pos], base) {
                None => {
                    return val;
                },
                Some(d) => {
                    proof {
                        assert((val as int) * (base as int) <= 0xffff_ffff_ffff_ffff * 16) by (nonlinear_arith)
                            requires
                                val <= 0xffff_ffff_ffff_ffff,
                                base <= 16,
                        ;
                    }
                    let prod = (val as u128) * (base as u128) + (d as u128);
                    val = (prod % 0x1_0000_0000_0000_0000u128) as u64;
                    self.pos = self.pos + 1;
                },
            }
        }
    }

    /// A string body after its opening quote, escapes decoded; `None` when the input ends
    /// before the closing quote or an escape is unknown (the position is then at the end).
    fn read_string(&mut self) -> (r: Option<String>)
        requires
            old(self).pos <= old(self).chars@.len(),
        ensures
            match string_body(old(self).chars@, old(self).pos as int) {
                Some((body, e)) => r is Some && r->0@ == body && final(self).pos == e,
                None => r is None && final(self).pos == old(self).chars@.len(),
            },
            final(self).chars == old(self).chars,
            final(self).line == old(self).line,
            final(self).filename == old(self).filename,
            final(self).saved_tok == old(self).saved_tok,
            old(self).pos <= final(self).pos <= final(self).chars@.len(),
    {
        let n = self.chars.len();
        let start = self.pos;
        let mut buf: Vec<char> = Vec::new();
        let ghost full = string_body(self.chars@, start as int);
        loop
            invariant
                n == self.chars@.len(),
                start <= self.pos <= n,
                self.chars == old(self).chars,
                start == old(self).pos,
                self.line == old(self).line,
                self.filename == old(self).filename,
                self.saved_tok == old(self).saved_tok,
                full == string_body(self.chars@, start as int),
                full == match string_body(self.chars@, self.pos as int) {
                    Some((rest, e)) => Some((buf@ + rest, e)),
                    None => None,
                },
            decreases n - self.pos,
        {
            if self.pos >= n {
                self.pos = n;
                return None;
            }
            let ch = self.chars[self.pos];
            if ch == '"' {
                self.pos = self.pos + 1;
                assert(buf@ + Seq::<char>::empty() =~= buf@);
                return Some(string_from_chars(&buf));
            }
            if ch == '\\' {
                if self.pos + 1 >= n {
                    self.pos = n;
                    return None;
                }
                let e = self.chars[self.pos + 1];
                let ghost before = buf@;
                if e == '\\' {
                    buf.push('\\');
                } else if e == '"' {
                    buf.push('"');
                } else if e == 'n' {
                    buf.push('\n');
                } else if e == '\n' {
                } else {
                    self.pos = n;
                    return None;
                }
                self.pos = self.pos + 2;
                proof {
                    match string_body(self.chars@, self.pos as int) {
                        Some((rest, e2)) => {
                            if e == '\\' {
                                assert(before + (seq!['\\'] + rest) =~= buf@ + rest);
                            } else if e == '"' {
                                assert(before + (seq!['"'] + rest) =~= buf@ + rest);
                            } else if e == 'n' {
                                assert(before + (seq!['\n'] + rest) =~= buf@ + rest);
                            } else {
                                assert(before + (Seq::<char>::empty() + rest) =~= buf@ + rest);
                            }
                        },
                        None => {},
                    }
                }
            } else {
                let ghost before = buf@;
                buf.push(ch);
                self.pos = self.pos + 1;
                proof {
                    match string_body(self.chars@, self.pos as int) {
                        Some((rest, e2)) => {
                            assert(before + (seq![ch] + rest) =~= buf@ + rest);
                        },
                        None => {},
                    }
                }
            }
        }
    }
}

/// Every scan ends at or after where it starts.
proof fn lemma_scan_ends(chars: Seq<char>, i: int)
    requires
        0 <= i,
    ensures
        skip_spaces(chars, i) >= i,
        eol(chars, i) >= i,
        ident_end(chars, i) >= i,
        number_end(chars, i, 2) >= i,
        number_end(chars, i, 8) >= i,
        number_end(chars, i, 10) >= i,
        number_end(chars, i, 16) >= i,
        i < chars.len() && digit_val(chars[i], 10) is Some ==> number_end(chars, i, 10) > i,
        match string_body(chars, i) {
            Some((_, e)) => e > i,
            None => true,
        },
    decreases chars.len() - i,
{
    if i < chars.len() {
        lemma_scan_ends(chars, i + 1);
        if i + 2 <= chars.len() {
            lemma_scan_ends(chars, i + 2);
        }
    }
}

impl Lexer {
    /// One raw token: see `lex_one`.
    pub fn get_token_int(&mut self) -> (r: Token)
        requires
            old(self).pos <= old(self).chars@.len(),
        ensures
            (r@, final(self).pos as int, final(self).line) == lex_one(old(self).chars@, old(self).pos as int, old(self).line),
            old(self).pos <= final(self).pos <= final(self).chars@.len(),
            !(r@ is Eof) ==> final(self).pos > old(self).pos,
            final(self).chars == old(self).chars,
            final(self).filename == old(self).filename,
            final(self).saved_tok == old(self).saved_tok,
    {
        proof {
            reveal(lex_one);
            lemma_scan_ends(self.chars@, self.pos as int);
        }
        if self.eat_spaces() {
            return Token::TokEof;
        }
        let n = self.chars.len();
        proof {
            lemma_scan_ends(self.chars@, self.pos + 1);
            lemma_scan_ends(self.chars@, self.pos + 2);
            lemma_scan_ends(self.chars@, self.pos as int);
        }
        let c = self.chars[self.pos];
        self.pos = self.pos + 1;
        if c == ';' {
            self.read_to_eol();
            Token::TokComment
        } else if c == '$' {
            Token::TokLine(self.read_ident())
        } else if c == '@' {
            Token::TokGroup(self.read_ident())
        } else if c == '%' {
            Token::TokPreproc(self.read_ident())
        } else if c == '#' {
            Token::TokMetaOp(self.read_ident())
        } else if c == '\n' {
            if self.line < u32::MAX {
                self.line = self.line + 1;
            }
            Token::TokNewline
        } else if c == ',' {
            Token::TokComma
        } else if c == ':' {
            Token::TokColon
        } else if c == '=' {
            Token::TokAssign
        } else if c == '+' {
            Token::TokPlus
        } else if c == '-' {
            Token::TokMinus
        } else if c == '*' {
            Token::TokStar
        } else if c == '/' {
            if self.pos < n && self.chars[self.pos] == '/' {
                self.pos = self.pos + 1;
                self.read_to_eol();
                Token::TokComment
            } else {
                Token::TokSlash
            }
        } else if c == '\\' {
            Token::TokBackslash
        } else if c == '[' {
            Token::TokSqOpen
        } else if c == ']' {
            Token::TokSqClose
        } else if c == '(' {
            Token::TokParenOpen
        } else if c == ')' {
            Token::TokParenClose
        } else if c == '{' {
            Token::TokBraceOpen
        } else if c == '}' {
            Token::TokBraceClose
        } else if c == '"' {
            match self.read_string() {
                Some(s) => Token::TokString(s),
                None => Token::TokInval,
            }
        } else if c == '0' {
            if self.pos >= n {
                Token::TokNumber(0)
            } else {
                let d = self.chars[self.pos] as u32;
                if 49 <= d && d <= 55 {
                    Token::TokNumber(self.read_number(8))
                } else if self.chars[self.pos] == 'x' {
                    self.pos = self.pos + 1;
                    Token::TokNumber(self.read_number(16))
                } else if self.chars[self.pos] == 'b' {
                    self.pos = self.pos + 1;
                    Token::TokNumber(self.read_number(2))
                } else {
                    Token::TokNumber(0)
                }
            }
        } else if 49 <= (c as u32) && (c as u32) <= 57 {
            self.pos = self.pos - 1;
            Token::TokNumber(self.read_number(10))
        } else if (97 <= (c as u32) && (c as u32) <= 122) || (65 <= (c as u32) && (c as u32) <= 90) || c == '_' {
            let mut name = string_from_chars(&vec![c]);
            let rest = self.read_ident();
            name.append(rest.as_str());
            proof {
                assert(name@ =~= seq![c] + rest@);
            }
            Token::TokIdent(name)
        } else {
            Token::TokInval
        }
    }

    /// Put a token back; the next `get_token` returns it.
    pub fn put_back(&mut self, tok: Token)
        ensures
            final(self).saved_tok == Some(tok),
            final(self).chars == old(self).chars,
            final(self).pos == old(self).pos,
            final(self).line == old(self).line,
            final(self).filename == old(self).filename,
    {
        self.saved_tok = Some(tok);
    }
}

/// A token that the parser sees: no comment, preprocessor statement or backslash.
pub open spec fn parser_token(t: TokModel) -> bool {
    !(t is Comment) && !(t is Preproc) && !(t is Backslash)
}

impl Lexer {
    /// What is left to read: twice the characters left, plus one for a token put back
    /// (other than the end of input). Reading a token other than the end makes it smaller.
    pub open spec fn measure(&self) -> int {
        2 * (self.chars@.len() - self.pos) + if self.saved_tok is Some && !(self.saved_tok->0@ is Eof) {
            1int
        } else {
            0int
        }
    }

    /// The next token for the parser: a token put back, else raw tokens with comments
    /// skipped, `%line <line>+<n> <file>` applied to the line count and file name, other
    /// preprocessor statements ignored, a backslash before a newline joining the lines and a
    /// doubled backslash giving a newline. A malformed `%line` or backslash gives `TokInval`.
    pub fn get_token(&mut self) -> (r: Token)
        requires
            old(self).pos <= old(self).chars@.len(),
        ensures
            final(self).chars == old(self).chars,
            final(self).pos <= final(self).chars@.len(),
            final(self).saved_tok is None,
            old(self).saved_tok is Some ==> r == old(self).saved_tok->0 && final(self).pos == old(self).pos
                && final(self).line == old(self).line,
            old(self).saved_tok is None ==> parser_token(r@) && final(self).pos >= old(self).pos,
            old(self).saved_tok is None && !(r@ is Eof) ==> final(self).pos > old(self).pos,
            final(self).measure() <= old(self).measure(),
            !(r@ is Eof) ==> final(self).measure() < old(self).measure(),
            old(self).saved_tok is None && !(lex_one(old(self).chars@, old(self).pos as int, old(self).line).0 is Comment)
                && !(lex_one(old(self).chars@, old(self).pos as int, old(self).line).0 is Preproc)
                && !(lex_one(old(self).chars@, old(self).pos as int, old(self).line).0 is Backslash)
                ==> (r@, final(self).pos as int, final(self).line) == lex_one(old(self).chars@, old(self).pos as int, old(self).line),
            ({
                let first = lex_one(old(self).chars@, old(self).pos as int, old(self).line);
                let second = lex_one(old(self).chars@, first.1, first.2);
                old(self).saved_tok is None && first.0 is Comment && !(second.0 is Comment) && !(second.0 is Preproc)
                    && !(second.0 is Backslash) ==> (r@, final(self).pos as int, final(self).line) == second
            }),
    {
        match self.saved_tok.take() {
            Some(t) => {
                return t;
            },
            None => {},
        }
        let ghost mut iters: nat = 0;
        loop
            invariant
                self.chars == old(self).chars,
                old(self).pos <= self.pos <= self.chars@.len(),
                self.saved_tok is None,
                old(self).saved_tok is None,
                old(self).measure() >= self.measure(),
                iters == 0 ==> self.pos == old(self).pos && self.line == old(self).line,
                iters == 1 && lex_one(old(self).chars@, old(self).pos as int, old(self).line).0 is Comment ==> (self.pos as int, self.line)
                    == (lex_one(old(self).chars@, old(self).pos as int, old(self).line).1, lex_one(old(self).chars@, old(self).pos as int, old(self).line).2),
                iters >= 2 && lex_one(old(self).chars@, old(self).pos as int, old(self).line).0 is Comment ==> ({
                    let first = lex_one(old(self).chars@, old(self).pos as int, old(self).line);
                    let second = lex_one(old(self).chars@, first.1, first.2);
                    second.0 is Comment || second.0 is Preproc || second.0 is Backslash
                }),
                iters >= 1 ==> !(lex_one(old(self).chars@, old(self).pos as int, old(self).line).0 is Comment)
                    && !(lex_one(old(self).chars@, old(self).pos as int, old(self).line).0 is Preproc)
                    && !(lex_one(old(self).chars@, old(self).pos as int, old(self).line).0 is Backslash) ==> false,
            decreases self.chars@.len() - self.pos,
        {
            let ghost iters0 = iters;
            proof {
                iters = iters + 1;
            }
            let tok = self.get_token_int();
            match tok {
                Token::TokComment => {},
                Token::TokPreproc(stmt) => {
                    if str_equal_line(&stmt) && !self.line_directive() {
                        return Token::TokInval;
                    }
                },
                Token::TokBackslash => {
                    let tok2 = self.get_token_int();
                    match tok2 {
                        Token::TokNewline => {},
                        Token::TokBackslash => {
                            return Token::TokNewline;
                        },
                        _ => {
                            return Token::TokInval;
                        },
                    }
                },
                _ => {
                    return tok;
                },
            }
        }
    }

    /// The rest of `%line <line>+<n> <file>`: set the line count and the file name; false
    /// when the statement is malformed.
    fn line_directive(&mut self) -> (r: bool)
        requires
            old(self).pos <= old(self).chars@.len(),
        ensures
            final(self).chars == old(self).chars,
            old(self).pos <= final(self).pos <= final(self).chars@.len(),
            final(self).saved_tok == old(self).saved_tok,
    {
        let line = match self.get_token_int() {
            Token::TokNumber(x) => x,
            _ => {
                return false;
            },
        };
        match self.get_token_int() {
            Token::TokPlus => {},
            _ => {
                return false;
            },
        }
        match self.get_token_int() {
            Token::TokNumber(_) => {},
            _ => {
                return false;
            },
        }
        self.eat_spaces();
        let file = self.read_to_eol();
        match self.get_token_int() {
            Token::TokNewline => {},
            Token::TokEof => {},
            _ => {
                return false;
            },
        }
        self.line = if line > 0 && line <= 0xffff_ffff { line as u32 } else { 1 };
        self.filename = file;
        true
    }

    /// The next token, left to be read again.
    pub fn look_ahead(&mut self) -> (r: Token)
        requires
            old(self).pos <= old(self).chars@.len(),
        ensures
            final(self).chars == old(self).chars,
            final(self).pos <= final(self).chars@.len(),
            final(self).saved_tok == Some(r),
            old(self).saved_tok is Some ==> r == old(self).saved_tok->0 && final(self).pos == old(self).pos,
            old(self).saved_tok is None ==> parser_token(r@),
            final(self).measure() <= old(self).measure(),
    {
        let ret = self.get_token();
        let copy = copy_token(&ret);
        self.put_back(ret);
        copy
    }
}

/// Whether a preprocessor statement is `line`.
fn str_equal_line(s: &String) -> (r: bool)
    ensures
        r == (s@ == "line"@),
{
    crate::elements::str_equal(s.as_str(), "line")
}

fn copy_token(t: &Token) -> (r: Token)
    ensures
        r == *t,
{
    match t {
        Token::TokNumber(v) => Token::TokNumber(*v),
        Token::TokLine(s) => Token::TokLine(copy_str(s)),
        Token::TokGroup(s) => Token::TokGroup(copy_str(s)),
        Token::TokIdent(s) => Token::TokIdent(copy_str(s)),
        Token::TokString(s) => Token::TokString(copy_str(s)),
        Token::TokMetaOp(s) => Token::TokMetaOp(copy_str(s)),
        Token::TokPreproc(s) => Token::TokPreproc(copy_str(s)),
        Token::TokInval => Token::TokInval,
        Token::TokEof => Token::TokEof,
        Token::TokNewline => Token::TokNewline,
        Token::TokComma => Token::TokComma,
        Token::TokColon => Token::TokColon,
        Token::TokAssign => Token::TokAssign,
        Token::TokPlus => Token::TokPlus,
        Token::TokMinus => Token::TokMinus,
        Token::TokStar => Token::TokStar,
        Token::TokSlash => Token::TokSlash,
        Token::TokBackslash => Token::TokBackslash,
        Token::TokSqOpen => Token::TokSqOpen,
        Token::TokSqClose => Token::TokSqClose,
        Token::TokParenOpen => Token::TokParenOpen,
        Token::TokParenClose => Token::TokParenClose,
        Token::TokBraceOpen => Token::TokBraceOpen,
        Token::TokBraceClose => Token::TokBraceClose,
        Token::TokComment => Token::TokComment,
    }
}

fn copy_str(s: &String) -> (r: String)
    ensures
        r == *s,
{
    s.clone()
}

} // verus!
