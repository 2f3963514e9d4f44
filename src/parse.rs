//! The statement parser: reads tokens and builds the units and tests of a circuit through
//! the IR operations. Errors are returned as messages; the lexer's file and line locate them.
use vstd::prelude::*;
use vstd::string::StringExecFns;
use crate::cct_mesh::root::{range_inc, range_seq};
use crate::cct_mesh::{LinkList, Root, Unit, links_in, push_decimal};
use crate::elements::str_equal;
use crate::lex::{Lexer, Token, digit_value};

verus! {

/// The statement parser over a lexer.
pub struct Parser {
    pub lexer: Lexer,
}

/// The lexer is inside its input.
pub open spec fn lexer_ok(p: &Parser) -> bool {
    p.lexer.pos <= p.lexer.chars@.len()
}

fn err(msg: &str) -> (r: String)
    ensures
        r@ == msg@,
{
    String::from_str(msg)
}

/// `a` wrapped to 64 bits.
fn wrap_mul(a: u64, b: u64) -> (r: u64)
    ensures
        r == ((a as nat * b as nat) % 0x1_0000_0000_0000_0000) as u64,
{
    proof {
        assert((a as int) * (b as int) <= 0xffff_ffff_ffff_ffff * 0xffff_ffff_ffff_ffff) by (nonlinear_arith)
            requires
                a <= 0xffff_ffff_ffff_ffff,
                b <= 0xffff_ffff_ffff_ffff,
        ;
        assert((a as int) * (b as int) >= 0) by (nonlinear_arith);
    }
    (((a as u128) * (b as u128)) % 0x1_0000_0000_0000_0000u128) as u64
}

impl Parser {
    pub fn new(lexer: Lexer) -> (r: Parser)
        ensures
            r.lexer == lexer,
    {
        Parser { lexer }
    }

    fn get_token(&mut self) -> (r: Token)
        requires
            lexer_ok(old(self)),
        ensures
            old(self).lexer.chars@.len() == 0 && old(self).lexer.saved_tok is None ==> r@ is Eof,
            lexer_ok(final(self)),
            final(self).lexer.chars == old(self).lexer.chars,
            final(self).lexer.measure() <= old(self).lexer.measure(),
            !(r@ is Eof) ==> final(self).lexer.measure() < old(self).lexer.measure(),
            final(self).lexer.saved_tok is None,
    {
        self.lexer.get_token()
    }

    fn look_ahead(&mut self) -> (r: Token)
        requires
            lexer_ok(old(self)),
        ensures
            lexer_ok(final(self)),
            final(self).lexer.chars == old(self).lexer.chars,
            final(self).lexer.measure() <= old(self).lexer.measure(),
            final(self).lexer.saved_tok == Some(r),
    {
        self.lexer.look_ahead()
    }

    /// Put back a token just read.
    fn put_back(&mut self, tok: Token)
        requires
            lexer_ok(old(self)),
            old(self).lexer.saved_tok is None,
        ensures
            lexer_ok(final(self)),
            final(self).lexer.chars == old(self).lexer.chars,
            final(self).lexer.measure() <= old(self).lexer.measure() + 1,
            tok@ is Eof ==> final(self).lexer.measure() == old(self).lexer.measure(),
    {
        self.lexer.put_back(tok)
    }
}

impl Parser {
    fn expect_newline(&mut self, msg: &str) -> (r: Result<(), String>)
        requires
            lexer_ok(old(self)),
        ensures
            lexer_ok(final(self)),
            final(self).lexer.chars == old(self).lexer.chars,
            final(self).lexer.measure() <= old(self).lexer.measure(),
    {
        match self.get_token() {
            Token::TokNewline => Ok(()),
            _ => Err(err(msg)),
        }
    }

    fn get_numeric_3(&mut self) -> (r: Result<u64, String>)
        requires
            lexer_ok(old(self)),
        ensures
            lexer_ok(final(self)),
            final(self).lexer.chars == old(self).lexer.chars,
            final(self).lexer.measure() <= old(self).lexer.measure(),
            r is Ok ==> final(self).lexer.measure() < old(self).lexer.measure(),
    {
        match self.get_token() {
            Token::TokNumber(x) => Ok(x),
            _ => Err(err("Expected numeric value")),
        }
    }

    /// A number or a parenthesised expression.
    fn get_numeric_2(&mut self) -> (r: Result<u64, String>)
        requires
            lexer_ok(old(self)),
        ensures
            lexer_ok(final(self)),
            final(self).lexer.chars == old(self).lexer.chars,
            final(self).lexer.measure() <= old(self).lexer.measure(),
            r is Ok ==> final(self).lexer.measure() < old(self).lexer.measure(),
        decreases old(self).lexer.measure(), 1int,
    {
        match self.look_ahead() {
            Token::TokParenOpen => {
                self.get_token();
                let val = self.get_numeric_0()?;
                match self.get_token() {
                    Token::TokParenClose => Ok(val),
                    _ => Err(err("Expecting TokParenClose in numeric")),
                }
            },
            _ => self.get_numeric_3(),
        }
    }

    /// Products and quotients, wrapping to 64 bits.
    fn get_numeric_1(&mut self) -> (r: Result<u64, String>)
        requires
            lexer_ok(old(self)),
        ensures
            lexer_ok(final(self)),
            final(self).lexer.chars == old(self).lexer.chars,
            final(self).lexer.measure() <= old(self).lexer.measure(),
            r is Ok ==> final(self).lexer.measure() < old(self).lexer.measure(),
        decreases old(self).lexer.measure(), 2int,
    {
        let mut val = self.get_numeric_2()?;
        loop
            invariant
                lexer_ok(self),
                self.lexer.chars == old(self).lexer.chars,
                self.lexer.measure() < old(self).lexer.measure(),
            decreases self.lexer.measure(),
        {
            let tok = self.get_token();
            match tok {
                Token::TokStar => {
                    let m = self.get_numeric_2()?;
                    val = wrap_mul(val, m);
                },
                Token::TokSlash => {
                    let d = self.get_numeric_2()?;
                    if d == 0 {
                        return Err(err("Division by zero"));
                    }
                    val = val / d;
                },
                _ => {
                    self.put_back(tok);
                    return Ok(val);
                },
            }
        }
    }

    /// Sums and differences, wrapping to 64 bits.
    fn get_numeric_0(&mut self) -> (r: Result<u64, String>)
        requires
            lexer_ok(old(self)),
        ensures
            lexer_ok(final(self)),
            final(self).lexer.chars == old(self).lexer.chars,
            final(self).lexer.measure() <= old(self).lexer.measure(),
            r is Ok ==> final(self).lexer.measure() < old(self).lexer.measure(),
        decreases old(self).lexer.measure(), 3int,
    {
        let mut val = self.get_numeric_1()?;
        loop
            invariant
                lexer_ok(self),
                self.lexer.chars == old(self).lexer.chars,
                self.lexer.measure() < old(self).lexer.measure(),
            decreases self.lexer.measure(),
        {
            let tok = self.get_token();
            match tok {
                Token::TokPlus => {
                    let m = self.get_numeric_1()?;
                    val = val.wrapping_add(m);
                },
                Token::TokMinus => {
                    let m = self.get_numeric_1()?;
                    val = val.wrapping_sub(m);
                },
                _ => {
                    self.put_back(tok);
                    return Ok(val);
                },
            }
        }
    }

    /// A numeric expression.
    pub fn get_numeric(&mut self) -> (r: Result<u64, String>)
        requires
            lexer_ok(old(self)),
        ensures
            lexer_ok(final(self)),
            final(self).lexer.chars == old(self).lexer.chars,
            final(self).lexer.measure() <= old(self).lexer.measure(),
            r is Ok ==> final(self).lexer.measure() < old(self).lexer.measure(),
    {
        self.get_numeric_0()
    }
}

/// The unit stays well formed and keeps all its wires.
pub open spec fn unit_kept(a: Unit, b: Unit) -> bool {
    &&& b.wf()
    &&& b.n_links() >= a.n_links()
}

fn append_links(values: &mut LinkList, more: &LinkList)
    ensures
        final(values)@ == old(values)@ + more@,
{
    let mut i: usize = 0;
    let ghost start = values@;
    while i < more.len()
        invariant
            i <= more@.len(),
            values@ == start + more@.subrange(0, i as int),
            start == old(values)@,
        decreases more@.len() - i,
    {
        values.push(more[i]);
        i += 1;
        assert(values@ =~= start + more@.subrange(0, i as int));
    }
    assert(more@.subrange(0, more@.len() as int) =~= more@);
}

impl Parser {
    /// Read one value onto `values`: a wire (`$w`, `$w * n`), a group or part of one
    /// (`@g`, `@g[i]`, `@g[a:b]`, comma-separated inside the brackets), a literal's bits
    /// (`v`, `v[hi:lo]`, with `* n` repetition), or a parenthesised element, whose outputs
    /// are taken.
    pub fn get_value(&mut self, values: &mut LinkList, root: &Root, unit: &mut Unit) -> (r: Result<(), String>)
        requires
            lexer_ok(old(self)),
            old(unit).wf(),
            links_in(old(values)@, old(unit).n_links()),
        ensures
            lexer_ok(final(self)),
            final(self).lexer.chars == old(self).lexer.chars,
            final(self).lexer.measure() <= old(self).lexer.measure(),
            r is Ok ==> final(self).lexer.measure() < old(self).lexer.measure(),
            unit_kept(*old(unit), *final(unit)),
            links_in(final(values)@, final(unit).n_links()),
        decreases old(self).lexer.measure(), 1int,
    {
        let tok = self.get_token();
        match tok {
            Token::TokLine(name) => {
                let count = match self.look_ahead() {
                    Token::TokStar => {
                        self.get_token();
                        self.get_numeric()?
                    },
                    _ => 1,
                };
                let mut k: u64 = 0;
                while k < count
                    invariant
                        unit_kept(*old(unit), *unit),
                        links_in(values@, unit.n_links()),
                    decreases count - k,
                {
                    let v = unit.get_link(name.as_str());
                    values.push(v);
                    k += 1;
                }
                Ok(())
            },
            Token::TokGroup(name) => {
                let glen = match unit.get_group(&name) {
                    Some(g) => g.len(),
                    None => {
                        return Err(err("Group is not defined"));
                    },
                };
                match self.look_ahead() {
                    Token::TokSqOpen => {
                        self.get_token();
                        loop
                            invariant
                                lexer_ok(self),
                                self.lexer.chars == old(self).lexer.chars,
                                self.lexer.measure() < old(self).lexer.measure(),
                                unit_kept(*old(unit), *unit),
                                links_in(values@, unit.n_links()),
                            decreases self.lexer.measure(),
                        {
                            let start = self.get_numeric()?;
                            if start >= glen as u64 {
                                return Err(err("Index out of range for group"));
                            }
                            let end = match self.look_ahead() {
                                Token::TokColon => {
                                    self.get_token();
                                    self.get_numeric()?
                                },
                                _ => start,
                            };
                            if end >= glen as u64 {
                                return Err(err("Range end out of range for group"));
                            }
                            match unit.get_group_range(&name, start as usize, end as usize) {
                                Some(r) => append_links(values, &r),
                                None => {
                                    return Err(err("Range out of range for group"));
                                },
                            }
                            let sep = self.get_token();
                            match sep {
                                Token::TokComma => {},
                                _ => {
                                    self.put_back(sep);
                                    break;
                                },
                            }
                        }
                        match self.get_token() {
                            Token::TokSqClose => Ok(()),
                            _ => Err(err("Expected TokSqClose after range specifiers")),
                        }
                    },
                    _ => {
                        if glen > 0 {
                            match unit.get_group_range(&name, 0, glen - 1) {
                                Some(r) => append_links(values, &r),
                                None => {},
                            }
                        }
                        Ok(())
                    },
                }
            },
            Token::TokNumber(val) => {
                let mut start: u64 = 0;
                let mut end: u64 = 0;
                match self.look_ahead() {
                    Token::TokSqOpen => {
                        self.get_token();
                        start = self.get_numeric()?;
                        match self.get_token() {
                            Token::TokColon => {},
                            _ => {
                                return Err(err("Expected TokColon in literal"));
                            },
                        }
                        end = self.get_numeric()?;
                        match self.get_token() {
                            Token::TokSqClose => {},
                            _ => {
                                return Err(err("Expected TokSqClose after literal range"));
                            },
                        }
                    },
                    _ => {},
                }
                let count = match self.look_ahead() {
                    Token::TokStar => {
                        self.get_token();
                        self.get_numeric()?
                    },
                    _ => 1,
                };
                if start >= 64 || end >= 64 {
                    return Err(err("Bit range of a literal beyond bit 63"));
                }
                let bits = range_inc(start as usize, end as usize).collect_vec();
                let mut k: u64 = 0;
                while k < count
                    invariant
                        unit_kept(*old(unit), *unit),
                        links_in(values@, unit.n_links()),
                        start < 64,
                        end < 64,
                        bits@ == range_seq(start as usize, end as usize),
                    decreases count - k,
                {
                    let mut j: usize = 0;
                    while j < bits.len()
                        invariant
                            unit_kept(*old(unit), *unit),
                            links_in(values@, unit.n_links()),
                            start < 64,
                            end < 64,
                            bits@ == range_seq(start as usize, end as usize),
                            j <= bits@.len(),
                        decreases bits@.len() - j,
                    {
                        let i = bits[j];
                        assert(i < 64);
                        let bit = (val >> (i as u64)) & 1 == 1;
                        let v = unit.get_constant(bit);
                        values.push(v);
                        j += 1;
                    }
                    k += 1;
                }
                Ok(())
            },
            Token::TokParenOpen => {
                let (elename, params, inputs) = self.get_element(root, unit)?;
                match self.get_token() {
                    Token::TokParenClose => {},
                    _ => {
                        return Err(err("Expected TokParenClose after sub-element"));
                    },
                }
                let ll = unit.append_element(root, elename.as_str(), params, inputs, None)?;
                append_links(values, &ll);
                Ok(())
            },
            _ => Err(err("Expected a wire, group, literal or element when parsing a value")),
        }
    }

    /// Read a comma-separated list of values.
    pub fn get_value_list(&mut self, root: &Root, unit: &mut Unit) -> (r: Result<LinkList, String>)
        requires
            lexer_ok(old(self)),
            old(unit).wf(),
        ensures
            lexer_ok(final(self)),
            final(self).lexer.chars == old(self).lexer.chars,
            final(self).lexer.measure() <= old(self).lexer.measure(),
            r is Ok ==> final(self).lexer.measure() < old(self).lexer.measure()
                && links_in(r->Ok_0@, final(unit).n_links()),
            unit_kept(*old(unit), *final(unit)),
        decreases old(self).lexer.measure(), 2int,
    {
        let mut values: LinkList = Vec::new();
        self.get_value(&mut values, root, unit)?;
        loop
            invariant
                lexer_ok(self),
                self.lexer.chars == old(self).lexer.chars,
                self.lexer.measure() < old(self).lexer.measure(),
                unit_kept(*old(unit), *unit),
                links_in(values@, unit.n_links()),
            decreases self.lexer.measure(),
        {
            let tok = self.get_token();
            match tok {
                Token::TokComma => {
                    self.get_value(&mut values, root, unit)?;
                },
                _ => {
                    self.put_back(tok);
                    return Ok(values);
                },
            }
        }
    }

    /// Read an element: `NAME{params} inputs`.
    pub fn get_element(&mut self, root: &Root, unit: &mut Unit) -> (r: Result<(String, Vec<u64>, LinkList), String>)
        requires
            lexer_ok(old(self)),
            old(unit).wf(),
        ensures
            lexer_ok(final(self)),
            final(self).lexer.chars == old(self).lexer.chars,
            final(self).lexer.measure() <= old(self).lexer.measure(),
            r is Ok ==> final(self).lexer.measure() < old(self).lexer.measure()
                && links_in(r->Ok_0.2@, final(unit).n_links()),
            unit_kept(*old(unit), *final(unit)),
        decreases old(self).lexer.measure(), 0int,
    {
        let ident = match self.get_token() {
            Token::TokIdent(x) => x,
            _ => {
                return Err(err("Expected an element name"));
            },
        };
        let mut params: Vec<u64> = Vec::new();
        match self.look_ahead() {
            Token::TokBraceOpen => {
                self.get_token();
                loop
                    invariant
                        lexer_ok(self),
                        self.lexer.chars == old(self).lexer.chars,
                        self.lexer.measure() < old(self).lexer.measure(),
                        *unit == *old(unit),
                        old(unit).wf(),
                    decreases self.lexer.measure(),
                {
                    let p = self.get_numeric()?;
                    params.push(p);
                    let tok = self.get_token();
                    match tok {
                        Token::TokComma => {},
                        _ => {
                            self.put_back(tok);
                            break;
                        },
                    }
                }
                match self.get_token() {
                    Token::TokBraceClose => {},
                    _ => {
                        return Err(err("Expected brace close after parameters"));
                    },
                }
            },
            _ => {},
        }
        let inputs = self.get_value_list(root, unit)?;
        Ok((ident, params, inputs))
    }
}

impl Parser {
    /// Read the wires of an `#input` or `#output` list: `$w` wires and `@g[size]` groups,
    /// which are declared here.
    pub fn get_connections(&mut self, unit: &mut Unit) -> (r: Result<LinkList, String>)
        requires
            lexer_ok(old(self)),
            old(unit).wf(),
        ensures
            lexer_ok(final(self)),
            final(self).lexer.chars == old(self).lexer.chars,
            final(self).lexer.measure() <= old(self).lexer.measure(),
            r is Ok ==> final(self).lexer.measure() < old(self).lexer.measure()
                && links_in(r->Ok_0@, final(unit).n_links()),
            unit_kept(*old(unit), *final(unit)),
    {
        let mut ret: LinkList = Vec::new();
        loop
            invariant
                lexer_ok(self),
                self.lexer.chars == old(self).lexer.chars,
                self.lexer.measure() <= old(self).lexer.measure(),
                unit_kept(*old(unit), *unit),
                links_in(ret@, unit.n_links()),
            decreases self.lexer.measure(),
        {
            match self.get_token() {
                Token::TokLine(name) => {
                    let l = unit.get_link(name.as_str());
                    ret.push(l);
                },
                Token::TokGroup(name) => {
                    match self.get_token() {
                        Token::TokSqOpen => {},
                        _ => {
                            return Err(err("Expected TokSqOpen after group in connection list"));
                        },
                    }
                    let size = self.get_numeric()?;
                    match self.get_token() {
                        Token::TokSqClose => {},
                        _ => {
                            return Err(err("Expected TokSqClose after group in connection list"));
                        },
                    }
                    if size > 0xffff_ffff {
                        return Err(err("Group too large"));
                    }
                    if unit.make_group(&name, size as usize) {
                        return Err(err("Group is already defined"));
                    }
                    if size > 0 {
                        match unit.get_group_range(&name, 0, (size - 1) as usize) {
                            Some(r) => append_links(&mut ret, &r),
                            None => {},
                        }
                    }
                },
                _ => {
                    return Err(err("Expected TokLine or TokGroup in connection list"));
                },
            }
            let comma = self.get_token();
            match comma {
                Token::TokComma => {},
                _ => {
                    self.put_back(comma);
                    return Ok(ret);
                },
            }
        }
    }

    /// A body line: `<outs> = ELEMENT <ins>`, `ELEMENT <ins>` (fresh outputs), or
    /// `<outs> = <ins>`, which binds each output wire to the input wire at its position.
    pub fn do_line(&mut self, root: &Root, unit: &mut Unit) -> (r: Result<(), String>)
        requires
            lexer_ok(old(self)),
            old(unit).wf(),
        ensures
            lexer_ok(final(self)),
            final(self).lexer.chars == old(self).lexer.chars,
            final(self).lexer.measure() <= old(self).lexer.measure(),
            r is Ok ==> final(self).lexer.measure() < old(self).lexer.measure(),
            unit_kept(*old(unit), *final(unit)),
    {
        let outputs: Option<LinkList> = match self.look_ahead() {
            Token::TokIdent(_) => None,
            _ => {
                let v = self.get_value_list(root, unit)?;
                match self.get_token() {
                    Token::TokAssign => {},
                    _ => {
                        return Err(err("Expected TokAssign"));
                    },
                }
                Some(v)
            },
        };
        match self.look_ahead() {
            Token::TokIdent(_) => {
                let (name, params, inputs) = self.get_element(root, unit)?;
                match self.get_token() {
                    Token::TokNewline => {},
                    _ => {
                        return Err(err("Expected newline after element descriptor"));
                    },
                }
                unit.append_element(root, name.as_str(), params, inputs, outputs)?;
                Ok(())
            },
            _ => {
                let outs = match outputs {
                    Some(o) => o,
                    None => Vec::new(),
                };
                let inputs = self.get_value_list(root, unit)?;
                match self.get_token() {
                    Token::TokNewline => {},
                    _ => {
                        return Err(err("Expected newline after rename descriptor"));
                    },
                }
                if outs.len() != inputs.len() {
                    return Err(err("Left and right counts don't match when binding"));
                }
                let mut i: usize = 0;
                while i < outs.len()
                    invariant
                        lexer_ok(self),
                        self.lexer.chars == old(self).lexer.chars,
                        self.lexer.measure() < old(self).lexer.measure(),
                        unit_kept(*old(unit), *unit),
                        links_in(outs@, unit.n_links()),
                        links_in(inputs@, unit.n_links()),
                        outs@.len() == inputs@.len(),
                        i <= outs@.len(),
                    decreases outs@.len() - i,
                {
                    unit.bind(&outs[i], &inputs[i])?;
                    i += 1;
                }
                Ok(())
            },
        }
    }
}

/// The hex words of `s[i..]`, separated by spaces, when `cur` holds the value of a word
/// begun before `i`; `None` when a character is neither a space nor a hex digit, or a word
/// reaches 2^64.
pub open spec fn hex_words(s: Seq<char>, i: int, cur: Option<nat>) -> Option<Seq<u64>>
    decreases s.len() - i,
{
    if i >= s.len() || i < 0 {
        match cur {
            None => Some(Seq::empty()),
            Some(v) => Some(seq![v as u64]),
        }
    } else if s[i] == ' ' {
        match cur {
            None => hex_words(s, i + 1, None),
            Some(v) => match hex_words(s, i + 1, None) {
                None => None,
                Some(rest) => Some(seq![v as u64] + rest),
            },
        }
    } else {
        match crate::lex::digit_val(s[i], 16) {
            None => None,
            Some(d) => {
                let v = match cur {
                    None => 0nat,
                    Some(v) => v,
                };
                if v > 0x0fff_ffff_ffff_ffff {
                    None
                } else {
                    hex_words(s, i + 1, Some(v * 16 + d as nat))
                }
            },
        }
    }
}

/// The hex words of `s`, separated by spaces, each below 2^64.
pub fn parse_hex_words(s: &String) -> (r: Result<Vec<u64>, String>)
    ensures
        match hex_words(s@, 0, None) {
            Some(w) => r is Ok && r->Ok_0@ == w,
            None => r is Err,
        },
{
    let n = s.as_str().unicode_len();
    let mut out: Vec<u64> = Vec::new();
    let mut cur: Option<u64> = None;
    let mut i: usize = 0;
    let ghost whole = hex_words(s@, 0, None);
    while i < n
        invariant
            n == s@.len(),
            i <= n,
            whole == hex_words(s@, 0, None),
            whole == match hex_words(s@, i as int, match cur { None => None, Some(v) => Some(v as nat) }) {
                None => None,
                Some(rest) => Some(out@ + rest),
            },
        decreases n - i,
    {
        let c = s.as_str().get_char(i);
        if c == ' ' {
            match cur {
                None => {},
                Some(v) => {
                    let ghost before = out@;
                    out.push(v);
                    proof {
                        match hex_words(s@, i + 1, None) {
                            None => {},
                            Some(rest) => {
                                assert(before + (seq![v] + rest) =~= out@ + rest);
                            },
                        }
                    }
                },
            }
            cur = None;
        } else {
            match digit_value(c, 16) {
                Some(d) => {
                    let v = match cur {
                        None => 0,
                        Some(v) => v,
                    };
                    if v > 0x0fff_ffff_ffff_ffff {
                        return Err(err("Hex word too large"));
                    }
                    cur = Some(v * 16 + d);
                },
                None => {
                    return Err(err("Invalid hex digit"));
                },
            }
        }
        i += 1;
    }
    match cur {
        None => {
            assert(out@ + Seq::<u64>::empty() =~= out@);
        },
        Some(v) => {
            out.push(v);
        },
    }
    Ok(out)
}

/// Where the statements being parsed go: the root unit, a unit, or a test.
#[derive(Clone, Copy, PartialEq, Eq, Structural, Debug)]
pub enum Cur {
    Root,
    Unit(usize),
    Test(usize),
}

pub open spec fn valid_cur(root: &Root, cur: Cur) -> bool {
    match cur {
        Cur::Root => true,
        Cur::Unit(i) => i < root.units@.len(),
        Cur::Test(i) => i < root.tests@.len(),
    }
}

pub open spec fn unit_slot(cur: Cur, i: int) -> bool {
    match cur {
        Cur::Unit(j) => j as int == i,
        _ => false,
    }
}

pub open spec fn test_slot(cur: Cur, i: int) -> bool {
    match cur {
        Cur::Test(j) => j as int == i,
        _ => false,
    }
}

/// The unit that `cur` names.
pub open spec fn slot(root: &Root, cur: Cur) -> Unit {
    match cur {
        Cur::Root => root.rootunit,
        Cur::Unit(i) => root.units@[i as int],
        Cur::Test(i) => root.tests@[i as int].test.unit,
    }
}

/// The root is well formed but for the unit that `cur` names, and a unit of at least `n`
/// wires fits the test there.
pub open spec fn wf_except(root: &Root, cur: Cur, n: nat) -> bool {
    &&& cur != Cur::Root ==> root.rootunit.wf()
    &&& forall|i: int| 0 <= i < root.units@.len() && !unit_slot(cur, i) ==> (#[trigger] root.units@[i]).wf()
    &&& forall|i: int| 0 <= i < root.tests@.len() && !test_slot(cur, i) ==> (#[trigger] root.tests@[i]).test.wf()
    &&& forall|i: int| 0 <= i < root.flat_units@.len() ==> (#[trigger] root.flat_units@[i]).mesh.wf()
    &&& forall|i: int| 0 <= i < root.flat_tests@.len() ==> (#[trigger] root.flat_tests@[i]).test.wf()
    &&& match cur {
        Cur::Test(t) => {
            let test = root.tests@[t as int].test;
            &&& links_in(test.completion@, n)
            &&& forall|a: int| 0 <= a < test.assertions@.len() ==> {
                &&& links_in((#[trigger] test.assertions@[a]).conditions@, n)
                &&& links_in(test.assertions@[a].values@, n)
                &&& links_in(test.assertions@[a].expected@, n)
            }
        },
        _ => true,
    }
}

/// Take the unit that `cur` names out of the root, leaving an empty one.
fn take_unit(root: &mut Root, cur: Cur) -> (u: Unit)
    requires
        old(root).wf(),
        valid_cur(old(root), cur),
    ensures
        u == slot(old(root), cur),
        u.wf(),
        wf_except(final(root), cur, u.n_links()),
        valid_cur(final(root), cur),
        final(root).units@.len() == old(root).units@.len(),
        final(root).tests@.len() == old(root).tests@.len(),
{
    let mut u = Unit::new(String::new());
    match cur {
        Cur::Root => std::mem::swap(&mut root.rootunit, &mut u),
        Cur::Unit(i) => std::mem::swap(&mut root.units[i], &mut u),
        Cur::Test(i) => std::mem::swap(&mut root.tests[i].test.unit, &mut u),
    }
    proof {
        match cur {
            Cur::Test(t) => {
                assert(old(root).tests@[t as int].test.wf());
            },
            Cur::Unit(t) => {
                assert(old(root).units@[t as int].wf());
            },
            _ => {},
        }
        assert forall|i: int| 0 <= i < root.units@.len() && !unit_slot(cur, i) implies (#[trigger] root.units@[i]).wf() by {
            assert(old(root).units@[i].wf());
        }
        assert forall|i: int| 0 <= i < root.tests@.len() && !test_slot(cur, i) implies (#[trigger] root.tests@[i]).test.wf() by {
            assert(old(root).tests@[i].test.wf());
        }
    }
    u
}

/// Put a unit back where `cur` names.
fn put_unit(root: &mut Root, cur: Cur, u: Unit, n: Ghost<nat>)
    requires
        wf_except(old(root), cur, n@),
        valid_cur(old(root), cur),
        u.wf(),
        u.n_links() >= n@,
    ensures
        final(root).wf(),
        slot(final(root), cur) == u,
        final(root).units@.len() == old(root).units@.len(),
        final(root).tests@.len() == old(root).tests@.len(),
{
    let mut u = u;
    match cur {
        Cur::Root => std::mem::swap(&mut root.rootunit, &mut u),
        Cur::Unit(i) => std::mem::swap(&mut root.units[i], &mut u),
        Cur::Test(i) => std::mem::swap(&mut root.tests[i].test.unit, &mut u),
    }
    proof {
        assert forall|i: int| 0 <= i < root.units@.len() implies (#[trigger] root.units@[i]).wf() by {
            if !unit_slot(cur, i) {
                assert(old(root).units@[i].wf());
                assert(root.units@[i] == old(root).units@[i]);
            }
        }
        assert forall|i: int| 0 <= i < root.tests@.len() implies (#[trigger] root.tests@[i]).test.wf() by {
            if !test_slot(cur, i) {
                assert(old(root).tests@[i].test.wf());
                assert(root.tests@[i] == old(root).tests@[i]);
            } else {
                let t = root.tests@[i].test;
                assert(t.assertions == old(root).tests@[i].test.assertions);
                assert(t.completion == old(root).tests@[i].test.completion);
                assert forall|a: int| 0 <= a < t.assertions@.len() implies {
                    &&& links_in((#[trigger] t.assertions@[a]).conditions@, t.unit.n_links())
                    &&& links_in(t.assertions@[a].values@, t.unit.n_links())
                    &&& links_in(t.assertions@[a].expected@, t.unit.n_links())
                } by {
                    assert(links_in(t.assertions@[a].conditions@, n@));
                }
            }
        }
    }
}

impl Parser {
    fn expect_string(&mut self, msg: &str) -> (r: Result<String, String>)
        requires
            lexer_ok(old(self)),
        ensures
            lexer_ok(final(self)),
            final(self).lexer.chars == old(self).lexer.chars,
            final(self).lexer.measure() <= old(self).lexer.measure(),
    {
        match self.get_token() {
            Token::TokString(x) => Ok(x),
            _ => Err(err(msg)),
        }
    }

    fn expect_ident(&mut self, msg: &str) -> (r: Result<String, String>)
        requires
            lexer_ok(old(self)),
        ensures
            lexer_ok(final(self)),
            final(self).lexer.chars == old(self).lexer.chars,
            final(self).lexer.measure() <= old(self).lexer.measure(),
    {
        match self.get_token() {
            Token::TokIdent(x) => Ok(x),
            _ => Err(err(msg)),
        }
    }

    /// A meta-operation `#name ...` (after its token): unit and test scopes, boundary and
    /// group declarations, ROM data, test completion and assertions, display items and
    /// breakpoints, and blocks.
    pub fn handle_meta(&mut self, root: &mut Root, cur: &mut Cur, name: &String) -> (r: Result<(), String>)
        requires
            lexer_ok(old(self)),
            old(root).wf(),
            valid_cur(old(root), *old(cur)),
        ensures
            lexer_ok(final(self)),
            final(self).lexer.chars == old(self).lexer.chars,
            final(self).lexer.measure() <= old(self).lexer.measure(),
            r is Ok ==> final(root).wf() && valid_cur(final(root), *final(cur)),
    {
        let op = name.as_str();
        if str_equal(op, "defunit") {
            let unitname = self.expect_ident("Expected a unit name after #defunit")?;
            self.expect_newline("Expected newline after #defunit")?;
            match root.add_unit(unitname) {
                Ok(_) => {},
                Err(_) => {
                    return Err(err("Redefinition of a unit"));
                },
            }
            *cur = Cur::Unit(root.units.len() - 1);
            assert(root.wf());
            Ok(())
        } else if str_equal(op, "input") || str_equal(op, "output") {
            let c = *cur;
            let mut u = take_unit(root, c);
            let ghost n = u.n_links();
            let conns = self.get_connections(&mut u)?;
            self.expect_newline("Expected newline after connection list")?;
            let again = if str_equal(op, "input") { u.set_input(conns) } else { u.set_output(conns) };
            put_unit(root, c, u, Ghost(n));
            if again {
                return Err(err("Redefinition of a unit boundary"));
            }
            Ok(())
        } else if str_equal(op, "array") {
            let gname = self.expect_ident("Expected group name after #array")?;
            let size = self.get_numeric()?;
            self.expect_newline("Expected newline after group definition")?;
            if size > 0xffff_ffff {
                return Err(err("Group too large"));
            }
            let c = *cur;
            let mut u = take_unit(root, c);
            let ghost n = u.n_links();
            let again = u.make_group(&gname, size as usize);
            put_unit(root, c, u, Ghost(n));
            if again {
                return Err(err("Group is already defined"));
            }
            Ok(())
        } else if str_equal(op, "rom_data_hex") {
            let index = self.get_numeric()?;
            let mut words: Vec<u64> = Vec::new();
            loop
                invariant
                    lexer_ok(self),
                    self.lexer.chars == old(self).lexer.chars,
                    self.lexer.measure() <= old(self).lexer.measure(),
                    *root == *old(root),
                decreases self.lexer.measure(),
            {
                match self.get_token() {
                    Token::TokString(v) => {
                        let w = parse_hex_words(&v)?;
                        let mut k: usize = 0;
                        while k < w.len()
                            invariant
                                k <= w@.len(),
                            decreases w@.len() - k,
                        {
                            words.push(w[k]);
                            k += 1;
                        }
                    },
                    Token::TokNewline => {
                        break;
                    },
                    _ => {
                        return Err(err("Expected newline after ROM data"));
                    },
                }
            }
            let c = *cur;
            let mut u = take_unit(root, c);
            let ghost n = u.n_links();
            u.set_rom_data(index, words);
            put_unit(root, c, u, Ghost(n));
            Ok(())
        } else if str_equal(op, "endunit") || str_equal(op, "endtestcase") {
            self.expect_newline("Expected newline after the end of a scope")?;
            *cur = Cur::Root;
            Ok(())
        } else if str_equal(op, "testcase") {
            let limit = match self.get_token() {
                Token::TokNumber(v) => v,
                _ => {
                    return Err(err("Expected number after #testcase"));
                },
            };
            let tname = self.expect_string("Expected test name after execution limit")?;
            self.expect_newline("Expected newline after test case definition")?;
            match root.add_test(tname, #[verifier::truncate] (limit as u32)) {
                Ok(_) => {},
                Err(_) => {
                    return Err(err("Redefinition of a test"));
                },
            }
            *cur = Cur::Test(root.tests.len() - 1);
            assert(root.wf());
            Ok(())
        } else if str_equal(op, "testcomplete") || str_equal(op, "testassert") {
            let t = match *cur {
                Cur::Test(t) => t,
                _ => {
                    return Err(err("Test statement outside of a test"));
                },
            };
            let line = self.lexer.curline();
            let c = *cur;
            let mut u = take_unit(root, c);
            let ghost n = u.n_links();
            let conditions = self.get_value_list(root, &mut u)?;
            if str_equal(op, "testassert") {
                let values = self.get_value_list(root, &mut u)?;
                let expected = self.get_value_list(root, &mut u)?;
                self.expect_newline("Expected newline after test statement")?;
                put_unit(root, c, u, Ghost(n));
                let ghost before = *root;
                root.tests[t].test.add_assert(line, conditions, values, expected);
                proof {
                    assert forall|i: int| 0 <= i < root.tests@.len() implies (#[trigger] root.tests@[i]).test.wf() by {
                        if i != t {
                            assert(root.tests@[i] == before.tests@[i]);
                        }
                    }
                }
            } else {
                self.expect_newline("Expected newline after test statement")?;
                put_unit(root, c, u, Ghost(n));
                let ghost before = *root;
                root.tests[t].test.set_completion(conditions);
                proof {
                    assert forall|i: int| 0 <= i < root.tests@.len() implies (#[trigger] root.tests@[i]).test.wf() by {
                        if i != t {
                            assert(root.tests@[i] == before.tests@[i]);
                        }
                    }
                }
            }
            Ok(())
        } else if str_equal(op, "display") || str_equal(op, "breakpoint") {
            let c = *cur;
            let mut u = take_unit(root, c);
            let ghost n = u.n_links();
            let conditions = self.get_value_list(root, &mut u)?;
            let text = self.expect_string("Expected a string after the conditions")?;
            if str_equal(op, "display") {
                let values = self.get_value_list(root, &mut u)?;
                self.expect_newline("Expected newline after values in #display")?;
                u.append_display(conditions, text, values);
            } else {
                self.expect_newline("Expected newline after name in #breakpoint")?;
                u.append_breakpoint(text, conditions);
            }
            put_unit(root, c, u, Ghost(n));
            Ok(())
        } else if str_equal(op, "block") {
            self.expect_string("Expected block name after #block")?;
            self.expect_newline("Expected newline after name in #block")
        } else if str_equal(op, "endblock") {
            self.expect_newline("Expected newline after #endblock")
        } else {
            Err(err("Unknown meta-op"))
        }
    }
}

/// Parse a circuit description (already preprocessed) into a circuit. An error message names
/// the file and line where parsing stopped.
pub fn parse_source(chars: Vec<char>, filename: &str) -> (r: Result<Root, String>)
    ensures
        r is Ok ==> r->Ok_0.wf(),
        chars@.len() == 0 ==> r is Ok && r->Ok_0.units@.len() == 0 && r->Ok_0.tests@.len() == 0,
{
    let ghost empty = chars@.len() == 0;
    let mut parser = Parser::new(Lexer::new(chars, filename));
    let mut root = Root::new();
    let mut cur = Cur::Root;
    loop
        invariant
            lexer_ok(&parser),
            root.wf(),
            valid_cur(&root, cur),
            empty == (chars@.len() == 0),
            empty ==> parser.lexer.chars@.len() == 0 && parser.lexer.saved_tok is None
                && root.units@.len() == 0 && root.tests@.len() == 0,
        decreases parser.lexer.measure(),
    {
        proof {
            if empty {
                reveal(crate::lex::lex_one);
            }
        }
        let tok = parser.get_token();
        let res = match tok {
            Token::TokNewline => Ok(()),
            Token::TokEof => {
                return Ok(root);
            },
            Token::TokMetaOp(name) => parser.handle_meta(&mut root, &mut cur, &name),
            _ => {
                parser.put_back(tok);
                let c = cur;
                let mut u = take_unit(&mut root, c);
                let ghost n = u.n_links();
                let res = parser.do_line(&root, &mut u);
                if res.is_ok() {
                    put_unit(&mut root, c, u, Ghost(n));
                }
                res
            },
        };
        match res {
            Ok(()) => {},
            Err(msg) => {
                let mut full = copy_text(&parser.lexer.filename);
                full.append(":");
                push_decimal(&mut full, parser.lexer.line as usize);
                full.append(": ");
                full.append(msg.as_str());
                return Err(full);
            },
        }
    }
}

fn copy_text(s: &String) -> (r: String)
    ensures
        r@ == s@,
{
    s.clone()
}

} // verus!
