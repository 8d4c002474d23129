use vstd::prelude::*;
use crate::text::push_char;

verus! {

/// A token of a regular expression in postfix order.
#[derive(PartialEq, Eq, Structural, Clone, Copy, Debug)]
pub enum Token {
    Literal(char),
    Concat,
    Alt,
    Star,
}

/// The reason a regular expression has no postfix form.
#[derive(PartialEq, Eq, Structural, Clone, Copy, Debug)]
pub enum SyntaxError {
    /// A `)` with no `(` before it.
    UnmatchedClose,
    /// A `(` that is never closed.
    UnmatchedOpen,
}

/// An entry of the operator stack of the translator.
#[derive(PartialEq, Eq, Structural, Clone, Copy, Debug)]
pub enum Op {
    Open,
    Concat,
    Alt,
    Star,
}

/// Letters and digits are literal symbols.
pub open spec fn is_literal(c: char) -> bool {
    ('a' <= c && c <= 'z') || ('A' <= c && c <= 'Z') || ('0' <= c && c <= '9')
}

/// Operator precedence; an open parenthesis is only a floor.
pub open spec fn prec(op: Op) -> int {
    match op {
        Op::Open => 0,
        Op::Concat => 2,
        Op::Alt => 1,
        Op::Star => 3,
    }
}

/// The token an operator is emitted as.
pub open spec fn op_token(op: Op) -> Token {
    match op {
        Op::Concat => Token::Concat,
        Op::Alt => Token::Alt,
        _ => Token::Star,
    }
}

/// Pops and emits every operator on top of the stack whose precedence is at least `p`,
/// stopping at an open parenthesis.
pub open spec fn pop_while(out: Seq<Token>, stack: Seq<Op>, p: int) -> (Seq<Token>, Seq<Op>)
    decreases stack.len(),
{
    if stack.len() == 0 || stack.last() == Op::Open || prec(stack.last()) < p {
        (out, stack)
    } else {
        pop_while(out.push(op_token(stack.last())), stack.drop_last(), p)
    }
}

/// Pops and emits operators down to the nearest open parenthesis, which is discarded.
pub open spec fn pop_to_open(out: Seq<Token>, stack: Seq<Op>) -> Option<(Seq<Token>, Seq<Op>)>
    decreases stack.len(),
{
    if stack.len() == 0 {
        None
    } else if stack.last() == Op::Open {
        Some((out, stack.drop_last()))
    } else {
        pop_to_open(out.push(op_token(stack.last())), stack.drop_last())
    }
}

/// Pops and emits all operators; fails on a remaining open parenthesis.
pub open spec fn pop_all(out: Seq<Token>, stack: Seq<Op>) -> Option<Seq<Token>>
    decreases stack.len(),
{
    if stack.len() == 0 {
        Some(out)
    } else if stack.last() == Op::Open {
        None
    } else {
        pop_all(out.push(op_token(stack.last())), stack.drop_last())
    }
}

/// The translator's state: output so far, operator stack, and whether the last
/// token can end an operand.
pub type ShuntState = (Seq<Token>, Seq<Op>, bool);

/// Inserts the implicit concatenation operator when the previous token ends an operand.
pub open spec fn implicit_concat(st: ShuntState) -> ShuntState {
    if st.2 {
        let (o, s) = pop_while(st.0, st.1, 2);
        (o, s.push(Op::Concat), st.2)
    } else {
        st
    }
}

/// One character of input.
pub open spec fn shunt_step(st: ShuntState, c: char) -> Result<ShuntState, SyntaxError> {
    if is_literal(c) {
        let t = implicit_concat(st);
        Ok((t.0.push(Token::Literal(c)), t.1, true))
    } else if c == '(' {
        let t = implicit_concat(st);
        Ok((t.0, t.1.push(Op::Open), false))
    } else if c == ')' {
        match pop_to_open(st.0, st.1) {
            Some((o, s)) => Ok((o, s, true)),
            None => Err(SyntaxError::UnmatchedClose),
        }
    } else if c == '*' {
        let (o, s) = pop_while(st.0, st.1, 3);
        Ok((o, s.push(Op::Star), true))
    } else if c == '|' {
        let (o, s) = pop_while(st.0, st.1, 1);
        Ok((o, s.push(Op::Alt), false))
    } else {
        Ok(st)
    }
}

/// The translator's state after reading all of `s`.
pub open spec fn shunt_run(s: Seq<char>) -> Result<ShuntState, SyntaxError>
    decreases s.len(),
{
    if s.len() == 0 {
        Ok((Seq::empty(), Seq::empty(), false))
    } else {
        match shunt_run(s.drop_last()) {
            Ok(st) => shunt_step(st, s.last()),
            Err(e) => Err(e),
        }
    }
}

/// The postfix form of the infix expression `s`.
pub open spec fn postfix_of(s: Seq<char>) -> Result<Seq<Token>, SyntaxError> {
    match shunt_run(s) {
        Ok(st) => match pop_all(st.0, st.1) {
            Some(o) => Ok(o),
            None => Err(SyntaxError::UnmatchedOpen),
        },
        Err(e) => Err(e),
    }
}

fn is_literal_char(c: char) -> (r: bool)
    ensures
        r == is_literal(c),
{
    ('a' <= c && c <= 'z') || ('A' <= c && c <= 'Z') || ('0' <= c && c <= '9')
}

fn prec_of(op: Op) -> (r: u8)
    ensures
        r as int == prec(op),
{
    match op {
        Op::Open => 0,
        Op::Concat => 2,
        Op::Alt => 1,
        Op::Star => 3,
    }
}

fn token_of(op: Op) -> (r: Token)
    ensures
        r == op_token(op),
{
    match op {
        Op::Concat => Token::Concat,
        Op::Alt => Token::Alt,
        _ => Token::Star,
    }
}

fn pop_while_exec(out: &mut Vec<Token>, stack: &mut Vec<Op>, p: u8)
    ensures
        (final(out)@, final(stack)@) == pop_while(old(out)@, old(stack)@, p as int),
{
    while stack.len() > 0 && stack[stack.len() - 1] != Op::Open && prec_of(stack[stack.len() - 1]) >= p
        invariant
            pop_while(out@, stack@, p as int) == pop_while(old(out)@, old(stack)@, p as int),
        decreases stack.len(),
    {
        let op = stack.pop().unwrap();
        out.push(token_of(op));
    }
}

fn pop_to_open_exec(out: &mut Vec<Token>, stack: &mut Vec<Op>) -> (found: bool)
    ensures
        found <==> pop_to_open(old(out)@, old(stack)@) is Some,
        found ==> pop_to_open(old(out)@, old(stack)@) == Some((final(out)@, final(stack)@)),
{
    loop
        invariant
            pop_to_open(out@, stack@) == pop_to_open(old(out)@, old(stack)@),
        decreases stack.len(),
    {
        match stack.pop() {
            None => return false,
            Some(Op::Open) => return true,
            Some(op) => out.push(token_of(op)),
        }
    }
}

fn pop_all_exec(out: &mut Vec<Token>, stack: &mut Vec<Op>) -> (ok: bool)
    ensures
        ok <==> pop_all(old(out)@, old(stack)@) is Some,
        ok ==> pop_all(old(out)@, old(stack)@) == Some(final(out)@),
{
    loop
        invariant
            pop_all(out@, stack@) == pop_all(old(out)@, old(stack)@),
        decreases stack.len(),
    {
        match stack.pop() {
            None => return true,
            Some(Op::Open) => return false,
            Some(op) => out.push(token_of(op)),
        }
    }
}

fn push_implicit_concat(out: &mut Vec<Token>, stack: &mut Vec<Op>, can_end: bool)
    ensures
        (final(out)@, final(stack)@, can_end) == implicit_concat((old(out)@, old(stack)@, can_end)),
{
    if can_end {
        pop_while_exec(out, stack, 2);
        stack.push(Op::Concat);
    }
}

/// Rewrites an infix regular expression into postfix order. Letters and digits are
/// literals, juxtaposition is concatenation, `|` alternation, `*` Kleene star, and
/// parentheses group; any other character is ignored.
pub fn translate_to_postfix(expression: &str) -> (r: Result<Vec<Token>, SyntaxError>)
    ensures
        match r {
            Ok(v) => postfix_of(expression@) == Ok::<Seq<Token>, SyntaxError>(v@),
            Err(e) => postfix_of(expression@) == Err::<Seq<Token>, SyntaxError>(e),
        },
{
    let n = expression.unicode_len();
    let mut out: Vec<Token> = Vec::new();
    let mut stack: Vec<Op> = Vec::new();
    let mut can_end = false;
    let mut i: usize = 0;
    while i < n
        invariant
            n == expression@.len(),
            i <= n,
            shunt_run(expression@.subrange(0, i as int)) == Ok::<ShuntState, SyntaxError>(
                (out@, stack@, can_end),
            ),
        decreases n - i,
    {
        let c = expression.get_char(i);
        proof {
            let s = expression@.subrange(0, i as int + 1);
            assert(s.drop_last() =~= expression@.subrange(0, i as int));
            assert(s.last() == c);
        }
        if is_literal_char(c) {
            push_implicit_concat(&mut out, &mut stack, can_end);
            out.push(Token::Literal(c));
            can_end = true;
        } else if c == '(' {
            push_implicit_concat(&mut out, &mut stack, can_end);
            stack.push(Op::Open);
            can_end = false;
        } else if c == ')' {
            if !pop_to_open_exec(&mut out, &mut stack) {
                proof {
                    assert(expression@.subrange(0, i as int + 1) =~= expression@.subrange(0, i as int + 1));
                    lemma_run_error_stays(expression@, i as int + 1);
                }
                return Err(SyntaxError::UnmatchedClose);
            }
            can_end = true;
        } else if c == '*' {
            pop_while_exec(&mut out, &mut stack, 3);
            stack.push(Op::Star);
            can_end = true;
        } else if c == '|' {
            pop_while_exec(&mut out, &mut stack, 1);
            stack.push(Op::Alt);
            can_end = false;
        }
        i += 1;
    }
    assert(expression@.subrange(0, n as int) =~= expression@);
    if pop_all_exec(&mut out, &mut stack) {
        Ok(out)
    } else {
        Err(SyntaxError::UnmatchedOpen)
    }
}

/// Once the prefix of length `k` fails, the whole input fails with the same error.
proof fn lemma_run_error_stays(s: Seq<char>, k: int)
    requires
        0 <= k <= s.len(),
        shunt_run(s.subrange(0, k)) is Err,
    ensures
        shunt_run(s) == shunt_run(s.subrange(0, k)),
    decreases s.len() - k,
{
    if k < s.len() {
        let t = s.subrange(0, k + 1);
        assert(t.drop_last() =~= s.subrange(0, k));
        lemma_run_error_stays(s, k + 1);
    } else {
        assert(s.subrange(0, k) =~= s);
    }
}


/// The character that writes a token: the literal itself, `.` for concatenation.
pub open spec fn token_char(t: Token) -> char {
    match t {
        Token::Literal(c) => c,
        Token::Concat => '.',
        Token::Alt => '|',
        Token::Star => '*',
    }
}

/// Writes a postfix token sequence as text, one character per token.
pub fn tokens_to_string(tokens: &Vec<Token>) -> (r: String)
    ensures
        r@ == tokens@.map_values(|t: Token| token_char(t)),
{
    let mut r = String::new();
    let mut i: usize = 0;
    while i < tokens.len()
        invariant
            i <= tokens@.len(),
            r@ == tokens@.subrange(0, i as int).map_values(|t: Token| token_char(t)),
        decreases tokens.len() - i,
    {
        let c = match tokens[i] {
            Token::Literal(c) => c,
            Token::Concat => '.',
            Token::Alt => '|',
            Token::Star => '*',
        };
        push_char(&mut r, c);
        i += 1;
        assert(r@ =~= tokens@.subrange(0, i as int).map_values(|t: Token| token_char(t)));
    }
    assert(tokens@.subrange(0, i as int) =~= tokens@);
    r
}

} // verus!
