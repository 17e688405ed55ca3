use combine::error::Format;
use combine::parser::char::{char, digit, spaces};
use combine::parser::function::parser;
use combine::stream::PointerOffset;
use combine::{
    attempt, chainl1, choice, eof, many1, optional, position, unexpected_any, value, EasyParser,
    Parser, StdParseResult, Stream, StreamOnce,
};
use feather_repl::ast::{Expr, LitComponent};
use feather_repl::parser::parse_line;

type Pos = PointerOffset<str>;

/// An expression with positions as the combinators give them.
enum Node {
    Literal(LitComponent, Pos, Pos),
    Binary(char, Box<Node>, Box<Node>, Pos, Pos),
    Paren(Box<Node>, Pos, Pos),
    NegParen(Box<Node>, Pos, Pos),
}

impl Node {
    fn expr(self, s: &str) -> Expr {
        let range = |l: Pos, r: Pos| l.translate_position(s)..r.translate_position(s);
        match self {
            Node::Literal(lit, l, r) => Expr::Literal(lit, range(l, r)),
            Node::Binary(op, a, b, l, r) => {
                let (a, b) = (Box::new(a.expr(s)), Box::new(b.expr(s)));
                match op {
                    '*' => Expr::Mul(a, b, range(l, r)),
                    '/' => Expr::Div(a, b, range(l, r)),
                    '+' => Expr::Add(a, b, range(l, r)),
                    _ => Expr::Sub(a, b, range(l, r)),
                }
            }
            Node::Paren(x, l, r) => Expr::Paren(Box::new(x.expr(s)), range(l, r)),
            Node::NegParen(x, l, r) => Expr::NegParen(Box::new(x.expr(s)), range(l, r)),
        }
    }
}

fn literal<I>() -> impl Parser<I, Output = LitComponent>
where
    I: Stream<Token = char> + StreamOnce<Position = Pos>,
{
    let tok = (
        optional(char('-')),
        many1(digit()),
        optional((char('.'), many1(digit()))),
        optional(
            choice([char('E'), char('e')])
                .with((optional(choice([char('+'), char('-')])), many1(digit())))
                .then(|(sgn, exp): (Option<char>, String)| {
                    match format!("{}{exp}", sgn.unwrap_or('+')).parse::<i32>() {
                        Ok(x) => value(x).left(),
                        Err(e) => unexpected_any(Format(e)).right(),
                    }
                }),
        ),
    );
    tok.map(|(sign, int, frac, exp): (Option<char>, String, Option<(char, String)>, Option<i32>)| {
        let mut digits = format!("{}{int}", sign.unwrap_or('+'));
        if let Some((_, frac)) = frac {
            digits += ".";
            digits.extend(frac.chars());
        }
        LitComponent::new(digits, exp.unwrap_or(0))
    })
}

fn op<I>(a: char, b: char) -> impl Parser<I, Output = (Pos, char, Pos)>
where
    I: Stream<Token = char> + StreamOnce<Position = Pos>,
{
    attempt(spaces().with((position(), choice([char(a), char(b)]), position())).skip(spaces()))
}

fn factor<I>(input: &mut I) -> StdParseResult<Node, I>
where
    I: Stream<Token = char> + StreamOnce<Position = Pos>,
{
    let literal = (position(), literal(), position()).map(|(l, lit, r)| Node::Literal(lit, l, r));
    let parens = (
        position(),
        (char('('), spaces()).with(expr()).skip((spaces(), char(')'))),
        position(),
    )
        .map(|(l, x, r)| Node::Paren(Box::new(x), l, r));
    let neg_parens = (
        position(),
        (char('-'), spaces(), char('('), spaces()).with(expr()).skip((spaces(), char(')'))),
        position(),
    )
        .map(|(l, x, r)| Node::NegParen(Box::new(x), l, r));
    attempt(literal).or(parens).or(neg_parens).parse_stream(input).into_result()
}

fn term<I>() -> impl Parser<I, Output = Node>
where
    I: Stream<Token = char> + StreamOnce<Position = Pos>,
{
    let tok = op('*', '/')
        .map(|(l, op, r)| move |a, b| Node::Binary(op, Box::new(a), Box::new(b), l, r));
    chainl1(parser(factor), tok)
}

fn expr<I>() -> impl Parser<I, Output = Node>
where
    I: Stream<Token = char> + StreamOnce<Position = Pos>,
{
    let tok = op('+', '-')
        .map(|(l, op, r)| move |a, b| Node::Binary(op, Box::new(a), Box::new(b), l, r));
    chainl1(term(), tok)
}

/// The expression or the position of the failure, as the combinators read
/// the line.
fn by_combinators(s: &str) -> Result<Expr, usize> {
    match spaces().with(expr()).skip((spaces(), eof())).easy_parse(s) {
        Ok((node, _)) => Ok(node.expr(s)),
        Err(e) => Err(e.position.translate_position(s)),
    }
}

fn by_the_library(s: &str) -> Result<Expr, usize> {
    parse_line(s).map_err(|e| e.position)
}

#[test]
fn the_grammar_is_that_of_the_combinators() {
    let alphabet = ['1', '0', '.', 'e', '+', '-', '*', '/', '(', ')', ' '];
    let mut texts = vec![String::new()];
    let mut from = 0;
    for _ in 0..5 {
        let upto = texts.len();
        for i in from..upto {
            for c in alphabet {
                let mut t = texts[i].clone();
                t.push(c);
                texts.push(t);
            }
        }
        from = upto;
    }
    for t in &texts {
        assert_eq!(by_the_library(t), by_combinators(t), "{t:?}");
    }
}

#[test]
fn longer_lines_are_read_alike() {
    let lines = [
        "1 * (2 - 3 + 4) / 5",
        " -1.5e3 +  ( 2*3 ) ",
        "-(2 + 3) * 2",
        "- ( - ( -1 ) )",
        "1e3 + 5",
        "1E-05/2e+3",
        "((((1))))",
        "((((1)))",
        "1 + 2 * 3 - 4 / (5 - 6) x",
        "1 + 2 * (3 - 4 / (5 - ) 6)",
        "1.5.2",
        "1 e5",
        "\u{3000}1\u{a0}+\u{2003}2\t",
        "1 + é",
        "é + 1",
        "1e2147483647",
        "1e2147483648",
        "1e-2147483648 + 1e-2147483649",
        "12345678901234567890.09876543210987654321e0",
        "2 ** 3",
        "(1)(2)",
        "1 - - 1",
        "1 - -1",
        "1 - -(1)",
    ];
    for line in lines {
        assert_eq!(by_the_library(line), by_combinators(line), "{line:?}");
    }
}
