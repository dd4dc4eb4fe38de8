use vstd::prelude::*;

use crate::lexer::{canonical, lexemes, Lexeme, Lexer, Number, Operator, Token};
use crate::text::push_char;

verus! {

/// An expression tree: a literal, or an operator over two subtrees.
pub enum Expr {
    Atom(Number),
    Operation(Box<Expr>, Operator, Box<Expr>),
}

/// An expression tree whose leaves are literal texts.
pub enum Tree {
    Atom(Seq<char>),
    Operation(Box<Tree>, Operator, Box<Tree>),
}

impl View for Expr {
    type V = Tree;

    open spec fn view(&self) -> Tree
        decreases self,
    {
        match self {
            Expr::Atom(n) => Tree::Atom(n@),
            Expr::Operation(l, op, r) => Tree::Operation(Box::new((**l)@), *op, Box::new((**r)@)),
        }
    }
}

/// Why a token sequence is not an expression.
#[derive(Clone, Copy, Debug, PartialEq, Eq, Structural)]
pub enum ParseError {
    /// An operator stands where an operand should start.
    AtomExpected,
    /// A parenthesised expression is not closed.
    RightParenExpected,
    /// A `)` stands where an operand should start, or closes nothing.
    RightParenNotExpected,
    /// The tokens end where an operand should start.
    NothingToParse,
    /// An operand follows an operand with no operator between them.
    OperationExpected,
}

impl ParseError {
    /// A sentence that describes the failure.
    pub fn message(&self) -> (r: &'static str)
        ensures
            r@ == match *self {
                ParseError::AtomExpected => "an atom is expected"@,
                ParseError::RightParenExpected => "right parenthesis expected"@,
                ParseError::RightParenNotExpected => "right parenthesis not expected"@,
                ParseError::NothingToParse => "nothing to parse"@,
                ParseError::OperationExpected => "an operation is expected"@,
            },
    {
        match self {
            ParseError::AtomExpected => "an atom is expected",
            ParseError::RightParenExpected => "right parenthesis expected",
            ParseError::RightParenNotExpected => "right parenthesis not expected",
            ParseError::NothingToParse => "nothing to parse",
            ParseError::OperationExpected => "an operation is expected",
        }
    }
}

// Precedence climbing over a token sequence. Each function starts at a
// position and, on success, gives the tree it read and the position after
// it. Positions only move forward; the guards on them below are there so
// that termination is plain.

/// An operand at `i`: a number, or an expression in parentheses.
pub open spec fn parse_operand(t: Seq<Lexeme>, i: int) -> Result<(Tree, int), ParseError>
    decreases t.len() - i, 1nat,
{
    if i < 0 || i >= t.len() {
        Err(ParseError::NothingToParse)
    } else {
        match t[i] {
            Lexeme::Number(d) => Ok((Tree::Atom(d), i + 1)),
            Lexeme::Op(_) => Err(ParseError::AtomExpected),
            Lexeme::RightParen => Err(ParseError::RightParenNotExpected),
            Lexeme::LeftParen => match parse_expr(t, i + 1, 0) {
                Ok((inner, j)) => if 0 <= j < t.len() && t[j] is RightParen {
                    Ok((inner, j + 1))
                } else {
                    Err(ParseError::RightParenExpected)
                },
                Err(e) => Err(e),
            },
        }
    }
}

/// An expression at `i` whose operators all bind at least as tightly as
/// `min`.
pub open spec fn parse_expr(t: Seq<Lexeme>, i: int, min: int) -> Result<(Tree, int), ParseError>
    decreases t.len() - i, 2nat,
{
    match parse_operand(t, i) {
        Ok((lhs, j)) => if i < j <= t.len() {
            parse_tail(t, j, lhs, min)
        } else {
            Err(ParseError::NothingToParse)
        },
        Err(e) => Err(e),
    }
}

/// Extends `lhs`, read up to `j`, with the operators from `j` on that bind at
/// least as tightly as `min`. The right operand of an operator takes only
/// operators that bind more tightly, so equal operators group to the left.
pub open spec fn parse_tail(t: Seq<Lexeme>, j: int, lhs: Tree, min: int) -> Result<
    (Tree, int),
    ParseError,
>
    decreases t.len() - j, 3nat,
{
    if j < 0 || j >= t.len() {
        Ok((lhs, j))
    } else {
        match t[j] {
            Lexeme::Op(op) => if op.prec() < min {
                Ok((lhs, j))
            } else {
                match parse_expr(t, j + 1, op.prec() + 1) {
                    Ok((rhs, k)) => if j < k <= t.len() {
                        parse_tail(t, k, Tree::Operation(Box::new(lhs), op, Box::new(rhs)), min)
                    } else {
                        Err(ParseError::NothingToParse)
                    },
                    Err(e) => Err(e),
                }
            },
            Lexeme::RightParen => Ok((lhs, j)),
            _ => Err(ParseError::OperationExpected),
        }
    }
}

/// The tree that a whole token sequence denotes.
pub open spec fn parse_all(t: Seq<Lexeme>) -> Result<Tree, ParseError> {
    match parse_expr(t, 0, 0) {
        Ok((e, j)) => if j == t.len() {
            Ok(e)
        } else {
            Err(ParseError::RightParenNotExpected)
        },
        Err(e) => Err(e),
    }
}

fn parse_expr_at(toks: &Vec<Token>, i: usize, min: u8) -> (r: Result<(Expr, usize), ParseError>)
    requires
        i <= toks.len(),
    ensures
        match r {
            Ok((e, j)) => parse_expr(lexemes(toks@), i as int, min as int) == Ok::<
                (Tree, int),
                ParseError,
            >((e@, j as int)) && i < j <= toks.len(),
            Err(x) => parse_expr(lexemes(toks@), i as int, min as int) == Err::<
                (Tree, int),
                ParseError,
            >(x),
        },
    decreases toks.len() - i,
{
    let ghost t = lexemes(toks@);
    if i >= toks.len() {
        return Err(ParseError::NothingToParse);
    }
    assert(t[i as int] == toks@[i as int]@);
    let mut lhs: Expr;
    let mut pos: usize;
    match &toks[i] {
        Token::Number(n) => {
            lhs = Expr::Atom(n.clone());
            pos = i + 1;
        },
        Token::Op(_) => {
            return Err(ParseError::AtomExpected);
        },
        Token::RightParen => {
            return Err(ParseError::RightParenNotExpected);
        },
        Token::LeftParen => {
            match parse_expr_at(toks, i + 1, 0) {
                Ok((inner, j)) => {
                    if j < toks.len() && matches!(toks[j], Token::RightParen) {
                        assert(t[j as int] == toks@[j as int]@);
                        lhs = inner;
                        pos = j + 1;
                    } else {
                        assert(j < toks.len() ==> t[j as int] == toks@[j as int]@);
                        return Err(ParseError::RightParenExpected);
                    }
                },
                Err(e) => {
                    return Err(e);
                },
            }
        },
    }
    loop
        invariant
            t == lexemes(toks@),
            i < pos <= toks.len(),
            parse_expr(t, i as int, min as int) == parse_tail(t, pos as int, lhs@, min as int),
        decreases toks.len() - pos,
    {
        if pos >= toks.len() {
            return Ok((lhs, pos));
        }
        assert(t[pos as int] == toks@[pos as int]@);
        match &toks[pos] {
            Token::Op(op) => {
                let op = *op;
                let p = op.precedence();
                if p < min {
                    return Ok((lhs, pos));
                }
                match parse_expr_at(toks, pos + 1, p + 1) {
                    Ok((rhs, k)) => {
                        lhs = Expr::Operation(Box::new(lhs), op, Box::new(rhs));
                        pos = k;
                    },
                    Err(e) => {
                        return Err(e);
                    },
                }
            },
            Token::RightParen => {
                return Ok((lhs, pos));
            },
            _ => {
                return Err(ParseError::OperationExpected);
            },
        }
    }
}

/// The expression that `tokens` spell.
pub fn parse(tokens: &Vec<Token>) -> (r: Result<Expr, ParseError>)
    ensures
        match r {
            Ok(e) => parse_all(lexemes(tokens@)) == Ok::<Tree, ParseError>(e@),
            Err(x) => parse_all(lexemes(tokens@)) == Err::<Tree, ParseError>(x),
        },
{
    match parse_expr_at(tokens, 0, 0) {
        Ok((e, j)) => {
            if j == tokens.len() {
                Ok(e)
            } else {
                Err(ParseError::RightParenNotExpected)
            }
        },
        Err(x) => Err(x),
    }
}


/// A leaf of literal text `d`.
pub open spec fn atom(d: Seq<char>) -> Tree {
    Tree::Atom(d)
}

/// An operation node over two subtrees.
pub open spec fn operation(l: Tree, op: Operator, r: Tree) -> Tree {
    Tree::Operation(Box::new(l), op, Box::new(r))
}

/// In `x p y q z`, the second operator takes the first operation as its left
/// operand when it binds no more tightly than the first (so operators of
/// equal precedence group to the left), and takes `y` alone otherwise.
pub proof fn lemma_precedence(x: Seq<char>, p: Operator, y: Seq<char>, q: Operator, z: Seq<char>)
    ensures
        parse_all(
            seq![
                Lexeme::Number(x),
                Lexeme::Op(p),
                Lexeme::Number(y),
                Lexeme::Op(q),
                Lexeme::Number(z),
            ],
        ) == if q.prec() <= p.prec() {
            Ok::<Tree, ParseError>(operation(operation(atom(x), p, atom(y)), q, atom(z)))
        } else {
            Ok::<Tree, ParseError>(operation(atom(x), p, operation(atom(y), q, atom(z))))
        },
{
    let t = seq![
        Lexeme::Number(x),
        Lexeme::Op(p),
        Lexeme::Number(y),
        Lexeme::Op(q),
        Lexeme::Number(z),
    ];
    let (ax, ay, az) = (atom(x), atom(y), atom(z));
    let pp = p.prec() as int;
    let qp = q.prec() as int;
    assert(parse_operand(t, 0) == Ok::<(Tree, int), ParseError>((ax, 1)));
    assert(parse_operand(t, 2) == Ok::<(Tree, int), ParseError>((ay, 3)));
    assert(parse_operand(t, 4) == Ok::<(Tree, int), ParseError>((az, 5)));
    if qp <= pp {
        assert(parse_tail(t, 3, ay, pp + 1) == Ok::<(Tree, int), ParseError>((ay, 3)));
        assert(parse_expr(t, 2, pp + 1) == Ok::<(Tree, int), ParseError>((ay, 3)));
        let xy = operation(ax, p, ay);
        assert(parse_tail(t, 5, az, qp + 1) == Ok::<(Tree, int), ParseError>((az, 5)));
        assert(parse_expr(t, 4, qp + 1) == Ok::<(Tree, int), ParseError>((az, 5)));
        let all = operation(xy, q, az);
        assert(parse_tail(t, 5, all, 0) == Ok::<(Tree, int), ParseError>((all, 5)));
        assert(parse_tail(t, 3, xy, 0) == Ok::<(Tree, int), ParseError>((all, 5)));
        assert(parse_tail(t, 1, ax, 0) == Ok::<(Tree, int), ParseError>((all, 5)));
        assert(parse_expr(t, 0, 0) == Ok::<(Tree, int), ParseError>((all, 5)));
    } else {
        assert(parse_tail(t, 5, az, qp + 1) == Ok::<(Tree, int), ParseError>((az, 5)));
        assert(parse_expr(t, 4, qp + 1) == Ok::<(Tree, int), ParseError>((az, 5)));
        let yz = operation(ay, q, az);
        assert(parse_tail(t, 5, yz, pp + 1) == Ok::<(Tree, int), ParseError>((yz, 5)));
        assert(parse_tail(t, 3, ay, pp + 1) == Ok::<(Tree, int), ParseError>((yz, 5)));
        assert(parse_expr(t, 2, pp + 1) == Ok::<(Tree, int), ParseError>((yz, 5)));
        let all = operation(ax, p, yz);
        assert(parse_tail(t, 5, all, 0) == Ok::<(Tree, int), ParseError>((all, 5)));
        assert(parse_tail(t, 1, ax, 0) == Ok::<(Tree, int), ParseError>((all, 5)));
        assert(parse_expr(t, 0, 0) == Ok::<(Tree, int), ParseError>((all, 5)));
    }
}

/// In `( x p y ) q z`, the parenthesised operation is the left operand of
/// `q`, whatever the two operators' precedence.
pub proof fn lemma_grouping(x: Seq<char>, p: Operator, y: Seq<char>, q: Operator, z: Seq<char>)
    ensures
        parse_all(
            seq![
                Lexeme::LeftParen,
                Lexeme::Number(x),
                Lexeme::Op(p),
                Lexeme::Number(y),
                Lexeme::RightParen,
                Lexeme::Op(q),
                Lexeme::Number(z),
            ],
        ) == Ok::<Tree, ParseError>(operation(operation(atom(x), p, atom(y)), q, atom(z))),
{
    let t = seq![
        Lexeme::LeftParen,
        Lexeme::Number(x),
        Lexeme::Op(p),
        Lexeme::Number(y),
        Lexeme::RightParen,
        Lexeme::Op(q),
        Lexeme::Number(z),
    ];
    let (ax, ay, az) = (atom(x), atom(y), atom(z));
    let pp = p.prec() as int;
    let qp = q.prec() as int;
    assert(parse_operand(t, 1) == Ok::<(Tree, int), ParseError>((ax, 2)));
    assert(parse_operand(t, 3) == Ok::<(Tree, int), ParseError>((ay, 4)));
    assert(parse_operand(t, 6) == Ok::<(Tree, int), ParseError>((az, 7)));
    assert(parse_tail(t, 4, ay, pp + 1) == Ok::<(Tree, int), ParseError>((ay, 4)));
    assert(parse_expr(t, 3, pp + 1) == Ok::<(Tree, int), ParseError>((ay, 4)));
    let xy = operation(ax, p, ay);
    assert(parse_tail(t, 4, xy, 0) == Ok::<(Tree, int), ParseError>((xy, 4)));
    assert(parse_tail(t, 2, ax, 0) == Ok::<(Tree, int), ParseError>((xy, 4)));
    assert(parse_expr(t, 1, 0) == Ok::<(Tree, int), ParseError>((xy, 4)));
    assert(parse_operand(t, 0) == Ok::<(Tree, int), ParseError>((xy, 5)));
    assert(parse_tail(t, 7, az, qp + 1) == Ok::<(Tree, int), ParseError>((az, 7)));
    assert(parse_expr(t, 6, qp + 1) == Ok::<(Tree, int), ParseError>((az, 7)));
    let all = operation(xy, q, az);
    assert(parse_tail(t, 7, all, 0) == Ok::<(Tree, int), ParseError>((all, 7)));
    assert(parse_tail(t, 5, xy, 0) == Ok::<(Tree, int), ParseError>((all, 7)));
    assert(parse_expr(t, 0, 0) == Ok::<(Tree, int), ParseError>((all, 7)));
}

/// The character that writes an operator.
pub open spec fn op_symbol(op: Operator) -> char {
    match op {
        Operator::Add => '+',
        Operator::Sub => '-',
        Operator::Mul => '*',
        Operator::Div => '/',
    }
}

/// A tree in prefix form: a literal in its shortest form, an operation as
/// `(op left right)`.
pub open spec fn render(t: Tree) -> Seq<char>
    decreases t,
{
    match t {
        Tree::Atom(d) => canonical(d),
        Tree::Operation(l, op, r) => seq!['(', op_symbol(op), ' '] + render(*l) + seq![' '] + render(
            *r,
        ) + seq![')'],
    }
}

impl Operator {
    /// The character that writes the operator.
    pub fn symbol(&self) -> (r: char)
        ensures
            r == op_symbol(*self),
    {
        match self {
            Operator::Add => '+',
            Operator::Sub => '-',
            Operator::Mul => '*',
            Operator::Div => '/',
        }
    }
}

impl Expr {
    fn write_to(&self, out: &mut String)
        ensures
            final(out)@ == old(out)@ + render(self@),
        decreases self,
    {
        match self {
            Expr::Atom(n) => {
                let c = n.canonical();
                out.append(c.as_str());
            },
            Expr::Operation(l, op, r) => {
                push_char(out, '(');
                push_char(out, op.symbol());
                push_char(out, ' ');
                l.write_to(out);
                push_char(out, ' ');
                r.write_to(out);
                push_char(out, ')');
                assert(final(out)@ =~= old(out)@ + render(self@));
            },
        }
    }

    /// The tree in prefix form, such as `(+ 1 (* 2 3))`.
    pub fn to_string(&self) -> (r: String)
        ensures
            r@ == render(self@),
    {
        let mut r = String::new();
        self.write_to(&mut r);
        assert(r@ =~= render(self@));
        r
    }
}

/// Whether `v` is a value that evaluating `e` can give, when each literal
/// is valued by `leaf` and each operation by `node`.
pub open spec fn folds_to<T, L: Fn(&Number) -> T, B: Fn(Operator, T, T) -> T>(
    e: Expr,
    leaf: L,
    node: B,
    v: T,
) -> bool
    decreases e,
{
    match e {
        Expr::Atom(n) => leaf.ensures((&n,), v),
        Expr::Operation(l, op, r) => exists|a: T, b: T|
            #![trigger node.ensures((op, a, b), v)]
            folds_to(*l, leaf, node, a) && folds_to(*r, leaf, node, b) && node.ensures(
                (op, a, b),
                v,
            ),
    }
}

impl Expr {
    /// Evaluates the tree bottom up: each literal is valued by `leaf`, and
    /// each operation by `node` applied to its operator and the values of
    /// its two subtrees.
    pub fn fold<T, L: Fn(&Number) -> T, B: Fn(Operator, T, T) -> T>(&self, leaf: &L, node: &B) -> (r:
        T)
        requires
            forall|n: &Number| #[trigger] leaf.requires((n,)),
            forall|op: Operator, a: T, b: T| #[trigger] node.requires((op, a, b)),
        ensures
            folds_to(*self, *leaf, *node, r),
        decreases self,
    {
        match self {
            Expr::Atom(n) => leaf(n),
            Expr::Operation(l, op, r) => {
                let a = l.fold(leaf, node);
                let b = r.fold(leaf, node);
                node(*op, a, b)
            },
        }
    }
}

/// A parsed line: the expression tree that its tokens spell.
pub struct Parser {
    pub expression: Expr,
}

impl Parser {
    /// Parses all the tokens still to come from `lexer`.
    pub fn from_lexer(lexer: Lexer) -> (r: Result<Parser, ParseError>)
        ensures
            match r {
                Ok(p) => parse_all(lexer.remaining()) == Ok::<Tree, ParseError>(p.expression@),
                Err(x) => parse_all(lexer.remaining()) == Err::<Tree, ParseError>(x),
            },
    {
        let tokens = lexer.tokens();
        match parse(&tokens) {
            Ok(expression) => Ok(Parser { expression }),
            Err(x) => Err(x),
        }
    }

    /// The expression tree in prefix form.
    pub fn to_string(&self) -> (r: String)
        ensures
            r@ == render(self.expression@),
    {
        self.expression.to_string()
    }
}

} // verus!
