use vstd::prelude::*;

use crate::text::{chars_of, is_white_space, white_space};

verus! {

/// A binary arithmetic operator.
#[derive(Clone, Copy, Debug, PartialEq, Eq, Structural)]
pub enum Operator {
    Add,
    Sub,
    Mul,
    Div,
}

impl Operator {
    /// Binding strength: `*` and `/` bind tighter than `+` and `-`.
    pub open spec fn prec(self) -> u8 {
        match self {
            Operator::Add | Operator::Sub => 5,
            Operator::Mul | Operator::Div => 10,
        }
    }

    pub fn precedence(&self) -> (r: u8)
        ensures
            r == self.prec(),
    {
        match self {
            Operator::Add | Operator::Sub => 5,
            Operator::Mul | Operator::Div => 10,
        }
    }
}


/// An ASCII decimal digit.
pub open spec fn is_digit(c: char) -> bool {
    '0' <= c <= '9'
}

/// The end of the run of digits that starts at `i`.
pub open spec fn digits_end(s: Seq<char>, i: int) -> int
    decreases s.len() - i,
{
    if 0 <= i < s.len() && is_digit(s[i]) {
        digits_end(s, i + 1)
    } else {
        i
    }
}

/// The end of the number that starts at `i`: a run of digits, then
/// optionally a `.` and a second run of digits.
pub open spec fn number_end(s: Seq<char>, i: int) -> int {
    let k = digits_end(s, i);
    if 0 <= k < s.len() && s[k] == '.' {
        digits_end(s, k + 1)
    } else {
        k
    }
}

/// A decimal literal: one or more digits, then optionally a `.` followed by
/// zero or more digits.
pub open spec fn is_literal(s: Seq<char>) -> bool {
    s.len() > 0 && is_digit(s[0]) && number_end(s, 0) == s.len()
}

/// A run of digits ends at a non-digit or at the end of the text.
pub proof fn lemma_digits_end(s: Seq<char>, i: int)
    requires
        0 <= i <= s.len(),
    ensures
        i <= digits_end(s, i) <= s.len(),
        forall|k: int| i <= k < digits_end(s, i) ==> is_digit(#[trigger] s[k]),
        digits_end(s, i) < s.len() ==> !is_digit(s[digits_end(s, i)]),
    decreases s.len() - i,
{
    if i < s.len() && is_digit(s[i]) {
        lemma_digits_end(s, i + 1);
    }
}

/// A number that starts at a digit takes at least that digit.
pub proof fn lemma_number_end(s: Seq<char>, i: int)
    requires
        0 <= i < s.len(),
        is_digit(s[i]),
    ensures
        i < number_end(s, i) <= s.len(),
{
    lemma_digits_end(s, i);
    lemma_digits_end(s, i + 1);
    let k = digits_end(s, i);
    if k < s.len() && s[k] == '.' {
        lemma_digits_end(s, k + 1);
    }
}

/// A token as the grammar sees it: a number is its literal text.
pub enum Lexeme {
    Number(Seq<char>),
    Op(Operator),
    LeftParen,
    RightParen,
}

/// The token for a character that is a token by itself.
pub open spec fn symbol(c: char) -> Option<Lexeme> {
    if c == '+' {
        Some(Lexeme::Op(Operator::Add))
    } else if c == '-' {
        Some(Lexeme::Op(Operator::Sub))
    } else if c == '*' {
        Some(Lexeme::Op(Operator::Mul))
    } else if c == '/' {
        Some(Lexeme::Op(Operator::Div))
    } else if c == '(' {
        Some(Lexeme::LeftParen)
    } else if c == ')' {
        Some(Lexeme::RightParen)
    } else {
        None
    }
}

/// The tokens of `s` from position `i` on. Whitespace and characters that
/// start no token are skipped.
pub open spec fn scan(s: Seq<char>, i: int) -> Seq<Lexeme>
    decreases s.len() - i,
{
    if i < 0 || i >= s.len() {
        Seq::empty()
    } else if symbol(s[i]) is Some {
        seq![symbol(s[i])->0] + scan(s, i + 1)
    } else if is_digit(s[i]) {
        proof { lemma_number_end(s, i) }
        seq![Lexeme::Number(s.subrange(i, number_end(s, i)))] + scan(s, number_end(s, i))
    } else {
        scan(s, i + 1)
    }
}

/// The characters of `s` from position `i` on that are neither whitespace
/// nor part of a token, in order.
pub open spec fn unknown_chars(s: Seq<char>, i: int) -> Seq<char>
    decreases s.len() - i,
{
    if i < 0 || i >= s.len() {
        Seq::empty()
    } else if symbol(s[i]) is Some {
        unknown_chars(s, i + 1)
    } else if is_digit(s[i]) {
        proof { lemma_number_end(s, i) }
        unknown_chars(s, number_end(s, i))
    } else if is_white_space(s[i]) {
        unknown_chars(s, i + 1)
    } else {
        seq![s[i]] + unknown_chars(s, i + 1)
    }
}


/// A character that is neither whitespace nor able to start or continue a
/// token.
pub open spec fn is_unknown(c: char) -> bool {
    symbol(c) is None && !is_digit(c) && c != '.' && !is_white_space(c)
}

/// Two texts that differ only at `i`, where neither holds a digit or a `.`,
/// have the same runs of digits and the same numbers.
proof fn lemma_same_runs(s: Seq<char>, t: Seq<char>, i: int, k: int)
    requires
        s.len() == t.len(),
        0 <= i < s.len(),
        forall|j: int| 0 <= j < s.len() && j != i ==> s[j] == t[j],
        !is_digit(s[i]) && s[i] != '.',
        !is_digit(t[i]) && t[i] != '.',
        0 <= k <= s.len(),
    ensures
        digits_end(s, k) == digits_end(t, k),
        number_end(s, k) == number_end(t, k),
    decreases s.len() - k,
{
    if k < s.len() {
        lemma_same_runs(s, t, i, k + 1);
    }
    lemma_digits_end(s, k);
    let d = digits_end(s, k);
    if d < s.len() {
        lemma_same_runs(s, t, i, d + 1);
    }
}

proof fn lemma_unknown_as_space(s: Seq<char>, i: int, k: int) -> (m: int)
    requires
        0 <= i < s.len(),
        is_unknown(s[i]),
        0 <= k <= s.len(),
    ensures
        scan(s, k) == scan(s.update(i, ' '), k),
        k <= i ==> 0 <= m <= unknown_chars(s.update(i, ' '), k).len() && unknown_chars(s, k)
            == unknown_chars(s.update(i, ' '), k).insert(m, s[i]),
        k > i ==> unknown_chars(s, k) == unknown_chars(s.update(i, ' '), k),
    decreases s.len() - k,
{
    let t = s.update(i, ' ');
    if k == s.len() {
        0
    } else if k == i {
        lemma_unknown_as_space(s, i, k + 1);
        assert(unknown_chars(s, k) =~= unknown_chars(t, k).insert(0, s[i]));
        0
    } else if symbol(s[k]) is Some {
        lemma_unknown_as_space(s, i, k + 1)
    } else if is_digit(s[k]) {
        lemma_same_runs(s, t, i, k);
        lemma_number_end(s, k);
        let n = number_end(s, k);
        lemma_digits_end(s, k);
        let d = digits_end(s, k);
        if d < s.len() {
            lemma_digits_end(s, d + 1);
        }
        assert(k < i ==> n <= i);
        assert(s.subrange(k, n) =~= t.subrange(k, n));
        lemma_unknown_as_space(s, i, n)
    } else if is_white_space(s[k]) {
        lemma_unknown_as_space(s, i, k + 1)
    } else {
        let m = lemma_unknown_as_space(s, i, k + 1);
        if k < i {
            assert(unknown_chars(s, k) =~= unknown_chars(t, k).insert(m + 1, s[i]));
        }
        m + 1
    }
}

/// A character that is neither whitespace nor part of a token separates
/// the tokens around it as a space would, and is reported once, in its place
/// among the other such characters.
pub proof fn lemma_unknown_char_skipped(s: Seq<char>, i: int)
    requires
        0 <= i < s.len(),
        is_unknown(s[i]),
    ensures
        scan(s, 0) == scan(s.update(i, ' '), 0),
        exists|m: int|
            0 <= m <= unknown_chars(s.update(i, ' '), 0).len() && unknown_chars(s, 0)
                == #[trigger] unknown_chars(s.update(i, ' '), 0).insert(m, s[i]),
{
    let m = lemma_unknown_as_space(s, i, 0);
    assert(unknown_chars(s, 0) == unknown_chars(s.update(i, ' '), 0).insert(m, s[i]));
}

/// The run of digits that starts at `k` inside `s[a..b]` ends where the
/// run in `s` ends, or at `b`.
proof fn lemma_digits_end_sub(s: Seq<char>, a: int, b: int, k: int)
    requires
        0 <= a <= k <= b <= s.len(),
    ensures
        digits_end(s.subrange(a, b), k - a) == (if digits_end(s, k) <= b {
            digits_end(s, k)
        } else {
            b
        }) - a,
    decreases b - k,
{
    lemma_digits_end(s, k);
    if k < b && is_digit(s[k]) {
        lemma_digits_end_sub(s, a, b, k + 1);
    }
}

/// The number that starts at `i` in `s`, taken by itself, is a literal.
pub proof fn lemma_number_is_literal(s: Seq<char>, i: int)
    requires
        0 <= i < s.len(),
        is_digit(s[i]),
    ensures
        is_literal(s.subrange(i, number_end(s, i))),
{
    lemma_number_end(s, i);
    let e = number_end(s, i);
    let k = digits_end(s, i);
    lemma_digits_end(s, i);
    lemma_digits_end_sub(s, i, e, i);
    if k < s.len() && s[k] == '.' {
        lemma_digits_end(s, k + 1);
        lemma_digits_end_sub(s, i, e, k + 1);
    }
}

/// The digits of a literal before its `.`.
pub open spec fn int_part(s: Seq<char>) -> Seq<char> {
    s.take(digits_end(s, 0))
}

/// The digits of a literal after its `.`, if it has one.
pub open spec fn frac_part(s: Seq<char>) -> Seq<char> {
    if digits_end(s, 0) < s.len() {
        s.skip(digits_end(s, 0) + 1)
    } else {
        Seq::empty()
    }
}

/// `d` without its leading zeros, keeping at least one digit.
pub open spec fn trim_leading_zeros(d: Seq<char>) -> Seq<char>
    decreases d.len(),
{
    if d.len() > 1 && d[0] == '0' {
        trim_leading_zeros(d.drop_first())
    } else {
        d
    }
}

/// `d` without its trailing zeros.
pub open spec fn trim_trailing_zeros(d: Seq<char>) -> Seq<char>
    decreases d.len(),
{
    if d.len() > 0 && d.last() == '0' {
        trim_trailing_zeros(d.drop_last())
    } else {
        d
    }
}

/// The shortest way to write the value of literal `s`: no leading zeros
/// before the point, no trailing zeros after it, and no point when nothing
/// follows it.
pub open spec fn canonical(s: Seq<char>) -> Seq<char> {
    let f = trim_trailing_zeros(frac_part(s));
    trim_leading_zeros(int_part(s)) + if f.len() == 0 {
        Seq::empty()
    } else {
        seq!['.'] + f
    }
}

/// The whole number that a run of digits writes.
pub open spec fn digits_value(d: Seq<char>) -> int
    decreases d.len(),
{
    if d.len() == 0 {
        0
    } else {
        digits_value(d.drop_last()) * 10 + (d.last() as int - '0' as int)
    }
}

/// `n` zeros.
pub open spec fn zeros(n: nat) -> Seq<char> {
    Seq::new(n, |i: int| '0')
}

/// The value of literal `s` times ten to the `k`, for `k` at least the
/// number of digits after its point.
pub open spec fn scaled_value(s: Seq<char>, k: nat) -> int
    recommends
        k >= frac_part(s).len(),
{
    digits_value(int_part(s) + frac_part(s) + zeros((k - frac_part(s).len()) as nat))
}

proof fn lemma_digits_run(s: Seq<char>, i: int, j: int)
    requires
        0 <= i <= j <= s.len(),
        forall|k: int| i <= k < j ==> is_digit(#[trigger] s[k]),
        j == s.len() || !is_digit(s[j]),
    ensures
        digits_end(s, i) == j,
    decreases j - i,
{
    if i < j {
        lemma_digits_run(s, i + 1, j);
    }
}

proof fn lemma_leading_zero_value(x: Seq<char>)
    ensures
        digits_value(seq!['0'] + x) == digits_value(x),
    decreases x.len(),
{
    if x.len() > 0 {
        assert((seq!['0'] + x).drop_last() =~= seq!['0'] + x.drop_last());
        assert((seq!['0'] + x).last() == x.last());
        lemma_leading_zero_value(x.drop_last());
    } else {
        assert((seq!['0'] + x).drop_last() =~= Seq::<char>::empty());
        assert((seq!['0'] + x).last() == '0');
        assert(digits_value(Seq::<char>::empty()) == 0);
        assert(x =~= Seq::<char>::empty());
    }
}

proof fn lemma_trim_leading_zeros(d: Seq<char>, rest: Seq<char>)
    requires
        d.len() > 0,
        forall|i: int| 0 <= i < d.len() ==> is_digit(#[trigger] d[i]),
    ensures
        trim_leading_zeros(d).len() > 0,
        forall|i: int|
            0 <= i < trim_leading_zeros(d).len() ==> is_digit(#[trigger] trim_leading_zeros(d)[i]),
        digits_value(trim_leading_zeros(d) + rest) == digits_value(d + rest),
    decreases d.len(),
{
    if d.len() > 1 && d[0] == '0' {
        let t = d.drop_first();
        assert forall|i: int| 0 <= i < t.len() implies is_digit(#[trigger] t[i]) by {
            assert(t[i] == d[i + 1]);
        }
        lemma_trim_leading_zeros(t, rest);
        assert(d + rest =~= seq!['0'] + (t + rest));
        lemma_leading_zero_value(t + rest);
    }
}

proof fn lemma_trim_trailing_zeros(d: Seq<char>)
    requires
        forall|i: int| 0 <= i < d.len() ==> is_digit(#[trigger] d[i]),
    ensures
        trim_trailing_zeros(d).len() <= d.len(),
        d == trim_trailing_zeros(d) + zeros((d.len() - trim_trailing_zeros(d).len()) as nat),
        forall|i: int|
            0 <= i < trim_trailing_zeros(d).len() ==> is_digit(#[trigger] trim_trailing_zeros(d)[i]),
    decreases d.len(),
{
    if d.len() > 0 && d.last() == '0' {
        let t = d.drop_last();
        lemma_trim_trailing_zeros(t);
        let r = trim_trailing_zeros(t);
        assert(d =~= t.push('0'));
        assert(t.push('0') =~= r + zeros((d.len() - r.len()) as nat));
    } else {
        assert(d =~= d + zeros(0));
    }
}

/// The parts of literal `s`: a run of digits, then either the end or a `.`
/// and a run of digits up to the end.
proof fn lemma_literal_parts(s: Seq<char>)
    requires
        is_literal(s),
    ensures
        int_part(s).len() > 0,
        forall|i: int| 0 <= i < int_part(s).len() ==> is_digit(#[trigger] int_part(s)[i]),
        forall|i: int| 0 <= i < frac_part(s).len() ==> is_digit(#[trigger] frac_part(s)[i]),
        digits_end(s, 0) < s.len() ==> s[digits_end(s, 0)] == '.',
{
    lemma_digits_end(s, 0);
    let k = digits_end(s, 0);
    if k < s.len() {
        lemma_digits_end(s, k + 1);
        assert forall|i: int| 0 <= i < frac_part(s).len() implies is_digit(
            #[trigger] frac_part(s)[i],
        ) by {
            assert(frac_part(s)[i] == s[k + 1 + i]);
        }
    }
}

/// Every literal scans as one number token that spells it. Its shortest form
/// is a literal too, scans the same way, and has the same value.
pub proof fn lemma_literal_round_trip(s: Seq<char>, k: nat)
    requires
        is_literal(s),
        k >= frac_part(s).len(),
    ensures
        scan(s, 0) == seq![Lexeme::Number(s)],
        is_literal(canonical(s)),
        scan(canonical(s), 0) == seq![Lexeme::Number(canonical(s))],
        scaled_value(canonical(s), k) == scaled_value(s, k),
{
    lemma_literal_scans_alone(s);
    lemma_literal_parts(s);
    let ip = int_part(s);
    let fp = frac_part(s);
    let l = trim_leading_zeros(ip);
    let f = trim_trailing_zeros(fp);
    let c = canonical(s);
    lemma_trim_trailing_zeros(fp);
    let tail = f + zeros((k - f.len()) as nat);
    assert(fp + zeros((k - fp.len()) as nat) =~= tail) by {
        assert(fp + zeros((k - fp.len()) as nat) =~= f + zeros((fp.len() - f.len()) as nat) + zeros(
            (k - fp.len()) as nat,
        ));
    }
    lemma_trim_leading_zeros(ip, tail);
    // The shortest form splits at the end of `l`.
    assert forall|i: int| 0 <= i < l.len() implies is_digit(#[trigger] c[i]) by {
        assert(c[i] == l[i]);
    }
    if f.len() == 0 {
        assert(c =~= l);
        lemma_digits_run(c, 0, l.len() as int);
        assert(int_part(c) =~= l);
        assert(frac_part(c) =~= f);
    } else {
        assert(c[l.len() as int] == '.');
        lemma_digits_run(c, 0, l.len() as int);
        assert forall|i: int| l.len() + 1 <= i < c.len() implies is_digit(#[trigger] c[i]) by {
            assert(c[i] == f[i - l.len() - 1]);
        }
        lemma_digits_run(c, l.len() + 1 as int, c.len() as int);
        assert(int_part(c) =~= l);
        assert(frac_part(c) =~= f);
    }
    lemma_literal_scans_alone(c);
    assert(int_part(c) + frac_part(c) + zeros((k - frac_part(c).len()) as nat) =~= l + tail);
    assert(int_part(s) + frac_part(s) + zeros((k - frac_part(s).len()) as nat) =~= ip + tail);
}

/// A literal scans as one number token that spells it.
proof fn lemma_literal_scans_alone(s: Seq<char>)
    requires
        is_literal(s),
    ensures
        scan(s, 0) == seq![Lexeme::Number(s)],
{
    assert(s.subrange(0, s.len() as int) =~= s);
    assert(scan(s, s.len() as int) =~= Seq::<Lexeme>::empty());
    assert(seq![Lexeme::Number(s)] + Seq::<Lexeme>::empty() =~= seq![Lexeme::Number(s)]);
}

/// A decimal literal, such as `42`, `3.14` or `7.`.
pub struct Number {
    text: String,
}

impl View for Number {
    type V = Seq<char>;

    closed spec fn view(&self) -> Seq<char> {
        self.text@
    }
}

impl Number {
    #[verifier::type_invariant]
    spec fn inv(&self) -> bool {
        is_literal(self.text@)
    }

    /// The literal that `s` spells, if `s` is one.
    pub fn from_text(s: &str) -> (r: Option<Number>)
        ensures
            r is Some <==> is_literal(s@),
            r matches Some(n) ==> n@ == s@,
    {
        let chars = chars_of(s);
        if chars.len() > 0 && is_ascii_digit(chars[0]) {
            let (n, end) = Lexer::read_number(&chars, 0);
            if end == chars.len() {
                proof {
                    assert(chars@.subrange(0, chars@.len() as int) =~= s@);
                }
                Some(n)
            } else {
                None
            }
        } else {
            None
        }
    }

    /// The literal written in its shortest form, such as `1` for `1.0` and
    /// `0.5` for `00.50`.
    pub fn canonical(&self) -> (r: String)
        ensures
            r@ == canonical(self@),
    {
        proof {
            use_type_invariant(self);
        }
        let chars = chars_of(self.text.as_str());
        let ghost s = chars@;
        let n = chars.len();
        let mut k: usize = 0;
        while k < n && is_ascii_digit(chars[k])
            invariant
                chars@ == s,
                n == s.len(),
                0 <= k <= n == s.len(),
                digits_end(s, k as int) == digits_end(s, 0),
            decreases n - k,
        {
            k = k + 1;
        }
        proof {
            lemma_digits_end(s, 0);
        }
        // Leading zeros of the integer part.
        let mut a: usize = 0;
        while a + 1 < k && chars[a] == '0'
            invariant
                chars@ == s,
                n == s.len(),
                0 <= a < k <= n,
                trim_leading_zeros(s.subrange(a as int, k as int)) == trim_leading_zeros(
                    int_part(s),
                ),
            decreases k - a,
        {
            assert(s.subrange(a as int, k as int).drop_first() =~= s.subrange(a + 1, k as int));
            a = a + 1;
        }
        proof {
            assert(s.take(k as int) =~= s.subrange(0, k as int));
        }
        // Trailing zeros of the fraction.
        let f: usize = if k < n {
            k + 1
        } else {
            n
        };
        let mut b: usize = n;
        while b > f && chars[b - 1] == '0'
            invariant
                f <= n,
                chars@ == s,
                n == s.len(),
                f <= b <= n,
                trim_trailing_zeros(s.subrange(f as int, b as int)) == trim_trailing_zeros(
                    frac_part(s),
                ),
            decreases b,
        {
            assert(s.subrange(f as int, b as int).drop_last() =~= s.subrange(f as int, b - 1));
            b = b - 1;
        }
        proof {
            if k < n {
                assert(s.skip(k + 1) =~= s.subrange(f as int, n as int));
            } else {
                assert(s.subrange(f as int, n as int) =~= Seq::<char>::empty());
            }
        }
        let mut r = String::new();
        let mut i: usize = a;
        while i < k
            invariant
                chars@ == s,
                n == s.len(),
                a <= i <= k <= n,
                r@ == s.subrange(a as int, i as int),
            decreases k - i,
        {
            crate::text::push_char(&mut r, chars[i]);
            i = i + 1;
            assert(r@ =~= s.subrange(a as int, i as int));
        }
        if b > f {
            crate::text::push_char(&mut r, '.');
            let mut i: usize = f;
            while i < b
                invariant
                    chars@ == s,
                    n == s.len(),
                    f <= i <= b <= n,
                    a <= k <= n,
                    r@ == s.subrange(a as int, k as int) + seq!['.'] + s.subrange(f as int, i as int),
                decreases b - i,
            {
                crate::text::push_char(&mut r, chars[i]);
                i = i + 1;
                assert(r@ =~= s.subrange(a as int, k as int) + seq!['.'] + s.subrange(f as int, i as int));
            }
        }
        proof {
            let g = s.subrange(f as int, b as int);
            assert(trim_leading_zeros(s.subrange(a as int, k as int)) == s.subrange(a as int, k as int));
            assert(trim_trailing_zeros(g) == g);
            assert(r@ =~= canonical(s));
        }
        r
    }

    /// The literal's text.
    pub fn as_str(&self) -> (r: &str)
        ensures
            r@ == self@,
    {
        self.text.as_str()
    }
}

impl Clone for Number {
    fn clone(&self) -> (r: Self)
        ensures
            r@ == self@,
    {
        proof {
            use_type_invariant(self);
        }
        Number { text: self.text.clone() }
    }
}

/// A token of the input text.
pub enum Token {
    Number(Number),
    Op(Operator),
    LeftParen,
    RightParen,
}

impl View for Token {
    type V = Lexeme;

    open spec fn view(&self) -> Lexeme {
        match self {
            Token::Number(n) => Lexeme::Number(n@),
            Token::Op(op) => Lexeme::Op(*op),
            Token::LeftParen => Lexeme::LeftParen,
            Token::RightParen => Lexeme::RightParen,
        }
    }
}

/// The grammar's view of a token sequence.
pub open spec fn lexemes(ts: Seq<Token>) -> Seq<Lexeme> {
    ts.map_values(|t: Token| t@)
}

/// The token for a character that is a token by itself.
fn symbol_token(c: char) -> (r: Option<Token>)
    ensures
        match r {
            Some(t) => symbol(c) == Some(t@),
            None => symbol(c) is None,
        },
{
    if c == '+' {
        Some(Token::Op(Operator::Add))
    } else if c == '-' {
        Some(Token::Op(Operator::Sub))
    } else if c == '*' {
        Some(Token::Op(Operator::Mul))
    } else if c == '/' {
        Some(Token::Op(Operator::Div))
    } else if c == '(' {
        Some(Token::LeftParen)
    } else if c == ')' {
        Some(Token::RightParen)
    } else {
        None
    }
}

/// Whether `c` is an ASCII decimal digit.
fn is_ascii_digit(c: char) -> (r: bool)
    ensures
        r == is_digit(c),
{
    '0' <= c && c <= '9'
}

/// A cursor over the characters of a line of text that hands out its tokens
/// one at a time.
pub struct Lexer {
    chars: Vec<char>,
    pos: usize,
    skipped: Vec<char>,
}

impl Lexer {
    /// The text being scanned.
    pub closed spec fn input(&self) -> Seq<char> {
        self.chars@
    }

    /// How far the scan has got.
    pub closed spec fn position(&self) -> int {
        self.pos as int
    }

    /// The characters skipped so far because they start no token.
    pub closed spec fn reported(&self) -> Seq<char> {
        self.skipped@
    }

    /// The tokens still to come.
    pub open spec fn remaining(&self) -> Seq<Lexeme> {
        scan(self.input(), self.position())
    }

    /// The unknown characters still to be skipped.
    pub open spec fn pending(&self) -> Seq<char> {
        unknown_chars(self.input(), self.position())
    }

    /// Appends the digits from `pos` on to `buffer`; returns where they end.
    fn read_digits(chars: &Vec<char>, pos: usize, buffer: &mut String) -> (r: usize)
        requires
            pos <= chars.len(),
        ensures
            r == digits_end(chars@, pos as int),
            final(buffer)@ == old(buffer)@ + chars@.subrange(pos as int, r as int),
    {
        let mut i: usize = pos;
        while i < chars.len() && is_ascii_digit(chars[i])
            invariant
                pos <= i <= chars.len(),
                digits_end(chars@, i as int) == digits_end(chars@, pos as int),
                buffer@ == old(buffer)@ + chars@.subrange(pos as int, i as int),
            decreases chars.len() - i,
        {
            crate::text::push_char(buffer, chars[i]);
            i = i + 1;
            proof {
                assert(chars@.subrange(pos as int, i as int) =~= chars@.subrange(
                    pos as int,
                    i - 1,
                ).push(chars@[i - 1]));
            }
        }
        i
    }

    /// Reads the number that starts at `pos`; returns it and where it ends.
    fn read_number(chars: &Vec<char>, pos: usize) -> (r: (Number, usize))
        requires
            pos < chars.len(),
            is_digit(chars@[pos as int]),
        ensures
            r.1 == number_end(chars@, pos as int),
            r.0@ == chars@.subrange(pos as int, r.1 as int),
    {
        let mut v = String::new();
        let k = Self::read_digits(chars, pos, &mut v);
        proof {
            lemma_digits_end(chars@, pos as int);
        }
        let mut end = k;
        if k < chars.len() && chars[k] == '.' {
            crate::text::push_char(&mut v, '.');
            end = Self::read_digits(chars, k + 1, &mut v);
            proof {
                lemma_digits_end(chars@, k + 1);
                assert(chars@.subrange(pos as int, end as int) =~= chars@.subrange(
                    pos as int,
                    k as int,
                ).push('.') + chars@.subrange(k + 1, end as int));
            }
        }
        proof {
            lemma_number_is_literal(chars@, pos as int);
        }
        (Number { text: v }, end)
    }

    /// A lexer at the start of `input`.
    pub fn from(input: &str) -> (r: Lexer)
        ensures
            r.input() == input@,
            r.position() == 0,
            r.reported() == Seq::<char>::empty(),
    {
        Lexer { chars: chars_of(input), pos: 0, skipped: Vec::new() }
    }

    /// The characters skipped so far because they start no token.
    pub fn skipped(&self) -> (r: &Vec<char>)
        ensures
            r@ == self.reported(),
    {
        &self.skipped
    }

    /// The next token, or `None` at the end of the input. Whitespace before
    /// it is skipped silently; other characters that start no token are
    /// skipped and recorded.
    pub fn next(&mut self) -> (r: Option<Token>)
        ensures
            final(self).input() == old(self).input(),
            old(self).remaining().len() == 0 ==> r is None && final(self).remaining().len() == 0,
            old(self).remaining().len() > 0 ==> r is Some && r->0@ == old(self).remaining()[0]
                && final(self).remaining() == old(self).remaining().drop_first(),
            final(self).reported() + final(self).pending() == old(self).reported() + old(
                self,
            ).pending(),
            r is None ==> final(self).pending().len() == 0,
    {
        let ghost s = self.chars@;
        let ghost start = self.pos as int;
        while self.pos < self.chars.len()
            invariant
                self.chars@ == s,
                s == old(self).chars@,
                start == old(self).pos,
                start <= self.pos,
                self.pos > start ==> self.pos <= self.chars.len(),
                scan(s, self.pos as int) == scan(s, start),
                self.skipped@ + unknown_chars(s, self.pos as int) == old(self).skipped@
                    + unknown_chars(s, start),
            decreases self.chars.len() - self.pos,
        {
            let c = self.chars[self.pos];
            if let Some(t) = symbol_token(c) {
                proof {
                    let rest = scan(s, self.pos + 1);
                    assert(scan(s, self.pos as int) == seq![t@] + rest);
                    assert((seq![t@] + rest).drop_first() =~= rest);
                    assert(unknown_chars(s, self.pos as int) == unknown_chars(s, self.pos + 1));
                }
                self.pos = self.pos + 1;
                return Some(t);
            }
            if is_ascii_digit(c) {
                let (n, end) = Self::read_number(&self.chars, self.pos);
                proof {
                    lemma_number_end(s, self.pos as int);
                    let t = Lexeme::Number(s.subrange(self.pos as int, end as int));
                    let rest = scan(s, end as int);
                    assert(scan(s, self.pos as int) == seq![t] + rest);
                    assert((seq![t] + rest).drop_first() =~= rest);
                    assert(unknown_chars(s, self.pos as int) == unknown_chars(s, end as int));
                }
                self.pos = end;
                return Some(Token::Number(n));
            }
            if !white_space(c) {
                self.skipped.push(c);
                proof {
                    assert(self.skipped@ + unknown_chars(s, self.pos + 1) =~= old(self).skipped@
                        + unknown_chars(s, start));
                }
            }
            self.pos = self.pos + 1;
        }
        None
    }

    /// All the tokens still to come.
    pub fn tokens(self) -> (r: Vec<Token>)
        ensures
            lexemes(r@) == self.remaining(),
    {
        let mut lexer = self;
        let ghost all = lexer.remaining();
        let mut r: Vec<Token> = Vec::new();
        loop
            invariant
                lexer.input() == self.input(),
                all == self.remaining(),
                lexemes(r@) + lexer.remaining() == all,
            decreases lexer.remaining().len(),
        {
            let ghost before = lexer.remaining();
            match lexer.next() {
                Some(t) => {
                    r.push(t);
                    proof {
                        assert(lexemes(r@) + lexer.remaining() =~= lexemes(r@).drop_last() + before);
                    }
                },
                None => {
                    assert(before.len() == 0);
                    assert(lexemes(r@) =~= all);
                    return r;
                },
            }
        }
    }
}

impl Clone for Lexer {
    fn clone(&self) -> (r: Self)
        ensures
            r.input() == self.input(),
            r.position() == self.position(),
            r.reported() == self.reported(),
    {
        Lexer { chars: self.chars.clone(), pos: self.pos, skipped: self.skipped.clone() }
    }
}

/// The tokens of `text`.
pub fn tokenize(text: &str) -> (r: Vec<Token>)
    ensures
        lexemes(r@) == scan(text@, 0),
{
    Lexer::from(text).tokens()
}

} // verus!
