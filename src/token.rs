use vstd::prelude::*;
use crate::error::ParseError;
use crate::reader::{JsonReader, utf8_failure};
use crate::value::{FloatLiteral, Number, NumberModel};

verus! {

/// One lexical unit of the relaxed JSON grammar.
#[derive(Debug, PartialEq)]
pub enum Token {
    CurlyOpen,
    CurlyClose,
    Quotes,
    Colon,
    String(String),
    Number(Number),
    ArrayOpen,
    ArrayClose,
    Comma,
    Boolean(bool),
    Null,
}

/// The model of a `Token`.
pub enum TokenModel {
    CurlyOpen,
    CurlyClose,
    Quotes,
    Colon,
    Str(Seq<char>),
    Number(NumberModel),
    ArrayOpen,
    ArrayClose,
    Comma,
    Boolean(bool),
    Null,
}

impl View for Token {
    type V = TokenModel;

    open spec fn view(&self) -> TokenModel {
        match self {
            Token::CurlyOpen => TokenModel::CurlyOpen,
            Token::CurlyClose => TokenModel::CurlyClose,
            Token::Quotes => TokenModel::Quotes,
            Token::Colon => TokenModel::Colon,
            Token::String(s) => TokenModel::Str(s@),
            Token::Number(n) => TokenModel::Number(n@),
            Token::ArrayOpen => TokenModel::ArrayOpen,
            Token::ArrayClose => TokenModel::ArrayClose,
            Token::Comma => TokenModel::Comma,
            Token::Boolean(b) => TokenModel::Boolean(*b),
            Token::Null => TokenModel::Null,
        }
    }
}

/// The models of a sequence of tokens.
pub open spec fn tokens_model(ts: Seq<Token>) -> Seq<TokenModel> {
    ts.map_values(|t: Token| t@)
}

/// ASCII whitespace: space, tab, line feed, form feed, carriage return.
pub open spec fn is_ws(c: char) -> bool {
    c == ' ' || c == '\t' || c == '\n' || c == '\x0C' || c == '\r'
}

pub open spec fn is_digit(c: char) -> bool {
    '0' <= c && c <= '9'
}

/// The characters at which a number literal ends (not consumed).
pub open spec fn ends_number(c: char) -> bool {
    c == '}' || c == ',' || c == ']' || c == ':' || c == '\0' || is_ws(c)
}

/// The number of bytes in the UTF-8 encoding of `c`.
pub open spec fn char_width(c: char) -> int {
    if (c as u32) <= 0x7F {
        1
    } else if (c as u32) <= 0x7FF {
        2
    } else if (c as u32) <= 0xFFFF {
        3
    } else {
        4
    }
}

/// The number of bytes in the UTF-8 encoding of `s`.
pub open spec fn utf8_len(s: Seq<char>) -> int
    decreases s.len(),
{
    if s.len() == 0 {
        0
    } else {
        utf8_len(s.drop_last()) + char_width(s.last())
    }
}

/// The byte offset of the character at position `i`, saturated to `usize`.
pub open spec fn byte_pos(cs: Seq<char>, i: int) -> usize {
    let n = utf8_len(cs.take(i));
    if n <= usize::MAX {
        n as usize
    } else {
        usize::MAX
    }
}

/// The token that a one-character structural marker stands for.
pub open spec fn structural_of(c: char) -> Option<TokenModel> {
    if c == '{' {
        Some(TokenModel::CurlyOpen)
    } else if c == '}' {
        Some(TokenModel::CurlyClose)
    } else if c == '[' {
        Some(TokenModel::ArrayOpen)
    } else if c == ']' {
        Some(TokenModel::ArrayClose)
    } else if c == ',' {
        Some(TokenModel::Comma)
    } else if c == ':' {
        Some(TokenModel::Colon)
    } else {
        None
    }
}

/// What running out of characters means: the error that ended the
/// character stream if there was one, else `otherwise`.
pub open spec fn at_end<T>(tail: Option<ParseError>, otherwise: Result<T, ParseError>) -> Result<T, ParseError> {
    match tail {
        Some(e) => Err(e),
        None => otherwise,
    }
}

/// The accumulators of number lexing.
pub struct NumberScan {
    pub mantissa: Seq<char>,
    pub exponent: Seq<char>,
    pub dot: bool,
    pub exp: bool,
}

/// Scans a number literal from position `i` on; returns the accumulators and
/// the position of the first character after the literal. Once an exponent
/// marker was seen, digits, `-` and `.` all go to the exponent text, which
/// is then read with full decimal float syntax (so `1e1.5` is 10^1.5).
pub open spec fn scan_number(cs: Seq<char>, i: int, tail: Option<ParseError>, st: NumberScan) -> Result<
    (NumberScan, int),
    ParseError,
>
    decreases cs.len() - i,
{
    if i < 0 {
        Ok((st, i))
    } else if i >= cs.len() {
        at_end(tail, Ok((st, i)))
    } else {
        let c = cs[i];
        if ends_number(c) {
            Ok((st, i))
        } else if c == '-' || is_digit(c) || (c == '.' && st.exp) {
            if st.exp {
                scan_number(cs, i + 1, tail, NumberScan { exponent: st.exponent.push(c), ..st })
            } else {
                scan_number(cs, i + 1, tail, NumberScan { mantissa: st.mantissa.push(c), ..st })
            }
        } else if c == '.' {
            scan_number(cs, i + 1, tail, NumberScan { mantissa: st.mantissa.push(c), dot: true, ..st })
        } else if c == 'e' || c == 'E' {
            if st.exp {
                Err(ParseError::DoubleExponentMarker { pos: byte_pos(cs, i) })
            } else {
                scan_number(cs, i + 1, tail, NumberScan { exp: true, ..st })
            }
        } else {
            Err(ParseError::UnexpectedCharacter { pos: byte_pos(cs, i), found: c })
        }
    }
}

/// `s` without one leading minus sign.
pub open spec fn unsigned_part(s: Seq<char>) -> Seq<char> {
    if s.len() > 0 && s[0] == '-' {
        s.drop_first()
    } else {
        s
    }
}

/// Decimal float syntax over these characters: an optional minus sign, then
/// digits with at most one `.`, and at least one digit.
pub open spec fn is_float_text(s: Seq<char>) -> bool {
    let u = unsigned_part(s);
    &&& forall|i: int| 0 <= i < u.len() ==> is_digit(#[trigger] u[i]) || u[i] == '.'
    &&& exists|i: int| 0 <= i < u.len() && is_digit(#[trigger] u[i])
    &&& forall|i: int, j: int| 0 <= i < u.len() && 0 <= j < u.len() && #[trigger] u[i] == '.' && #[trigger] u[j] == '.' ==> i == j
}

/// Decimal integer syntax: an optional minus sign, then one or more digits.
pub open spec fn is_integer_text(s: Seq<char>) -> bool {
    let u = unsigned_part(s);
    u.len() > 0 && forall|i: int| 0 <= i < u.len() ==> is_digit(#[trigger] u[i])
}

pub open spec fn digit_value(c: char) -> int {
    (c as u32) as int - ('0' as u32) as int
}

/// The number that a sequence of decimal digits denotes.
pub open spec fn digits_value(s: Seq<char>) -> int
    decreases s.len(),
{
    if s.len() == 0 {
        0
    } else {
        digits_value(s.drop_last()) * 10 + digit_value(s.last())
    }
}

/// The signed number that integer text denotes.
pub open spec fn integer_value(s: Seq<char>) -> int {
    if s.len() > 0 && s[0] == '-' {
        -digits_value(s.drop_first())
    } else {
        digits_value(s)
    }
}

/// The number token that the accumulators of a literal starting at `start`
/// resolve to: a float when there was an exponent marker or a `.`, else a
/// 64-bit integer.
pub open spec fn resolve_number(st: NumberScan, pos: usize) -> Result<NumberModel, ParseError> {
    if st.exp {
        if is_float_text(st.mantissa) && is_float_text(st.exponent) {
            Ok(NumberModel::Float { mantissa: st.mantissa, exponent: Some(st.exponent) })
        } else {
            Err(ParseError::NumberFormat { pos })
        }
    } else if st.dot {
        if is_float_text(st.mantissa) {
            Ok(NumberModel::Float { mantissa: st.mantissa, exponent: None })
        } else {
            Err(ParseError::NumberFormat { pos })
        }
    } else if is_integer_text(st.mantissa) && i64::MIN <= integer_value(st.mantissa) <= i64::MAX {
        Ok(NumberModel::Integer(integer_value(st.mantissa) as i64))
    } else {
        Err(ParseError::NumberFormat { pos })
    }
}

/// Lexes the number literal at `start`: its token and the position after it.
pub open spec fn lex_number(cs: Seq<char>, start: int, tail: Option<ParseError>) -> Result<(NumberModel, int), ParseError> {
    let init = NumberScan { mantissa: Seq::empty(), exponent: Seq::empty(), dot: false, exp: false };
    match scan_number(cs, start, tail, init) {
        Ok((st, j)) => match resolve_number(st, byte_pos(cs, start)) {
            Ok(n) => Ok((n, j)),
            Err(e) => Err(e),
        },
        Err(e) => Err(e),
    }
}

/// The first position at or after `j` holding a quote, or `cs.len()`.
pub open spec fn quote_end(cs: Seq<char>, j: int) -> int
    decreases cs.len() - j,
{
    if j < 0 || j >= cs.len() {
        cs.len() as int
    } else if cs[j] == '"' {
        j
    } else {
        quote_end(cs, j + 1)
    }
}

/// Matches the keyword `lit` at `start`, from its `k`-th character on;
/// returns the position after it.
pub open spec fn match_literal(cs: Seq<char>, start: int, lit: Seq<char>, k: int, tail: Option<ParseError>) -> Result<int, ParseError>
    decreases lit.len() - k,
{
    if k < 0 || k >= lit.len() {
        Ok(start + lit.len())
    } else if start + k >= cs.len() {
        at_end(tail, Err(ParseError::MalformedLiteral { pos: byte_pos(cs, start) }))
    } else if cs[start + k] != lit[k] {
        Err(ParseError::MalformedLiteral { pos: byte_pos(cs, start) })
    } else {
        match_literal(cs, start, lit, k + 1, tail)
    }
}

/// The keyword that starts with `c`, with its token.
pub open spec fn keyword_of(c: char) -> Option<(Seq<char>, TokenModel)> {
    if c == 'n' {
        Some((seq!['n', 'u', 'l', 'l'], TokenModel::Null))
    } else if c == 't' {
        Some((seq!['t', 'r', 'u', 'e'], TokenModel::Boolean(true)))
    } else if c == 'f' {
        Some((seq!['f', 'a', 'l', 's', 'e'], TokenModel::Boolean(false)))
    } else {
        None
    }
}

/// Lexes `cs` from position `i` on, after the tokens `acc`. A NUL character
/// ends the input; running out of characters ends it too, unless the
/// character stream ended with the error `tail`.
pub open spec fn lex(cs: Seq<char>, i: int, tail: Option<ParseError>, acc: Seq<TokenModel>) -> Result<Seq<TokenModel>, ParseError>
    decreases cs.len() - i,
{
    if i < 0 {
        Ok(acc)
    } else if i >= cs.len() {
        at_end(tail, Ok(acc))
    } else {
        let c = cs[i];
        if c == '\0' {
            Ok(acc)
        } else if is_ws(c) {
            lex(cs, i + 1, tail, acc)
        } else if structural_of(c).is_some() {
            lex(cs, i + 1, tail, acc.push(structural_of(c).unwrap()))
        } else if c == '"' {
            let q = quote_end(cs, i + 1);
            if i < q < cs.len() {
                lex(cs, q + 1, tail, acc + seq![TokenModel::Quotes, TokenModel::Str(cs.subrange(i + 1, q)), TokenModel::Quotes])
            } else {
                at_end(tail, Err(ParseError::UnterminatedString { pos: byte_pos(cs, i) }))
            }
        } else if keyword_of(c).is_some() {
            let (lit, t) = keyword_of(c).unwrap();
            match match_literal(cs, i, lit, 0, tail) {
                Ok(j) => if i < j <= cs.len() {
                    lex(cs, j, tail, acc.push(t))
                } else {
                    Ok(acc.push(t))
                },
                Err(e) => Err(e),
            }
        } else if c == '-' || is_digit(c) {
            match lex_number(cs, i, tail) {
                Ok((n, j)) => if i < j <= cs.len() {
                    lex(cs, j, tail, acc.push(TokenModel::Number(n)))
                } else {
                    Ok(acc.push(TokenModel::Number(n)))
                },
                Err(e) => Err(e),
            }
        } else {
            Err(ParseError::UnexpectedCharacter { pos: byte_pos(cs, i), found: c })
        }
    }
}

/// The tokens of a character stream, or the first error.
pub open spec fn tokens_of(cs: Seq<char>, tail: Option<ParseError>) -> Result<Seq<TokenModel>, ParseError> {
    lex(cs, 0, tail, Seq::empty())
}

proof fn lemma_no_quote(cs: Seq<char>, j: int)
    requires
        0 <= j,
        forall|m: int| j <= m < cs.len() ==> cs[m] != '"',
    ensures
        quote_end(cs, j) == cs.len(),
    decreases cs.len() - j,
{
    if j < cs.len() {
        lemma_no_quote(cs, j + 1);
    }
}

/// A string that opens where lexing stands and never closes is reported as
/// unterminated at its opening quote (when the characters ended cleanly).
pub proof fn lemma_unterminated_string(cs: Seq<char>, i: int, acc: Seq<TokenModel>)
    requires
        0 <= i < cs.len(),
        cs[i] == '"',
        forall|m: int| i < m < cs.len() ==> cs[m] != '"',
    ensures
        lex(cs, i, None, acc) == Err::<Seq<TokenModel>, ParseError>(ParseError::UnterminatedString { pos: byte_pos(cs, i) }),
{
    lemma_no_quote(cs, i + 1);
}

/// A keyword whose second character diverges is reported as malformed at
/// its first character.
pub proof fn lemma_malformed_literal(cs: Seq<char>, i: int, tail: Option<ParseError>, acc: Seq<TokenModel>)
    requires
        0 <= i,
        i + 1 < cs.len(),
        keyword_of(cs[i]).is_some(),
        cs[i + 1] != keyword_of(cs[i]).unwrap().0[1],
    ensures
        lex(cs, i, tail, acc) == Err::<Seq<TokenModel>, ParseError>(ParseError::MalformedLiteral { pos: byte_pos(cs, i) }),
{
    let lit = keyword_of(cs[i]).unwrap().0;
    assert(lit[0] == cs[i]);
    reveal_with_fuel(match_literal, 3);
    assert(match_literal(cs, i, lit, 0, tail) == Err::<int, ParseError>(ParseError::MalformedLiteral { pos: byte_pos(cs, i) }));
}

/// A digit followed by two exponent markers is reported at the second one.
pub proof fn lemma_double_exponent(cs: Seq<char>, i: int, tail: Option<ParseError>, acc: Seq<TokenModel>)
    requires
        0 <= i,
        i + 2 < cs.len(),
        is_digit(cs[i]),
        cs[i + 1] == 'e' || cs[i + 1] == 'E',
        cs[i + 2] == 'e' || cs[i + 2] == 'E',
    ensures
        lex(cs, i, tail, acc) == Err::<Seq<TokenModel>, ParseError>(ParseError::DoubleExponentMarker { pos: byte_pos(cs, i + 2) }),
{
    let init = NumberScan { mantissa: Seq::empty(), exponent: Seq::empty(), dot: false, exp: false };
    let s1 = NumberScan { mantissa: seq![cs[i]], ..init };
    let s2 = NumberScan { exp: true, ..s1 };
    assert(init.mantissa.push(cs[i]) =~= seq![cs[i]]);
    assert(scan_number(cs, i + 2, tail, s2) == Err::<(NumberScan, int), ParseError>(ParseError::DoubleExponentMarker { pos: byte_pos(cs, i + 2) }));
    assert(scan_number(cs, i + 1, tail, s1) == scan_number(cs, i + 2, tail, s2));
    assert(scan_number(cs, i, tail, init) == scan_number(cs, i + 1, tail, s1));
}

/// Relies on `String::push`: appends one character to the end.
#[verifier::external_body]
fn push_char(s: &mut String, c: char)
    ensures
        final(s)@ == old(s)@.push(c),
{
    s.push(c)
}

/// The string holding the characters `cs`.
pub fn string_of_chars(cs: &Vec<char>) -> (r: String)
    ensures
        r@ == cs@,
{
    let mut s = String::new();
    let mut i: usize = 0;
    while i < cs.len()
        invariant
            i <= cs.len(),
            s@ == cs@.take(i as int),
        decreases cs.len() - i,
    {
        push_char(&mut s, cs[i]);
        assert(cs@.take(i + 1) =~= cs@.take(i as int).push(cs@[i as int]));
        i += 1;
    }
    assert(cs@.take(cs.len() as int) =~= cs@);
    s
}

pub fn is_whitespace(c: char) -> (r: bool)
    ensures
        r == is_ws(c),
{
    c == ' ' || c == '\t' || c == '\n' || c == '\x0C' || c == '\r'
}

fn is_decimal_digit(c: char) -> (r: bool)
    ensures
        r == is_digit(c),
{
    '0' <= c && c <= '9'
}

fn structural_token(c: char) -> (r: Option<Token>)
    ensures
        r.is_some() == structural_of(c).is_some(),
        r.is_some() ==> r.unwrap()@ == structural_of(c).unwrap(),
{
    if c == '{' {
        Some(Token::CurlyOpen)
    } else if c == '}' {
        Some(Token::CurlyClose)
    } else if c == '[' {
        Some(Token::ArrayOpen)
    } else if c == ']' {
        Some(Token::ArrayClose)
    } else if c == ',' {
        Some(Token::Comma)
    } else if c == ':' {
        Some(Token::Colon)
    } else {
        None
    }
}

/// Whether `s` has decimal float syntax.
pub fn float_text(s: &Vec<char>) -> (r: bool)
    ensures
        r == is_float_text(s@),
{
    let b: usize = if s.len() > 0 && s[0] == '-' { 1 } else { 0 };
    let ghost u = unsigned_part(s@);
    assert(u =~= s@.subrange(b as int, s@.len() as int));
    let mut seen_digit = false;
    let mut seen_dot = false;
    let ghost mut dot_at: int = 0;
    let mut k: usize = b;
    while k < s.len()
        invariant
            b <= k <= s.len(),
            u == s@.subrange(b as int, s@.len() as int),
            u == unsigned_part(s@),
            forall|m: int| 0 <= m < k - b ==> is_digit(#[trigger] u[m]) || u[m] == '.',
            seen_digit <==> exists|m: int| 0 <= m < k - b && is_digit(#[trigger] u[m]),
            seen_dot ==> 0 <= dot_at < k - b && u[dot_at] == '.',
            forall|m: int| 0 <= m < k - b && #[trigger] u[m] == '.' ==> seen_dot && m == dot_at,
        decreases s.len() - k,
    {
        let c = s[k];
        assert(u[k - b] == c);
        if is_decimal_digit(c) {
            seen_digit = true;
        } else if c == '.' {
            if seen_dot {
                assert(u[dot_at] == '.' && u[k - b] == '.' && dot_at != k - b);
                assert(!is_float_text(s@));
                return false;
            }
            seen_dot = true;
            proof {
                dot_at = k - b;
            }
        } else {
            assert(!(is_digit(u[k - b]) || u[k - b] == '.'));
            assert(!is_float_text(s@));
            return false;
        }
        k += 1;
    }
    assert(forall|i: int, j: int| 0 <= i < u.len() && 0 <= j < u.len() && #[trigger] u[i] == '.' && #[trigger] u[j] == '.' ==> i == j);
    seen_digit
}

/// The integer that `s` denotes, where it has integer syntax and the value
/// fits in 64 bits.
pub fn integer_of_text(s: &Vec<char>) -> (r: Option<i64>)
    ensures
        r == (if is_integer_text(s@) && i64::MIN <= integer_value(s@) <= i64::MAX {
            Some(integer_value(s@) as i64)
        } else {
            None
        }),
{
    let neg = s.len() > 0 && s[0] == '-';
    let b: usize = if neg { 1 } else { 0 };
    let ghost u = unsigned_part(s@);
    assert(u =~= s@.subrange(b as int, s@.len() as int));
    if b >= s.len() {
        assert(u.len() == 0);
        return None;
    }
    let mut acc: u128 = 0;
    let mut over = false;
    let mut k: usize = b;
    while k < s.len()
        invariant
            b <= k <= s.len(),
            u == s@.subrange(b as int, s@.len() as int),
            u == unsigned_part(s@),
            forall|m: int| 0 <= m < k - b ==> is_digit(#[trigger] u[m]),
            !over ==> acc == digits_value(u.take(k - b)) && acc <= 0x8000_0000_0000_0000,
            over ==> digits_value(u.take(k - b)) > 0x8000_0000_0000_0000,
        decreases s.len() - k,
    {
        let c = s[k];
        assert(u[k - b] == c);
        if !is_decimal_digit(c) {
            assert(!is_digit(u[k - b]));
            assert(!is_integer_text(s@));
            return None;
        }
        let d = (c as u32 - '0' as u32) as u128;
        let ghost prev = digits_value(u.take(k - b));
        assert(u.take(k - b + 1).drop_last() =~= u.take(k - b));
        assert(u.take(k - b + 1).last() == c);
        assert(digits_value(u.take(k - b + 1)) == prev * 10 + d);
        if over {
            assert(prev * 10 + d > 0x8000_0000_0000_0000) by (nonlinear_arith)
                requires
                    prev > 0x8000_0000_0000_0000,
                    d >= 0,
            ;
        }
        if !over {
            let next = acc * 10 + d;
            if next > 0x8000_0000_0000_0000 {
                over = true;
            } else {
                acc = next;
            }
        }
        k += 1;
    }
    assert(u.take(u.len() as int) =~= u);
    assert(is_integer_text(s@));
    if over {
        return None;
    }
    if neg {
        assert(s@.drop_first() =~= u);
        Some((0 - (acc as i128)) as i64)
    } else if acc <= 0x7fff_ffff_ffff_ffff {
        Some(acc as i64)
    } else {
        None
    }
}

/// The tokenizer: lexes a character stream, which may have ended with an
/// error, into tokens.
pub struct JsonTokenizer {
    chars: Vec<char>,
    tail: Option<ParseError>,
    offsets: Vec<usize>,
}

fn utf8_width(c: char) -> (r: usize)
    ensures
        r == char_width(c),
{
    let v = c as u32;
    if v <= 0x7F {
        1
    } else if v <= 0x7FF {
        2
    } else if v <= 0xFFFF {
        3
    } else {
        4
    }
}

proof fn lemma_utf8_len_nonneg(s: Seq<char>)
    ensures
        utf8_len(s) >= 0,
    decreases s.len(),
{
    if s.len() > 0 {
        lemma_utf8_len_nonneg(s.drop_last());
    }
}

/// The byte offset of every position in `chars`, its end included.
fn byte_offsets(chars: &Vec<char>) -> (r: Vec<usize>)
    ensures
        r@.len() == chars@.len() + 1,
        forall|i: int| 0 <= i <= chars@.len() ==> r@[i] == byte_pos(chars@, i),
{
    let mut r: Vec<usize> = Vec::new();
    let mut cur: usize = 0;
    let mut i: usize = 0;
    assert(chars@.take(0) =~= Seq::<char>::empty());
    r.push(cur);
    while i < chars.len()
        invariant
            i <= chars@.len(),
            r@.len() == i + 1,
            cur == byte_pos(chars@, i as int),
            forall|j: int| 0 <= j <= i ==> r@[j] == byte_pos(chars@, j),
        decreases chars@.len() - i,
    {
        let w = utf8_width(chars[i]);
        assert(chars@.take(i + 1).drop_last() =~= chars@.take(i as int));
        assert(utf8_len(chars@.take(i + 1)) == utf8_len(chars@.take(i as int)) + w);
        let ghost prev = r@;
        proof {
            lemma_utf8_len_nonneg(chars@.take(i as int));
        }
        cur = if cur > usize::MAX - w { usize::MAX } else { cur + w };
        assert(cur == byte_pos(chars@, i + 1));
        r.push(cur);
        assert(forall|j: int| 0 <= j <= i ==> r@[j] == prev[j]);
        i += 1;
    }
    r
}

impl JsonTokenizer {
    /// The characters to lex.
    pub closed spec fn chars(&self) -> Seq<char> {
        self.chars@
    }

    /// The error that ended the character stream, if any.
    pub closed spec fn tail(&self) -> Option<ParseError> {
        self.tail
    }

    pub closed spec fn wf(&self) -> bool {
        &&& self.offsets@.len() == self.chars@.len() + 1
        &&& forall|i: int| 0 <= i <= self.chars@.len() ==> self.offsets@[i] == byte_pos(self.chars@, i)
    }

    /// A tokenizer over all that `json_reader` yields.
    pub fn new(json_reader: JsonReader) -> (r: JsonTokenizer)
        requires
            json_reader.wf(),
        ensures
            r.wf(),
            r.chars() == json_reader.stream().0,
            r.tail() == utf8_failure(json_reader.stream().1),
    {
        let mut reader = json_reader;
        let mut chars: Vec<char> = Vec::new();
        let mut tail: Option<ParseError> = None;
        loop
            invariant_except_break
                reader.wf(),
                tail.is_none(),
                chars@ + reader.stream().0 == json_reader.stream().0,
                reader.stream().1 == json_reader.stream().1,
            ensures
                chars@ == json_reader.stream().0,
                tail == utf8_failure(json_reader.stream().1),
            decreases reader.stream().0.len(),
        {
            let ghost before = reader.stream().0;
            match reader.next_char() {
                Ok(Some(c)) => {
                    chars.push(c);
                    assert(chars@ + reader.stream().0 =~= chars@.drop_last() + before);
                },
                Ok(None) => {
                    assert(chars@ + before =~= chars@);
                    break;
                },
                Err(e) => {
                    assert(chars@ + before =~= chars@);
                    tail = Some(e);
                    break;
                },
            }
        }
        Self::from_chars(chars, tail)
    }

    /// A tokenizer over `chars`, a stream that ended cleanly or with `tail`.
    pub fn from_chars(chars: Vec<char>, tail: Option<ParseError>) -> (r: JsonTokenizer)
        ensures
            r.wf(),
            r.chars() == chars@,
            r.tail() == tail,
    {
        let offsets = byte_offsets(&chars);
        JsonTokenizer { chars, tail, offsets }
    }

    /// Lexes the string body after the quote at `start`: the body and the
    /// position of the closing quote.
    fn parse_string(&self, start: usize) -> (r: Result<(String, usize), ParseError>)
        requires
            self.wf(),
            start < self.chars@.len(),
        ensures
            ({
                let cs = self.chars@;
                let q = quote_end(cs, start + 1);
                match r {
                    Ok((s, j)) => q < cs.len() && j == q && start < j && s@ == cs.subrange(start + 1, q),
                    Err(e) => q >= cs.len() && at_end(self.tail, Err::<int, ParseError>(ParseError::UnterminatedString { pos: byte_pos(cs, start as int) })) == Err::<int, ParseError>(e),
                }
            }),
    {
        let ghost cs = self.chars@;
        let n = self.chars.len();
        let mut s = String::new();
        let mut j = start + 1;
        while j < self.chars.len() && self.chars[j] != '"'
            invariant
                start < j <= cs.len(),
                cs == self.chars@,
                self.wf(),
                quote_end(cs, start + 1) == quote_end(cs, j as int),
                s@ == cs.subrange(start + 1, j as int),
            decreases cs.len() - j,
        {
            push_char(&mut s, self.chars[j]);
            assert(cs.subrange(start + 1, j + 1) =~= cs.subrange(start + 1, j as int).push(cs[j as int]));
            j += 1;
        }
        if j >= self.chars.len() {
            match self.tail {
                Some(e) => Err(e),
                None => Err(ParseError::UnterminatedString { pos: self.offsets[start] }),
            }
        } else {
            Ok((s, j))
        }
    }

    /// Matches the keyword `lit` at `start`; returns the position after it.
    fn parse_keyword(&self, start: usize, lit: &Vec<char>) -> (r: Result<usize, ParseError>)
        requires
            self.wf(),
            start < self.chars@.len(),
            lit@.len() > 0,
            lit@[0] == self.chars@[start as int],
        ensures
            match r {
                Ok(j) => match_literal(self.chars@, start as int, lit@, 0, self.tail) == Ok::<int, ParseError>(j as int) && start < j <= self.chars@.len(),
                Err(e) => match_literal(self.chars@, start as int, lit@, 0, self.tail) == Err::<int, ParseError>(e),
            },
    {
        let n = self.chars.len();
        let mut k: usize = 0;
        while k < lit.len()
            invariant
                n == self.chars@.len(),
                self.wf(),
                k <= lit@.len(),
                start < self.chars@.len(),
                start + k <= self.chars@.len(),
                match_literal(self.chars@, start as int, lit@, 0, self.tail) == match_literal(self.chars@, start as int, lit@, k as int, self.tail),
            decreases lit.len() - k,
        {
            if start + k >= n {
                return match self.tail {
                    Some(e) => Err(e),
                    None => Err(ParseError::MalformedLiteral { pos: self.offsets[start] }),
                };
            }
            if self.chars[start + k] != lit[k] {
                return Err(ParseError::MalformedLiteral { pos: self.offsets[start] });
            }
            k += 1;
        }
        Ok(start + k)
    }

    /// Lexes the number literal at `start`: its token and the position after it.
    fn parse_number(&self, start: usize) -> (r: Result<(Number, usize), ParseError>)
        requires
            self.wf(),
            start < self.chars@.len(),
            self.chars@[start as int] == '-' || is_digit(self.chars@[start as int]),
        ensures
            match r {
                Ok((n, j)) => lex_number(self.chars@, start as int, self.tail) == Ok::<(NumberModel, int), ParseError>((n@, j as int)) && start < j <= self.chars@.len(),
                Err(e) => lex_number(self.chars@, start as int, self.tail) == Err::<(NumberModel, int), ParseError>(e),
            },
    {
        let ghost cs = self.chars@;
        let ghost init = NumberScan { mantissa: Seq::empty(), exponent: Seq::empty(), dot: false, exp: false };
        let mut mantissa: Vec<char> = Vec::new();
        let mut exponent: Vec<char> = Vec::new();
        let mut dot = false;
        let mut exp = false;
        let mut i = start;
        while i < self.chars.len()
            invariant
                start <= i <= cs.len(),
                cs == self.chars@,
                self.wf(),
                i == start ==> (cs[start as int] == '-' || is_digit(cs[start as int])),
                init == (NumberScan { mantissa: Seq::empty(), exponent: Seq::empty(), dot: false, exp: false }),
                scan_number(cs, start as int, self.tail, init) == scan_number(
                    cs,
                    i as int,
                    self.tail,
                    NumberScan { mantissa: mantissa@, exponent: exponent@, dot, exp },
                ),
            ensures
                i < cs.len() ==> ends_number(cs[i as int]),
            decreases cs.len() - i,
        {
            let c = self.chars[i];
            if c == '}' || c == ',' || c == ']' || c == ':' || c == '\0' || is_whitespace(c) {
                break;
            } else if c == '-' || is_decimal_digit(c) || (c == '.' && exp) {
                if exp {
                    exponent.push(c);
                } else {
                    mantissa.push(c);
                }
            } else if c == '.' {
                mantissa.push(c);
                dot = true;
            } else if c == 'e' || c == 'E' {
                if exp {
                    return Err(ParseError::DoubleExponentMarker { pos: self.offsets[i] });
                }
                exp = true;
            } else {
                return Err(ParseError::UnexpectedCharacter { pos: self.offsets[i], found: c });
            }
            i += 1;
        }
        if i >= self.chars.len() {
            match self.tail {
                Some(e) => {
                    return Err(e);
                },
                None => {},
            }
        }
        let ghost st = NumberScan { mantissa: mantissa@, exponent: exponent@, dot, exp };
        assert(scan_number(cs, start as int, self.tail, init) == Ok::<(NumberScan, int), ParseError>((st, i as int)));
        if exp {
            if float_text(&mantissa) && float_text(&exponent) {
                let f = FloatLiteral { mantissa: string_of_chars(&mantissa), exponent: Some(string_of_chars(&exponent)) };
                Ok((Number::Float(f), i))
            } else {
                Err(ParseError::NumberFormat { pos: self.offsets[start] })
            }
        } else if dot {
            if float_text(&mantissa) {
                let f = FloatLiteral { mantissa: string_of_chars(&mantissa), exponent: None };
                Ok((Number::Float(f), i))
            } else {
                Err(ParseError::NumberFormat { pos: self.offsets[start] })
            }
        } else {
            match integer_of_text(&mantissa) {
                Some(v) => Ok((Number::Integer(v), i)),
                None => Err(ParseError::NumberFormat { pos: self.offsets[start] }),
            }
        }
    }

    /// Lexes the whole character stream into tokens, or the first error.
    pub fn tokenize_json(&self) -> (r: Result<Vec<Token>, ParseError>)
        requires
            self.wf(),
        ensures
            match r {
                Ok(ts) => tokens_of(self.chars(), self.tail()) == Ok::<Seq<TokenModel>, ParseError>(tokens_model(ts@)),
                Err(e) => tokens_of(self.chars(), self.tail()) == Err::<Seq<TokenModel>, ParseError>(e),
            },
    {
        let ghost cs = self.chars@;
        let mut tokens: Vec<Token> = Vec::new();
        let mut i: usize = 0;
        assert(tokens_model(tokens@) =~= Seq::<TokenModel>::empty());
        while i < self.chars.len()
            invariant
                i <= cs.len(),
                cs == self.chars@,
                self.wf(),
                tokens_of(cs, self.tail) == lex(cs, i as int, self.tail, tokens_model(tokens@)),
            decreases cs.len() - i,
        {
            let ghost acc = tokens_model(tokens@);
            let c = self.chars[i];
            if c == '\0' {
                return Ok(tokens);
            } else if is_whitespace(c) {
                i += 1;
            } else if let Some(t) = structural_token(c) {
                tokens.push(t);
                assert(tokens_model(tokens@) =~= acc.push(structural_of(c).unwrap()));
                i += 1;
            } else if c == '"' {
                match self.parse_string(i) {
                    Ok((s, j)) => {
                        tokens.push(Token::Quotes);
                        tokens.push(Token::String(s));
                        tokens.push(Token::Quotes);
                        assert(tokens_model(tokens@) =~= acc + seq![TokenModel::Quotes, TokenModel::Str(cs.subrange(i + 1, j as int)), TokenModel::Quotes]);
                        i = j + 1;
                    },
                    Err(e) => {
                        return Err(e);
                    },
                }
            } else if c == 'n' || c == 't' || c == 'f' {
                let (lit, t) = if c == 'n' {
                    (vec!['n', 'u', 'l', 'l'], Token::Null)
                } else if c == 't' {
                    (vec!['t', 'r', 'u', 'e'], Token::Boolean(true))
                } else {
                    (vec!['f', 'a', 'l', 's', 'e'], Token::Boolean(false))
                };
                assert(lit@ =~= keyword_of(c).unwrap().0);
                match self.parse_keyword(i, &lit) {
                    Ok(j) => {
                        tokens.push(t);
                        assert(tokens_model(tokens@) =~= acc.push(keyword_of(c).unwrap().1));
                        i = j;
                    },
                    Err(e) => {
                        return Err(e);
                    },
                }
            } else if c == '-' || is_decimal_digit(c) {
                match self.parse_number(i) {
                    Ok((n, j)) => {
                        let ghost nm = n@;
                        tokens.push(Token::Number(n));
                        assert(tokens_model(tokens@) =~= acc.push(TokenModel::Number(nm)));
                        i = j;
                    },
                    Err(e) => {
                        return Err(e);
                    },
                }
            } else {
                return Err(ParseError::UnexpectedCharacter { pos: self.offsets[i], found: c });
            }
        }
        match self.tail {
            Some(e) => Err(e),
            None => Ok(tokens),
        }
    }
}

} // verus!


