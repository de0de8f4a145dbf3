//! Tokenizer and validator for the cluster-range expression language.
//!
//! An expression sequence has the shape `lower to upper, lower to upper, ...`
//! where a lower bound is `min`, `lowest`, `low`, a quoted text or a number,
//! and an upper bound is `max`, `highest`, `high`, a quoted text or a number.
//! Tokens are split on whitespace and commas outside quotation marks; a
//! quoted span keeps its inner whitespace and commas and is always a text.

use crate::value::{chars_of, parse_milli, parse_number};
use vstd::prelude::*;

verus! {

/// An ASCII capital letter lowered; every other character unchanged.
/// The keywords of the language are ASCII, so this is how they are matched
/// without regard to case.
pub open spec fn lower_char(c: char) -> char {
    if c == 'A' {
        'a'
    } else if c == 'B' {
        'b'
    } else if c == 'C' {
        'c'
    } else if c == 'D' {
        'd'
    } else if c == 'E' {
        'e'
    } else if c == 'F' {
        'f'
    } else if c == 'G' {
        'g'
    } else if c == 'H' {
        'h'
    } else if c == 'I' {
        'i'
    } else if c == 'J' {
        'j'
    } else if c == 'K' {
        'k'
    } else if c == 'L' {
        'l'
    } else if c == 'M' {
        'm'
    } else if c == 'N' {
        'n'
    } else if c == 'O' {
        'o'
    } else if c == 'P' {
        'p'
    } else if c == 'Q' {
        'q'
    } else if c == 'R' {
        'r'
    } else if c == 'S' {
        's'
    } else if c == 'T' {
        't'
    } else if c == 'U' {
        'u'
    } else if c == 'V' {
        'v'
    } else if c == 'W' {
        'w'
    } else if c == 'X' {
        'x'
    } else if c == 'Y' {
        'y'
    } else if c == 'Z' {
        'z'
    } else {
        c
    }
}

/// The characters of `s` with ASCII capitals lowered.
pub open spec fn ascii_lower(s: Seq<char>) -> Seq<char> {
    s.map_values(|c: char| lower_char(c))
}

/// Mathematical model of a [`Token`].
pub enum TokenModel {
    Minimum,
    Maximum,
    Range,
    Text(Seq<char>),
    Number(int),
}

/// One token of a parsed expression.
#[derive(Debug)]
pub enum Token {
    /// The lower-bound keyword family `min`, `lowest`, `low`.
    Minimum,
    /// The upper-bound keyword family `max`, `highest`, `high`.
    Maximum,
    /// The range separator keyword `to`.
    Range,
    /// A quoted text literal.
    Text { value: String },
    /// A number literal, held as thousandths.
    Number { value: i64 },
}

impl View for Token {
    type V = TokenModel;

    open spec fn view(&self) -> TokenModel {
        match self {
            Token::Minimum => TokenModel::Minimum,
            Token::Maximum => TokenModel::Maximum,
            Token::Range => TokenModel::Range,
            Token::Text { value } => TokenModel::Text(value@),
            Token::Number { value } => TokenModel::Number(*value as int),
        }
    }
}

impl DeepView for Token {
    type V = TokenModel;

    open spec fn deep_view(&self) -> TokenModel {
        self.view()
    }
}

/// What the validator expects next while walking the token stream.
#[derive(PartialEq, Eq, Structural, Clone, Copy, Debug)]
pub enum State {
    /// Start of an expression: a lower bound of any kind.
    MinimumOrValue,
    /// The `to` separator after a keyword lower bound.
    ValueRange,
    /// The `to` separator after a text lower bound.
    StringRange,
    /// The `to` separator after a number lower bound.
    NumberRange,
    /// An upper bound of any kind.
    MaximumOrValue,
    /// An upper bound that must be a text or the `max` family.
    MaximumOrString,
    /// An upper bound that must be a number or the `max` family.
    MaximumOrNumber,
    /// A comma before the next expression.
    Delimiter,
}

/// One step of the tokenizer: the token begun as `tok` (inside quotation
/// marks when `q`) continued from position `i`, and the position scanning
/// stops at. `None` stands for no further token: the input was exhausted
/// without token text, or a quotation was left open.
pub open spec fn scan(s: Seq<char>, i: int, tok: Seq<char>, q: bool) -> (Option<Seq<char>>, int)
    decreases s.len() - i,
{
    if i < 0 || i >= s.len() {
        (scan_result(tok, q), i)
    } else {
        let c = s[i];
        if c == '"' {
            if q {
                (scan_result(tok, false), i + 1)
            } else {
                scan(s, i + 1, tok.push('@'), true)
            }
        } else if c == ' ' {
            if q {
                scan(s, i + 1, tok.push(' '), true)
            } else if tok.len() > 0 {
                (scan_result(tok, false), i + 1)
            } else {
                scan(s, i + 1, tok, false)
            }
        } else if c == ',' {
            if q {
                scan(s, i + 1, tok.push(','), true)
            } else {
                (scan_result(tok.push(','), false), i + 1)
            }
        } else {
            let t2 = tok.push(c);
            if !q && i + 1 < s.len() && s[i + 1] == ',' {
                (scan_result(t2, q), i + 1)
            } else {
                scan(s, i + 1, t2, q)
            }
        }
    }
}

/// What a finished scan yields: nothing when no text was gathered or a
/// quotation is still open.
pub open spec fn scan_result(tok: Seq<char>, q: bool) -> Option<Seq<char>> {
    if tok.len() == 0 || q {
        None
    } else {
        Some(tok)
    }
}

proof fn lemma_scan_bounds(s: Seq<char>, i: int, tok: Seq<char>, q: bool)
    requires
        0 <= i <= s.len(),
    ensures
        i <= scan(s, i, tok, q).1 <= s.len(),
        i < s.len() ==> scan(s, i, tok, q).1 >= i + 1,
        (i >= s.len() && tok.len() == 0) ==> scan(s, i, tok, q).0 is None,
    decreases s.len() - i,
{
    if i < s.len() {
        let c = s[i];
        if c == '"' {
            if !q {
                lemma_scan_bounds(s, i + 1, tok.push('@'), true);
            }
        } else if c == ' ' {
            if q {
                lemma_scan_bounds(s, i + 1, tok.push(' '), true);
            } else if tok.len() == 0 {
                lemma_scan_bounds(s, i + 1, tok, false);
            }
        } else if c == ',' {
            if q {
                lemma_scan_bounds(s, i + 1, tok.push(','), true);
            }
        } else {
            if !(!q && i + 1 < s.len() && s[i + 1] == ',') {
                lemma_scan_bounds(s, i + 1, tok.push(c), q);
            }
        }
    }
}

/// The remaining tokens of `s` from position `i` on.
pub open spec fn tokens_from(s: Seq<char>, i: int) -> Seq<Seq<char>>
    decreases s.len() - i,
    when 0 <= i <= s.len()
    via tokens_from_dec
{
    let sc = scan(s, i, Seq::<char>::empty(), false);
    match sc.0 {
        None => Seq::<Seq<char>>::empty(),
        Some(t) => seq![t] + tokens_from(s, sc.1),
    }
}

#[via_fn]
proof fn tokens_from_dec(s: Seq<char>, i: int) {
    lemma_scan_bounds(s, i, Seq::<char>::empty(), false);
}

/// The error named when something other than a lower bound starts an
/// expression.
pub open spec fn msg_keyword_min(t: Seq<char>) -> Seq<char> {
    "Unexpected keyword '"@ + t + "' (string, number or 'min' expected)."@
}

/// The error named when an upper bound is begun with a lower-bound keyword
/// or a stray separator.
pub open spec fn msg_keyword_max(t: Seq<char>) -> Seq<char> {
    "Unexpected keyword '"@ + t + "' (string, number or 'max' expected)."@
}

/// The error named when a lower bound is neither text, number nor keyword.
pub open spec fn msg_lower_value(t: Seq<char>) -> Seq<char> {
    "Unexpected lower range value '"@ + t + "' (a string or a valid number expected)."@
}

/// The error named when an upper bound is neither text, number nor keyword.
pub open spec fn msg_upper_value(t: Seq<char>) -> Seq<char> {
    "Unexpected upper range value '"@ + t + "' (a string or a valid number expected)."@
}

/// The error named when something other than a comma follows a complete
/// expression.
pub open spec fn msg_delimiter(t: Seq<char>) -> Seq<char> {
    "Unexpected text '"@ + t + "' (delimiter ',' expected)."@
}

/// The validator, one raw token at a time: on success the tokens gathered in
/// `acc` extended by the rest of the stream, otherwise the message of the
/// first violation.
pub open spec fn validate(toks: Seq<Seq<char>>, expect: State, acc: Seq<TokenModel>) -> Result<
    Seq<TokenModel>,
    Seq<char>,
>
    decreases toks.len(),
{
    if toks.len() == 0 {
        Ok(acc)
    } else {
        let t = toks[0];
        let rest = toks.skip(1);
        let lt = ascii_lower(t);
        match expect {
            State::MinimumOrValue => {
                if lt == "min"@ || lt == "lowest"@ || lt == "low"@ {
                    validate(rest, State::ValueRange, acc.push(TokenModel::Minimum))
                } else if lt == "max"@ || lt == "highest"@ || lt == "high"@ || lt == "to"@ {
                    Err(msg_keyword_min(t))
                } else if t.len() > 0 && t[0] == '@' {
                    validate(rest, State::StringRange, acc.push(TokenModel::Text(t.skip(1))))
                } else {
                    match parse_milli(t) {
                        Some(m) => validate(rest, State::NumberRange, acc.push(TokenModel::Number(m))),
                        None => Err(msg_lower_value(t)),
                    }
                }
            },
            State::ValueRange | State::StringRange | State::NumberRange => {
                if lt == "to"@ {
                    let nxt = if expect == State::StringRange {
                        State::MaximumOrString
                    } else if expect == State::NumberRange {
                        State::MaximumOrNumber
                    } else {
                        State::MaximumOrValue
                    };
                    validate(rest, nxt, acc.push(TokenModel::Range))
                } else {
                    Err("Separate range values with keyword ' to '."@)
                }
            },
            State::MaximumOrValue | State::MaximumOrString | State::MaximumOrNumber => {
                if lt == "max"@ || lt == "highest"@ || lt == "high"@ {
                    validate(rest, State::Delimiter, acc.push(TokenModel::Maximum))
                } else if lt == "min"@ || lt == "lowest"@ || lt == "low"@ || lt == "to"@ {
                    Err(msg_keyword_max(t))
                } else if t.len() > 0 && t[0] == '@' {
                    if expect == State::MaximumOrNumber {
                        Err("Both lower and upper range must be strings."@)
                    } else {
                        validate(rest, State::Delimiter, acc.push(TokenModel::Text(t.skip(1))))
                    }
                } else {
                    match parse_milli(t) {
                        Some(m) => if expect == State::MaximumOrString {
                            Err("Both lower and upper range must be valid numbers."@)
                        } else {
                            validate(rest, State::Delimiter, acc.push(TokenModel::Number(m)))
                        },
                        None => Err(msg_upper_value(t)),
                    }
                }
            },
            State::Delimiter => {
                if t == seq![','] {
                    validate(rest, State::MinimumOrValue, acc)
                } else {
                    Err(msg_delimiter(t))
                }
            },
        }
    }
}

/// The whole parse of an expression text.
pub open spec fn parse_text(s: Seq<char>) -> Result<Seq<TokenModel>, Seq<char>> {
    validate(tokens_from(s, 0), State::MinimumOrValue, Seq::empty())
}

/// Compares the characters of `v` with a literal.
fn vec_eq_str(v: &Vec<char>, s: &str) -> (r: bool)
    ensures
        r == (v@ == s@),
{
    let n = s.unicode_len();
    if v.len() != n {
        return false;
    }
    let mut i: usize = 0;
    while i < n
        invariant
            i <= n,
            n == s@.len(),
            n == v@.len(),
            forall|j: int| 0 <= j < i ==> v@[j] == s@[j],
        decreases n - i,
    {
        if v[i] != s.get_char(i) {
            return false;
        }
        i += 1;
    }
    proof {
        assert(v@ =~= s@);
    }
    true
}

/// Appends a token, extending the token list's model by the token's model.
fn push_token(tokens: &mut Vec<Token>, t: Token)
    ensures
        final(tokens).deep_view() == old(tokens).deep_view().push(t@),
{
    let ghost before = tokens.deep_view();
    let ghost model = t@;
    tokens.push(t);
    proof {
        assert(tokens.deep_view() =~= before.push(model));
    }
}

/// Builds a string from a prefix, a middle part and a suffix.
fn msg3(pre: &str, mid: &String, post: &str) -> (r: String)
    ensures
        r@ == pre@ + mid@ + post@,
{
    let mut out = String::from_str(pre);
    out.append(mid.as_str());
    out.append(post);
    proof {
        assert(out@ =~= pre@ + mid@ + post@);
    }
    out
}

/// Builds a string from the characters of `v` at and after `start`.
fn string_from_chars(v: &Vec<char>, start: usize) -> (r: String)
    requires
        start <= v@.len(),
    ensures
        r@ == v@.skip(start as int),
{
    let mut out = String::new();
    let mut i: usize = start;
    while i < v.len()
        invariant
            start <= i <= v@.len(),
            out@ == v@.subrange(start as int, i as int),
        decreases v@.len() - i,
    {
        out.push(v[i]);
        proof {
            assert(v@.subrange(start as int, i + 1) =~= v@.subrange(start as int, i as int).push(
                v@[i as int],
            ));
        }
        i += 1;
    }
    proof {
        assert(v@.subrange(start as int, v@.len() as int) =~= v@.skip(start as int));
    }
    out
}

/// The expression parser.
pub struct Parser;

impl Parser {
    /// Reads the next token of `input` at `position`, moving `position`
    /// past it: exactly one step of [`scan`].
    pub fn next(input: &Vec<char>, position: &mut usize) -> (r: Option<String>)
        requires
            *old(position) <= input@.len(),
        ensures
            ({
                let sc = scan(input@, *old(position) as int, Seq::<char>::empty(), false);
                &&& *final(position) == sc.1
                &&& *final(position) <= input@.len()
                &&& match r {
                    Some(t) => sc.0 == Some(t@),
                    None => sc.0 is None,
                }
            }),
    {
        let ghost start = *position as int;
        let mut pos: usize = *position;
        let mut token: Vec<char> = Vec::new();
        let mut quote = false;
        proof {
            lemma_scan_bounds(input@, start, Seq::<char>::empty(), false);
        }
        loop
            invariant_except_break
                pos <= input@.len(),
                *old(position) <= input@.len(),
                start == *old(position) as int,
                scan(input@, start, Seq::<char>::empty(), false) == scan(
                    input@,
                    pos as int,
                    token@,
                    quote,
                ),
            ensures
                scan(input@, start, Seq::<char>::empty(), false) == (
                    scan_result(token@, quote),
                    pos as int,
                ),
                pos <= input@.len(),
            decreases input@.len() - pos,
        {
            if pos >= input.len() {
                break;
            }
            let c = input[pos];
            if c == '"' {
                if quote {
                    quote = false;
                    pos += 1;
                    break;
                } else {
                    token.push('@');
                    quote = true;
                    pos += 1;
                }
            } else if c == ' ' {
                if quote {
                    token.push(' ');
                    pos += 1;
                } else if token.len() > 0 {
                    pos += 1;
                    break;
                } else {
                    pos += 1;
                }
            } else if c == ',' {
                token.push(',');
                pos += 1;
                if !quote {
                    break;
                }
            } else {
                token.push(c);
                if !quote && pos + 1 < input.len() && input[pos + 1] == ',' {
                    pos += 1;
                    break;
                } else {
                    pos += 1;
                }
            }
        }
        *position = pos;
        if token.len() == 0 || quote {
            None
        } else {
            Some(string_from_chars(&token, 0))
        }
    }

    /// Parses an expression text into its token sequence, or the message of
    /// the first violation.
    #[verifier::loop_isolation(false)]
    pub fn parse(input: &str) -> (r: Result<Vec<Token>, String>)
        ensures
            ({
                let res = parse_text(input@);
                match (r, res) {
                    (Ok(v), Ok(ts)) => v.deep_view() == ts,
                    (Err(m), Err(sm)) => m@ == sm,
                    _ => false,
                }
            }),
    {
        let chars = chars_of(input);
        let mut pos: usize = 0;
        let mut expect = State::MinimumOrValue;
        let mut tokens: Vec<Token> = Vec::new();
        proof {
            assert(tokens.deep_view() =~= Seq::<TokenModel>::empty());
        }
        loop
            invariant
                pos <= chars@.len(),
                validate(tokens_from(input@, 0), State::MinimumOrValue, Seq::empty()) == validate(
                    tokens_from(input@, pos as int),
                    expect,
                    tokens.deep_view(),
                ),
            decreases chars@.len() - pos + 1,
        {
            let ghost oldpos = pos as int;
            let got = Parser::next(&chars, &mut pos);
            match got {
                None => {
                    proof {
                        assert(tokens_from(input@, oldpos) =~= Seq::<Seq<char>>::empty());
                    }
                    return Ok(tokens);
                },
                Some(text) => {
                    proof {
                        lemma_scan_bounds(input@, oldpos, Seq::<char>::empty(), false);
                        assert(tokens_from(input@, oldpos) == seq![text@] + tokens_from(
                            input@,
                            pos as int,
                        ));
                        assert(tokens_from(input@, oldpos)[0] == text@);
                        assert(tokens_from(input@, oldpos).skip(1) =~= tokens_from(
                            input@,
                            pos as int,
                        ));
                    }
                    let tc = chars_of(text.as_str());
                    let lc = lower_chars(&tc);
                    match expect {
                        State::MinimumOrValue => {
                            if vec_eq_str(&lc, "min") || vec_eq_str(&lc, "lowest") || vec_eq_str(
                                &lc,
                                "low",
                            ) {
                                push_token(&mut tokens, Token::Minimum);
                                expect = State::ValueRange;
                            } else if vec_eq_str(&lc, "max") || vec_eq_str(&lc, "highest")
                                || vec_eq_str(&lc, "high") || vec_eq_str(&lc, "to") {
                                return Err(
                                    msg3(
                                        "Unexpected keyword '",
                                        &text,
                                        "' (string, number or 'min' expected).",
                                    ),
                                );
                            } else if tc.len() > 0 && tc[0] == '@' {
                                let value = string_from_chars(&tc, 1);
                                push_token(&mut tokens, Token::Text { value });
                                expect = State::StringRange;
                            } else {
                                match parse_number(&tc) {
                                    Some(value) => {
                                        push_token(&mut tokens, Token::Number { value });
                                        expect = State::NumberRange;
                                    },
                                    None => {
                                        return Err(
                                            msg3(
                                                "Unexpected lower range value '",
                                                &text,
                                                "' (a string or a valid number expected).",
                                            ),
                                        );
                                    },
                                }
                            }
                        },
                        State::ValueRange | State::StringRange | State::NumberRange => {
                            if vec_eq_str(&lc, "to") {
                                let nxt = if expect == State::StringRange {
                                    State::MaximumOrString
                                } else if expect == State::NumberRange {
                                    State::MaximumOrNumber
                                } else {
                                    State::MaximumOrValue
                                };
                                push_token(&mut tokens, Token::Range);
                                expect = nxt;
                            } else {
                                return Err(
                                    String::from_str("Separate range values with keyword ' to '."),
                                );
                            }
                        },
                        State::MaximumOrValue | State::MaximumOrString | State::MaximumOrNumber => {
                            if vec_eq_str(&lc, "max") || vec_eq_str(&lc, "highest") || vec_eq_str(
                                &lc,
                                "high",
                            ) {
                                push_token(&mut tokens, Token::Maximum);
                                expect = State::Delimiter;
                            } else if vec_eq_str(&lc, "min") || vec_eq_str(&lc, "lowest")
                                || vec_eq_str(&lc, "low") || vec_eq_str(&lc, "to") {
                                return Err(
                                    msg3(
                                        "Unexpected keyword '",
                                        &text,
                                        "' (string, number or 'max' expected).",
                                    ),
                                );
                            } else if tc.len() > 0 && tc[0] == '@' {
                                if expect == State::MaximumOrNumber {
                                    return Err(
                                        String::from_str("Both lower and upper range must be strings."),
                                    );
                                }
                                let value = string_from_chars(&tc, 1);
                                push_token(&mut tokens, Token::Text { value });
                                expect = State::Delimiter;
                            } else {
                                match parse_number(&tc) {
                                    Some(value) => {
                                        if expect == State::MaximumOrString {
                                            return Err(
                                                String::from_str(
                                                    "Both lower and upper range must be valid numbers.",
                                                ),
                                            );
                                        }
                                        push_token(&mut tokens, Token::Number { value });
                                        expect = State::Delimiter;
                                    },
                                    None => {
                                        return Err(
                                            msg3(
                                                "Unexpected upper range value '",
                                                &text,
                                                "' (a string or a valid number expected).",
                                            ),
                                        );
                                    },
                                }
                            }
                        },
                        State::Delimiter => {
                            let comma = vec_eq_str(&tc, ",");
                            proof {
                                reveal_strlit(",");
                                assert(","@ =~= seq![',']);
                            }
                            if comma {
                                expect = State::MinimumOrValue;
                            } else {
                                return Err(
                                    msg3("Unexpected text '", &text, "' (delimiter ',' expected)."),
                                );
                            }
                        },
                    }
                },
            }
        }
    }
}

/// The characters of `v` with ASCII capitals lowered.
fn lower_chars(v: &Vec<char>) -> (r: Vec<char>)
    ensures
        r@ == ascii_lower(v@),
{
    let mut r: Vec<char> = Vec::new();
    let mut i: usize = 0;
    proof {
        assert(r@ =~= ascii_lower(v@.take(0)));
    }
    while i < v.len()
        invariant
            i <= v@.len(),
            r@ == ascii_lower(v@.take(i as int)),
        decreases v@.len() - i,
    {
        r.push(lower_char_exec(v[i]));
        proof {
            assert(ascii_lower(v@.take(i + 1)) =~= ascii_lower(v@.take(i as int)).push(
                lower_char(v@[i as int]),
            ));
        }
        i += 1;
    }
    proof {
        assert(v@.take(v@.len() as int) =~= v@);
    }
    r
}

fn lower_char_exec(c: char) -> (r: char)
    ensures
        r == lower_char(c),
{
    match c {
        'A' => 'a',
        'B' => 'b',
        'C' => 'c',
        'D' => 'd',
        'E' => 'e',
        'F' => 'f',
        'G' => 'g',
        'H' => 'h',
        'I' => 'i',
        'J' => 'j',
        'K' => 'k',
        'L' => 'l',
        'M' => 'm',
        'N' => 'n',
        'O' => 'o',
        'P' => 'p',
        'Q' => 'q',
        'R' => 'r',
        'S' => 's',
        'T' => 't',
        'U' => 'u',
        'V' => 'v',
        'W' => 'w',
        'X' => 'x',
        'Y' => 'y',
        'Z' => 'z',
        _ => c,
    }
}

} // verus!
