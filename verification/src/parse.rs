//! The parser: from the text of a script to its syntax tree.
//!
//! A script is one or more declarations.  A declaration is a word, one or
//! more arguments `(name: type)`, a colon and the return type, an equals
//! sign and the body, and a semicolon.  An expression is a word followed by
//! one or more tight expressions, which is a call, or one tight
//! expression: a number, a word, or an expression in round brackets.
//! Blanks may follow every token.  Alternatives are tried in order, and the
//! first that fits is taken.

use crate::ast::{params, terms, Decl, DeclView, Expr, Name, Script, Term};
use crate::integer::{decimal_value, is_decimal_digit, Integer};
use vstd::prelude::*;
use vstd::string::{StringExecFns, StringSliceAdditionalSpecFns};
use vstd::utf8::{decode_utf8, encode_utf8, is_char_boundary, valid_utf8};

verus! {

/// A failure inside the parser: how much of the text was left where it
/// happened, and what was expected there.
#[derive(Debug)]
pub struct SyntaxErr {
    pub remaining: usize,
    pub message: String,
}

/// What a [`SyntaxErr`] denotes in contracts.
pub struct Fault {
    pub remaining: int,
    pub message: Seq<char>,
}

impl View for SyntaxErr {
    type V = Fault;

    open spec fn view(&self) -> Fault {
        Fault { remaining: self.remaining as int, message: self.message@ }
    }
}

/// The failure `f` with `extra` added to its message after a space.
pub open spec fn decorated(f: Fault, extra: Seq<char>) -> Fault {
    Fault { remaining: f.remaining, message: f.message + " "@ + extra }
}

/// The one of two failures of alternatives that got further into the
/// text; where both got as far, both messages.
pub open spec fn or_fault(a: Fault, b: Fault) -> Fault {
    if b.remaining == a.remaining {
        Fault { remaining: a.remaining, message: a.message + " | "@ + b.message }
    } else if b.remaining < a.remaining {
        b
    } else {
        a
    }
}

/// The failure `other` of a part, seen from a place where `here` of the
/// text is left: `other` itself, unless it claims that more was left.
pub open spec fn append_fault(here: int, kind: Seq<char>, other: Fault) -> Fault {
    if other.remaining <= here {
        other
    } else {
        Fault { remaining: here, message: kind }
    }
}

impl SyntaxErr {
    /// The failure of the kind `kind`, where `remaining` of the text is
    /// left.
    pub fn from_error_kind(remaining: usize, kind: &str) -> (r: SyntaxErr)
        ensures
            r@ == (Fault { remaining: remaining as int, message: kind@ }),
    {
        SyntaxErr { remaining, message: kind.to_owned() }
    }

    /// See [`append_fault`].
    pub fn append(remaining: usize, kind: &str, other: SyntaxErr) -> (r: SyntaxErr)
        ensures
            r@ == append_fault(remaining as int, kind@, other@),
    {
        if other.remaining <= remaining {
            other
        } else {
            SyntaxErr::from_error_kind(remaining, kind)
        }
    }

    /// See [`or_fault`].
    pub fn or(self, other: SyntaxErr) -> (r: SyntaxErr)
        ensures
            r@ == or_fault(self@, other@),
    {
        if other.remaining == self.remaining {
            let message = self.message.concat(" | ").concat(other.message.as_str());
            SyntaxErr { remaining: self.remaining, message }
        } else if other.remaining < self.remaining {
            other
        } else {
            self
        }
    }

    /// The same failure, with `extra` added to its message after a space.
    pub fn decorate(self, extra: &str) -> (r: SyntaxErr)
        ensures
            r@ == decorated(self@, extra@),
    {
        let message = self.message.concat(" ").concat(extra);
        SyntaxErr { remaining: self.remaining, message }
    }

    /// The failure with the message `e`, where `remaining` of the text is
    /// left.
    pub fn from_external_error(remaining: usize, e: String) -> (r: SyntaxErr)
        ensures
            r@ == (Fault { remaining: remaining as int, message: e@ }),
    {
        SyntaxErr { remaining, message: e }
    }
}

/// How a parser stops without a result: with an error, after which
/// another alternative may be tried, or with a failure, which ends the
/// parse.
#[derive(Debug)]
pub enum Failed {
    Error(SyntaxErr),
    Failure(SyntaxErr),
}

/// What a [`Failed`] denotes in contracts.
pub enum Stop {
    Error(Fault),
    Failure(Fault),
}

impl View for Failed {
    type V = Stop;

    open spec fn view(&self) -> Stop {
        match self {
            Failed::Error(e) => Stop::Error(e@),
            Failed::Failure(e) => Stop::Failure(e@),
        }
    }
}

/// Adds `extra` to the message of an error or a failure.
pub fn decorate(err: Failed, extra: &str) -> (r: Failed)
    ensures
        r@ == match err@ {
            Stop::Error(f) => Stop::Error(decorated(f, extra@)),
            Stop::Failure(f) => Stop::Failure(decorated(f, extra@)),
        },
{
    match err {
        Failed::Error(e) => Failed::Error(e.decorate(extra)),
        Failed::Failure(e) => Failed::Failure(e.decorate(extra)),
    }
}

/// Why a text is not a script: the text, the number of bytes that were
/// left where the parser gave up, and what it expected there.
#[derive(Debug)]
pub struct ParseErr {
    pub text: String,
    pub remaining: usize,
    pub message: String,
}

impl ParseErr {
    /// The failure `e`, met in `text`.
    pub fn new(e: SyntaxErr, text: &str) -> (r: ParseErr)
        ensures
            r.text@ == text@,
            r.remaining == e.remaining,
            r.message@ == e.message@,
    {
        ParseErr { text: text.to_owned(), remaining: e.remaining, message: e.message }
    }

    /// The bytes of the text.
    pub open spec fn text_bytes(&self) -> Seq<u8> {
        encode_utf8(self.text@)
    }

    /// Where in the bytes of the text the parser gave up.
    pub open spec fn position(&self) -> int {
        self.text_bytes().len() - self.remaining
    }

    /// The failure as a line for the reader: the text with `####` put in
    /// where the parser gave up, then a space and the message.
    pub fn render(&self) -> (r: String)
        requires
            self.remaining <= self.text_bytes().len(),
            is_char_boundary(self.text_bytes(), self.position()),
        ensures
            r@ == decode_utf8(self.text_bytes().subrange(0, self.position())) + "####"@
                + decode_utf8(
                self.text_bytes().subrange(self.position(), self.text_bytes().len() as int),
            ) + " "@ + self.message@,
    {
        broadcast use vstd::utf8::encode_utf8_decode_utf8;

        let text = self.text.as_str();
        assert(text@ == self.text@);
        assert(text.spec_bytes() == self.text_bytes());
        let len = text.as_bytes().len();
        let pos = len - self.remaining;
        let (before, after) = text.split_at(pos);
        assert(decode_utf8(before.spec_bytes()) == before@);
        assert(decode_utf8(after.spec_bytes()) == after@);
        before.to_owned().concat("####").concat(after).concat(" ").concat(self.message.as_str())
    }
}

/// Whether `b` is a blank: a space, a tab, a carriage return or a line
/// feed.
pub open spec fn is_space(b: u8) -> bool {
    b == 32 || b == 9 || b == 13 || b == 10
}

/// Whether `b` may stand in a word: a letter, a digit or an underscore.
pub open spec fn is_word_byte(b: u8) -> bool {
    (48 <= b <= 57) || (65 <= b <= 90) || (97 <= b <= 122) || b == 95
}

/// Where the run of blanks that starts at `pos` ends.
pub open spec fn spaces_end(s: Seq<u8>, pos: int) -> int
    decreases s.len() - pos,
{
    if 0 <= pos < s.len() && is_space(s[pos]) {
        spaces_end(s, pos + 1)
    } else {
        pos
    }
}

/// Where the run of word characters that starts at `pos` ends.
pub open spec fn word_end(s: Seq<u8>, pos: int) -> int
    decreases s.len() - pos,
{
    if 0 <= pos < s.len() && is_word_byte(s[pos]) {
        word_end(s, pos + 1)
    } else {
        pos
    }
}

/// Where the run of digits that starts at `pos` ends.
pub open spec fn digits_end(s: Seq<u8>, pos: int) -> int
    decreases s.len() - pos,
{
    if 0 <= pos < s.len() && is_decimal_digit(s[pos]) {
        digits_end(s, pos + 1)
    } else {
        pos
    }
}

/// The run of word characters that starts at `pos` lies inside the text,
/// and holds word characters only.
pub proof fn lemma_word_end(s: Seq<u8>, pos: int)
    requires
        0 <= pos <= s.len(),
    ensures
        pos <= word_end(s, pos) <= s.len(),
        forall|i: int| pos <= i < word_end(s, pos) ==> is_word_byte(#[trigger] s[i]),
    decreases s.len() - pos,
{
    if pos < s.len() && is_word_byte(s[pos]) {
        lemma_word_end(s, pos + 1);
    }
}

/// The run of digits that starts at `pos` lies inside the text, and holds
/// digits only.
pub proof fn lemma_digits_end(s: Seq<u8>, pos: int)
    requires
        0 <= pos <= s.len(),
    ensures
        pos <= digits_end(s, pos) <= s.len(),
        forall|i: int| pos <= i < digits_end(s, pos) ==> is_decimal_digit(#[trigger] s[i]),
    decreases s.len() - pos,
{
    if pos < s.len() && is_decimal_digit(s[pos]) {
        lemma_digits_end(s, pos + 1);
    }
}

/// The characters that bytes below 128 stand for.
pub open spec fn ascii_chars(bytes: Seq<u8>) -> Seq<char> {
    Seq::new(bytes.len(), |i: int| bytes[i] as char)
}

/// The failure of the kind `kind` at `pos`.
pub open spec fn fault_at(s: Seq<u8>, pos: int, kind: Seq<char>) -> Fault {
    Fault { remaining: s.len() - pos, message: kind }
}

/// A word and the blanks after it: where its characters start and end.
pub open spec fn p_word(s: Seq<u8>, pos: int) -> Result<(int, (int, int)), Fault> {
    let end = word_end(s, pos);
    if end == pos {
        Err(fault_at(s, pos, "TakeWhile1"@))
    } else {
        Ok((spaces_end(s, end), (pos, end)))
    }
}

/// A word and the blanks after it, as a name.
pub open spec fn p_name(s: Seq<u8>, pos: int) -> Result<(int, Name), Fault> {
    match p_word(s, pos) {
        Ok((next, (from, to))) => Ok((next, ascii_chars(s.subrange(from, to)))),
        Err(f) => Err(decorated(f, "word"@)),
    }
}

/// What the parser says where it does not find the symbol `text`.
pub open spec fn symbol_message(text: Seq<char>) -> Seq<char> {
    "Tag"@ + " "@ + ("Expected: \""@ + text + "\""@)
}

/// The symbol made of the one character `byte`, written `text`, and the
/// blanks after it.
pub open spec fn p_symbol(s: Seq<u8>, pos: int, byte: u8, text: Seq<char>) -> Result<
    (int, ()),
    Fault,
> {
    if 0 <= pos < s.len() && s[pos] == byte {
        Ok((spaces_end(s, pos + 1), ()))
    } else {
        Err(fault_at(s, pos, symbol_message(text)))
    }
}

/// A number: a run of digits, and the blanks after it.
pub open spec fn p_number(s: Seq<u8>, pos: int) -> Result<(int, Term), Fault> {
    let end = digits_end(s, pos);
    if end == pos {
        Err(fault_at(s, pos, "Digit"@))
    } else {
        Ok((spaces_end(s, end), Term::Int(decimal_value(s.subrange(pos, end)) as int)))
    }
}

/// A variable: a word.
pub open spec fn p_var(s: Seq<u8>, pos: int) -> Result<(int, Term), Fault> {
    match p_name(s, pos) {
        Ok((next, name)) => Ok((next, Term::Var(name))),
        Err(f) => Err(f),
    }
}

/// An expression: a call, or else a tight expression.
pub open spec fn p_expr(s: Seq<u8>, pos: int) -> Result<(int, Term), Fault>
    decreases s.len() - pos, 3nat,
{
    match p_call(s, pos) {
        Ok(r) => Ok(r),
        Err(e1) => match p_tight(s, pos) {
            Ok(r) => Ok(r),
            Err(e2) => Err(append_fault(s.len() - pos, "Alt"@, or_fault(e1, e2))),
        },
    }
}

/// A call: a word, and one or more tight expressions.
pub open spec fn p_call(s: Seq<u8>, pos: int) -> Result<(int, Term), Fault>
    decreases s.len() - pos, 2nat,
{
    match p_name(s, pos) {
        Err(e) => Err(e),
        Ok((next, name)) => {
            if pos < next <= s.len() {
                match p_tights(s, next, Seq::empty(), true) {
                    Err(e) => Err(e),
                    Ok((end, xs)) => Ok((end, Term::Call(name, xs))),
                }
            } else {
                Err(fault_at(s, pos, "Many1"@))
            }
        },
    }
}

/// Tight expressions, as many as there are, after those in `acc`.  Where
/// `first` holds there must be one.  A tight expression takes at least one
/// character.
pub open spec fn p_tights(s: Seq<u8>, pos: int, acc: Seq<Term>, first: bool) -> Result<
    (int, Seq<Term>),
    Fault,
>
    decreases s.len() - pos, 2nat,
{
    match p_tight(s, pos) {
        Err(e) => if first {
            Err(append_fault(s.len() - pos, "Many1"@, e))
        } else {
            Ok((pos, acc))
        },
        Ok((next, t)) => if pos < next <= s.len() {
            p_tights(s, next, acc.push(t), false)
        } else {
            Err(fault_at(s, pos, "Many1"@))
        },
    }
}

/// A tight expression: a number, or else a variable, or else an expression
/// in round brackets.
pub open spec fn p_tight(s: Seq<u8>, pos: int) -> Result<(int, Term), Fault>
    decreases s.len() - pos, 1nat,
{
    match p_number(s, pos) {
        Ok(r) => Ok(r),
        Err(e1) => match p_var(s, pos) {
            Ok(r) => Ok(r),
            Err(e2) => {
                let e12 = or_fault(e1, e2);
                match p_symbol(s, pos, 40, "("@) {
                    Err(e3) => Err(append_fault(s.len() - pos, "Alt"@, or_fault(e12, e3))),
                    Ok((inner, _)) => {
                        if pos < inner <= s.len() {
                            match p_expr(s, inner) {
                                Err(e3) => Err(
                                    append_fault(s.len() - pos, "Alt"@, or_fault(e12, e3)),
                                ),
                                Ok((close, t)) => match p_symbol(s, close, 41, ")"@) {
                                    Err(e3) => Err(
                                        append_fault(s.len() - pos, "Alt"@, or_fault(e12, e3)),
                                    ),
                                    Ok((next, _)) => Ok((next, t)),
                                },
                            }
                        } else {
                            Err(fault_at(s, pos, "Alt"@))
                        }
                    },
                }
            },
        },
    }
}

/// An argument: `(name: type)`.
pub open spec fn p_arg(s: Seq<u8>, pos: int) -> Result<(int, (Name, Term)), Fault> {
    match p_symbol(s, pos, 40, "("@) {
        Err(e) => Err(e),
        Ok((at1, _)) => match p_name(s, at1) {
            Err(e) => Err(e),
            Ok((at2, name)) => match p_symbol(s, at2, 58, ":"@) {
                Err(e) => Err(e),
                Ok((at3, _)) => match p_expr(s, at3) {
                    Err(e) => Err(e),
                    Ok((at4, typ)) => match p_symbol(s, at4, 41, ")"@) {
                        Err(e) => Err(e),
                        Ok((at5, _)) => Ok((at5, (name, typ))),
                    },
                },
            },
        },
    }
}

/// Arguments, as many as there are, after those in `acc`.  Where `first`
/// holds there must be one.
pub open spec fn p_args(s: Seq<u8>, pos: int, acc: Seq<(Name, Term)>, first: bool) -> Result<
    (int, Seq<(Name, Term)>),
    Fault,
>
    decreases s.len() - pos,
{
    match p_arg(s, pos) {
        Err(e) => if first {
            Err(append_fault(s.len() - pos, "Many1"@, e))
        } else {
            Ok((pos, acc))
        },
        Ok((next, a)) => if pos < next <= s.len() {
            p_args(s, next, acc.push(a), false)
        } else {
            Err(fault_at(s, pos, "Many1"@))
        },
    }
}

/// The names of a list of arguments.
pub open spec fn arg_names(args: Seq<(Name, Term)>) -> Seq<Name> {
    Seq::new(args.len(), |i: int| args[i].0)
}

/// A declaration: a word, one or more arguments with distinct names, a
/// colon and the return type, an equals sign and the body, a semicolon.
/// Two arguments of one name are a failure, which ends the parse.
pub open spec fn p_func(s: Seq<u8>, pos: int) -> Result<(int, (Name, DeclView)), Stop> {
    match p_name(s, pos) {
        Err(e) => Err(Stop::Error(e)),
        Ok((at1, name)) => match p_args(s, at1, Seq::empty(), true) {
            Err(e) => Err(Stop::Error(e)),
            Ok((at2, args)) => if !arg_names(args).no_duplicates() {
                Err(Stop::Failure(fault_at(s, at2, "Duplicate argument name"@)))
            } else {
                match p_symbol(s, at2, 58, ":"@) {
                    Err(e) => Err(Stop::Error(e)),
                    Ok((at3, _)) => match p_expr(s, at3) {
                        Err(e) => Err(Stop::Error(e)),
                        Ok((at4, ret)) => match p_symbol(s, at4, 61, "="@) {
                            Err(e) => Err(Stop::Error(e)),
                            Ok((at5, _)) => match p_expr(s, at5) {
                                Err(e) => Err(Stop::Error(e)),
                                Ok((at6, body)) => match p_symbol(s, at6, 59, ";"@) {
                                    Err(e) => Err(Stop::Error(e)),
                                    Ok((at7, _)) => Ok((at7, (name, DeclView { args, ret, body }))),
                                },
                            },
                        },
                    },
                }
            },
        },
    }
}

/// Declarations, as many as there are, after those in `acc`.  Where
/// `first` holds there must be one.
pub open spec fn p_funcs(
    s: Seq<u8>,
    pos: int,
    acc: Seq<(Name, DeclView)>,
    first: bool,
) -> Result<(int, Seq<(Name, DeclView)>), Stop>
    decreases s.len() - pos,
{
    match p_func(s, pos) {
        Err(Stop::Error(e)) => if first {
            Err(Stop::Error(append_fault(s.len() - pos, "Many1"@, e)))
        } else {
            Ok((pos, acc))
        },
        Err(Stop::Failure(e)) => Err(Stop::Failure(e)),
        Ok((next, d)) => if pos < next <= s.len() {
            p_funcs(s, next, acc.push(d), false)
        } else {
            Err(Stop::Error(fault_at(s, pos, "Many1"@)))
        },
    }
}

/// The first name among the first `k` of `names` that stands there for
/// the second time.
pub open spec fn first_repeat(names: Seq<Name>, k: nat) -> Option<Name>
    decreases k,
{
    if k == 0 {
        None
    } else {
        match first_repeat(names, (k - 1) as nat) {
            Some(n) => Some(n),
            None => if exists|i: int| 0 <= i < k - 1 && #[trigger] names[i] == names[k - 1] {
                Some(names[k - 1])
            } else {
                None
            },
        }
    }
}

/// The names of a list of declarations.
pub open spec fn func_names(decls: Seq<(Name, DeclView)>) -> Seq<Name> {
    Seq::new(decls.len(), |i: int| decls[i].0)
}

/// A script: one or more declarations, no two of one name.
pub open spec fn p_script(s: Seq<u8>, pos: int) -> Result<(int, Seq<(Name, DeclView)>), Stop> {
    match p_funcs(s, pos, Seq::empty(), true) {
        Err(stop) => Err(stop),
        Ok((next, decls)) => match first_repeat(func_names(decls), decls.len()) {
            Some(name) => Err(
                Stop::Error(fault_at(s, pos, "Duplicate function: "@ + name)),
            ),
            None => Ok((next, decls)),
        },
    }
}

/// The script that the text `s` is: blanks, then a script, then nothing.
/// Where it is none, the failure says how many bytes were left where the
/// parser gave up, and what it expected there.
pub open spec fn parse_spec(s: Seq<u8>) -> Result<Seq<(Name, DeclView)>, Fault> {
    match p_script(s, spaces_end(s, 0)) {
        Err(Stop::Error(f)) => Err(f),
        Err(Stop::Failure(f)) => Err(f),
        Ok((end, decls)) => if end == s.len() {
            Ok(decls)
        } else {
            Err(fault_at(s, end, "Eof"@))
        },
    }
}

/// Whether the bytes of `s` from `from` up to `to` are all below 128.
pub open spec fn ascii_between(s: Seq<u8>, from: int, to: int) -> bool {
    forall|i: int| from <= i < to ==> #[trigger] s[i] < 128
}

/// Whether a result of a parser that started at `pos` lies where it must:
/// a success ends after `pos` and inside the text, a failure leaves no
/// more of the text than there was at `pos`, and what lies between `pos`
/// and the place of either is below 128.
pub open spec fn in_bounds<T>(s: Seq<u8>, pos: int, r: Result<(int, T), Fault>) -> bool {
    match r {
        Ok((next, _)) => pos < next <= s.len() && ascii_between(s, pos, next),
        Err(f) => 0 <= f.remaining <= s.len() - pos && ascii_between(
            s,
            pos,
            s.len() - f.remaining,
        ),
    }
}

/// [`in_bounds`] for a run that need not hold anything unless `first`
/// holds, and may then end where it started.
pub open spec fn run_in_bounds<T>(
    s: Seq<u8>,
    pos: int,
    first: bool,
    r: Result<(int, T), Fault>,
) -> bool {
    match r {
        Ok((next, _)) => pos <= next <= s.len() && (first ==> pos < next) && ascii_between(
            s,
            pos,
            next,
        ),
        Err(f) => 0 <= f.remaining <= s.len() - pos && ascii_between(
            s,
            pos,
            s.len() - f.remaining,
        ),
    }
}

/// Where a parser that may also end the parse with a failure stopped.
pub open spec fn stop_fault(stop: Stop) -> Fault {
    match stop {
        Stop::Error(f) => f,
        Stop::Failure(f) => f,
    }
}

/// [`run_in_bounds`] for a parser that may also end the parse with a
/// failure.
pub open spec fn stop_in_bounds<T>(
    s: Seq<u8>,
    pos: int,
    first: bool,
    r: Result<(int, T), Stop>,
) -> bool {
    match r {
        Ok((next, _)) => pos <= next <= s.len() && (first ==> pos < next) && ascii_between(
            s,
            pos,
            next,
        ),
        Err(stop) => 0 <= stop_fault(stop).remaining <= s.len() - pos && ascii_between(
            s,
            pos,
            s.len() - stop_fault(stop).remaining,
        ),
    }
}

/// The token parsers take at least one byte where they succeed, and stay
/// inside the text.
pub proof fn lemma_token_bounds(s: Seq<u8>, pos: int, byte: u8, text: Seq<char>)
    requires
        0 <= pos <= s.len(),
        byte < 128,
    ensures
        in_bounds(s, pos, p_word(s, pos)),
        in_bounds(s, pos, p_name(s, pos)),
        in_bounds(s, pos, p_var(s, pos)),
        in_bounds(s, pos, p_number(s, pos)),
        in_bounds(s, pos, p_symbol(s, pos, byte, text)),
{
    lemma_word_end(s, pos);
    lemma_digits_end(s, pos);
    lemma_spaces_after(s, word_end(s, pos));
    lemma_spaces_after(s, digits_end(s, pos));
    if pos < s.len() {
        lemma_spaces_after(s, pos + 1);
    }
}

proof fn lemma_spaces_after(s: Seq<u8>, pos: int)
    requires
        0 <= pos <= s.len(),
    ensures
        pos <= spaces_end(s, pos) <= s.len(),
        ascii_between(s, pos, spaces_end(s, pos)),
    decreases s.len() - pos,
{
    if pos < s.len() && is_space(s[pos]) {
        lemma_spaces_after(s, pos + 1);
    }
}

/// An expression takes at least one byte where it is found, and a failure
/// to find one lies at or after the place where it was looked for.
pub proof fn lemma_expr_bounds(s: Seq<u8>, pos: int)
    requires
        0 <= pos <= s.len(),
    ensures
        in_bounds(s, pos, p_expr(s, pos)),
    decreases s.len() - pos, 3nat,
{
    lemma_call_bounds(s, pos);
    lemma_tight_bounds(s, pos);
}

/// [`lemma_expr_bounds`] for calls.
pub proof fn lemma_call_bounds(s: Seq<u8>, pos: int)
    requires
        0 <= pos <= s.len(),
    ensures
        in_bounds(s, pos, p_call(s, pos)),
    decreases s.len() - pos, 2nat,
{
    lemma_token_bounds(s, pos, 0, Seq::empty());
    match p_name(s, pos) {
        Ok((next, _)) => {
            lemma_tights_bounds(s, next, Seq::empty(), true);
        },
        Err(_) => {},
    }
}

/// [`lemma_expr_bounds`] for runs of tight expressions.
pub proof fn lemma_tights_bounds(s: Seq<u8>, pos: int, acc: Seq<Term>, first: bool)
    requires
        0 <= pos <= s.len(),
    ensures
        run_in_bounds(s, pos, first, p_tights(s, pos, acc, first)),
    decreases s.len() - pos, 2nat,
{
    lemma_tight_bounds(s, pos);
    match p_tight(s, pos) {
        Ok((next, t)) => {
            lemma_tights_bounds(s, next, acc.push(t), false);
        },
        Err(_) => {},
    }
}

/// [`lemma_expr_bounds`] for tight expressions.
pub proof fn lemma_tight_bounds(s: Seq<u8>, pos: int)
    requires
        0 <= pos <= s.len(),
    ensures
        in_bounds(s, pos, p_tight(s, pos)),
    decreases s.len() - pos, 1nat,
{
    lemma_token_bounds(s, pos, 40, "("@);
    match p_symbol(s, pos, 40, "("@) {
        Ok((inner, _)) => {
            lemma_expr_bounds(s, inner);
            match p_expr(s, inner) {
                Ok((close, _)) => {
                    lemma_token_bounds(s, close, 41, ")"@);
                },
                Err(_) => {},
            }
        },
        Err(_) => {},
    }
}

/// [`lemma_expr_bounds`] for arguments.
pub proof fn lemma_arg_bounds(s: Seq<u8>, pos: int)
    requires
        0 <= pos <= s.len(),
    ensures
        in_bounds(s, pos, p_arg(s, pos)),
{
    lemma_token_bounds(s, pos, 40, "("@);
    match p_symbol(s, pos, 40, "("@) {
        Ok((at1, _)) => {
            lemma_token_bounds(s, at1, 0, Seq::empty());
            match p_name(s, at1) {
                Ok((at2, _)) => {
                    lemma_token_bounds(s, at2, 58, ":"@);
                    match p_symbol(s, at2, 58, ":"@) {
                        Ok((at3, _)) => {
                            lemma_expr_bounds(s, at3);
                            match p_expr(s, at3) {
                                Ok((at4, _)) => {
                                    lemma_token_bounds(s, at4, 41, ")"@);
                                },
                                Err(_) => {},
                            }
                        },
                        Err(_) => {},
                    }
                },
                Err(_) => {},
            }
        },
        Err(_) => {},
    }
}

/// [`lemma_expr_bounds`] for runs of arguments.
pub proof fn lemma_args_bounds(s: Seq<u8>, pos: int, acc: Seq<(Name, Term)>, first: bool)
    requires
        0 <= pos <= s.len(),
    ensures
        run_in_bounds(s, pos, first, p_args(s, pos, acc, first)),
    decreases s.len() - pos,
{
    lemma_arg_bounds(s, pos);
    match p_arg(s, pos) {
        Ok((next, a)) => {
            lemma_args_bounds(s, next, acc.push(a), false);
        },
        Err(_) => {},
    }
}

/// [`lemma_expr_bounds`] for declarations.
pub proof fn lemma_func_bounds(s: Seq<u8>, pos: int)
    requires
        0 <= pos <= s.len(),
    ensures
        stop_in_bounds(s, pos, true, p_func(s, pos)),
{
    lemma_token_bounds(s, pos, 0, Seq::empty());
    match p_name(s, pos) {
        Ok((at1, _)) => {
            lemma_args_bounds(s, at1, Seq::empty(), true);
            match p_args(s, at1, Seq::empty(), true) {
                Ok((at2, _)) => {
                    lemma_token_bounds(s, at2, 58, ":"@);
                    match p_symbol(s, at2, 58, ":"@) {
                        Ok((at3, _)) => {
                            lemma_expr_bounds(s, at3);
                            match p_expr(s, at3) {
                                Ok((at4, _)) => {
                                    lemma_token_bounds(s, at4, 61, "="@);
                                    match p_symbol(s, at4, 61, "="@) {
                                        Ok((at5, _)) => {
                                            lemma_expr_bounds(s, at5);
                                            match p_expr(s, at5) {
                                                Ok((at6, _)) => {
                                                    lemma_token_bounds(s, at6, 59, ";"@);
                                                },
                                                Err(_) => {},
                                            }
                                        },
                                        Err(_) => {},
                                    }
                                },
                                Err(_) => {},
                            }
                        },
                        Err(_) => {},
                    }
                },
                Err(_) => {},
            }
        },
        Err(_) => {},
    }
}

/// [`lemma_expr_bounds`] for runs of declarations.
pub proof fn lemma_funcs_bounds(s: Seq<u8>, pos: int, acc: Seq<(Name, DeclView)>, first: bool)
    requires
        0 <= pos <= s.len(),
    ensures
        stop_in_bounds(s, pos, first, p_funcs(s, pos, acc, first)),
    decreases s.len() - pos,
{
    lemma_func_bounds(s, pos);
    match p_func(s, pos) {
        Ok((next, d)) => {
            lemma_funcs_bounds(s, next, acc.push(d), false);
        },
        Err(_) => {},
    }
}

/// Where a text is no script, the place of the failure lies inside the
/// text, and everything before it is below 128.
pub proof fn law_failure_inside_text(s: Seq<u8>)
    ensures
        parse_spec(s) matches Err(f) ==> 0 <= f.remaining <= s.len() && ascii_between(
            s,
            0,
            s.len() - f.remaining,
        ),
{
    lemma_spaces_after(s, 0);
    lemma_funcs_bounds(s, spaces_end(s, 0), Seq::empty(), true);
}

/// In a text that is valid UTF-8, a place with nothing but bytes below 128
/// before it lies between two characters.
pub proof fn lemma_ascii_prefix_boundary(bytes: Seq<u8>, place: int)
    requires
        valid_utf8(bytes),
        0 <= place <= bytes.len(),
        ascii_between(bytes, 0, place),
    ensures
        is_char_boundary(bytes, place),
    decreases place,
{
    if place > 0 {
        assert(bytes[0] < 128);
        assert(vstd::utf8::length_of_first_scalar(bytes) == 1);
        let rest = vstd::utf8::pop_first_scalar(bytes);
        assert forall|i: int| 0 <= i < place - 1 implies #[trigger] rest[i] < 128 by {
            assert(rest[i] == bytes[i + 1]);
        }
        lemma_ascii_prefix_boundary(rest, place - 1);
    }
}

/// The text of the bytes of `text` from `from` up to `to`, made by std's
/// `String::from_utf8_lossy`.  The contract claims that bytes below 128
/// give the characters of the same numbers; of other bytes it claims
/// nothing.
#[verifier::external_body]
fn ascii_string(text: &[u8], from: usize, to: usize) -> (r: String)
    requires
        from <= to <= text@.len(),
    ensures
        (forall|i: int| from <= i < to ==> text@[i] < 128) ==> r@ == ascii_chars(
            text@.subrange(from as int, to as int),
        ),
{
    String::from_utf8_lossy(&text[from..to]).into_owned()
}

/// Skips the blanks at `pos`.
pub fn whitespace(input: &[u8], pos: usize) -> (r: usize)
    requires
        pos <= input@.len(),
    ensures
        r == spaces_end(input@, pos as int),
        pos <= r <= input@.len(),
{
    let mut i = pos;
    while i < input.len() && (input[i] == 32 || input[i] == 9 || input[i] == 13 || input[i] == 10)
        invariant
            pos <= i <= input@.len(),
            spaces_end(input@, pos as int) == spaces_end(input@, i as int),
        decreases input@.len() - i,
    {
        i += 1;
    }
    i
}

/// Where the word characters at `pos` end.
fn scan_word(input: &[u8], pos: usize) -> (r: usize)
    requires
        pos <= input@.len(),
    ensures
        r == word_end(input@, pos as int),
        pos <= r <= input@.len(),
{
    let mut i = pos;
    while i < input.len() && ((48 <= input[i] && input[i] <= 57) || (65 <= input[i] && input[i]
        <= 90) || (97 <= input[i] && input[i] <= 122) || input[i] == 95)
        invariant
            pos <= i <= input@.len(),
            word_end(input@, pos as int) == word_end(input@, i as int),
        decreases input@.len() - i,
    {
        i += 1;
    }
    i
}

/// Where the digits at `pos` end.
fn scan_digits(input: &[u8], pos: usize) -> (r: usize)
    requires
        pos <= input@.len(),
    ensures
        r == digits_end(input@, pos as int),
        pos <= r <= input@.len(),
{
    let mut i = pos;
    while i < input.len() && 48 <= input[i] && input[i] <= 57
        invariant
            pos <= i <= input@.len(),
            digits_end(input@, pos as int) == digits_end(input@, i as int),
        decreases input@.len() - i,
    {
        i += 1;
    }
    i
}

/// A word and the blanks after it: where the next token starts, and where
/// the characters of the word start and end.
pub fn word(input: &[u8], pos: usize) -> (r: Result<(usize, (usize, usize)), SyntaxErr>)
    requires
        pos <= input@.len(),
    ensures
        match r {
            Ok((next, (from, to))) => p_word(input@, pos as int) == Ok::<
                (int, (int, int)),
                Fault,
            >((next as int, (from as int, to as int))) && pos == from < to <= next
                <= input@.len(),
            Err(e) => p_word(input@, pos as int) == Err::<(int, (int, int)), Fault>(e@),
        },
{
    let end = scan_word(input, pos);
    if end == pos {
        Err(SyntaxErr::from_error_kind(input.len() - pos, "TakeWhile1"))
    } else {
        let next = whitespace(input, end);
        Ok((next, (pos, end)))
    }
}

/// A word and the blanks after it, as a name.
pub fn word_owned(input: &[u8], pos: usize) -> (r: Result<(usize, String), SyntaxErr>)
    requires
        pos <= input@.len(),
    ensures
        match r {
            Ok((next, name)) => p_name(input@, pos as int) == Ok::<(int, Name), Fault>(
                (next as int, name@),
            ) && pos < next <= input@.len(),
            Err(e) => p_name(input@, pos as int) == Err::<(int, Name), Fault>(e@),
        },
{
    match word(input, pos) {
        Ok((next, (from, to))) => {
            proof {
                lemma_word_end(input@, pos as int);
            }
            Ok((next, ascii_string(input, from, to)))
        },
        Err(e) => Err(e.decorate("word")),
    }
}

/// The symbol made of the one character `byte`, written `text`, and the
/// blanks after it.
pub fn symbol(input: &[u8], pos: usize, byte: u8, text: &str) -> (r: Result<(usize, ()), SyntaxErr>)
    requires
        pos <= input@.len(),
    ensures
        match r {
            Ok((next, _)) => p_symbol(input@, pos as int, byte, text@) == Ok::<(int, ()), Fault>(
                (next as int, ()),
            ) && pos < next <= input@.len(),
            Err(e) => p_symbol(input@, pos as int, byte, text@) == Err::<(int, ()), Fault>(e@),
        },
{
    if pos < input.len() && input[pos] == byte {
        Ok((whitespace(input, pos + 1), ()))
    } else {
        let expected = "Expected: \"".to_owned().concat(text).concat("\"");
        let e = SyntaxErr::from_error_kind(input.len() - pos, "Tag").decorate(expected.as_str());
        assert(e.message@ =~= symbol_message(text@));
        Err(e)
    }
}

/// A number: a run of digits, and the blanks after it.
pub fn number(input: &[u8], pos: usize) -> (r: Result<(usize, Expr), SyntaxErr>)
    requires
        pos <= input@.len(),
    ensures
        match r {
            Ok((next, e)) => p_number(input@, pos as int) == Ok::<(int, Term), Fault>(
                (next as int, e@),
            ) && pos < next <= input@.len(),
            Err(e) => p_number(input@, pos as int) == Err::<(int, Term), Fault>(e@),
        },
{
    let end = scan_digits(input, pos);
    if end == pos {
        return Err(SyntaxErr::from_error_kind(input.len() - pos, "Digit"));
    }
    proof {
        lemma_digits_end(input@, pos as int);
        let digits = input@.subrange(pos as int, end as int);
        assert forall|i: int| 0 <= i < digits.len() implies is_decimal_digit(
            #[trigger] digits[i],
        ) by {
            assert(digits[i] == input@[pos + i]);
        }
    }
    match Integer::parse_decimal(input, pos, end) {
        Some(n) => Ok((whitespace(input, end), Expr::Int(n))),
        None => {
            assert(false);
            Err(SyntaxErr::from_error_kind(input.len() - pos, "Digit"))
        },
    }
}

/// A variable: a word.
pub fn var(input: &[u8], pos: usize) -> (r: Result<(usize, Expr), SyntaxErr>)
    requires
        pos <= input@.len(),
    ensures
        match r {
            Ok((next, e)) => p_var(input@, pos as int) == Ok::<(int, Term), Fault>(
                (next as int, e@),
            ) && pos < next <= input@.len(),
            Err(e) => p_var(input@, pos as int) == Err::<(int, Term), Fault>(e@),
        },
{
    match word_owned(input, pos) {
        Ok((next, name)) => Ok((next, Expr::Var(name))),
        Err(e) => Err(e),
    }
}

/// An expression: a call, or else a tight expression.
pub fn expr(input: &[u8], pos: usize) -> (r: Result<(usize, Expr), SyntaxErr>)
    requires
        pos <= input@.len(),
    ensures
        match r {
            Ok((next, e)) => p_expr(input@, pos as int) == Ok::<(int, Term), Fault>(
                (next as int, e@),
            ) && pos < next <= input@.len(),
            Err(e) => p_expr(input@, pos as int) == Err::<(int, Term), Fault>(e@),
        },
    decreases input@.len() - pos, 3nat,
{
    match word_with_args(input, pos) {
        Ok(r) => Ok(r),
        Err(e1) => match tight_expr(input, pos) {
            Ok(r) => Ok(r),
            Err(e2) => Err(SyntaxErr::append(input.len() - pos, "Alt", e1.or(e2))),
        },
    }
}

/// A call: a word, and one or more tight expressions.
pub fn word_with_args(input: &[u8], pos: usize) -> (r: Result<(usize, Expr), SyntaxErr>)
    requires
        pos <= input@.len(),
    ensures
        match r {
            Ok((next, e)) => p_call(input@, pos as int) == Ok::<(int, Term), Fault>(
                (next as int, e@),
            ) && pos < next <= input@.len(),
            Err(e) => p_call(input@, pos as int) == Err::<(int, Term), Fault>(e@),
        },
    decreases input@.len() - pos, 2nat,
{
    let (next, name) = match word_owned(input, pos) {
        Ok(r) => r,
        Err(e) => {
            return Err(e);
        },
    };
    match tight_exprs(input, next) {
        Ok((end, params)) => {
            let r = Expr::Call(name, params);
            proof {
                crate::ast::lemma_view_compound(r);
            }
            Ok((end, r))
        },
        Err(e) => Err(e),
    }
}

/// One or more tight expressions.
pub fn tight_exprs(input: &[u8], pos: usize) -> (r: Result<(usize, Vec<Expr>), SyntaxErr>)
    requires
        pos <= input@.len(),
    ensures
        match r {
            Ok((next, xs)) => p_tights(input@, pos as int, Seq::empty(), true) == Ok::<
                (int, Seq<Term>),
                Fault,
            >((next as int, terms(xs@))) && pos < next <= input@.len(),
            Err(e) => p_tights(input@, pos as int, Seq::empty(), true) == Err::<
                (int, Seq<Term>),
                Fault,
            >(e@),
        },
    decreases input@.len() - pos, 2nat,
{
    let mut acc: Vec<Expr> = Vec::new();
    let (first_end, first) = match tight_expr(input, pos) {
        Ok(r) => r,
        Err(e) => {
            return Err(SyntaxErr::append(input.len() - pos, "Many1", e));
        },
    };
    assert(terms(acc@.push(first)) =~= Seq::<Term>::empty().push(first@));
    acc.push(first);
    let mut at = first_end;
    loop
        invariant
            pos < at <= input@.len(),
            p_tights(input@, pos as int, Seq::empty(), true) == p_tights(
                input@,
                at as int,
                terms(acc@),
                false,
            ),
        decreases input@.len() - at,
    {
        match tight_expr(input, at) {
            Err(_) => {
                return Ok((at, acc));
            },
            Ok((next, x)) => {
                assert(terms(acc@.push(x)) =~= terms(acc@).push(x@));
                acc.push(x);
                at = next;
            },
        }
    }
}

/// A tight expression: a number, or else a variable, or else an expression
/// in round brackets.
pub fn tight_expr(input: &[u8], pos: usize) -> (r: Result<(usize, Expr), SyntaxErr>)
    requires
        pos <= input@.len(),
    ensures
        match r {
            Ok((next, e)) => p_tight(input@, pos as int) == Ok::<(int, Term), Fault>(
                (next as int, e@),
            ) && pos < next <= input@.len(),
            Err(e) => p_tight(input@, pos as int) == Err::<(int, Term), Fault>(e@),
        },
    decreases input@.len() - pos, 1nat,
{
    let e1 = match number(input, pos) {
        Ok(r) => {
            return Ok(r);
        },
        Err(e) => e,
    };
    let e2 = match var(input, pos) {
        Ok(r) => {
            return Ok(r);
        },
        Err(e) => e,
    };
    let e12 = e1.or(e2);
    let here = input.len() - pos;
    let inner = match symbol(input, pos, 40, "(") {
        Ok((inner, _)) => inner,
        Err(e3) => {
            return Err(SyntaxErr::append(here, "Alt", e12.or(e3)));
        },
    };
    let (close, x) = match expr(input, inner) {
        Ok(r) => r,
        Err(e3) => {
            return Err(SyntaxErr::append(here, "Alt", e12.or(e3)));
        },
    };
    match symbol(input, close, 41, ")") {
        Ok((next, _)) => Ok((next, x)),
        Err(e3) => Err(SyntaxErr::append(here, "Alt", e12.or(e3))),
    }
}

/// An argument: `(name: type)`.
pub fn arg(input: &[u8], pos: usize) -> (r: Result<(usize, (String, Expr)), SyntaxErr>)
    requires
        pos <= input@.len(),
    ensures
        match r {
            Ok((next, a)) => p_arg(input@, pos as int) == Ok::<(int, (Name, Term)), Fault>(
                (next as int, (a.0@, a.1@)),
            ) && pos < next <= input@.len(),
            Err(e) => p_arg(input@, pos as int) == Err::<(int, (Name, Term)), Fault>(e@),
        },
{
    let at1 = match symbol(input, pos, 40, "(") {
        Ok((at1, _)) => at1,
        Err(e) => {
            return Err(e);
        },
    };
    let (at2, name) = match word_owned(input, at1) {
        Ok(r) => r,
        Err(e) => {
            return Err(e);
        },
    };
    let at3 = match symbol(input, at2, 58, ":") {
        Ok((at3, _)) => at3,
        Err(e) => {
            return Err(e);
        },
    };
    let (at4, typ) = match expr(input, at3) {
        Ok(r) => r,
        Err(e) => {
            return Err(e);
        },
    };
    match symbol(input, at4, 41, ")") {
        Ok((at5, _)) => Ok((at5, (name, typ))),
        Err(e) => Err(e),
    }
}

/// One or more arguments.
pub fn args(input: &[u8], pos: usize) -> (r: Result<(usize, Vec<(String, Expr)>), SyntaxErr>)
    requires
        pos <= input@.len(),
    ensures
        match r {
            Ok((next, xs)) => p_args(input@, pos as int, Seq::empty(), true) == Ok::<
                (int, Seq<(Name, Term)>),
                Fault,
            >((next as int, params(xs@))) && pos < next <= input@.len(),
            Err(e) => p_args(input@, pos as int, Seq::empty(), true) == Err::<
                (int, Seq<(Name, Term)>),
                Fault,
            >(e@),
        },
{
    let mut acc: Vec<(String, Expr)> = Vec::new();
    let (first_end, first) = match arg(input, pos) {
        Ok(r) => r,
        Err(e) => {
            return Err(SyntaxErr::append(input.len() - pos, "Many1", e));
        },
    };
    assert(params(acc@.push(first)) =~= Seq::<(Name, Term)>::empty().push((first.0@, first.1@)));
    acc.push(first);
    let mut at = first_end;
    loop
        invariant
            pos < at <= input@.len(),
            p_args(input@, pos as int, Seq::empty(), true) == p_args(
                input@,
                at as int,
                params(acc@),
                false,
            ),
        decreases input@.len() - at,
    {
        match arg(input, at) {
            Err(_) => {
                return Ok((at, acc));
            },
            Ok((next, x)) => {
                assert(params(acc@.push(x)) =~= params(acc@).push((x.0@, x.1@)));
                acc.push(x);
                at = next;
            },
        }
    }
}

/// Whether no two of the arguments have one name.
fn distinct_arg_names(xs: &Vec<(String, Expr)>) -> (r: bool)
    ensures
        r == arg_names(params(xs@)).no_duplicates(),
{
    let ghost names = arg_names(params(xs@));
    let mut j: usize = 0;
    while j < xs.len()
        invariant
            j <= xs.len(),
            names == arg_names(params(xs@)),
            forall|a: int, b: int| 0 <= a < b < j ==> names[a] != names[b],
        decreases xs.len() - j,
    {
        let mut i: usize = 0;
        while i < j
            invariant
                i <= j < xs.len(),
                names == arg_names(params(xs@)),
                forall|a: int| 0 <= a < i ==> names[a] != names[j as int],
            decreases j - i,
        {
            assert(names[i as int] == xs@[i as int].0@);
            assert(names[j as int] == xs@[j as int].0@);
            if xs[i].0 == xs[j].0 {
                return false;
            }
            i += 1;
        }
        j += 1;
    }
    true
}

/// A declaration.
pub fn func(input: &[u8], pos: usize) -> (r: Result<(usize, (String, Decl)), Failed>)
    requires
        pos <= input@.len(),
    ensures
        match r {
            Ok((next, d)) => p_func(input@, pos as int) == Ok::<(int, (Name, DeclView)), Stop>(
                (next as int, (d.0@, d.1@)),
            ) && pos < next <= input@.len(),
            Err(e) => p_func(input@, pos as int) == Err::<(int, (Name, DeclView)), Stop>(e@),
        },
{
    let (at1, name) = match word_owned(input, pos) {
        Ok(r) => r,
        Err(e) => {
            return Err(Failed::Error(e));
        },
    };
    let (at2, args) = match args(input, at1) {
        Ok(r) => r,
        Err(e) => {
            return Err(Failed::Error(e));
        },
    };
    if !distinct_arg_names(&args) {
        return Err(
            Failed::Failure(
                SyntaxErr { remaining: input.len() - at2, message: "Duplicate argument name".to_owned() },
            ),
        );
    }
    let at3 = match symbol(input, at2, 58, ":") {
        Ok((at3, _)) => at3,
        Err(e) => {
            return Err(Failed::Error(e));
        },
    };
    let (at4, ret) = match expr(input, at3) {
        Ok(r) => r,
        Err(e) => {
            return Err(Failed::Error(e));
        },
    };
    let at5 = match symbol(input, at4, 61, "=") {
        Ok((at5, _)) => at5,
        Err(e) => {
            return Err(Failed::Error(e));
        },
    };
    let (at6, body) = match expr(input, at5) {
        Ok(r) => r,
        Err(e) => {
            return Err(Failed::Error(e));
        },
    };
    match symbol(input, at6, 59, ";") {
        Ok((at7, _)) => Ok((at7, (name, Decl { args, ret, body }))),
        Err(e) => Err(Failed::Error(e)),
    }
}

/// The declarations of a list, as contracts see them.
pub open spec fn decl_views(decls: Seq<(String, Decl)>) -> Seq<(Name, DeclView)> {
    Seq::new(decls.len(), |i: int| (decls[i].0@, decls[i].1@))
}

/// One or more declarations.
pub fn funcs(input: &[u8], pos: usize) -> (r: Result<(usize, Vec<(String, Decl)>), Failed>)
    requires
        pos <= input@.len(),
    ensures
        match r {
            Ok((next, xs)) => p_funcs(input@, pos as int, Seq::empty(), true) == Ok::<
                (int, Seq<(Name, DeclView)>),
                Stop,
            >((next as int, decl_views(xs@))) && pos < next <= input@.len(),
            Err(e) => p_funcs(input@, pos as int, Seq::empty(), true) == Err::<
                (int, Seq<(Name, DeclView)>),
                Stop,
            >(e@),
        },
{
    let mut acc: Vec<(String, Decl)> = Vec::new();
    let (first_end, first) = match func(input, pos) {
        Ok(r) => r,
        Err(Failed::Error(e)) => {
            return Err(Failed::Error(SyntaxErr::append(input.len() - pos, "Many1", e)));
        },
        Err(Failed::Failure(e)) => {
            return Err(Failed::Failure(e));
        },
    };
    assert(decl_views(acc@.push(first)) =~= Seq::<(Name, DeclView)>::empty().push(
        (first.0@, first.1@),
    ));
    acc.push(first);
    let mut at = first_end;
    loop
        invariant
            pos < at <= input@.len(),
            p_funcs(input@, pos as int, Seq::empty(), true) == p_funcs(
                input@,
                at as int,
                decl_views(acc@),
                false,
            ),
        decreases input@.len() - at,
    {
        match func(input, at) {
            Err(Failed::Error(_)) => {
                return Ok((at, acc));
            },
            Err(Failed::Failure(e)) => {
                return Err(Failed::Failure(e));
            },
            Ok((next, x)) => {
                assert(decl_views(acc@.push(x)) =~= decl_views(acc@).push((x.0@, x.1@)));
                acc.push(x);
                at = next;
            },
        }
    }
}

/// The script of the declarations `func_list`, unless two of them have one
/// name: then the message that says which.
pub fn funcs_to_script(func_list: Vec<(String, Decl)>) -> (r: Result<Script, String>)
    ensures
        match r {
            Ok(script) => first_repeat(func_names(decl_views(func_list@)), func_list@.len())
                is None && script@ == decl_views(func_list@),
            Err(message) => first_repeat(func_names(decl_views(func_list@)), func_list@.len())
                matches Some(name) && message@ == "Duplicate function: "@ + name,
        },
{
    let ghost names = func_names(decl_views(func_list@));
    let mut j: usize = 0;
    while j < func_list.len()
        invariant
            j <= func_list.len(),
            names == func_names(decl_views(func_list@)),
            first_repeat(names, j as nat) is None,
        decreases func_list.len() - j,
    {
        let mut i: usize = 0;
        while i < j
            invariant
                i <= j < func_list.len(),
                names == func_names(decl_views(func_list@)),
                first_repeat(names, j as nat) is None,
                forall|a: int| 0 <= a < i ==> names[a] != names[j as int],
            decreases j - i,
        {
            assert(names[i as int] == func_list@[i as int].0@);
            assert(names[j as int] == func_list@[j as int].0@);
            if func_list[i].0 == func_list[j].0 {
                proof {
                    lemma_first_repeat_stays(names, (j + 1) as nat, func_list@.len() as nat);
                }
                return Err("Duplicate function: ".to_owned().concat(func_list[j].0.as_str()));
            }
            i += 1;
        }
        j += 1;
    }
    let script = Script { decls: func_list };
    assert(script@ =~= decl_views(func_list@));
    Ok(script)
}

proof fn lemma_first_repeat_stays(names: Seq<Name>, k: nat, n: nat)
    requires
        k <= n,
        first_repeat(names, k) is Some,
    ensures
        first_repeat(names, n) == first_repeat(names, k),
    decreases n,
{
    if k < n {
        lemma_first_repeat_stays(names, k, (n - 1) as nat);
    }
}

/// A script: one or more declarations, no two of one name.
pub fn script(input: &[u8], pos: usize) -> (r: Result<(usize, Script), Failed>)
    requires
        pos <= input@.len(),
    ensures
        match r {
            Ok((next, script)) => p_script(input@, pos as int) == Ok::<
                (int, Seq<(Name, DeclView)>),
                Stop,
            >((next as int, script@)) && pos < next <= input@.len(),
            Err(e) => p_script(input@, pos as int) == Err::<(int, Seq<(Name, DeclView)>), Stop>(e@),
        },
{
    let (next, func_list) = match funcs(input, pos) {
        Ok(r) => r,
        Err(e) => {
            return Err(e);
        },
    };
    match funcs_to_script(func_list) {
        Ok(script) => Ok((next, script)),
        Err(message) => Err(
            Failed::Error(SyntaxErr::from_external_error(input.len() - pos, message)),
        ),
    }
}

/// Parses the bytes of a text as a script.
pub fn parse_bytes(input: &[u8]) -> (r: Result<Script, SyntaxErr>)
    ensures
        match r {
            Ok(script) => parse_spec(input@) == Ok::<Seq<(Name, DeclView)>, Fault>(script@),
            Err(e) => parse_spec(input@) == Err::<Seq<(Name, DeclView)>, Fault>(e@)
                && e.remaining <= input@.len() && ascii_between(
                input@,
                0,
                input@.len() - e.remaining,
            ),
        },
{
    proof {
        law_failure_inside_text(input@);
    }
    let start = whitespace(input, 0);
    match script(input, start) {
        Ok((end, script)) => {
            if end == input.len() {
                Ok(script)
            } else {
                Err(SyntaxErr::from_error_kind(input.len() - end, "Eof"))
            }
        },
        Err(Failed::Error(e)) => Err(e),
        Err(Failed::Failure(e)) => Err(e),
    }
}

/// Parses a text as a script.
pub fn parse(input: &str) -> (r: Result<Script, ParseErr>)
    ensures
        match r {
            Ok(script) => parse_spec(input.spec_bytes()) == Ok::<Seq<(Name, DeclView)>, Fault>(
                script@,
            ),
            Err(e) => parse_spec(input.spec_bytes()) == Err::<Seq<(Name, DeclView)>, Fault>(
                Fault { remaining: e.remaining as int, message: e.message@ },
            ) && e.text@ == input@ && e.remaining <= e.text_bytes().len() && is_char_boundary(
                e.text_bytes(),
                e.position(),
            ),
        },
{
    broadcast use vstd::utf8::encode_utf8_valid_utf8;

    match parse_bytes(input.as_bytes()) {
        Ok(script) => Ok(script),
        Err(e) => {
            proof {
                lemma_ascii_prefix_boundary(
                    input.spec_bytes(),
                    input.spec_bytes().len() - e.remaining,
                );
            }
            Err(ParseErr::new(e, input))
        },
    }
}

} // verus!
