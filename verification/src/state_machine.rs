//! Finite-state parser for polynomial text.
//!
//! The grammar is a sequence of terms `c x^e` joined by `+` or `-`, where
//! `c` and `e` are decimal numbers; a trailing plain number is a constant
//! term with exponent zero.  The machine reads one character at a time:
//! its whole behaviour is the pure transition function [`step`], the
//! end-of-input rule [`finish`], and their iteration [`parse_result`].

use vstd::prelude::*;
use vstd::string::StrSliceExecFns;

use crate::decimal::{
    dec_body, dec_from_chars, dec_of, is_digit, lemma_dec_body_props, lemma_plus_body_round_trip,
    lemma_render_dec_round_trip, render_dec, small_dec, Dec, DecV,
};

verus! {

/// One monomial `coefficient * x^exponent`.
#[derive(Clone, Copy, PartialEq, Eq, Structural, Debug)]
pub struct Term {
    pub coefficient: Dec,
    pub exponent: Dec,
}

/// Model of a term: the two decimal values.
#[verifier::ext_equal]
pub struct TermV {
    pub c: DecV,
    pub e: DecV,
}

impl View for Term {
    type V = TermV;

    open spec fn view(&self) -> TermV {
        TermV { c: self.coefficient@, e: self.exponent@ }
    }
}

/// Which part of the input the parser is reading.
#[derive(Clone, Copy, PartialEq, Eq, Structural, Debug)]
pub enum State {
    ParseCoefficient,
    ParseCaret,
    ParseExponent,
}

/// The numeric field a malformed number belonged to.
#[derive(Clone, Copy, PartialEq, Eq, Structural, Debug)]
pub enum NumberField {
    Coefficient,
    Exponent,
}

/// Why a parse failed.
#[derive(Debug)]
pub enum ParseError {
    /// The character is not legal in the current parser state.
    InvalidCharacter { state: State, found: char },
    /// Accumulated number text does not denote a decimal number.
    MalformedNumber { field: NumberField, text: Vec<char> },
    /// The input stopped where the grammar still demands a character.
    UnexpectedEnd { state: State },
}

/// Model of a parse error.
#[verifier::ext_equal]
pub enum ParseErrorV {
    InvalidCharacter { state: State, found: char },
    MalformedNumber { field: NumberField, text: Seq<char> },
    UnexpectedEnd { state: State },
}

impl View for ParseError {
    type V = ParseErrorV;

    open spec fn view(&self) -> ParseErrorV {
        match self {
            ParseError::InvalidCharacter { state, found } => ParseErrorV::InvalidCharacter {
                state: *state,
                found: *found,
            },
            ParseError::MalformedNumber { field, text } => ParseErrorV::MalformedNumber {
                field: *field,
                text: text@,
            },
            ParseError::UnexpectedEnd { state } => ParseErrorV::UnexpectedEnd { state: *state },
        }
    }
}

/// Model of the machine: state tag, finished terms, and the two buffers.
#[verifier::ext_equal]
pub struct MachineV {
    pub state: State,
    pub terms: Seq<TermV>,
    pub coeff: Seq<char>,
    pub exp: Seq<char>,
}

/// The state machine: current state, finished terms, and the text buffers
/// of the coefficient and exponent still being accumulated.
pub struct StateMachine {
    state: State,
    pub terms: Vec<Term>,
    new_coeff: Vec<char>,
    new_exp: Vec<char>,
}

/// The terms of a vector, as models.
pub open spec fn seq_terms_v(s: Seq<Term>) -> Seq<TermV> {
    s.map_values(|t: Term| t@)
}

impl View for StateMachine {
    type V = MachineV;

    closed spec fn view(&self) -> MachineV {
        MachineV {
            state: self.state,
            terms: seq_terms_v(self.terms@),
            coeff: self.new_coeff@,
            exp: self.new_exp@,
        }
    }
}

/// Both numbers of the term are parser-sized decimals.
pub open spec fn term_small(t: TermV) -> bool {
    small_dec(t.c) && small_dec(t.e)
}

pub open spec fn terms_all_small(ts: Seq<TermV>) -> bool {
    forall|i: int| 0 <= i < ts.len() ==> term_small(ts[i])
}

/// The machine before any character has been read.
pub open spec fn init_machine() -> MachineV {
    MachineV {
        state: State::ParseCoefficient,
        terms: Seq::empty(),
        coeff: Seq::empty(),
        exp: Seq::empty(),
    }
}

/// A character that may extend coefficient text.
pub open spec fn coeff_char(c: char) -> bool {
    is_digit(c) || c == '+' || c == '-' || c == '.'
}

/// A character that may extend exponent text.
pub open spec fn exp_char(c: char) -> bool {
    is_digit(c) || c == '.'
}

/// One transition of the parser on a non-space character.
///
/// In `ParseCoefficient`, number characters accumulate, `x` closes the
/// coefficient, and a newline is ignored.  In `ParseCaret` only `^` is
/// legal: a bare `x` without `^exponent` is outside the grammar.  In
/// `ParseExponent`, number characters accumulate, and a sign or newline
/// closes the term; a closing sign is kept as the prefix of the next
/// coefficient, so a trailing sign with nothing after it is an error at
/// the end of input.
pub open spec fn step(m: MachineV, c: char) -> Result<MachineV, ParseErrorV> {
    match m.state {
        State::ParseCoefficient => {
            if coeff_char(c) {
                Ok(MachineV { coeff: m.coeff.push(c), ..m })
            } else if c == 'x' {
                Ok(MachineV { state: State::ParseCaret, ..m })
            } else if c == '\n' {
                Ok(m)
            } else {
                Err(ParseErrorV::InvalidCharacter { state: State::ParseCoefficient, found: c })
            }
        },
        State::ParseCaret => {
            if c == '^' {
                Ok(MachineV { state: State::ParseExponent, ..m })
            } else {
                Err(ParseErrorV::InvalidCharacter { state: State::ParseCaret, found: c })
            }
        },
        State::ParseExponent => {
            if exp_char(c) {
                Ok(MachineV { exp: m.exp.push(c), ..m })
            } else if c == '+' || c == '-' || c == '\n' {
                match dec_of(m.coeff) {
                    None => Err(
                        ParseErrorV::MalformedNumber {
                            field: NumberField::Coefficient,
                            text: m.coeff,
                        },
                    ),
                    Some(cv) => match dec_of(m.exp) {
                        None => Err(
                            ParseErrorV::MalformedNumber {
                                field: NumberField::Exponent,
                                text: m.exp,
                            },
                        ),
                        Some(ev) => Ok(
                            MachineV {
                                state: State::ParseCoefficient,
                                terms: m.terms.push(TermV { c: cv, e: ev }),
                                coeff: if c == '\n' {
                                    Seq::empty()
                                } else {
                                    seq![c]
                                },
                                exp: Seq::empty(),
                            },
                        ),
                    },
                }
            } else {
                Err(ParseErrorV::InvalidCharacter { state: State::ParseExponent, found: c })
            }
        },
    }
}

/// What the end of the input yields: a last term closed from the buffers,
/// or an error where the grammar still demands characters.
pub open spec fn finish(m: MachineV) -> Result<Seq<TermV>, ParseErrorV> {
    match m.state {
        State::ParseCoefficient => {
            if m.coeff.len() == 0 {
                Ok(m.terms)
            } else {
                match dec_of(m.coeff) {
                    None => Err(
                        ParseErrorV::MalformedNumber {
                            field: NumberField::Coefficient,
                            text: m.coeff,
                        },
                    ),
                    Some(cv) => Ok(m.terms.push(TermV { c: cv, e: DecV { m: 0, s: 0 } })),
                }
            }
        },
        State::ParseCaret => Err(ParseErrorV::UnexpectedEnd { state: State::ParseCaret }),
        State::ParseExponent => match dec_of(m.coeff) {
            None => Err(
                ParseErrorV::MalformedNumber { field: NumberField::Coefficient, text: m.coeff },
            ),
            Some(cv) => match dec_of(m.exp) {
                None => Err(
                    ParseErrorV::MalformedNumber { field: NumberField::Exponent, text: m.exp },
                ),
                Some(ev) => Ok(m.terms.push(TermV { c: cv, e: ev })),
            },
        },
    }
}

/// The machine run over a character sequence, spaces skipped.
pub open spec fn run(m: MachineV, s: Seq<char>) -> Result<MachineV, ParseErrorV>
    decreases s.len(),
{
    if s.len() == 0 {
        Ok(m)
    } else if s[0] == ' ' {
        run(m, s.skip(1))
    } else {
        match step(m, s[0]) {
            Ok(m2) => run(m2, s.skip(1)),
            Err(e) => Err(e),
        }
    }
}

/// What parsing a whole input yields: the term sequence, or the first error.
pub open spec fn parse_result(s: Seq<char>) -> Result<Seq<TermV>, ParseErrorV> {
    match run(init_machine(), s) {
        Ok(m) => finish(m),
        Err(e) => Err(e),
    }
}

proof fn lemma_seq_terms_v_push(s: Seq<Term>, t: Term)
    ensures
        seq_terms_v(s.push(t)) == seq_terms_v(s).push(t@),
{
    assert(seq_terms_v(s.push(t)) =~= seq_terms_v(s).push(t@));
}

fn copy_chars(v: &Vec<char>) -> (r: Vec<char>)
    ensures
        r@ == v@,
{
    let mut r: Vec<char> = Vec::new();
    let mut i: usize = 0;
    while i < v.len()
        invariant
            i <= v@.len(),
            r@ == v@.take(i as int),
        decreases v@.len() - i,
    {
        r.push(v[i]);
        proof {
            assert(v@.take(i as int).push(v@[i as int]) =~= v@.take(i + 1));
        }
        i = i + 1;
    }
    proof {
        assert(v@.take(v@.len() as int) =~= v@);
    }
    r
}

impl StateMachine {
    /// A fresh machine, ready to parse one input.
    pub fn new() -> (r: StateMachine)
        ensures
            r@ == init_machine(),
    {
        let r = StateMachine {
            state: State::ParseCoefficient,
            terms: Vec::new(),
            new_coeff: Vec::new(),
            new_exp: Vec::new(),
        };
        proof {
            assert(seq_terms_v(Seq::empty()) =~= Seq::<TermV>::empty());
            assert(r@ =~= init_machine());
        }
        r
    }

    /// Feeds one character to the machine: exactly the transition [`step`].
    /// On an error the machine is left unchanged.
    pub fn handle_event(&mut self, event: char) -> (r: Result<(), ParseError>)
        ensures
            step(old(self)@, event) matches Ok(mv) ==> r is Ok && final(self)@ == mv,
            step(old(self)@, event) matches Err(ev) ==> final(self)@ == old(self)@ && (r matches
                Err(e) && e@ == ev),
            r is Ok ==> final(self)@.terms.len() <= old(self)@.terms.len() + 1,
            terms_all_small(old(self)@.terms) && r is Ok ==> terms_all_small(final(self)@.terms),
    {
        match self.state {
            State::ParseCoefficient => {
                if ('0' <= event && event <= '9') || event == '+' || event == '-' || event == '.' {
                    self.new_coeff.push(event);
                    proof {
                        assert(self@ =~= (MachineV { coeff: old(self)@.coeff.push(event), ..old(
                            self,
                        )@ }));
                    }
                    Ok(())
                } else if event == 'x' {
                    self.state = State::ParseCaret;
                    proof {
                        assert(self@ =~= (MachineV { state: State::ParseCaret, ..old(self)@ }));
                    }
                    Ok(())
                } else if event == '\n' {
                    Ok(())
                } else {
                    Err(ParseError::InvalidCharacter { state: State::ParseCoefficient, found: event })
                }
            },
            State::ParseCaret => {
                if event == '^' {
                    self.state = State::ParseExponent;
                    proof {
                        assert(self@ =~= (MachineV { state: State::ParseExponent, ..old(self)@ }));
                    }
                    Ok(())
                } else {
                    Err(ParseError::InvalidCharacter { state: State::ParseCaret, found: event })
                }
            },
            State::ParseExponent => {
                if ('0' <= event && event <= '9') || event == '.' {
                    self.new_exp.push(event);
                    proof {
                        assert(self@ =~= (MachineV { exp: old(self)@.exp.push(event), ..old(
                            self,
                        )@ }));
                    }
                    Ok(())
                } else if event == '+' || event == '-' || event == '\n' {
                    let cd = dec_from_chars(&self.new_coeff);
                    match cd {
                        None => {
                            let text = copy_chars(&self.new_coeff);
                            Err(ParseError::MalformedNumber { field: NumberField::Coefficient, text })
                        },
                        Some(cv) => {
                            let ed = dec_from_chars(&self.new_exp);
                            match ed {
                                None => {
                                    let text = copy_chars(&self.new_exp);
                                    Err(
                                        ParseError::MalformedNumber {
                                            field: NumberField::Exponent,
                                            text,
                                        },
                                    )
                                },
                                Some(ev) => {
                                    let ghost pre = self@;
                                    self.terms.push(Term { coefficient: cv, exponent: ev });
                                    self.new_coeff.clear();
                                    if event != '\n' {
                                        self.new_coeff.push(event);
                                    }
                                    self.new_exp.clear();
                                    self.state = State::ParseCoefficient;
                                    proof {
                                        lemma_seq_terms_v_push(
                                            old(self).terms@,
                                            Term { coefficient: cv, exponent: ev },
                                        );
                                        if event == '\n' {
                                            assert(self@.coeff =~= Seq::<char>::empty());
                                        } else {
                                            assert(self@.coeff =~= seq![event]);
                                        }
                                        assert(self@.exp =~= Seq::<char>::empty());
                                        assert(step(pre, event) matches Ok(mv) && self@ =~= mv);
                                    }
                                    Ok(())
                                },
                            }
                        },
                    }
                } else {
                    Err(ParseError::InvalidCharacter { state: State::ParseExponent, found: event })
                }
            },
        }
    }

    /// Parses a whole input, replacing whatever the machine held.
    ///
    /// On success `terms` holds exactly the parsed terms, in input order;
    /// on failure the reported error is exactly the first error of
    /// [`parse_result`].
    pub fn parse_input(&mut self, input: &str) -> (r: Result<(), ParseError>)
        ensures
            parse_result(input@) matches Ok(ts) ==> r is Ok && final(self)@.terms == ts
                && terms_all_small(ts) && ts.len() <= input@.len() + 1,
            parse_result(input@) matches Err(ev) ==> (r matches Err(e) && e@ == ev),
    {
        self.state = State::ParseCoefficient;
        self.terms = Vec::new();
        self.new_coeff = Vec::new();
        self.new_exp = Vec::new();
        proof {
            assert(seq_terms_v(Seq::empty()) =~= Seq::<TermV>::empty());
            assert(self@ =~= init_machine());
        }
        let ghost s = input@;
        proof {
            assert(s.skip(0) =~= s);
        }
        let n = input.unicode_len();
        let mut i: usize = 0;
        while i < n
            invariant
                i <= n,
                n == s.len(),
                s == input@,
                run(init_machine(), s) == run(self@, s.skip(i as int)),
                terms_all_small(self@.terms),
                self@.terms.len() <= i,
            decreases n - i,
        {
            let c = input.get_char(i);
            proof {
                assert(s.skip(i as int).len() == n - i);
                assert(s.skip(i as int)[0] == s[i as int]);
                assert(s.skip(i as int).skip(1) =~= s.skip(i + 1));
            }
            if c == ' ' {
                proof {
                    assert(run(self@, s.skip(i as int)) == run(self@, s.skip(i + 1)));
                }
            } else {
                let ghost pre = self@;
                match self.handle_event(c) {
                    Ok(()) => {
                        proof {
                            assert(run(pre, s.skip(i as int)) == run(self@, s.skip(i + 1)));
                        }
                    },
                    Err(e) => {
                        proof {
                            assert(run(pre, s.skip(i as int)) == run(init_machine(), s));
                        }
                        return Err(e);
                    },
                }
            }
            i = i + 1;
        }
        proof {
            assert(s.skip(n as int).len() == 0);
            assert(run(init_machine(), s) == Ok::<MachineV, ParseErrorV>(self@));
        }
        let ghost mend = self@;
        match self.state {
            State::ParseCoefficient => {
                if self.new_coeff.len() == 0 {
                    Ok(())
                } else {
                    match dec_from_chars(&self.new_coeff) {
                        None => {
                            let text = copy_chars(&self.new_coeff);
                            Err(ParseError::MalformedNumber { field: NumberField::Coefficient, text })
                        },
                        Some(cv) => {
                            proof {
                                lemma_seq_terms_v_push(
                                    self.terms@,
                                    Term {
                                        coefficient: cv,
                                        exponent: Dec { mantissa: 0, scale: 0 },
                                    },
                                );
                            }
                            self.terms.push(
                                Term { coefficient: cv, exponent: Dec { mantissa: 0, scale: 0 } },
                            );
                            Ok(())
                        },
                    }
                }
            },
            State::ParseCaret => Err(ParseError::UnexpectedEnd { state: State::ParseCaret }),
            State::ParseExponent => {
                match dec_from_chars(&self.new_coeff) {
                    None => {
                        let text = copy_chars(&self.new_coeff);
                        Err(ParseError::MalformedNumber { field: NumberField::Coefficient, text })
                    },
                    Some(cv) => {
                        match dec_from_chars(&self.new_exp) {
                            None => {
                                let text = copy_chars(&self.new_exp);
                                Err(ParseError::MalformedNumber { field: NumberField::Exponent, text })
                            },
                            Some(ev) => {
                                proof {
                                    lemma_seq_terms_v_push(
                                        self.terms@,
                                        Term { coefficient: cv, exponent: ev },
                                    );
                                }
                                self.terms.push(Term { coefficient: cv, exponent: ev });
                                Ok(())
                            },
                        }
                    },
                }
            },
        }
    }
}

/// The sign that separates a follow-on term from the one before it.
pub open spec fn sep_char_of(c: DecV) -> char {
    if c.m < 0 {
        '-'
    } else {
        '+'
    }
}

/// The decimal with the sign stripped.
pub open spec fn dec_abs(c: DecV) -> DecV {
    if c.m < 0 {
        DecV { m: -c.m, s: c.s }
    } else {
        c
    }
}

/// The text from the `x` of the first of `ts` to the end of the input:
/// `x^`, the exponent, and then each further term introduced by its sign.
pub open spec fn tail_text(ts: Seq<TermV>) -> Seq<char>
    recommends
        ts.len() >= 1,
    decreases ts.len(),
{
    seq!['x', '^'] + dec_body(ts[0].e) + (if ts.len() <= 1 {
        Seq::<char>::empty()
    } else {
        seq![sep_char_of(ts[1].c)] + dec_body(dec_abs(ts[1].c)) + tail_text(ts.drop_first())
    })
}

/// The canonical text of a term sequence: every term written as
/// `coefficient x^exponent`, follow-on terms introduced by their sign.
pub open spec fn render_terms(ts: Seq<TermV>) -> Seq<char> {
    if ts.len() == 0 {
        Seq::<char>::empty()
    } else {
        render_dec(ts[0].c) + tail_text(ts)
    }
}

/// Characters of coefficient text pass through `ParseCoefficient`
/// accumulating in the coefficient buffer.
proof fn lemma_run_coeff(m: MachineV, cs: Seq<char>, rest: Seq<char>)
    requires
        m.state == State::ParseCoefficient,
        forall|i: int| 0 <= i < cs.len() ==> coeff_char(#[trigger] cs[i]),
    ensures
        run(m, cs + rest) == run(MachineV { coeff: m.coeff + cs, ..m }, rest),
    decreases cs.len(),
{
    if cs.len() == 0 {
        assert(cs + rest =~= rest);
        assert(m.coeff + cs =~= m.coeff);
        assert(MachineV { coeff: m.coeff + cs, ..m } =~= m);
    } else {
        let c = cs[0];
        assert(coeff_char(c));
        assert(c != ' ');
        assert((cs + rest)[0] == c);
        assert((cs + rest).skip(1) =~= cs.skip(1) + rest);
        let m2 = MachineV { coeff: m.coeff.push(c), ..m };
        assert(step(m, c) == Ok::<MachineV, ParseErrorV>(m2));
        assert(forall|i: int|
            0 <= i < cs.skip(1).len() ==> coeff_char(#[trigger] cs.skip(1)[i]));
        lemma_run_coeff(m2, cs.skip(1), rest);
        assert(m.coeff.push(c) + cs.skip(1) =~= m.coeff + cs);
    }
}

/// Characters of exponent text pass through `ParseExponent` accumulating
/// in the exponent buffer.
proof fn lemma_run_exp(m: MachineV, cs: Seq<char>, rest: Seq<char>)
    requires
        m.state == State::ParseExponent,
        forall|i: int| 0 <= i < cs.len() ==> exp_char(#[trigger] cs[i]),
    ensures
        run(m, cs + rest) == run(MachineV { exp: m.exp + cs, ..m }, rest),
    decreases cs.len(),
{
    if cs.len() == 0 {
        assert(cs + rest =~= rest);
        assert(m.exp + cs =~= m.exp);
        assert(MachineV { exp: m.exp + cs, ..m } =~= m);
    } else {
        let c = cs[0];
        assert(exp_char(c));
        assert(c != ' ');
        assert((cs + rest)[0] == c);
        assert((cs + rest).skip(1) =~= cs.skip(1) + rest);
        let m2 = MachineV { exp: m.exp.push(c), ..m };
        assert(step(m, c) == Ok::<MachineV, ParseErrorV>(m2));
        assert(forall|i: int| 0 <= i < cs.skip(1).len() ==> exp_char(#[trigger] cs.skip(1)[i]));
        lemma_run_exp(m2, cs.skip(1), rest);
        assert(m.exp.push(c) + cs.skip(1) =~= m.exp + cs);
    }
}

proof fn lemma_run_tail(m: MachineV, ts: Seq<TermV>)
    requires
        m.state == State::ParseCoefficient,
        m.exp == Seq::<char>::empty(),
        ts.len() >= 1,
        dec_of(m.coeff) == Some(ts[0].c),
        forall|i: int| 0 <= i < ts.len() ==> term_small(#[trigger] ts[i]) && ts[i].e.m >= 0,
    ensures
        run(m, tail_text(ts)) matches Ok(mf) && finish(mf) == Ok::<Seq<TermV>, ParseErrorV>(
            m.terms + ts,
        ),
    decreases ts.len(),
{
    let t0 = ts[0];
    lemma_dec_body_props(t0.e);
    let ebody = dec_body(t0.e);
    let cont: Seq<char> = if ts.len() <= 1 {
        Seq::<char>::empty()
    } else {
        seq![sep_char_of(ts[1].c)] + dec_body(dec_abs(ts[1].c)) + tail_text(ts.drop_first())
    };
    let full = tail_text(ts);
    assert(full == seq!['x', '^'] + ebody + cont);
    // Consume `x` and `^`.
    assert(full[0] == 'x');
    let m1 = MachineV { state: State::ParseCaret, ..m };
    assert(step(m, 'x') == Ok::<MachineV, ParseErrorV>(m1));
    assert(run(m, full) == run(m1, full.skip(1)));
    assert(full.skip(1)[0] == '^');
    let m2 = MachineV { state: State::ParseExponent, ..m1 };
    assert(step(m1, '^') == Ok::<MachineV, ParseErrorV>(m2));
    assert(run(m1, full.skip(1)) == run(m2, full.skip(1).skip(1)));
    assert(full.skip(1).skip(1) =~= ebody + cont);
    // Accumulate the exponent digits.
    assert(forall|i: int| 0 <= i < ebody.len() ==> exp_char(#[trigger] ebody[i]));
    lemma_run_exp(m2, ebody, cont);
    let m3 = MachineV { exp: m2.exp + ebody, ..m2 };
    assert(m2.exp + ebody =~= ebody);
    assert(run(m, full) == run(m3, cont));
    assert(dec_of(m3.exp) == Some(t0.e)) by {
        lemma_render_dec_round_trip(t0.e);
        assert(render_dec(t0.e) == ebody);
    }
    if ts.len() <= 1 {
        assert(cont.len() == 0);
        assert(run(m3, cont) == Ok::<MachineV, ParseErrorV>(m3));
        assert(finish(m3) == Ok::<Seq<TermV>, ParseErrorV>(m3.terms.push(
            TermV { c: t0.c, e: t0.e },
        )));
        assert(TermV { c: t0.c, e: t0.e } =~= t0);
        assert(m.terms.push(t0) =~= m.terms + ts);
    } else {
        let c1 = ts[1].c;
        let sep = sep_char_of(c1);
        let cbody = dec_body(dec_abs(c1));
        assert(term_small(ts[1]));
        assert(small_dec(dec_abs(c1)));
        lemma_dec_body_props(dec_abs(c1));
        assert(cont[0] == sep);
        assert(!exp_char(sep));
        assert(sep == '+' || sep == '-');
        let m4 = MachineV {
            state: State::ParseCoefficient,
            terms: m3.terms.push(TermV { c: t0.c, e: t0.e }),
            coeff: seq![sep],
            exp: Seq::<char>::empty(),
        };
        assert(step(m3, sep) == Ok::<MachineV, ParseErrorV>(m4));
        assert(run(m3, cont) == run(m4, cont.skip(1)));
        assert(cont.skip(1) =~= cbody + tail_text(ts.drop_first()));
        assert(forall|i: int| 0 <= i < cbody.len() ==> coeff_char(#[trigger] cbody[i]));
        lemma_run_coeff(m4, cbody, tail_text(ts.drop_first()));
        let m5 = MachineV { coeff: m4.coeff + cbody, ..m4 };
        assert(run(m4, cont.skip(1)) == run(m5, tail_text(ts.drop_first())));
        assert(dec_of(m5.coeff) == Some(c1)) by {
            if c1.m < 0 {
                lemma_render_dec_round_trip(c1);
                assert(seq![sep] + cbody =~= render_dec(c1));
            } else {
                lemma_plus_body_round_trip(c1);
                assert(dec_abs(c1) == c1);
                assert(seq![sep] + cbody =~= seq!['+'] + dec_body(c1));
            }
        }
        let rest_ts = ts.drop_first();
        assert(rest_ts[0] == ts[1]);
        assert(forall|i: int|
            0 <= i < rest_ts.len() ==> term_small(#[trigger] rest_ts[i]) && rest_ts[i].e.m
                >= 0) by {
            assert(forall|i: int| 0 <= i < rest_ts.len() ==> rest_ts[i] == ts[i + 1]);
        }
        lemma_run_tail(m5, rest_ts);
        assert(m5.terms + rest_ts =~= m.terms + ts) by {
            assert(TermV { c: t0.c, e: t0.e } =~= t0);
            assert(m5.terms == m.terms.push(t0));
        }
    }
}

/// Round-trip law: rendering any sequence of parser-sized terms (with
/// the nonnegative exponents the grammar can write) and parsing the text
/// back yields exactly that sequence.
pub proof fn lemma_parse_render_round_trip(ts: Seq<TermV>)
    requires
        forall|i: int| 0 <= i < ts.len() ==> term_small(#[trigger] ts[i]) && ts[i].e.m >= 0,
    ensures
        parse_result(render_terms(ts)) == Ok::<Seq<TermV>, ParseErrorV>(ts),
{
    let init = init_machine();
    if ts.len() == 0 {
        assert(render_terms(ts).len() == 0);
        assert(run(init, render_terms(ts)) == Ok::<MachineV, ParseErrorV>(init));
        assert(finish(init) == Ok::<Seq<TermV>, ParseErrorV>(init.terms));
        assert(init.terms =~= ts);
    } else {
        let c0 = ts[0].c;
        assert(term_small(ts[0]));
        let ctext = render_dec(c0);
        assert(forall|i: int| 0 <= i < ctext.len() ==> coeff_char(#[trigger] ctext[i])) by {
            lemma_dec_body_props(dec_abs(c0));
            if c0.m < 0 {
                assert(ctext == seq!['-'] + dec_body(dec_abs(c0)));
                assert(ctext[0] == '-');
                assert(forall|i: int|
                    1 <= i < ctext.len() ==> #[trigger] ctext[i] == dec_body(dec_abs(c0))[i - 1]);
            } else {
                assert(dec_abs(c0) == c0);
                assert(ctext == dec_body(c0));
            }
        }
        lemma_run_coeff(init, ctext, tail_text(ts));
        let m1 = MachineV { coeff: init.coeff + ctext, ..init };
        assert(init.coeff + ctext =~= ctext);
        assert(run(init, render_terms(ts)) == run(m1, tail_text(ts)));
        lemma_render_dec_round_trip(c0);
        lemma_run_tail(m1, ts);
        assert(m1.terms + ts =~= ts);
    }
}

/// Parses polynomial text into its term sequence, or the first error.
pub fn parse(input: &str) -> (r: Result<Vec<Term>, ParseError>)
    ensures
        parse_result(input@) matches Ok(ts) ==> (r matches Ok(v) && seq_terms_v(v@) == ts
            && terms_all_small(ts) && ts.len() <= input@.len() + 1),
        parse_result(input@) matches Err(ev) ==> (r matches Err(e) && e@ == ev),
{
    let mut sm = StateMachine::new();
    match sm.parse_input(input) {
        Ok(()) => Ok(sm.terms),
        Err(e) => Err(e),
    }
}

} // verus!
