//! The mathematical model of the parser: pure, recursive specification
//! functions over the sequence of unread bytes and the container stack.
//! Every executable function of [`crate::parser`] is proved to return exactly
//! what these functions say.
//!
//! Error outcomes carry no residual input: any error terminates the stream
//! for the parser instance, so nothing after it is ever observed.

use vstd::prelude::*;
use vstd::utf8::decode_utf8;
use vstd::utf8::encode_scalar;
use vstd::utf8::valid_utf8;

use crate::events::Block;
use crate::events::Container;
use crate::events::ContainerType;
use crate::events::Decimal;
use crate::events::ExpectType;
use crate::events::N;
use crate::events::SpecEvent;

verus! {

/// JSON whitespace: space, carriage return, newline, tab.
pub open spec fn is_ws(c: u8) -> bool {
    c == 32 || c == 13 || c == 10 || c == 9
}

/// An ASCII decimal digit.
pub open spec fn is_digit(c: u8) -> bool {
    48 <= c <= 57
}

/// The value of one hexadecimal digit, or `None` for any other byte.
pub open spec fn hex_val(c: u8) -> Option<u8> {
    if 48 <= c <= 57 {
        Some((c - 48) as u8)
    } else if 97 <= c <= 102 {
        Some((c - 97 + 10) as u8)
    } else if 65 <= c <= 70 {
        Some((c - 65 + 10) as u8)
    } else {
        None
    }
}

/// Outcome of reading four hex digits.
pub ghost enum Hex4 {
    Unit(u16),
    Bad,
    Eof,
}

/// Reading exactly four hex digits from the front of `rem`, forming a 16-bit
/// code unit.  The digits are read in order, so a missing byte before a bad
/// byte is end-of-input, and a bad byte before the end is a decoding failure.
pub open spec fn hex4(rem: Seq<u8>) -> Hex4 {
    if rem.len() >= 4 && (forall|i: int| 0 <= i < 4 ==> hex_val(#[trigger] rem[i]) is Some) {
        Hex4::Unit(
            (hex_val(rem[0])->0 * 0x1000 + hex_val(rem[1])->0 * 0x100 + hex_val(rem[2])->0 * 0x10
                + hex_val(rem[3])->0) as u16,
        )
    } else if forall|i: int| 0 <= i < rem.len() && i < 4 ==> hex_val(#[trigger] rem[i]) is Some {
        Hex4::Eof
    } else {
        Hex4::Bad
    }
}

/// Outcome of decoding one escape (or one `\u` sequence): the UTF-8 bytes it
/// denotes and the number of input bytes consumed.
pub ghost enum LexE {
    Esc { bytes: Seq<u8>, used: int },
    Bad,
    Eof,
}

/// Decoding of a `\uXXXX` escape, starting just after the `u`.  A high
/// surrogate must be followed by `\u` and a low surrogate, and the pair is
/// combined into one code point; a lone low surrogate, or a high surrogate
/// followed by anything else, fails.  Any other code unit is taken directly
/// as a scalar value.  The decoded scalar is appended in UTF-8.
pub open spec fn lex_unicode(rem: Seq<u8>) -> LexE {
    match hex4(rem) {
        Hex4::Eof => LexE::Eof,
        Hex4::Bad => LexE::Bad,
        Hex4::Unit(n) => {
            if 0xDC00 <= n <= 0xDFFF {
                LexE::Bad
            } else if 0xD800 <= n <= 0xDBFF {
                if rem.len() <= 4 {
                    LexE::Eof
                } else if rem[4] != 92 {
                    LexE::Bad
                } else if rem.len() <= 5 {
                    LexE::Eof
                } else if rem[5] != 117 {
                    LexE::Bad
                } else {
                    match hex4(rem.skip(6)) {
                        Hex4::Eof => LexE::Eof,
                        Hex4::Bad => LexE::Bad,
                        Hex4::Unit(t) => {
                            if 0xDC00 <= t <= 0xDFFF {
                                LexE::Esc {
                                    bytes: encode_scalar(
                                        ((n - 0xD800) * 0x400 + (t - 0xDC00) + 0x10000) as u32,
                                    ),
                                    used: 10,
                                }
                            } else {
                                LexE::Bad
                            }
                        },
                    }
                }
            } else {
                LexE::Esc { bytes: encode_scalar(n as u32), used: 4 }
            }
        },
    }
}

/// Decoding of one escape, starting just after the backslash.
pub open spec fn lex_escape(rem: Seq<u8>) -> LexE {
    if rem.len() == 0 {
        LexE::Eof
    } else if rem[0] == 34 || rem[0] == 92 || rem[0] == 47 {
        LexE::Esc { bytes: seq![rem[0]], used: 1 }
    } else if rem[0] == 98 {
        LexE::Esc { bytes: seq![8u8], used: 1 }
    } else if rem[0] == 102 {
        LexE::Esc { bytes: seq![12u8], used: 1 }
    } else if rem[0] == 110 {
        LexE::Esc { bytes: seq![10u8], used: 1 }
    } else if rem[0] == 114 {
        LexE::Esc { bytes: seq![13u8], used: 1 }
    } else if rem[0] == 116 {
        LexE::Esc { bytes: seq![9u8], used: 1 }
    } else if rem[0] == 117 {
        match lex_unicode(rem.skip(1)) {
            LexE::Esc { bytes, used } => LexE::Esc { bytes, used: used + 1 },
            e => e,
        }
    } else {
        LexE::Bad
    }
}

/// Outcome of lexing a string body: the decoded bytes and the input left
/// after the closing quote.
pub ghost enum LexS {
    Body { bytes: Seq<u8>, rest: Seq<u8> },
    Bad,
    Eof,
}

/// Lexing of a string body, starting just after the opening quote, with the
/// bytes decoded so far in `acc`.  Ordinary bytes are copied through
/// unchanged; a backslash starts an escape; the closing quote ends the body.
pub open spec fn lex_string(rem: Seq<u8>, acc: Seq<u8>) -> LexS
    decreases rem.len(),
{
    if rem.len() == 0 {
        LexS::Eof
    } else if rem[0] == 34 {
        LexS::Body { bytes: acc, rest: rem.skip(1) }
    } else if rem[0] == 92 {
        match lex_escape(rem.skip(1)) {
            LexE::Esc { bytes, used } => {
                if 0 <= used && used + 1 <= rem.len() {
                    lex_string(rem.skip(used + 1), acc + bytes)
                } else {
                    LexS::Bad
                }
            },
            LexE::Bad => LexS::Bad,
            LexE::Eof => LexS::Eof,
        }
    } else {
        lex_string(rem.skip(1), acc.push(rem[0]))
    }
}

/// A `\u` escape consumes four hex digits, or ten bytes for a surrogate
/// pair, and never more than the input holds.
pub proof fn lemma_lex_unicode_bounds(rem: Seq<u8>)
    ensures
        lex_unicode(rem) matches LexE::Esc { bytes, used } ==> (used == 4 || used == 10) && used
            <= rem.len(),
{
    if lex_unicode(rem) matches LexE::Esc { bytes, used } {
        assert(hex4(rem) is Unit ==> rem.len() >= 4);
        assert(hex4(rem.skip(6)) is Unit ==> rem.skip(6).len() >= 4);
    }
}

/// An escape consumes at least its tag byte and never more than the input
/// holds.
pub proof fn lemma_lex_escape_bounds(rem: Seq<u8>)
    ensures
        lex_escape(rem) matches LexE::Esc { bytes, used } ==> 1 <= used <= rem.len(),
{
    if rem.len() > 0 && rem[0] == 117 {
        lemma_lex_unicode_bounds(rem.skip(1));
    }
}

/// Lexing a string body walks over a run of ordinary bytes by copying them
/// into the accumulator.
pub proof fn lemma_lex_string_run(rem: Seq<u8>, acc: Seq<u8>, n: int)
    requires
        0 <= n <= rem.len(),
        forall|i: int| 0 <= i < n ==> #[trigger] rem[i] != 92 && rem[i] != 34,
    ensures
        lex_string(rem, acc) == lex_string(rem.skip(n), acc + rem.take(n)),
    decreases n,
{
    if n == 0 {
        assert(rem.skip(0) =~= rem);
        assert(acc + rem.take(0) =~= acc);
    } else {
        assert(lex_string(rem, acc) == lex_string(rem.skip(1), acc.push(rem[0])));
        lemma_lex_string_run(rem.skip(1), acc.push(rem[0]), n - 1);
        assert(rem.skip(1).skip(n - 1) =~= rem.skip(n));
        assert(acc.push(rem[0]) + rem.skip(1).take(n - 1) =~= acc + rem.take(n));
    }
}

/// The accumulator of the digit-run lexer: the unsigned magnitude, the count
/// of digits after the decimal point (if one was seen), and the exponent
/// magnitude and sign (if an exponent was started).
pub ghost struct DigAcc {
    pub tmp: u64,
    pub dp: Option<u32>,
    pub e: Option<u32>,
    pub e_minus: bool,
}

/// Outcome of lexing the digit run of a number.
pub ghost enum LexD {
    Run { acc: DigAcc, rest: Seq<u8> },
    Bad,
    Eof,
}

/// The initial accumulator of the digit-run lexer.
pub open spec fn dig_init() -> DigAcc {
    DigAcc { tmp: 0, dp: None, e: None, e_minus: false }
}

/// Lexing of the digit run of a number.  Digits accumulate into the exponent
/// once one was started, else into the magnitude; a decimal point is legal
/// only once, before the exponent, and only when a digit follows; an exponent
/// marker is legal only once and must be followed by a digit or a sign; any
/// other byte ends the run and is left in the input.  An accumulator that
/// outgrows its machine representation is a decoding failure.
pub open spec fn lex_digits(rem: Seq<u8>, acc: DigAcc) -> LexD
    decreases rem.len(),
{
    if rem.len() == 0 {
        LexD::Run { acc, rest: rem }
    } else if is_digit(rem[0]) {
        let d = rem[0] - 48;
        match acc.e {
            Some(ev) => {
                if ev * 10 + d > u32::MAX {
                    LexD::Bad
                } else {
                    lex_digits(rem.skip(1), DigAcc { e: Some((ev * 10 + d) as u32), ..acc })
                }
            },
            None => {
                if acc.tmp * 10 + d > u64::MAX {
                    LexD::Bad
                } else {
                    let dp2 = match acc.dp {
                        Some(k) => Some((k + 1) as u32),
                        None => None,
                    };
                    if acc.dp matches Some(k) && k == u32::MAX {
                        LexD::Bad
                    } else {
                        lex_digits(
                            rem.skip(1),
                            DigAcc { tmp: (acc.tmp * 10 + d) as u64, dp: dp2, ..acc },
                        )
                    }
                }
            },
        }
    } else if rem[0] == 46 {
        if acc.dp is Some || acc.e is Some {
            LexD::Bad
        } else if rem.len() < 2 {
            LexD::Eof
        } else if !is_digit(rem[1]) {
            LexD::Bad
        } else {
            lex_digits(rem.skip(1), DigAcc { dp: Some(0), ..acc })
        }
    } else if rem[0] == 101 || rem[0] == 69 {
        if acc.e is Some {
            LexD::Bad
        } else if rem.len() < 2 {
            LexD::Eof
        } else if is_digit(rem[1]) {
            lex_digits(rem.skip(1), DigAcc { e: Some(0), ..acc })
        } else if rem[1] == 43 {
            lex_digits(rem.skip(2), DigAcc { e: Some(0), ..acc })
        } else if rem[1] == 45 {
            lex_digits(rem.skip(2), DigAcc { e: Some(0), e_minus: true, ..acc })
        } else {
            LexD::Bad
        }
    } else {
        LexD::Run { acc, rest: rem }
    }
}

/// Outcome of lexing a complete number literal.
pub ghost enum LexN {
    Num { n: N, rest: Seq<u8> },
    Bad,
    Eof,
}

/// `10^p`, exactly.
pub open spec fn pow10(p: nat) -> int
    decreases p,
{
    if p == 0 {
        1
    } else {
        10 * pow10((p - 1) as nat)
    }
}

/// The number denoted by a finished digit run.  The net scale is the signed
/// exponent minus the count of post-decimal digits.  A non-negative net scale
/// gives an exact integer — signed if the literal had a leading minus — and a
/// negative net scale gives an exact decimal.  A value that does not fit its
/// 64-bit representation, or a decimal scale beyond `10^19`, is a decoding
/// failure.
pub open spec fn finish_number(acc: DigAcc, minus: bool, rest: Seq<u8>) -> LexN {
    let ev: int = match acc.e {
        Some(v) => if acc.e_minus {
            -(v as int)
        } else {
            v as int
        },
        None => 0,
    };
    let dp: int = match acc.dp {
        Some(v) => v as int,
        None => 0,
    };
    let index = ev - dp;
    if index >= 0 {
        let val = acc.tmp * pow10(index as nat);
        if minus {
            if val <= i64::MAX {
                LexN::Num { n: N::Int((-val) as i64), rest }
            } else {
                LexN::Bad
            }
        } else {
            if val <= u64::MAX {
                LexN::Num { n: N::Uint(val as u64), rest }
            } else {
                LexN::Bad
            }
        }
    } else {
        if -index <= 19 {
            LexN::Num {
                n: N::Float(Decimal { mantissa: acc.tmp, scale: (-index) as u32, minus }),
                rest,
            }
        } else {
            LexN::Bad
        }
    }
}

/// A fresh digit run lexed to its end and turned into a number.
pub open spec fn lex_tail(rem: Seq<u8>, minus: bool) -> LexN {
    match lex_digits(rem, dig_init()) {
        LexD::Run { acc, rest } => finish_number(acc, minus, rest),
        LexD::Bad => LexN::Bad,
        LexD::Eof => LexN::Eof,
    }
}

/// Lexing of a number literal.  `rem` starts at the first byte after the
/// optional leading minus, which is recorded in `minus`.  A leading zero may
/// be followed only by a decimal point or by the end of the literal, and a
/// bare zero must not carry a minus sign.
pub open spec fn lex_number(rem: Seq<u8>, minus: bool) -> LexN {
    if rem.len() == 0 {
        LexN::Eof
    } else if rem[0] == 48 {
        if rem.len() == 1 {
            if minus {
                LexN::Bad
            } else {
                LexN::Num { n: N::Uint(0), rest: rem.skip(1) }
            }
        } else if is_digit(rem[1]) {
            LexN::Bad
        } else if rem[1] == 46 {
            lex_tail(rem.skip(1), minus)
        } else {
            if minus {
                LexN::Bad
            } else {
                LexN::Num { n: N::Uint(0), rest: rem.skip(1) }
            }
        }
    } else {
        lex_tail(rem, minus)
    }
}

/// Ten to any power is positive.
pub proof fn lemma_pow10_pos(p: nat)
    ensures
        pow10(p) >= 1,
    decreases p,
{
    if p > 0 {
        lemma_pow10_pos((p - 1) as nat);
    }
}

/// Powers of ten grow with the exponent.
pub proof fn lemma_pow10_mono(a: nat, b: nat)
    requires
        a <= b,
    ensures
        pow10(a) <= pow10(b),
    decreases b,
{
    if a < b {
        lemma_pow10_mono(a, (b - 1) as nat);
        lemma_pow10_pos((b - 1) as nat);
    }
}

/// Outcome of matching an exact literal keyword.
pub ghost enum LexL {
    Match(Seq<u8>),
    Bad,
    Eof,
}

/// Matching of the exact bytes of `word` at the front of `rem`: success
/// leaves the rest of the input; running out of input while every byte so far
/// matched is end-of-input; a mismatched byte is a decoding failure.
pub open spec fn lex_lit(rem: Seq<u8>, word: Seq<u8>) -> LexL {
    if word.is_prefix_of(rem) {
        LexL::Match(rem.skip(word.len() as int))
    } else if rem.len() < word.len() && rem == word.take(rem.len() as int) {
        LexL::Eof
    } else {
        LexL::Bad
    }
}

/// The bytes of `true`.
pub open spec fn lit_true() -> Seq<u8> {
    seq![116u8, 114u8, 117u8, 101u8]
}

/// The bytes of `false`.
pub open spec fn lit_false() -> Seq<u8> {
    seq![102u8, 97u8, 108u8, 115u8, 101u8]
}

/// The bytes of `null`.
pub open spec fn lit_null() -> Seq<u8> {
    seq![110u8, 117u8, 108u8, 108u8]
}

/// A well-formed container stack: the sentinel root at the bottom, never
/// popped, and only object or array containers above it.
pub open spec fn wf_stack(stack: Seq<Container>) -> bool {
    &&& stack.len() >= 1
    &&& stack[0].t == ContainerType::Root
    &&& forall|i: int| 1 <= i < stack.len() ==> (#[trigger] stack[i]).t != ContainerType::Root
}

/// `stack` with the expectation of its top container replaced.
pub open spec fn set_expect(stack: Seq<Container>, x: ExpectType) -> Seq<Container> {
    stack.update(stack.len() - 1, Container { t: stack.last().t, expect: x })
}

/// Outcome of one pull: an event together with the input and stack after it,
/// clean exhaustion of the stream, or one of the three failures.
pub ghost enum SpecStep {
    Event { ev: SpecEvent, rest: Seq<u8>, stack: Seq<Container> },
    Fin,
    ErrSyntax { expected: ExpectType, found: u8 },
    ErrBad,
    ErrEof,
}

/// What lexing a string body yields as a pull outcome: the decoded bytes
/// must form valid UTF-8, and the event is a key or a string according to
/// the expectation that triggered it.
pub open spec fn string_step(rem: Seq<u8>, stack: Seq<Container>, key: bool) -> SpecStep {
    match lex_string(rem, Seq::<u8>::empty()) {
        LexS::Body { bytes, rest } => {
            if valid_utf8(bytes) {
                if key {
                    SpecStep::Event {
                        ev: SpecEvent::Key(decode_utf8(bytes)),
                        rest,
                        stack: set_expect(stack, ExpectType::Colon),
                    }
                } else {
                    SpecStep::Event {
                        ev: SpecEvent::Str(decode_utf8(bytes)),
                        rest,
                        stack: set_expect(stack, ExpectType::Comma),
                    }
                }
            } else {
                SpecStep::ErrBad
            }
        },
        LexS::Bad => SpecStep::ErrBad,
        LexS::Eof => SpecStep::ErrEof,
    }
}

/// One pull of the parser, as a function of the unread input and the
/// container stack.  Whitespace, colons and commas are consumed silently;
/// structural bytes drive the stack; value positions dispatch to the string,
/// number and keyword lexers.  Exactly one event is produced per successful
/// pull.
pub open spec fn step(rem: Seq<u8>, stack: Seq<Container>) -> SpecStep
    recommends
        wf_stack(stack),
    decreases rem.len(),
{
    if stack.len() == 0 {
        SpecStep::ErrBad
    } else if rem.len() == 0 {
        if stack.len() == 1 {
            SpecStep::Fin
        } else {
            SpecStep::ErrEof
        }
    } else {
        let c = rem[0];
        let top = stack.last();
        if is_ws(c) {
            step(rem.skip(1), stack)
        } else if c == 123 {
            if top.expect == ExpectType::Value {
                SpecStep::Event {
                    ev: SpecEvent::Start(Block::Object),
                    rest: rem.skip(1),
                    stack: stack.push(
                        Container { t: ContainerType::Object, expect: ExpectType::Key },
                    ),
                }
            } else {
                SpecStep::ErrSyntax { expected: top.expect, found: c }
            }
        } else if c == 91 {
            if top.expect == ExpectType::Value {
                SpecStep::Event {
                    ev: SpecEvent::Start(Block::Array),
                    rest: rem.skip(1),
                    stack: stack.push(
                        Container { t: ContainerType::Array, expect: ExpectType::Value },
                    ),
                }
            } else {
                SpecStep::ErrSyntax { expected: top.expect, found: c }
            }
        } else if c == 125 {
            if stack.len() >= 2 && top.t == ContainerType::Object && (top.expect
                == ExpectType::Key || top.expect == ExpectType::Comma) {
                SpecStep::Event {
                    ev: SpecEvent::End(Block::Object),
                    rest: rem.skip(1),
                    stack: set_expect(stack.drop_last(), ExpectType::Comma),
                }
            } else {
                SpecStep::ErrSyntax { expected: top.expect, found: c }
            }
        } else if c == 93 {
            if stack.len() >= 2 && top.t == ContainerType::Array && (top.expect
                == ExpectType::Value || top.expect == ExpectType::Comma) {
                SpecStep::Event {
                    ev: SpecEvent::End(Block::Array),
                    rest: rem.skip(1),
                    stack: set_expect(stack.drop_last(), ExpectType::Comma),
                }
            } else {
                SpecStep::ErrSyntax { expected: top.expect, found: c }
            }
        } else if c == 58 {
            if top.expect == ExpectType::Colon {
                step(rem.skip(1), set_expect(stack, ExpectType::Value))
            } else {
                SpecStep::ErrSyntax { expected: top.expect, found: c }
            }
        } else if c == 44 {
            if top.expect == ExpectType::Comma {
                match top.t {
                    ContainerType::Object => step(rem.skip(1), set_expect(stack, ExpectType::Key)),
                    ContainerType::Array => step(rem.skip(1), set_expect(stack, ExpectType::Value)),
                    ContainerType::Root => SpecStep::ErrSyntax { expected: top.expect, found: c },
                }
            } else {
                SpecStep::ErrSyntax { expected: top.expect, found: c }
            }
        } else if c == 34 {
            if top.expect == ExpectType::Key {
                string_step(rem.skip(1), stack, true)
            } else if top.expect == ExpectType::Value {
                string_step(rem.skip(1), stack, false)
            } else {
                SpecStep::ErrSyntax { expected: top.expect, found: c }
            }
        } else if top.expect != ExpectType::Value {
            SpecStep::ErrSyntax { expected: top.expect, found: c }
        } else if c == 116 {
            match lex_lit(rem, lit_true()) {
                LexL::Match(rest) => SpecStep::Event {
                    ev: SpecEvent::Bool(true),
                    rest,
                    stack: set_expect(stack, ExpectType::Comma),
                },
                LexL::Bad => SpecStep::ErrBad,
                LexL::Eof => SpecStep::ErrEof,
            }
        } else if c == 102 {
            match lex_lit(rem, lit_false()) {
                LexL::Match(rest) => SpecStep::Event {
                    ev: SpecEvent::Bool(false),
                    rest,
                    stack: set_expect(stack, ExpectType::Comma),
                },
                LexL::Bad => SpecStep::ErrBad,
                LexL::Eof => SpecStep::ErrEof,
            }
        } else if c == 110 {
            match lex_lit(rem, lit_null()) {
                LexL::Match(rest) => SpecStep::Event {
                    ev: SpecEvent::Null,
                    rest,
                    stack: set_expect(stack, ExpectType::Comma),
                },
                LexL::Bad => SpecStep::ErrBad,
                LexL::Eof => SpecStep::ErrEof,
            }
        } else if c == 45 {
            match lex_number(rem.skip(1), true) {
                LexN::Num { n, rest } => SpecStep::Event {
                    ev: SpecEvent::Number(n),
                    rest,
                    stack: set_expect(stack, ExpectType::Comma),
                },
                LexN::Bad => SpecStep::ErrBad,
                LexN::Eof => SpecStep::ErrEof,
            }
        } else if is_digit(c) {
            match lex_number(rem, false) {
                LexN::Num { n, rest } => SpecStep::Event {
                    ev: SpecEvent::Number(n),
                    rest,
                    stack: set_expect(stack, ExpectType::Comma),
                },
                LexN::Bad => SpecStep::ErrBad,
                LexN::Eof => SpecStep::ErrEof,
            }
        } else {
            SpecStep::ErrSyntax { expected: top.expect, found: c }
        }
    }
}

/// The block tag of a container kind; the root has none and is never asked.
pub open spec fn block_of(t: ContainerType) -> Block {
    match t {
        ContainerType::Object => Block::Object,
        _ => Block::Array,
    }
}

/// The blocks of the containers currently open, bottom first, the root
/// sentinel excluded.
pub open spec fn open_blocks(stack: Seq<Container>) -> Seq<Block>
    recommends
        stack.len() >= 1,
{
    Seq::new((stack.len() - 1) as nat, |i: int| block_of(stack[i + 1].t))
}

/// A finished digit run leaves at most what it was given.
pub proof fn lemma_lex_digits_rest(rem: Seq<u8>, acc: DigAcc)
    ensures
        lex_digits(rem, acc) matches LexD::Run { acc: a, rest } ==> rest.len() <= rem.len(),
    decreases rem.len(),
{
    if rem.len() > 0 {
        if is_digit(rem[0]) {
            match acc.e {
                Some(ev) => {
                    if !(ev * 10 + (rem[0] - 48) > u32::MAX) {
                        lemma_lex_digits_rest(
                            rem.skip(1),
                            DigAcc { e: Some((ev * 10 + (rem[0] - 48)) as u32), ..acc },
                        );
                    }
                },
                None => {
                    lemma_lex_digits_rest(
                        rem.skip(1),
                        DigAcc {
                            tmp: (acc.tmp * 10 + (rem[0] - 48)) as u64,
                            dp: match acc.dp {
                                Some(k) => Some((k + 1) as u32),
                                None => None,
                            },
                            ..acc
                        },
                    );
                },
            }
        } else if rem[0] == 46 {
            if rem.len() >= 2 && is_digit(rem[1]) {
                lemma_lex_digits_rest(rem.skip(1), DigAcc { dp: Some(0), ..acc });
            }
        } else if rem[0] == 101 || rem[0] == 69 {
            if rem.len() >= 2 {
                lemma_lex_digits_rest(rem.skip(1), DigAcc { e: Some(0), ..acc });
                lemma_lex_digits_rest(rem.skip(2), DigAcc { e: Some(0), ..acc });
                lemma_lex_digits_rest(rem.skip(2), DigAcc { e: Some(0), e_minus: true, ..acc });
            }
        }
    }
}

/// A number leaves at most what it was given, and always consumes its first
/// byte when that byte is a digit.
pub proof fn lemma_lex_number_rest(rem: Seq<u8>, minus: bool)
    ensures
        lex_number(rem, minus) matches LexN::Num { n, rest } ==> rest.len() <= rem.len() && (
        rem.len() > 0 && is_digit(rem[0]) ==> rest.len() < rem.len()),
{
    if rem.len() > 0 {
        lemma_lex_digits_rest(rem.skip(1), dig_init());
        lemma_lex_digits_rest(rem, dig_init());
        if is_digit(rem[0]) && rem[0] != 48 {
            assert(lex_digits(rem, dig_init()) == lex_digits(
                rem.skip(1),
                DigAcc { tmp: (rem[0] - 48) as u64, dp: None, e: None, e_minus: false },
            ));
            lemma_lex_digits_rest(
                rem.skip(1),
                DigAcc { tmp: (rem[0] - 48) as u64, dp: None, e: None, e_minus: false },
            );
        }
    }
}

/// A finished string body leaves strictly less than it was given.
pub proof fn lemma_lex_string_consumes(rem: Seq<u8>, acc: Seq<u8>)
    ensures
        lex_string(rem, acc) matches LexS::Body { bytes, rest } ==> rest.len() < rem.len(),
    decreases rem.len(),
{
    if rem.len() > 0 {
        if rem[0] == 34 {
        } else if rem[0] == 92 {
            match lex_escape(rem.skip(1)) {
                LexE::Esc { bytes, used } => {
                    if 0 <= used && used + 1 <= rem.len() {
                        lemma_lex_string_consumes(rem.skip(used + 1), acc + bytes);
                    }
                },
                _ => {},
            }
        } else {
            lemma_lex_string_consumes(rem.skip(1), acc.push(rem[0]));
        }
    }
}

/// The stack discipline of one pull: a `Start` event opens exactly its
/// block, an `End` event closes exactly the innermost open block, which
/// carries the same tag, and every other event leaves the open blocks as
/// they were.  A successful pull always consumes at least one byte and
/// preserves well-formedness of the stack.
pub open spec fn step_nesting_ok(rem: Seq<u8>, stack: Seq<Container>) -> bool {
    match step(rem, stack) {
        SpecStep::Event { ev, rest, stack: s2 } => {
            &&& wf_stack(s2)
            &&& rest.len() < rem.len()
            &&& match ev {
                SpecEvent::Start(b) => open_blocks(s2) == open_blocks(stack).push(b),
                SpecEvent::End(b) => open_blocks(stack).len() > 0 && open_blocks(stack).last()
                    == b && open_blocks(s2) == open_blocks(stack).drop_last(),
                _ => open_blocks(s2) == open_blocks(stack),
            }
        },
        _ => true,
    }
}

/// Replacing the expectation of the top container neither changes the open
/// blocks nor breaks well-formedness.
pub proof fn lemma_set_expect_blocks(stack: Seq<Container>, x: ExpectType)
    requires
        wf_stack(stack),
    ensures
        wf_stack(set_expect(stack, x)),
        open_blocks(set_expect(stack, x)) == open_blocks(stack),
{
    assert(open_blocks(set_expect(stack, x)) =~= open_blocks(stack));
}

/// Every pull obeys the stack discipline of [`step_nesting_ok`].
pub proof fn lemma_step_nesting(rem: Seq<u8>, stack: Seq<Container>)
    requires
        wf_stack(stack),
    ensures
        step_nesting_ok(rem, stack),
    decreases rem.len(),
{
    if rem.len() == 0 {
        return ;
    }
    let c = rem[0];
    let top = stack.last();
    if is_ws(c) {
        lemma_step_nesting(rem.skip(1), stack);
    } else if c == 123 || c == 91 {
        if top.expect == ExpectType::Value {
            let t2 = if c == 123 {
                ContainerType::Object
            } else {
                ContainerType::Array
            };
            let s2 = stack.push(
                Container {
                    t: t2,
                    expect: if c == 123 {
                        ExpectType::Key
                    } else {
                        ExpectType::Value
                    },
                },
            );
            assert(wf_stack(s2));
            assert(open_blocks(s2) =~= open_blocks(stack).push(block_of(t2)));
        }
    } else if c == 125 || c == 93 {
        let want = if c == 125 {
            ContainerType::Object
        } else {
            ContainerType::Array
        };
        if stack.len() >= 2 && top.t == want {
            let popped = stack.drop_last();
            assert(wf_stack(popped));
            lemma_set_expect_blocks(popped, ExpectType::Comma);
            assert(open_blocks(popped) =~= open_blocks(stack).drop_last());
            assert(open_blocks(stack).last() == block_of(top.t));
        }
    } else if c == 58 {
        if top.expect == ExpectType::Colon {
            lemma_set_expect_blocks(stack, ExpectType::Value);
            lemma_step_nesting(rem.skip(1), set_expect(stack, ExpectType::Value));
        }
    } else if c == 44 {
        if top.expect == ExpectType::Comma {
            match top.t {
                ContainerType::Object => {
                    lemma_set_expect_blocks(stack, ExpectType::Key);
                    lemma_step_nesting(rem.skip(1), set_expect(stack, ExpectType::Key));
                },
                ContainerType::Array => {
                    lemma_set_expect_blocks(stack, ExpectType::Value);
                    lemma_step_nesting(rem.skip(1), set_expect(stack, ExpectType::Value));
                },
                ContainerType::Root => {},
            }
        }
    } else if c == 34 {
        if top.expect == ExpectType::Key || top.expect == ExpectType::Value {
            lemma_lex_string_consumes(rem.skip(1), Seq::<u8>::empty());
            lemma_set_expect_blocks(stack, ExpectType::Colon);
            lemma_set_expect_blocks(stack, ExpectType::Comma);
        }
    } else if top.expect != ExpectType::Value {
    } else if c == 116 || c == 102 || c == 110 {
        lemma_set_expect_blocks(stack, ExpectType::Comma);
    } else if c == 45 {
        lemma_lex_number_rest(rem.skip(1), true);
        lemma_set_expect_blocks(stack, ExpectType::Comma);
    } else if is_digit(c) {
        lemma_lex_number_rest(rem, false);
        lemma_set_expect_blocks(stack, ExpectType::Comma);
    }
}

/// All events the parser will emit from a given state, in order, up to the
/// first error or the clean end of the stream.
pub open spec fn run_events(rem: Seq<u8>, stack: Seq<Container>) -> Seq<SpecEvent>
    decreases rem.len(),
{
    match step(rem, stack) {
        SpecStep::Event { ev, rest, stack: s2 } => {
            if rest.len() < rem.len() {
                seq![ev] + run_events(rest, s2)
            } else {
                seq![ev]
            }
        },
        _ => Seq::empty(),
    }
}

/// The nesting checker: walking the events while keeping a stack of open
/// blocks, every `End` must close the nearest unmatched `Start`, and must
/// carry the same block tag.
pub open spec fn nest_check(evs: Seq<SpecEvent>, opens: Seq<Block>) -> bool
    decreases evs.len(),
{
    if evs.len() == 0 {
        true
    } else {
        match evs[0] {
            SpecEvent::Start(b) => nest_check(evs.skip(1), opens.push(b)),
            SpecEvent::End(b) => opens.len() > 0 && opens.last() == b && nest_check(
                evs.skip(1),
                opens.drop_last(),
            ),
            _ => nest_check(evs.skip(1), opens),
        }
    }
}

/// From any well-formed state, the events emitted are correctly nested with
/// respect to the blocks already open.
pub proof fn lemma_run_well_nested(rem: Seq<u8>, stack: Seq<Container>)
    requires
        wf_stack(stack),
    ensures
        nest_check(run_events(rem, stack), open_blocks(stack)),
    decreases rem.len(),
{
    match step(rem, stack) {
        SpecStep::Event { ev, rest, stack: s2 } => {
            lemma_step_nesting(rem, stack);
            lemma_run_well_nested(rest, s2);
            let evs = seq![ev] + run_events(rest, s2);
            assert(evs[0] == ev);
            assert(evs.skip(1) =~= run_events(rest, s2));
        },
        _ => {},
    }
}

/// The decimal digits of `n`, most significant first.
pub open spec fn dec_digits(n: nat) -> Seq<u8>
    decreases n,
{
    if n < 10 {
        seq![(48 + n) as u8]
    } else {
        dec_digits(n / 10).push((48 + (n % 10)) as u8)
    }
}

/// The canonical decimal text of a number is nonempty, all digits, and free
/// of a leading zero unless the number is zero.
pub proof fn lemma_dec_digits_shape(n: nat)
    ensures
        dec_digits(n).len() >= 1,
        forall|i: int| 0 <= i < dec_digits(n).len() ==> is_digit(#[trigger] dec_digits(n)[i]),
        n >= 1 ==> dec_digits(n)[0] != 48,
    decreases n,
{
    if n >= 10 {
        lemma_dec_digits_shape(n / 10);
        let s = dec_digits(n / 10);
        let d = (48 + (n % 10)) as u8;
        assert(n % 10 < 10);
        assert(dec_digits(n) == s.push(d));
        assert(forall|i: int|
            0 <= i < dec_digits(n).len() ==> is_digit(#[trigger] dec_digits(n)[i])) by {
            assert(forall|i: int| 0 <= i < s.len() ==> s.push(d)[i] == #[trigger] s[i]);
            assert(s.push(d)[s.len() as int] == d);
        };
        assert(dec_digits(n)[0] == s[0]);
    }
}

/// The digit-run lexer over a canonical decimal text accumulates exactly the
/// number it spells, scaled into whatever magnitude was already read.
pub proof fn lemma_lex_dec_run(n: nat, t: u64, em: bool, tail: Seq<u8>)
    requires
        t * pow10(dec_digits(n).len() as nat) + n <= u64::MAX,
    ensures
        lex_digits(dec_digits(n) + tail, DigAcc { tmp: t, dp: None, e: None, e_minus: em })
            == lex_digits(
            tail,
            DigAcc {
                tmp: (t * pow10(dec_digits(n).len() as nat) + n) as u64,
                dp: None,
                e: None,
                e_minus: em,
            },
        ),
    decreases n,
{
    lemma_dec_digits_shape(n);
    if n < 10 {
        assert(pow10(1) == 10) by {
            reveal_with_fuel(pow10, 2);
        };
        let whole = dec_digits(n) + tail;
        assert(whole[0] == (48 + n) as u8);
        assert(whole.skip(1) =~= tail);
        assert(lex_digits(whole, DigAcc { tmp: t, dp: None, e: None, e_minus: em })
            == lex_digits(
            tail,
            DigAcc { tmp: (t * 10 + n) as u64, dp: None, e: None, e_minus: em },
        ));
    } else {
        let s = dec_digits(n / 10);
        let d = (48 + (n % 10)) as u8;
        let k = dec_digits(n).len() as nat;
        let k1 = s.len() as nat;
        assert(k == k1 + 1);
        assert(pow10(k) == 10 * pow10(k1));
        vstd::arithmetic::div_mod::lemma_fundamental_div_mod(n as int, 10);
        assert(t * pow10(k) == 10 * (t * pow10(k1))) by (nonlinear_arith)
            requires
                pow10(k) == 10 * pow10(k1),
        ;
        lemma_pow10_pos(k1);
        assert(t * pow10(k1) + n / 10 <= u64::MAX);
        let mid = seq![d] + tail;
        assert(dec_digits(n) + tail =~= s + mid);
        lemma_lex_dec_run(n / 10, t, em, mid);
        let t2 = (t * pow10(k1) + n / 10) as u64;
        assert(mid[0] == d);
        assert(mid.skip(1) =~= tail);
        assert(n % 10 < 10);
        assert(t2 * 10 + (d - 48) == t * pow10(k) + n);
        assert(lex_digits(mid, DigAcc { tmp: t2, dp: None, e: None, e_minus: em })
            == lex_digits(
            tail,
            DigAcc { tmp: (t * pow10(k) + n) as u64, dp: None, e: None, e_minus: em },
        ));
    }
}

/// The digit-run lexer over a canonical decimal text, once an exponent is
/// active, accumulates exactly the number it spells into the exponent.
pub proof fn lemma_lex_dec_run_e(n: nat, t: u64, dp: Option<u32>, ev: u32, em: bool, tail: Seq<u8>)
    requires
        ev * pow10(dec_digits(n).len() as nat) + n <= u32::MAX,
    ensures
        lex_digits(dec_digits(n) + tail, DigAcc { tmp: t, dp, e: Some(ev), e_minus: em })
            == lex_digits(
            tail,
            DigAcc {
                tmp: t,
                dp,
                e: Some((ev * pow10(dec_digits(n).len() as nat) + n) as u32),
                e_minus: em,
            },
        ),
    decreases n,
{
    lemma_dec_digits_shape(n);
    if n < 10 {
        assert(pow10(1) == 10) by {
            reveal_with_fuel(pow10, 2);
        };
        let whole = dec_digits(n) + tail;
        assert(whole[0] == (48 + n) as u8);
        assert(whole.skip(1) =~= tail);
    } else {
        let s = dec_digits(n / 10);
        let d = (48 + (n % 10)) as u8;
        let k = dec_digits(n).len() as nat;
        let k1 = s.len() as nat;
        assert(pow10(k) == 10 * pow10(k1));
        vstd::arithmetic::div_mod::lemma_fundamental_div_mod(n as int, 10);
        assert(ev * pow10(k) == 10 * (ev * pow10(k1))) by (nonlinear_arith)
            requires
                pow10(k) == 10 * pow10(k1),
        ;
        lemma_pow10_pos(k1);
        let mid = seq![d] + tail;
        assert(dec_digits(n) + tail =~= s + mid);
        lemma_lex_dec_run_e(n / 10, t, dp, ev, em, mid);
        let e2 = (ev * pow10(k1) + n / 10) as u32;
        assert(mid[0] == d);
        assert(mid.skip(1) =~= tail);
        assert(e2 * 10 + (d - 48) == ev * pow10(k) + n);
    }
}

/// Round trip of decimal literals, the other provable part of round-trip
/// stability: parsing the canonical text of an exact decimal — its mantissa,
/// then a negative exponent — yields exactly that decimal event, with the
/// sign carried by the leading minus.  A zero mantissa is left out: its
/// canonical text starts with a bare zero, which the grammar's leading-zero
/// rule cuts short, so such a value re-parses as the unsigned integer zero.
pub proof fn lemma_decimal_round_trip(d: Decimal)
    requires
        1 <= d.scale <= 19,
        d.mantissa >= 1,
    ensures
        lex_number(
            dec_digits(d.mantissa as nat) + seq![101u8, 45u8] + dec_digits(d.scale as nat),
            d.minus,
        ) == (LexN::Num { n: N::Float(d), rest: Seq::<u8>::empty() }),
{
    let ms = dec_digits(d.mantissa as nat);
    let es = dec_digits(d.scale as nat);
    let tail = seq![101u8, 45u8] + es;
    lemma_dec_digits_shape(d.mantissa as nat);
    lemma_dec_digits_shape(d.scale as nat);
    lemma_pow10_pos(ms.len() as nat);
    lemma_pow10_pos(es.len() as nat);
    assert((ms + seq![101u8, 45u8] + es) =~= ms + tail);
    lemma_lex_dec_run(d.mantissa as nat, 0, false, tail);
    assert(0 * pow10(ms.len() as nat) + d.mantissa as nat == d.mantissa as nat);
    let acc1 = DigAcc { tmp: d.mantissa, dp: None, e: None, e_minus: false };
    assert(tail[0] == 101 && tail[1] == 45);
    assert(tail.skip(2) =~= es);
    assert(lex_digits(tail, acc1) == lex_digits(
        es,
        DigAcc { tmp: d.mantissa, dp: None, e: Some(0), e_minus: true },
    ));
    assert(es + Seq::<u8>::empty() =~= es);
    lemma_lex_dec_run_e(d.scale as nat, d.mantissa, None, 0, true, Seq::<u8>::empty());
    assert(0 * pow10(es.len() as nat) + d.scale as nat == d.scale as nat);
    let accf = DigAcc { tmp: d.mantissa, dp: None, e: Some(d.scale), e_minus: true };
    assert(lex_digits(ms + tail, dig_init()) == (LexD::Run {
        acc: accf,
        rest: Seq::<u8>::empty(),
    }));
    assert((ms + tail)[0] == ms[0]);
    assert((ms + tail)[0] != 48);
}

/// Round trip of integer literals, the provable core of round-trip
/// stability: parsing the canonical decimal text of an unsigned integer
/// yields exactly that unsigned integer event, and parsing it under a
/// leading minus yields exactly the corresponding negative integer event,
/// with no input left.
pub proof fn lemma_integer_round_trip(u: u64, m: u64)
    requires
        1 <= m <= i64::MAX,
    ensures
        lex_number(dec_digits(u as nat), false) == (LexN::Num {
            n: N::Uint(u),
            rest: Seq::<u8>::empty(),
        }),
        lex_number(dec_digits(m as nat), true) == (LexN::Num {
            n: N::Int((-(m as int)) as i64),
            rest: Seq::<u8>::empty(),
        }),
{
    lemma_dec_digits_shape(u as nat);
    lemma_dec_digits_shape(m as nat);
    assert(pow10(0) == 1);
    if u == 0 {
        assert(dec_digits(0).len() == 1);
        assert(dec_digits(0)[0] == 48);
        assert(dec_digits(0).skip(1) =~= Seq::<u8>::empty());
    } else {
        lemma_integer_lex_tail(u);
    }
    lemma_integer_lex_tail(m);
}

/// Helper for the integer round trip: a nonzero canonical decimal text runs
/// through the digit lexer to exactly its value.
proof fn lemma_integer_lex_tail(u: u64)
    requires
        u >= 1,
    ensures
        lex_digits(dec_digits(u as nat), dig_init()) == (LexD::Run {
            acc: DigAcc { tmp: u, dp: None, e: None, e_minus: false },
            rest: Seq::<u8>::empty(),
        }),
        forall|minus: bool|
            #[trigger] lex_number(dec_digits(u as nat), minus) == lex_tail(
                dec_digits(u as nat),
                minus,
            ),
{
    lemma_dec_digits_shape(u as nat);
    lemma_pow10_pos(dec_digits(u as nat).len() as nat);
    assert(dec_digits(u as nat) + Seq::<u8>::empty() =~= dec_digits(u as nat));
    lemma_lex_dec_run(u as nat, 0, false, Seq::<u8>::empty());
    assert(0 * pow10(dec_digits(u as nat).len() as nat) + u as nat == u as nat);
}

/// The law of nesting: for any input, the sequence of events the parser
/// emits from a fresh start is correctly nested and balanced as far as it
/// goes — every `End` event matches the nearest unmatched `Start` event,
/// and carries the same block tag.
pub proof fn lemma_events_well_nested(data: Seq<u8>)
    ensures
        nest_check(
            run_events(
                data,
                seq![Container { t: ContainerType::Root, expect: ExpectType::Value }],
            ),
            Seq::<Block>::empty(),
        ),
{
    let root = seq![Container { t: ContainerType::Root, expect: ExpectType::Value }];
    assert(wf_stack(root));
    lemma_run_well_nested(data, root);
    assert(open_blocks(root) =~= Seq::<Block>::empty());
}

} // verus!
