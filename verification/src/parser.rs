//! The event parser: a container stack seeded with the root context, driven
//! one pull at a time over a byte reader.

use vstd::prelude::*;

use crate::events::Block;
use crate::events::Container;
use crate::events::ContainerType;
use crate::events::Error;
use crate::events::Decimal;
use crate::events::Event;
use crate::events::N;
use crate::events::ExpectType;
use crate::events::SpecEvent;
use crate::model::hex4;
use crate::model::hex_val;
use crate::model::lemma_lex_escape_bounds;
use crate::model::lemma_lex_string_run;
use crate::model::lex_escape;
use crate::model::lex_lit;
use crate::model::lex_string;
use crate::model::lex_unicode;
use crate::model::dig_init;
use crate::model::finish_number;
use crate::model::lemma_pow10_mono;
use crate::model::lex_digits;
use crate::model::lex_number;
use crate::model::lex_tail;
use crate::model::pow10;
use crate::model::step;
use crate::model::string_step;
use crate::model::DigAcc;
use crate::model::LexD;
use crate::model::LexN;
use crate::model::Hex4;
use crate::model::LexE;
use crate::model::LexS;
use crate::model::SpecStep;
use crate::model::lit_false;
use crate::model::lit_null;
use crate::model::lit_true;
use crate::model::set_expect;
use crate::model::wf_stack;
use crate::model::LexL;
use crate::reader::JsonReader;

use vstd::utf8::decode_utf8;
use vstd::utf8::encode_scalar;
use vstd::utf8::is_scalar;
use vstd::utf8::valid_utf8;

verus! {

/// A byte that a string body copies through unchanged: neither a backslash
/// nor a closing quote.
fn ordinary_byte(b: u8) -> (keep: bool)
    ensures
        keep == (b != 92 && b != 34),
{
    b != 92 && b != 34
}

/// The value of one hexadecimal digit, or `None` for any other byte.
fn hex_digit(c: u8) -> (r: Option<u8>)
    ensures
        r == hex_val(c),
        r matches Some(d) ==> d <= 15,
{
    if 48 <= c && c <= 57 {
        Some(c - 48)
    } else if 97 <= c && c <= 102 {
        Some(c - 97 + 10)
    } else if 65 <= c && c <= 70 {
        Some(c - 65 + 10)
    } else {
        None
    }
}

/// Append the UTF-8 encoding of a Unicode scalar value to `buf`.
fn encode_scalar_vec(v: u32, buf: &mut Vec<u8>)
    requires
        is_scalar(v),
    ensures
        final(buf)@ == old(buf)@ + encode_scalar(v),
{
    if v < 0x80 {
        buf.push((v & 0x7F) as u8);
        proof {
            assert(buf@ =~= old(buf)@ + encode_scalar(v));
        }
    } else if v < 0x800 {
        buf.push(0xC0 | (((v >> 6) & 0x1F) as u8));
        buf.push(0x80 | ((v & 0x3F) as u8));
        proof {
            assert(buf@ =~= old(buf)@ + encode_scalar(v));
        }
    } else if v < 0x10000 {
        buf.push(0xE0 | (((v >> 12) & 0x0F) as u8));
        buf.push(0x80 | (((v >> 6) & 0x3F) as u8));
        buf.push(0x80 | ((v & 0x3F) as u8));
        proof {
            assert(buf@ =~= old(buf)@ + encode_scalar(v));
        }
    } else {
        buf.push(0xF0 | (((v >> 18) & 0x7) as u8));
        buf.push(0x80 | (((v >> 12) & 0x3F) as u8));
        buf.push(0x80 | (((v >> 6) & 0x3F) as u8));
        buf.push(0x80 | ((v & 0x3F) as u8));
        proof {
            assert(buf@ =~= old(buf)@ + encode_scalar(v));
        }
    }
}

/// `10^p` as a machine word; the largest power of ten below `2^64` is
/// `10^19`.
fn pow10_exec(p: u32) -> (r: u64)
    requires
        p <= 19,
    ensures
        r as int == pow10(p as nat),
{
    let mut r: u64 = 1;
    let mut i: u32 = 0;
    while i < p
        invariant
            i <= p,
            p <= 19,
            r as int == pow10(i as nat),
        decreases p - i,
    {
        proof {
            lemma_pow10_mono((i + 1) as nat, 19);
            assert(pow10(19) == 10_000_000_000_000_000_000) by {
                reveal_with_fuel(pow10, 21);
            };
        }
        r = r * 10;
        i = i + 1;
    }
    r
}

/// Relies on `String::from_utf8`: it succeeds exactly on UTF-8-valid bytes,
/// and the characters of the resulting string are the decoding of those
/// bytes.
#[verifier::external_body]
fn bytes_to_string(b: Vec<u8>) -> (r: Option<String>)
    ensures
        r is Some <==> valid_utf8(b@),
        r matches Some(s) ==> s@ == decode_utf8(b@),
{
    match String::from_utf8(b) {
        Ok(s) => Some(s),
        Err(_) => None,
    }
}

/// The pull parser: a byte reader and the stack of nesting contexts.
pub struct Parser {
    reader: JsonReader,
    containers: Vec<Container>,
}

impl Parser {
    /// The reader is well formed and the container stack is well formed:
    /// the root sentinel at the bottom, only objects and arrays above it.
    pub closed spec fn wf(&self) -> bool {
        self.reader.wf() && wf_stack(self.containers@)
    }

    /// The bytes not yet consumed.
    pub closed spec fn remaining(&self) -> Seq<u8> {
        self.reader.remaining()
    }

    /// The current container stack.
    pub closed spec fn stack(&self) -> Seq<Container> {
        self.containers@
    }

    /// Construct a parser over a byte buffer, with the root context seeded.
    pub fn from_reader(data: Vec<u8>) -> (p: Parser)
        ensures
            p.wf(),
            p.remaining() == data@,
            p.stack() == seq![
                Container { t: ContainerType::Root, expect: ExpectType::Value },
            ],
    {
        let mut containers: Vec<Container> = Vec::new();
        containers.push(Container::root());
        let p = Parser { reader: JsonReader::new(data), containers };
        proof {
            assert(p.containers@ =~= seq![
                Container { t: ContainerType::Root, expect: ExpectType::Value },
            ]);
        }
        p
    }

    /// The container on top of the stack.
    fn top(&self) -> (c: Container)
        requires
            self.wf(),
        ensures
            c == self.stack().last(),
    {
        let i = self.containers.len() - 1;
        self.containers[i]
    }

    /// Replace the expectation of the top container.
    fn set_top_expect(&mut self, x: ExpectType)
        requires
            old(self).wf(),
        ensures
            final(self).wf(),
            final(self).stack() == set_expect(old(self).stack(), x),
            final(self).remaining() == old(self).remaining(),
    {
        let mut c = self.containers.pop().unwrap();
        c.expect = x;
        self.containers.push(c);
        proof {
            assert(self.containers@ =~= set_expect(old(self).containers@, x));
        }
    }

    /// Accept `{` as a value: push an object context and yield its start.
    fn start_object(&mut self) -> (r: Result<Event, Error>)
        requires
            old(self).wf(),
        ensures
            final(self).wf(),
            final(self).remaining() == old(self).remaining(),
            match r {
                Ok(ev) => {
                    &&& old(self).stack().last().expect == ExpectType::Value
                    &&& ev@ == SpecEvent::Start(Block::Object)
                    &&& final(self).stack() == old(self).stack().push(
                        Container { t: ContainerType::Object, expect: ExpectType::Key },
                    )
                },
                Err(e) => {
                    &&& old(self).stack().last().expect != ExpectType::Value
                    &&& e == Error::Syntax(old(self).stack().last().expect, 123u8)
                },
            },
    {
        let top = self.top();
        if top.expect == ExpectType::Value {
            self.containers.push(Container::object());
            Ok(Event::Start(Block::Object))
        } else {
            Err(Error::Syntax(top.expect, 123))
        }
    }

    /// Accept `[` as a value: push an array context and yield its start.
    fn start_array(&mut self) -> (r: Result<Event, Error>)
        requires
            old(self).wf(),
        ensures
            final(self).wf(),
            final(self).remaining() == old(self).remaining(),
            match r {
                Ok(ev) => {
                    &&& old(self).stack().last().expect == ExpectType::Value
                    &&& ev@ == SpecEvent::Start(Block::Array)
                    &&& final(self).stack() == old(self).stack().push(
                        Container { t: ContainerType::Array, expect: ExpectType::Value },
                    )
                },
                Err(e) => {
                    &&& old(self).stack().last().expect != ExpectType::Value
                    &&& e == Error::Syntax(old(self).stack().last().expect, 91u8)
                },
            },
    {
        let top = self.top();
        if top.expect == ExpectType::Value {
            self.containers.push(Container::array());
            Ok(Event::Start(Block::Array))
        } else {
            Err(Error::Syntax(top.expect, 91))
        }
    }

    /// Accept `}`: the top container must be an object that is not awaiting a
    /// colon or a value; pop it and yield its end, the parent now expecting a
    /// comma.
    fn end_object(&mut self) -> (r: Result<Event, Error>)
        requires
            old(self).wf(),
        ensures
            final(self).wf(),
            final(self).remaining() == old(self).remaining(),
            match r {
                Ok(ev) => {
                    &&& old(self).stack().len() >= 2
                    &&& old(self).stack().last().t == ContainerType::Object
                    &&& (old(self).stack().last().expect == ExpectType::Key || old(
                        self,
                    ).stack().last().expect == ExpectType::Comma)
                    &&& ev@ == SpecEvent::End(Block::Object)
                    &&& final(self).stack() == set_expect(
                        old(self).stack().drop_last(),
                        ExpectType::Comma,
                    )
                },
                Err(e) => {
                    &&& !(old(self).stack().len() >= 2 && old(self).stack().last().t
                        == ContainerType::Object && (old(self).stack().last().expect
                        == ExpectType::Key || old(self).stack().last().expect
                        == ExpectType::Comma))
                    &&& e == Error::Syntax(old(self).stack().last().expect, 125u8)
                },
            },
    {
        let top = self.top();
        if top.t == ContainerType::Object && (top.expect == ExpectType::Key || top.expect
            == ExpectType::Comma) {
            proof {
                assert(old(self).stack().len() >= 2) by {
                    if old(self).stack().len() == 1 {
                        assert(old(self).stack().last() == old(self).stack()[0]);
                    }
                };
            }
            let _ = self.containers.pop();
            self.set_top_expect(ExpectType::Comma);
            Ok(Event::End(Block::Object))
        } else {
            Err(Error::Syntax(top.expect, 125))
        }
    }

    /// Accept `]`: the top container must be an array; pop it and yield its
    /// end, the parent now expecting a comma.
    fn end_array(&mut self) -> (r: Result<Event, Error>)
        requires
            old(self).wf(),
        ensures
            final(self).wf(),
            final(self).remaining() == old(self).remaining(),
            match r {
                Ok(ev) => {
                    &&& old(self).stack().len() >= 2
                    &&& old(self).stack().last().t == ContainerType::Array
                    &&& (old(self).stack().last().expect == ExpectType::Value || old(
                        self,
                    ).stack().last().expect == ExpectType::Comma)
                    &&& ev@ == SpecEvent::End(Block::Array)
                    &&& final(self).stack() == set_expect(
                        old(self).stack().drop_last(),
                        ExpectType::Comma,
                    )
                },
                Err(e) => {
                    &&& !(old(self).stack().len() >= 2 && old(self).stack().last().t
                        == ContainerType::Array && (old(self).stack().last().expect
                        == ExpectType::Value || old(self).stack().last().expect
                        == ExpectType::Comma))
                    &&& e == Error::Syntax(old(self).stack().last().expect, 93u8)
                },
            },
    {
        let top = self.top();
        if top.t == ContainerType::Array && (top.expect == ExpectType::Value || top.expect
            == ExpectType::Comma) {
            proof {
                assert(old(self).stack().len() >= 2) by {
                    if old(self).stack().len() == 1 {
                        assert(old(self).stack().last() == old(self).stack()[0]);
                    }
                };
            }
            let _ = self.containers.pop();
            self.set_top_expect(ExpectType::Comma);
            Ok(Event::End(Block::Array))
        } else {
            Err(Error::Syntax(top.expect, 93))
        }
    }

    /// Read bytes and compare them to `v`, one at a time: `true` when every
    /// byte of `v` was matched, `false` on the first mismatch, an end-of-input
    /// error if the input runs out first.
    fn expect(&mut self, v: &Vec<u8>) -> (r: Result<bool, Error>)
        requires
            old(self).wf(),
        ensures
            final(self).wf(),
            final(self).stack() == old(self).stack(),
            match lex_lit(old(self).remaining(), v@) {
                LexL::Match(rest) => r == Ok::<bool, Error>(true) && final(self).remaining()
                    == rest,
                LexL::Bad => r == Ok::<bool, Error>(false),
                LexL::Eof => r == Err::<bool, Error>(Error::Eof),
            },
    {
        let ghost rem0 = self.remaining();
        let mut i: usize = 0;
        while i < v.len()
            invariant
                rem0 == old(self).remaining(),
                old(self).stack() == self.stack(),
                self.wf(),
                i <= v@.len(),
                i <= rem0.len(),
                forall|j: int| 0 <= j < i ==> rem0[j] == v@[j],
                self.remaining() == rem0.skip(i as int),
            decreases v@.len() - i,
        {
            match self.reader.next() {
                Some(x) => {
                    proof {
                        assert(rem0.skip(i as int)[0] == rem0[i as int]);
                    }
                    if x != v[i] {
                        proof {
                            assert(!v@.is_prefix_of(rem0));
                            assert(!(rem0.len() < v@.len() && rem0 == v@.take(rem0.len() as int)))
                                by {
                                if rem0.len() < v@.len() && rem0 == v@.take(rem0.len() as int) {
                                    assert(rem0[i as int] == v@.take(rem0.len() as int)[i as int]);
                                }
                            };
                        }
                        return Ok(false);
                    }
                    i = i + 1;
                    proof {
                        assert(self.remaining() =~= rem0.skip(i as int));
                    }
                },
                None => {
                    proof {
                        assert(rem0.len() == i);
                        assert(rem0 =~= v@.take(rem0.len() as int));
                        assert(!v@.is_prefix_of(rem0));
                    }
                    return Err(Error::Eof);
                },
            }
        }
        proof {
            assert(v@.is_prefix_of(rem0)) by {
                assert(v@ =~= rem0.take(v@.len() as int));
            };
        }
        Ok(true)
    }

    /// Read one byte that must be a hex digit, returning its value.
    fn hex_step(&mut self) -> (r: Result<u8, Error>)
        requires
            old(self).wf(),
        ensures
            final(self).wf(),
            final(self).stack() == old(self).stack(),
            old(self).remaining().len() == 0 ==> r == Err::<u8, Error>(Error::Eof),
            old(self).remaining().len() > 0 && hex_val(old(self).remaining()[0]) is None ==> r
                == Err::<u8, Error>(Error::Decoding),
            old(self).remaining().len() > 0 && hex_val(old(self).remaining()[0]) is Some ==> r
                == Ok::<u8, Error>(hex_val(old(self).remaining()[0])->0) && final(self).remaining()
                == old(self).remaining().skip(1),
    {
        match self.reader.next() {
            Some(c) => match hex_digit(c) {
                Some(d) => Ok(d),
                None => Err(Error::Decoding),
            },
            None => Err(Error::Eof),
        }
    }

    /// Read exactly four hex digits forming a 16-bit code unit.
    fn parse_hex_escape(&mut self) -> (r: Result<u16, Error>)
        requires
            old(self).wf(),
        ensures
            final(self).wf(),
            final(self).stack() == old(self).stack(),
            match hex4(old(self).remaining()) {
                Hex4::Unit(n) => r == Ok::<u16, Error>(n) && final(self).remaining() == old(
                    self,
                ).remaining().skip(4),
                Hex4::Bad => r == Err::<u16, Error>(Error::Decoding),
                Hex4::Eof => r == Err::<u16, Error>(Error::Eof),
            },
    {
        let ghost rem0 = self.remaining();
        let d0 = match self.hex_step() {
            Ok(d) => d,
            Err(e) => {
                return Err(e);
            },
        };
        proof {
            assert(self.remaining() == rem0.skip(1));
            assert(rem0.skip(1)[0] == rem0[1] || rem0.skip(1).len() == 0);
        }
        let d1 = match self.hex_step() {
            Ok(d) => d,
            Err(e) => {
                return Err(e);
            },
        };
        proof {
            assert(self.remaining() =~= rem0.skip(2));
            assert(rem0.skip(2).len() > 0 ==> rem0.skip(2)[0] == rem0[2]);
        }
        let d2 = match self.hex_step() {
            Ok(d) => d,
            Err(e) => {
                return Err(e);
            },
        };
        proof {
            assert(self.remaining() =~= rem0.skip(3));
            assert(rem0.skip(3).len() > 0 ==> rem0.skip(3)[0] == rem0[3]);
        }
        let d3 = match self.hex_step() {
            Ok(d) => d,
            Err(e) => {
                return Err(e);
            },
        };
        proof {
            assert(self.remaining() =~= rem0.skip(4));
        }
        let n: u16 = (((d0 as u16) * 16 + (d1 as u16)) * 16 + (d2 as u16)) * 16 + (d3 as u16);
        Ok(n)
    }

    /// Read the low half of a surrogate pair (`head` is the high half) and
    /// append the UTF-8 encoding of the combined code point to `buf`.
    fn parse_string_unicode_tail(&mut self, head: u16, buf: &mut Vec<u8>) -> (r: Result<
        (),
        Error,
    >)
        requires
            old(self).wf(),
            0xD800 <= head <= 0xDBFF,
        ensures
            final(self).wf(),
            final(self).stack() == old(self).stack(),
            match hex4(old(self).remaining()) {
                Hex4::Unit(t) => {
                    if 0xDC00 <= t <= 0xDFFF {
                        &&& r is Ok
                        &&& final(buf)@ == old(buf)@ + encode_scalar(
                            ((head - 0xD800) * 0x400 + (t - 0xDC00) + 0x10000) as u32,
                        )
                        &&& final(self).remaining() == old(self).remaining().skip(4)
                    } else {
                        r == Err::<(), Error>(Error::Decoding)
                    }
                },
                Hex4::Bad => r == Err::<(), Error>(Error::Decoding),
                Hex4::Eof => r == Err::<(), Error>(Error::Eof),
            },
    {
        let t = match self.parse_hex_escape() {
            Ok(t) => t,
            Err(e) => {
                return Err(e);
            },
        };
        if 0xDC00 <= t && t <= 0xDFFF {
            let scalar: u32 = ((head as u32) - 0xD800) * 0x400 + ((t as u32) - 0xDC00) + 0x10000;
            proof {
                assert(is_scalar(scalar));
            }
            encode_scalar_vec(scalar, buf);
            Ok(())
        } else {
            Err(Error::Decoding)
        }
    }

    /// Read a `\u` escape (after the `u`), including a possible surrogate
    /// pair, and append the UTF-8 encoding of the scalar to `buf`.
    fn parse_string_unicode(&mut self, buf: &mut Vec<u8>) -> (r: Result<(), Error>)
        requires
            old(self).wf(),
        ensures
            final(self).wf(),
            final(self).stack() == old(self).stack(),
            match lex_unicode(old(self).remaining()) {
                LexE::Esc { bytes, used } => {
                    &&& r is Ok
                    &&& final(buf)@ == old(buf)@ + bytes
                    &&& final(self).remaining() == old(self).remaining().skip(used)
                },
                LexE::Bad => r == Err::<(), Error>(Error::Decoding),
                LexE::Eof => r == Err::<(), Error>(Error::Eof),
            },
    {
        let ghost rem0 = self.remaining();
        let n = match self.parse_hex_escape() {
            Ok(n) => n,
            Err(e) => {
                return Err(e);
            },
        };
        if 0xDC00 <= n && n <= 0xDFFF {
            return Err(Error::Decoding);
        }
        if 0xD800 <= n && n <= 0xDBFF {
            let mut w: Vec<u8> = Vec::new();
            w.push(92);
            w.push(117);
            let ghost rem4 = self.remaining();
            proof {
                assert(rem4 == rem0.skip(4));
                assert(w@ =~= seq![92u8, 117u8]);
            }
            match self.expect(&w) {
                Ok(true) => {},
                Ok(false) => {
                    proof {
                        assert(!(w@.is_prefix_of(rem4)));
                        assert(rem4.len() > 0 ==> rem4[0] == rem0[4]);
                        assert(rem4.len() > 1 ==> rem4[1] == rem0[5]);
                        if rem4.len() == 0 {
                            assert(rem4 =~= w@.take(0));
                            assert(false);
                        }
                        if rem4.len() == 1 && rem0[4] == 92 {
                            assert(rem4 =~= w@.take(1));
                            assert(false);
                        }
                        if rem4.len() >= 2 && rem0[4] == 92 && rem0[5] == 117 {
                            assert(w@ =~= rem4.subrange(0, 2));
                            assert(w@.is_prefix_of(rem4));
                            assert(false);
                        }
                    }
                    return Err(Error::Decoding);
                },
                Err(e) => {
                    proof {
                        assert(rem4.len() < 2 && rem4 == w@.take(rem4.len() as int));
                        if rem4.len() == 1 {
                            assert(rem4[0] == w@.take(1)[0]);
                            assert(rem0[4] == 92);
                        }
                    }
                    return Err(e);
                },
            }
            proof {
                assert(w@.is_prefix_of(rem4));
                assert(rem4[0] == rem0[4] && rem4[1] == rem0[5]);
                assert(rem0[4] == 92 && rem0[5] == 117);
                assert(self.remaining() == rem4.skip(2));
                assert(rem4.skip(2) =~= rem0.skip(6));
            }
            match self.parse_string_unicode_tail(n, buf) {
                Ok(()) => {
                    proof {
                        assert(self.remaining() =~= rem0.skip(10));
                    }
                    Ok(())
                },
                Err(e) => Err(e),
            }
        } else {
            let scalar: u32 = n as u32;
            proof {
                assert(is_scalar(scalar));
            }
            encode_scalar_vec(scalar, buf);
            Ok(())
        }
    }

    /// Read one escape (after the backslash) and append the bytes it denotes
    /// to `buf`.
    fn parse_string_escape(&mut self, buf: &mut Vec<u8>) -> (r: Result<(), Error>)
        requires
            old(self).wf(),
        ensures
            final(self).wf(),
            final(self).stack() == old(self).stack(),
            match lex_escape(old(self).remaining()) {
                LexE::Esc { bytes, used } => {
                    &&& r is Ok
                    &&& final(buf)@ == old(buf)@ + bytes
                    &&& final(self).remaining() == old(self).remaining().skip(used)
                },
                LexE::Bad => r == Err::<(), Error>(Error::Decoding),
                LexE::Eof => r == Err::<(), Error>(Error::Eof),
            },
    {
        let ghost rem0 = self.remaining();
        let c = match self.reader.next_must() {
            Ok(c) => c,
            Err(e) => {
                return Err(e);
            },
        };
        if c == 34 || c == 92 || c == 47 {
            buf.push(c);
            proof {
                assert(buf@ =~= old(buf)@ + seq![c]);
            }
            Ok(())
        } else if c == 98 {
            buf.push(8);
            proof {
                assert(buf@ =~= old(buf)@ + seq![8u8]);
            }
            Ok(())
        } else if c == 102 {
            buf.push(12);
            proof {
                assert(buf@ =~= old(buf)@ + seq![12u8]);
            }
            Ok(())
        } else if c == 110 {
            buf.push(10);
            proof {
                assert(buf@ =~= old(buf)@ + seq![10u8]);
            }
            Ok(())
        } else if c == 114 {
            buf.push(13);
            proof {
                assert(buf@ =~= old(buf)@ + seq![13u8]);
            }
            Ok(())
        } else if c == 116 {
            buf.push(9);
            proof {
                assert(buf@ =~= old(buf)@ + seq![9u8]);
            }
            Ok(())
        } else if c == 117 {
            match self.parse_string_unicode(buf) {
                Ok(()) => {
                    proof {
                        match lex_unicode(rem0.skip(1)) {
                            LexE::Esc { bytes, used } => {
                                assert(rem0.skip(1).skip(used) =~= rem0.skip(used + 1));
                            },
                            _ => {},
                        }
                    }
                    Ok(())
                },
                Err(e) => Err(e),
            }
        } else {
            Err(Error::Decoding)
        }
    }

    /// Read a string body (after the opening quote), decoding escapes, and
    /// leave the decoded bytes in `buf`.
    fn parse_string(&mut self, buf: &mut Vec<u8>) -> (r: Result<(), Error>)
        requires
            old(self).wf(),
        ensures
            final(self).wf(),
            final(self).stack() == old(self).stack(),
            match lex_string(old(self).remaining(), old(buf)@) {
                LexS::Body { bytes, rest } => {
                    &&& r is Ok
                    &&& final(buf)@ == bytes
                    &&& final(self).remaining() == rest
                },
                LexS::Bad => r == Err::<(), Error>(Error::Decoding),
                LexS::Eof => r == Err::<(), Error>(Error::Eof),
            },
    {
        let ghost rem_entry = self.remaining();
        let ghost acc0 = buf@;
        loop
            invariant
                rem_entry == old(self).remaining(),
                acc0 == old(buf)@,
                self.wf(),
                self.stack() == old(self).stack(),
                lex_string(rem_entry, acc0) == lex_string(self.remaining(), buf@),
            decreases self.remaining().len(),
        {
            let ghost rem_a = self.remaining();
            let ghost buf_a = buf@;
            let r = self.reader.take_while(buf, ordinary_byte, Ghost(|b: u8| b != 92 && b != 34));
            match r {
                Ok(n) => {
                    proof {
                        lemma_lex_string_run(rem_a, buf_a, n as int);
                    }
                    let ghost rem_b = self.remaining();
                    let ghost buf_b = buf@;
                    match self.reader.next() {
                        Some(c) => {
                            proof {
                                assert(rem_b[0] == rem_a[n as int]);
                                assert(c == 92 || c == 34);
                            }
                            if c == 34 {
                                proof {
                                    assert(lex_string(rem_b, buf_b) == (LexS::Body {
                                        bytes: buf_b,
                                        rest: rem_b.skip(1),
                                    }));
                                }
                                return Ok(());
                            } else {
                                let ghost rem_c = self.remaining();
                                proof {
                                    assert(rem_c == rem_b.skip(1));
                                    lemma_lex_escape_bounds(rem_c);
                                }
                                match self.parse_string_escape(buf) {
                                    Ok(()) => {
                                        proof {
                                            match lex_escape(rem_c) {
                                                LexE::Esc { bytes, used } => {
                                                    assert(rem_b.skip(1).skip(used) =~= rem_b.skip(
                                                        used + 1,
                                                    ));
                                                    assert(lex_string(rem_b, buf_b) == lex_string(
                                                        self.remaining(),
                                                        buf@,
                                                    ));
                                                },
                                                _ => {},
                                            }
                                        }
                                    },
                                    Err(e) => {
                                        return Err(e);
                                    },
                                }
                            }
                        },
                        None => {
                            proof {
                                assert(false);
                            }
                            return Err(Error::Eof);
                        },
                    }
                },
                Err(_) => {
                    proof {
                        lemma_lex_string_run(rem_a, buf_a, rem_a.len() as int);
                        assert(rem_a.skip(rem_a.len() as int).len() == 0);
                    }
                    return Err(Error::Eof);
                },
            }
        }
    }

    /// Read a string token (after the opening quote): at a key position it
    /// yields `Key` and the container then expects a colon; at a value
    /// position it yields `String` and the container then expects a comma.
    /// The decoded bytes must form valid UTF-8.
    fn read_string(&mut self) -> (r: Result<Event, Error>)
        requires
            old(self).wf(),
        ensures
            final(self).wf(),
            old(self).stack().last().expect == ExpectType::Key || old(self).stack().last().expect
                == ExpectType::Value ==> match string_step(
                old(self).remaining(),
                old(self).stack(),
                old(self).stack().last().expect == ExpectType::Key,
            ) {
                SpecStep::Event { ev, rest, stack } => {
                    &&& r matches Ok(e) && e@ == ev
                    &&& final(self).remaining() == rest
                    &&& final(self).stack() == stack
                },
                SpecStep::ErrBad => r == Err::<Event, Error>(Error::Decoding),
                SpecStep::ErrEof => r == Err::<Event, Error>(Error::Eof),
                _ => false,
            },
            old(self).stack().last().expect != ExpectType::Key && old(self).stack().last().expect
                != ExpectType::Value ==> r == Err::<Event, Error>(
                Error::Syntax(old(self).stack().last().expect, 34u8),
            ),
    {
        let top = self.top();
        if top.expect == ExpectType::Key || top.expect == ExpectType::Value {
            let is_key = top.expect == ExpectType::Key;
            let mut buf: Vec<u8> = Vec::new();
            match self.parse_string(&mut buf) {
                Ok(()) => {},
                Err(e) => {
                    return Err(e);
                },
            }
            match bytes_to_string(buf) {
                Some(s) => {
                    if is_key {
                        self.set_top_expect(ExpectType::Colon);
                        Ok(Event::Key(s))
                    } else {
                        self.set_top_expect(ExpectType::Comma);
                        Ok(Event::String(s))
                    }
                },
                None => Err(Error::Decoding),
            }
        } else {
            Err(Error::Syntax(top.expect, 34))
        }
    }

    /// Read the literal `true` at a value position and yield `Bool(true)`.
    fn read_true(&mut self) -> (r: Result<Event, Error>)
        requires
            old(self).wf(),
        ensures
            final(self).wf(),
            final(self).stack() == old(self).stack(),
            match r {
                Ok(ev) => {
                    &&& old(self).stack().last().expect == ExpectType::Value
                    &&& lex_lit(old(self).remaining(), lit_true()) matches LexL::Match(rest)
                        && final(self).remaining() == rest
                    &&& ev@ == SpecEvent::Bool(true)
                },
                Err(e) => {
                    if old(self).stack().last().expect != ExpectType::Value {
                        e == Error::Syntax(old(self).stack().last().expect, 116u8)
                    } else {
                        match lex_lit(old(self).remaining(), lit_true()) {
                            LexL::Match(rest) => false,
                            LexL::Bad => e == Error::Decoding,
                            LexL::Eof => e == Error::Eof,
                        }
                    }
                },
            },
    {
        let top = self.top();
        if top.expect == ExpectType::Value {
            let mut w: Vec<u8> = Vec::new();
            w.push(116);
            w.push(114);
            w.push(117);
            w.push(101);
            proof {
                assert(w@ =~= lit_true());
            }
            match self.expect(&w) {
                Ok(true) => Ok(Event::Bool(true)),
                Ok(false) => Err(Error::Decoding),
                Err(e) => Err(e),
            }
        } else {
            Err(Error::Syntax(top.expect, 116))
        }
    }

    /// Read the literal `false` at a value position and yield `Bool(false)`.
    fn read_false(&mut self) -> (r: Result<Event, Error>)
        requires
            old(self).wf(),
        ensures
            final(self).wf(),
            final(self).stack() == old(self).stack(),
            match r {
                Ok(ev) => {
                    &&& old(self).stack().last().expect == ExpectType::Value
                    &&& lex_lit(old(self).remaining(), lit_false()) matches LexL::Match(rest)
                        && final(self).remaining() == rest
                    &&& ev@ == SpecEvent::Bool(false)
                },
                Err(e) => {
                    if old(self).stack().last().expect != ExpectType::Value {
                        e == Error::Syntax(old(self).stack().last().expect, 102u8)
                    } else {
                        match lex_lit(old(self).remaining(), lit_false()) {
                            LexL::Match(rest) => false,
                            LexL::Bad => e == Error::Decoding,
                            LexL::Eof => e == Error::Eof,
                        }
                    }
                },
            },
    {
        let top = self.top();
        if top.expect == ExpectType::Value {
            let mut w: Vec<u8> = Vec::new();
            w.push(102);
            w.push(97);
            w.push(108);
            w.push(115);
            w.push(101);
            proof {
                assert(w@ =~= lit_false());
            }
            match self.expect(&w) {
                Ok(true) => Ok(Event::Bool(false)),
                Ok(false) => Err(Error::Decoding),
                Err(e) => Err(e),
            }
        } else {
            Err(Error::Syntax(top.expect, 102))
        }
    }

    /// Read the literal `null` at a value position and yield `Null`.
    fn read_null(&mut self) -> (r: Result<Event, Error>)
        requires
            old(self).wf(),
        ensures
            final(self).wf(),
            final(self).stack() == old(self).stack(),
            match r {
                Ok(ev) => {
                    &&& old(self).stack().last().expect == ExpectType::Value
                    &&& lex_lit(old(self).remaining(), lit_null()) matches LexL::Match(rest)
                        && final(self).remaining() == rest
                    &&& ev@ == SpecEvent::Null
                },
                Err(e) => {
                    if old(self).stack().last().expect != ExpectType::Value {
                        e == Error::Syntax(old(self).stack().last().expect, 110u8)
                    } else {
                        match lex_lit(old(self).remaining(), lit_null()) {
                            LexL::Match(rest) => false,
                            LexL::Bad => e == Error::Decoding,
                            LexL::Eof => e == Error::Eof,
                        }
                    }
                },
            },
    {
        let top = self.top();
        if top.expect == ExpectType::Value {
            let mut w: Vec<u8> = Vec::new();
            w.push(110);
            w.push(117);
            w.push(108);
            w.push(108);
            proof {
                assert(w@ =~= lit_null());
            }
            match self.expect(&w) {
                Ok(true) => Ok(Event::Null),
                Ok(false) => Err(Error::Decoding),
                Err(e) => Err(e),
            }
        } else {
            Err(Error::Syntax(top.expect, 110))
        }
    }
    /// Consume the digit run of a number: digits, at most one decimal point
    /// and at most one exponent marker, leaving the first byte that does not
    /// belong to the literal in the input.  Returns the magnitude, the count
    /// of post-decimal digits, and the exponent magnitude and sign.
    fn read_digits(&mut self) -> (r: Result<(u64, Option<u32>, Option<u32>, bool), Error>)
        requires
            old(self).wf(),
        ensures
            final(self).wf(),
            final(self).stack() == old(self).stack(),
            match r {
                Ok((tmp, dp, e, e_minus)) => lex_digits(old(self).remaining(), dig_init()) == (
                LexD::Run { acc: DigAcc { tmp, dp, e, e_minus }, rest: final(self).remaining() }),
                Err(err) => (lex_digits(old(self).remaining(), dig_init()) == LexD::Bad && err
                    == Error::Decoding) || (lex_digits(old(self).remaining(), dig_init())
                    == LexD::Eof && err == Error::Eof),
            },
    {
        let ghost rem0 = self.remaining();
        let mut tmp: u64 = 0;
        let mut dp: Option<u32> = None;
        let mut e: Option<u32> = None;
        let mut e_minus: bool = false;
        loop
            invariant
                rem0 == old(self).remaining(),
                self.stack() == old(self).stack(),
                self.wf(),
                lex_digits(rem0, dig_init()) == lex_digits(
                    self.remaining(),
                    DigAcc { tmp, dp, e, e_minus },
                ),
            decreases self.remaining().len(),
        {
            let ghost rem_i = self.remaining();
            let ghost acc_i = DigAcc { tmp, dp, e, e_minus };
            match self.reader.next() {
                None => {
                    return Ok((tmp, dp, e, e_minus));
                },
                Some(c) => {
                    if 48 <= c && c <= 57 {
                        let d = c - 48;
                        match e {
                            Some(ev) => {
                                let m = match ev.checked_mul(10) {
                                    Some(m) => m,
                                    None => {
                                        return Err(Error::Decoding);
                                    },
                                };
                                let nv = match m.checked_add(d as u32) {
                                    Some(v) => v,
                                    None => {
                                        return Err(Error::Decoding);
                                    },
                                };
                                e = Some(nv);
                            },
                            None => {
                                let m = match tmp.checked_mul(10) {
                                    Some(m) => m,
                                    None => {
                                        return Err(Error::Decoding);
                                    },
                                };
                                let nv = match m.checked_add(d as u64) {
                                    Some(v) => v,
                                    None => {
                                        return Err(Error::Decoding);
                                    },
                                };
                                tmp = nv;
                                match dp {
                                    Some(k) => {
                                        if k == u32::MAX {
                                            return Err(Error::Decoding);
                                        }
                                        dp = Some(k + 1);
                                    },
                                    None => {},
                                }
                            },
                        }
                        proof {
                            assert(lex_digits(rem_i, acc_i) == lex_digits(
                                rem_i.skip(1),
                                DigAcc { tmp, dp, e, e_minus },
                            ));
                        }
                    } else if c == 46 {
                        if dp.is_some() || e.is_some() {
                            return Err(Error::Decoding);
                        }
                        let nc = match self.reader.next_must() {
                            Ok(nc) => nc,
                            Err(err) => {
                                return Err(err);
                            },
                        };
                        proof {
                            assert(rem_i.skip(1)[0] == rem_i[1]);
                        }
                        if !(48 <= nc && nc <= 57) {
                            return Err(Error::Decoding);
                        }
                        self.reader.push_back(nc);
                        dp = Some(0);
                        proof {
                            assert(self.remaining() =~= rem_i.skip(1));
                        }
                    } else if c == 101 || c == 69 {
                        if e.is_some() {
                            return Err(Error::Decoding);
                        }
                        let nc = match self.reader.next_must() {
                            Ok(nc) => nc,
                            Err(err) => {
                                return Err(err);
                            },
                        };
                        proof {
                            assert(rem_i.skip(1)[0] == rem_i[1]);
                        }
                        if 48 <= nc && nc <= 57 {
                            self.reader.push_back(nc);
                            e = Some(0);
                            proof {
                                assert(self.remaining() =~= rem_i.skip(1));
                            }
                        } else if nc == 43 {
                            e = Some(0);
                            proof {
                                assert(self.remaining() =~= rem_i.skip(2));
                            }
                        } else if nc == 45 {
                            e = Some(0);
                            e_minus = true;
                            proof {
                                assert(self.remaining() =~= rem_i.skip(2));
                            }
                        } else {
                            return Err(Error::Decoding);
                        }
                    } else {
                        self.reader.push_back(c);
                        proof {
                            assert(self.remaining() =~= rem_i);
                        }
                        return Ok((tmp, dp, e, e_minus));
                    }
                },
            }
        }
    }

    /// Read a number literal.  The optional leading minus has already been
    /// consumed and is recorded in `minus`.  The tag of the result is purely
    /// a function of the literal's lexical shape: a non-negative net decimal
    /// scale yields an exact integer, a negative one an exact decimal.
    fn read_number(&mut self, minus: bool) -> (r: Result<Event, Error>)
        requires
            old(self).wf(),
        ensures
            final(self).wf(),
            final(self).stack() == old(self).stack(),
            match lex_number(old(self).remaining(), minus) {
                LexN::Num { n, rest } => r matches Ok(ev) && ev@ == SpecEvent::Number(n)
                    && final(self).remaining() == rest,
                LexN::Bad => r == Err::<Event, Error>(Error::Decoding),
                LexN::Eof => r == Err::<Event, Error>(Error::Eof),
            },
    {
        let ghost rem0 = self.remaining();
        let c = match self.reader.next_must() {
            Ok(c) => c,
            Err(err) => {
                return Err(err);
            },
        };
        if c == 48 {
            match self.reader.next() {
                Some(c2) => {
                    proof {
                        assert(rem0.skip(1)[0] == rem0[1]);
                    }
                    if 48 <= c2 && c2 <= 57 {
                        return Err(Error::Decoding);
                    }
                    self.reader.push_back(c2);
                    proof {
                        assert(self.remaining() =~= rem0.skip(1));
                    }
                    if c2 != 46 {
                        if minus {
                            return Err(Error::Decoding);
                        } else {
                            return Ok(Event::Number(N::Uint(0)));
                        }
                    }
                },
                None => {
                    if minus {
                        return Err(Error::Decoding);
                    } else {
                        proof {
                            assert(self.remaining() =~= rem0.skip(1));
                        }
                        return Ok(Event::Number(N::Uint(0)));
                    }
                },
            }
        } else {
            self.reader.push_back(c);
            proof {
                assert(self.remaining() =~= rem0);
            }
        }
        let ghost rem_l = self.remaining();
        proof {
            assert(lex_number(rem0, minus) == lex_tail(rem_l, minus));
        }
        let (tmp, dp, e, e_minus) = match self.read_digits() {
            Ok(t) => t,
            Err(err) => {
                return Err(err);
            },
        };
        let ghost acc_f = DigAcc { tmp, dp, e, e_minus };
        let ghost rest_f = self.remaining();
        proof {
            assert(lex_tail(rem_l, minus) == finish_number(acc_f, minus, rest_f));
        }
        let ev: i64 = match e {
            Some(v) => if e_minus {
                -(v as i64)
            } else {
                v as i64
            },
            None => 0,
        };
        let dpv: i64 = match dp {
            Some(v) => v as i64,
            None => 0,
        };
        let index: i64 = ev - dpv;
        if index >= 0 {
            let val: u64;
            if tmp == 0 {
                val = 0;
            } else if index > 19 {
                proof {
                    lemma_pow10_mono(20, index as nat);
                    assert(pow10(20) == 100_000_000_000_000_000_000) by {
                        reveal_with_fuel(pow10, 22);
                    };
                    assert(tmp * pow10(index as nat) >= pow10(index as nat)) by (nonlinear_arith)
                        requires
                            tmp >= 1,
                            pow10(index as nat) >= 0,
                    ;
                }
                return Err(Error::Decoding);
            } else {
                let p = pow10_exec(index as u32);
                val = match tmp.checked_mul(p) {
                    Some(v) => v,
                    None => {
                        return Err(Error::Decoding);
                    },
                };
            }
            if minus {
                if val > 0x7FFF_FFFF_FFFF_FFFF {
                    return Err(Error::Decoding);
                }
                Ok(Event::Number(N::Int(-(val as i64))))
            } else {
                Ok(Event::Number(N::Uint(val)))
            }
        } else {
            let s: i64 = -index;
            if s > 19 {
                return Err(Error::Decoding);
            }
            Ok(Event::Number(N::Float(Decimal { mantissa: tmp, scale: s as u32, minus })))
        }
    }

    /// Pull the next event.  Whitespace, colons and commas are consumed
    /// silently; exactly one event is returned per successful pull.  `None`
    /// signals clean exhaustion of the input: no byte is left and no
    /// container is open.  The input ending while a container is open is an
    /// end-of-input error.  The result, and the parser state after a
    /// successful pull, are exactly what [`step`] says of the unread input
    /// and the container stack.  Any error is terminal: no further pull is
    /// specified after one.
    pub fn next(&mut self) -> (r: Option<Result<Event, Error>>)
        requires
            old(self).wf(),
        ensures
            final(self).wf(),
            match step(old(self).remaining(), old(self).stack()) {
                SpecStep::Fin => r is None && final(self).remaining().len() == 0,
                SpecStep::Event { ev, rest, stack } => {
                    &&& r matches Some(Ok(e)) && e@ == ev
                    &&& final(self).remaining() == rest
                    &&& final(self).stack() == stack
                },
                SpecStep::ErrSyntax { expected, found } => r == Some(
                    Err::<Event, Error>(Error::Syntax(expected, found)),
                ),
                SpecStep::ErrBad => r == Some(Err::<Event, Error>(Error::Decoding)),
                SpecStep::ErrEof => r == Some(Err::<Event, Error>(Error::Eof)),
            },
    {
        loop
            invariant
                self.wf(),
                step(old(self).remaining(), old(self).stack()) == step(
                    self.remaining(),
                    self.stack(),
                ),
            decreases self.remaining().len(),
        {
            let ghost rem_i = self.remaining();
            let ghost stk_i = self.stack();
            match self.reader.next() {
                None => {
                    if self.containers.len() == 1 {
                        return None;
                    } else {
                        return Some(Err(Error::Eof));
                    }
                },
                Some(c) => {
                    if c == 32 || c == 13 || c == 10 || c == 9 {
                        proof {
                            assert(step(rem_i, stk_i) == step(rem_i.skip(1), stk_i));
                        }
                    } else if c == 123 {
                        let r = self.start_object();
                        return Some(r);
                    } else if c == 125 {
                        let r = self.end_object();
                        return Some(r);
                    } else if c == 91 {
                        let r = self.start_array();
                        return Some(r);
                    } else if c == 93 {
                        let r = self.end_array();
                        return Some(r);
                    } else if c == 34 {
                        let r = self.read_string();
                        return Some(r);
                    } else if c == 58 {
                        let t = self.top();
                        if t.expect == ExpectType::Colon {
                            self.set_top_expect(ExpectType::Value);
                        } else {
                            return Some(Err(Error::Syntax(t.expect, 58)));
                        }
                    } else if c == 44 {
                        let t = self.top();
                        if t.expect == ExpectType::Comma {
                            if t.t == ContainerType::Object {
                                self.set_top_expect(ExpectType::Key);
                            } else if t.t == ContainerType::Array {
                                self.set_top_expect(ExpectType::Value);
                            } else {
                                return Some(Err(Error::Syntax(t.expect, 44)));
                            }
                        } else {
                            return Some(Err(Error::Syntax(t.expect, 44)));
                        }
                    } else {
                        let t = self.top();
                        if t.expect == ExpectType::Value {
                            if c == 116 {
                                self.reader.push_back(c);
                                proof {
                                    assert(self.remaining() =~= rem_i);
                                }
                                let r = self.read_true();
                                self.set_top_expect(ExpectType::Comma);
                                return Some(r);
                            } else if c == 102 {
                                self.reader.push_back(c);
                                proof {
                                    assert(self.remaining() =~= rem_i);
                                }
                                let r = self.read_false();
                                self.set_top_expect(ExpectType::Comma);
                                return Some(r);
                            } else if c == 110 {
                                self.reader.push_back(c);
                                proof {
                                    assert(self.remaining() =~= rem_i);
                                }
                                let r = self.read_null();
                                self.set_top_expect(ExpectType::Comma);
                                return Some(r);
                            } else if c == 45 {
                                let r = self.read_number(true);
                                self.set_top_expect(ExpectType::Comma);
                                return Some(r);
                            } else if 48 <= c && c <= 57 {
                                self.reader.push_back(c);
                                proof {
                                    assert(self.remaining() =~= rem_i);
                                }
                                let r = self.read_number(false);
                                self.set_top_expect(ExpectType::Comma);
                                return Some(r);
                            } else {
                                return Some(Err(Error::Syntax(t.expect, c)));
                            }
                        } else {
                            return Some(Err(Error::Syntax(t.expect, c)));
                        }
                    }
                },
            }
        }
    }
}

} // verus!
