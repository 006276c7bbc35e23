use crate::database::{GetOp, GetReturn, Operation, PutOp, Return};
use crate::slice::Slice;
use vstd::arithmetic::div_mod::{lemma_div_denominator, lemma_fundamental_div_mod};
use vstd::prelude::*;

verus! {

/// The byte that opens an operation frame, `*`.
pub const COUNT_BYTE: u8 = 42;

/// The byte that opens a byte-string frame, `$`.
pub const STRING_BYTE: u8 = 36;

/// The kind of frame that a prefix byte opens.
#[derive(PartialEq, Eq, Structural, Debug, Clone, Copy)]
pub enum Prefix {
    Count,
    String,
}

/// Why a frame could not be read.
#[derive(PartialEq, Eq, Structural, Debug, Clone, Copy)]
pub enum ParseError {
    /// The bytes ran out inside a frame.
    UnexpectedEnd,
    /// A frame opened with a byte that is not a prefix, or with the wrong prefix.
    BadPrefix,
    /// Two bytes that should have been `\r\n` were not.
    MissingBreakLine,
    /// A byte string announced a negative length.
    NegativeLength,
    /// The method of an operation was neither `PUT` nor `GET`.
    UnknownMethod,
}

/// What an operation says, as values.
pub enum OperationView {
    Put(Seq<u8>, Seq<u8>),
    Get(Seq<u8>),
}

impl View for Operation {
    type V = OperationView;

    open spec fn view(&self) -> OperationView {
        match self {
            Operation::Put(p) => OperationView::Put(p.0@, p.1@),
            Operation::Get(g) => OperationView::Get(g.0@),
        }
    }
}

/// The number that four bytes give, most significant first, unsigned.
pub open spec fn be_u32(b: Seq<u8>) -> int {
    ((b[0] * 256 + b[1]) * 256 + b[2]) * 256 + b[3]
}

/// The signed 32-bit number that four bytes give, most significant first.
pub open spec fn be_i32(b: Seq<u8>) -> int {
    let u = be_u32(b);
    if u < 0x8000_0000 {
        u
    } else {
        u - 0x1_0000_0000
    }
}

/// The four bytes of a signed 32-bit number, most significant first.
pub open spec fn be_bytes(n: int) -> Seq<u8> {
    let u = if n < 0 {
        n + 0x1_0000_0000
    } else {
        n
    };
    seq![
        (u / 0x100_0000) as u8,
        (u / 0x1_0000 % 256) as u8,
        (u / 256 % 256) as u8,
        (u % 256) as u8,
    ]
}

/// The line break that ends each part of a frame.
pub open spec fn break_line() -> Seq<u8> {
    seq![13u8, 10u8]
}

/// The frame of a byte string: `$`, its length, a line break, the bytes and a line break.
#[verifier::opaque]
pub open spec fn frame(v: Seq<u8>) -> Seq<u8> {
    seq![STRING_BYTE] + be_bytes(v.len() as int) + break_line() + v + break_line()
}

/// The method name `PUT`.
pub open spec fn put_name() -> Seq<u8> {
    seq![80u8, 85u8, 84u8]
}

/// The method name `GET`.
pub open spec fn get_name() -> Seq<u8> {
    seq![71u8, 69u8, 84u8]
}

/// The frame of an operation: `*`, a line break, the method and its arguments.
pub open spec fn operation_frame(op: OperationView) -> Seq<u8> {
    match op {
        OperationView::Put(k, v) => seq![COUNT_BYTE] + break_line() + frame(put_name()) + frame(k)
            + frame(v),
        OperationView::Get(k) => seq![COUNT_BYTE] + break_line() + frame(get_name()) + frame(k),
    }
}

/// Reads a prefix byte at `p`; gives the kind and the place after it.
pub open spec fn parse_prefix(s: Seq<u8>, p: int) -> Result<(Prefix, int), ParseError> {
    if p < 0 || p >= s.len() {
        Err(ParseError::UnexpectedEnd)
    } else if s[p] == COUNT_BYTE {
        Ok((Prefix::Count, p + 1))
    } else if s[p] == STRING_BYTE {
        Ok((Prefix::String, p + 1))
    } else {
        Err(ParseError::BadPrefix)
    }
}

/// Reads a signed 32-bit number at `p`, most significant byte first.
pub open spec fn parse_num(s: Seq<u8>, p: int) -> Result<(int, int), ParseError> {
    if p < 0 || p + 4 > s.len() {
        Err(ParseError::UnexpectedEnd)
    } else {
        Ok((be_i32(s.subrange(p, p + 4)), p + 4))
    }
}

/// Reads a line break at `p`; gives the place after it.
pub open spec fn parse_break_line(s: Seq<u8>, p: int) -> Result<int, ParseError> {
    if p < 0 || p + 2 > s.len() {
        Err(ParseError::UnexpectedEnd)
    } else if s[p] == 13 && s[p + 1] == 10 {
        Ok(p + 2)
    } else {
        Err(ParseError::MissingBreakLine)
    }
}

/// Reads the frame of a byte string at `p`; gives the bytes and the place after the frame.
pub open spec fn parse_vec(s: Seq<u8>, p: int) -> Result<(Seq<u8>, int), ParseError> {
    match parse_prefix(s, p) {
        Err(e) => Err(e),
        Ok((Prefix::Count, _)) => Err(ParseError::BadPrefix),
        Ok((Prefix::String, q1)) => match parse_num(s, q1) {
            Err(e) => Err(e),
            Ok((n, q2)) => match parse_break_line(s, q2) {
                Err(e) => Err(e),
                Ok(q3) => if n < 0 {
                    Err(ParseError::NegativeLength)
                } else if q3 + n > s.len() {
                    Err(ParseError::UnexpectedEnd)
                } else {
                    match parse_break_line(s, q3 + n) {
                        Err(e) => Err(e),
                        Ok(q4) => Ok((s.subrange(q3, q3 + n), q4)),
                    }
                },
            },
        },
    }
}

/// Reads the arguments of the method `m` at `p`.
pub open spec fn parse_args(s: Seq<u8>, m: Seq<u8>, p: int) -> Result<(OperationView, int), ParseError> {
    if m == put_name() {
        match parse_vec(s, p) {
            Err(e) => Err(e),
            Ok((k, q1)) => match parse_vec(s, q1) {
                Err(e) => Err(e),
                Ok((v, q2)) => Ok((OperationView::Put(k, v), q2)),
            },
        }
    } else if m == get_name() {
        match parse_vec(s, p) {
            Err(e) => Err(e),
            Ok((k, q1)) => Ok((OperationView::Get(k), q1)),
        }
    } else {
        Err(ParseError::UnknownMethod)
    }
}

/// Reads the frame of an operation at `p`; gives it and the place after the frame.
pub open spec fn parse_op(s: Seq<u8>, p: int) -> Result<(OperationView, int), ParseError> {
    match parse_prefix(s, p) {
        Err(e) => Err(e),
        Ok((prefix, q1)) => match parse_break_line(s, q1) {
            Err(e) => Err(e),
            Ok(q2) => match prefix {
                Prefix::String => Err(ParseError::BadPrefix),
                Prefix::Count => match parse_vec(s, q2) {
                    Err(e) => Err(e),
                    Ok((m, q3)) => parse_args(s, m, q3),
                },
            },
        },
    }
}

/// Reading back the four bytes of a signed 32-bit number gives the number.
pub proof fn lemma_be_round_trip(n: int)
    requires
        i32::MIN <= n <= i32::MAX,
    ensures
        be_bytes(n).len() == 4,
        be_i32(be_bytes(n)) == n,
{
    let u = if n < 0 {
        n + 0x1_0000_0000
    } else {
        n
    };
    let u1 = u / 256;
    let u2 = u1 / 256;
    let u3 = u2 / 256;
    lemma_fundamental_div_mod(u, 256);
    lemma_fundamental_div_mod(u1, 256);
    lemma_fundamental_div_mod(u2, 256);
    lemma_div_denominator(u, 256, 256);
    lemma_div_denominator(u1, 256, 256);
    lemma_div_denominator(u, 0x1_0000, 256);
    assert(u / 0x1_0000 == u2);
    assert(u / 0x100_0000 == u3);
    assert(u1 >= 0 && u2 >= 0 && u3 >= 0) by {
        vstd::arithmetic::div_mod::lemma_div_pos_is_pos(u, 256);
        vstd::arithmetic::div_mod::lemma_div_pos_is_pos(u1, 256);
        vstd::arithmetic::div_mod::lemma_div_pos_is_pos(u2, 256);
    }
    assert(u3 < 256) by {
        if u3 >= 256 {
            assert(u2 >= 256 * 256);
            assert(u1 >= 256 * 256 * 256);
            assert(u >= 256 * 256 * 256 * 256);
        }
    }
    let b = be_bytes(n);
    assert(b[0] == u3 && b[1] == u2 % 256 && b[2] == u1 % 256 && b[3] == u % 256);
    assert(be_u32(b) == u);
}

/// A frame of a byte string, wherever it stands, reads back as that string.
pub proof fn lemma_frame_parses(s: Seq<u8>, p: int, v: Seq<u8>)
    requires
        v.len() <= i32::MAX,
        0 <= p,
        p + frame(v).len() <= s.len(),
        s.subrange(p, p + frame(v).len()) == frame(v),
    ensures
        frame(v).len() == v.len() + 9,
        parse_vec(s, p) == Ok::<(Seq<u8>, int), ParseError>((v, p + frame(v).len())),
{
    reveal(frame);
    lemma_be_round_trip(v.len() as int);
    let f = frame(v);
    let n = v.len() as int;
    assert(f.len() == n + 9);
    assert forall|i: int| 0 <= i < f.len() implies s[p + i] == #[trigger] f[i] by {
        assert(s.subrange(p, p + f.len())[i] == s[p + i]);
    }
    assert(s[p] == f[0]);
    assert(s.subrange(p + 1, p + 5) =~= be_bytes(n)) by {
        assert forall|i: int| 0 <= i < 4 implies s.subrange(p + 1, p + 5)[i] == be_bytes(n)[i] by {
            assert(s[p + 1 + i] == f[1 + i]);
        }
    }
    assert(s[p + 5] == f[5] && s[p + 6] == f[6]);
    assert(s.subrange(p + 7, p + 7 + n) =~= v) by {
        assert forall|i: int| 0 <= i < n implies s.subrange(p + 7, p + 7 + n)[i] == v[i] by {
            assert(s[p + 7 + i] == f[7 + i]);
        }
    }
    assert(s[p + 7 + n] == f[7 + n] && s[p + 8 + n] == f[8 + n]);
}

/// An operation frame reads as the operation its parts give.
proof fn lemma_parse_op_parts(s: Seq<u8>, m: Seq<u8>, q1: int)
    requires
        parse_prefix(s, 0) == Ok::<(Prefix, int), ParseError>((Prefix::Count, 1)),
        parse_break_line(s, 1) == Ok::<int, ParseError>(3),
        parse_vec(s, 3) == Ok::<(Seq<u8>, int), ParseError>((m, q1)),
    ensures
        parse_op(s, 0) == parse_args(s, m, q1),
{
}

/// The frame of an operation reads back as that operation, whatever follows it.
pub proof fn lemma_operation_round_trip(op: OperationView, rest: Seq<u8>)
    requires
        match op {
            OperationView::Put(k, v) => k.len() <= i32::MAX && v.len() <= i32::MAX,
            OperationView::Get(k) => k.len() <= i32::MAX,
        },
    ensures
        parse_op(operation_frame(op) + rest, 0) == Ok::<(OperationView, int), ParseError>(
            (op, operation_frame(op).len() as int),
        ),
{
    let f = operation_frame(op);
    let s = f + rest;
    let head = seq![COUNT_BYTE] + break_line();
    assert(head.len() == 3);
    assert(s[0] == COUNT_BYTE && s[1] == 13 && s[2] == 10);
    assert(parse_prefix(s, 0) == Ok::<(Prefix, int), ParseError>((Prefix::Count, 1)));
    assert(parse_break_line(s, 1) == Ok::<int, ParseError>(3));
    match op {
        OperationView::Put(k, v) => {
            let fm = frame(put_name());
            let fk = frame(k);
            let fv = frame(v);
            let q1 = 3 + fm.len() as int;
            let q2 = q1 + fk.len() as int;
            lemma_put_layout(head, fm, fk, fv, rest);
            lemma_frame_parses(s, 3, put_name());
            lemma_frame_parses(s, q1, k);
            lemma_frame_parses(s, q2, v);
            lemma_parse_op_parts(s, put_name(), q1);
        },
        OperationView::Get(k) => {
            let fm = frame(get_name());
            let fk = frame(k);
            let q1 = 3 + fm.len() as int;
            lemma_get_layout(head, fm, fk, rest);
            lemma_frame_parses(s, 3, get_name());
            lemma_frame_parses(s, q1, k);
            assert(get_name() != put_name()) by {
                assert(get_name()[0] != put_name()[0]);
            }
            lemma_parse_op_parts(s, get_name(), q1);
        },
    }
}

proof fn lemma_put_layout(head: Seq<u8>, fm: Seq<u8>, fk: Seq<u8>, fv: Seq<u8>, rest: Seq<u8>)
    ensures
        ({
            let s = head + fm + fk + fv + rest;
            let q0 = head.len() as int;
            let q1 = q0 + fm.len();
            let q2 = q1 + fk.len();
            &&& s.subrange(q0, q1) == fm
            &&& s.subrange(q1, q2) == fk
            &&& s.subrange(q2, q2 + fv.len()) == fv
            &&& s.len() == q2 + fv.len() + rest.len()
        }),
{
    let s = head + fm + fk + fv + rest;
    let q0 = head.len() as int;
    let q1 = q0 + fm.len();
    let q2 = q1 + fk.len();
    assert(s.subrange(q0, q1) =~= fm);
    assert(s.subrange(q1, q2) =~= fk);
    assert(s.subrange(q2, q2 + fv.len()) =~= fv);
}

proof fn lemma_get_layout(head: Seq<u8>, fm: Seq<u8>, fk: Seq<u8>, rest: Seq<u8>)
    ensures
        ({
            let s = head + fm + fk + rest;
            let q0 = head.len() as int;
            let q1 = q0 + fm.len();
            &&& s.subrange(q0, q1) == fm
            &&& s.subrange(q1, q1 + fk.len()) == fk
            &&& s.len() == q1 + fk.len() + rest.len()
        }),
{
    let s = head + fm + fk + rest;
    let q0 = head.len() as int;
    let q1 = q0 + fm.len();
    assert(s.subrange(q0, q1) =~= fm);
    assert(s.subrange(q1, q1 + fk.len()) =~= fk);
}

/// A byte string written as a frame reads back as that string, whatever follows it.
pub proof fn lemma_frame_round_trip(v: Seq<u8>, rest: Seq<u8>)
    requires
        v.len() <= i32::MAX,
    ensures
        parse_vec(frame(v) + rest, 0) == Ok::<(Seq<u8>, int), ParseError>((v, frame(v).len() as int)),
{
    let s = frame(v) + rest;
    lemma_be_round_trip(v.len() as int);
    assert(s.subrange(0, frame(v).len() as int) =~= frame(v));
    lemma_frame_parses(s, 0, v);
}

/// Relies on byteorder's `BigEndian::read_i32`: the first four bytes, most
/// significant first, as a signed 32-bit number. It panics on fewer than four.
#[verifier::external_body]
fn read_be_i32(buf: &[u8]) -> (r: i32)
    requires
        buf@.len() >= 4,
    ensures
        r as int == be_i32(buf@.subrange(0, 4)),
{
    <byteorder::BigEndian as byteorder::ByteOrder>::read_i32(buf)
}

/// Relies on byteorder's `BigEndian::write_i32`: the four bytes of `n`, most
/// significant first.
#[verifier::external_body]
fn be_i32_bytes(n: i32) -> (r: [u8; 4])
    ensures
        r@ == be_bytes(n as int),
{
    let mut buf = [0u8; 4];
    <byteorder::BigEndian as byteorder::ByteOrder>::write_i32(&mut buf, n);
    buf
}


/// Whether `m` is the three bytes `a`, `b`, `c`.
fn is_name(m: &Vec<u8>, a: u8, b: u8, c: u8) -> (r: bool)
    ensures
        r == (m@ == seq![a, b, c]),
{
    if m.len() != 3 {
        proof {
            assert(m@.len() != seq![a, b, c].len());
        }
        return false;
    }
    let r = m[0] == a && m[1] == b && m[2] == c;
    proof {
        if r {
            assert(m@ =~= seq![a, b, c]);
        } else {
            if m@ == seq![a, b, c] {
                assert(m@[0] == a && m@[1] == b && m@[2] == c);
            }
        }
    }
    r
}

/// Reads frames from bytes received, front to back. A read that fails leaves the
/// reader as it was, so that it can be tried again once more bytes are in.
pub struct ProtocolReader {
    buf: Vec<u8>,
    pos: usize,
}

impl ProtocolReader {
    /// The bytes received so far.
    pub closed spec fn bytes(&self) -> Seq<u8> {
        self.buf@
    }

    /// The place of the next byte to read.
    pub closed spec fn place(&self) -> int {
        self.pos as int
    }

    pub closed spec fn wf(&self) -> bool {
        self.pos <= self.buf@.len()
    }

    /// A reader at the start of `buf`.
    pub fn new(buf: Vec<u8>) -> (r: ProtocolReader)
        ensures
            r.wf(),
            r.bytes() == buf@,
            r.place() == 0,
    {
        ProtocolReader { buf, pos: 0 }
    }

    /// Adds bytes received after those already in.
    pub fn feed(&mut self, more: Vec<u8>)
        requires
            old(self).wf(),
        ensures
            final(self).wf(),
            final(self).bytes() == old(self).bytes() + more@,
            final(self).place() == old(self).place(),
    {
        let mut more = more;
        self.buf.append(&mut more);
    }

    /// The place of the next byte to read.
    pub fn position(&self) -> (r: usize)
        ensures
            r == self.place(),
    {
        self.pos
    }

    /// Reads a prefix byte.
    pub fn read_prefix(&mut self) -> (r: Result<Prefix, ParseError>)
        requires
            old(self).wf(),
        ensures
            final(self).wf(),
            final(self).bytes() == old(self).bytes(),
            match parse_prefix(old(self).bytes(), old(self).place()) {
                Ok((prefix, q)) => r == Ok::<Prefix, ParseError>(prefix) && final(self).place() == q,
                Err(e) => r == Err::<Prefix, ParseError>(e) && final(self).place() == old(self).place(),
            },
    {
        if self.pos >= self.buf.len() {
            return Err(ParseError::UnexpectedEnd);
        }
        let b = self.buf[self.pos];
        if b == COUNT_BYTE {
            self.pos = self.pos + 1;
            Ok(Prefix::Count)
        } else if b == STRING_BYTE {
            self.pos = self.pos + 1;
            Ok(Prefix::String)
        } else {
            Err(ParseError::BadPrefix)
        }
    }

    /// Reads a signed 32-bit number, most significant byte first.
    pub fn read_num(&mut self) -> (r: Result<i32, ParseError>)
        requires
            old(self).wf(),
        ensures
            final(self).wf(),
            final(self).bytes() == old(self).bytes(),
            match parse_num(old(self).bytes(), old(self).place()) {
                Ok((n, q)) => r matches Ok(m) && m as int == n && final(self).place() == q,
                Err(e) => r == Err::<i32, ParseError>(e) && final(self).place() == old(self).place(),
            },
    {
        if self.buf.len() - self.pos < 4 {
            return Err(ParseError::UnexpectedEnd);
        }
        let p = self.pos;
        let part = &self.buf.as_slice()[p..p + 4];
        proof {
            assert(part@.subrange(0, 4) =~= self.buf@.subrange(p as int, p + 4));
        }
        let n = read_be_i32(part);
        self.pos = p + 4;
        Ok(n)
    }

    /// Reads a line break.
    pub fn read_break_line(&mut self) -> (r: Result<(), ParseError>)
        requires
            old(self).wf(),
        ensures
            final(self).wf(),
            final(self).bytes() == old(self).bytes(),
            match parse_break_line(old(self).bytes(), old(self).place()) {
                Ok(q) => r is Ok && final(self).place() == q,
                Err(e) => r == Err::<(), ParseError>(e) && final(self).place() == old(self).place(),
            },
    {
        if self.buf.len() - self.pos < 2 {
            return Err(ParseError::UnexpectedEnd);
        }
        if self.buf[self.pos] == 13 && self.buf[self.pos + 1] == 10 {
            self.pos = self.pos + 2;
            Ok(())
        } else {
            Err(ParseError::MissingBreakLine)
        }
    }

    /// Reads the frame of a byte string and gives its bytes.
    pub fn read_vec(&mut self) -> (r: Result<Vec<u8>, ParseError>)
        requires
            old(self).wf(),
        ensures
            final(self).wf(),
            final(self).bytes() == old(self).bytes(),
            match parse_vec(old(self).bytes(), old(self).place()) {
                Ok((v, q)) => r matches Ok(w) && w@ == v && final(self).place() == q,
                Err(e) => r == Err::<Vec<u8>, ParseError>(e) && final(self).place() == old(self).place(),
            },
    {
        let start = self.pos;
        let prefix = match self.read_prefix() {
            Ok(prefix) => prefix,
            Err(e) => return Err(e),
        };
        if prefix != Prefix::String {
            self.pos = start;
            return Err(ParseError::BadPrefix);
        }
        let length = match self.read_num() {
            Ok(n) => n,
            Err(e) => {
                self.pos = start;
                return Err(e);
            },
        };
        match self.read_break_line() {
            Ok(()) => {},
            Err(e) => {
                self.pos = start;
                return Err(e);
            },
        }
        if length < 0 {
            self.pos = start;
            return Err(ParseError::NegativeLength);
        }
        let n = length as usize;
        let p = self.pos;
        if self.buf.len() - p < n {
            self.pos = start;
            return Err(ParseError::UnexpectedEnd);
        }
        let mut out: Vec<u8> = Vec::new();
        let mut i: usize = 0;
        while i < n
            invariant
                self.wf(),
                p + n <= self.buf@.len(),
                p + n <= usize::MAX,
                i <= n,
                out@ == self.buf@.subrange(p as int, p + i),
            decreases n - i,
        {
            out.push(self.buf[p + i]);
            i = i + 1;
            proof {
                assert(out@ =~= self.buf@.subrange(p as int, p + i));
            }
        }
        self.pos = p + n;
        match self.read_break_line() {
            Ok(()) => Ok(out),
            Err(e) => {
                self.pos = start;
                Err(e)
            },
        }
    }

    /// Reads the frame of an operation.
    pub fn read_op(&mut self) -> (r: Result<Operation, ParseError>)
        requires
            old(self).wf(),
        ensures
            final(self).wf(),
            final(self).bytes() == old(self).bytes(),
            match parse_op(old(self).bytes(), old(self).place()) {
                Ok((op, q)) => r matches Ok(o) && o@ == op && final(self).place() == q,
                Err(e) => r matches Err(f) && f == e && final(self).place() == old(self).place(),
            },
    {
        let start = self.pos;
        let prefix = match self.read_prefix() {
            Ok(prefix) => prefix,
            Err(e) => return Err(e),
        };
        match self.read_break_line() {
            Ok(()) => {},
            Err(e) => {
                self.pos = start;
                return Err(e);
            },
        }
        if prefix != Prefix::Count {
            self.pos = start;
            return Err(ParseError::BadPrefix);
        }
        let method = match self.read_vec() {
            Ok(m) => m,
            Err(e) => {
                self.pos = start;
                return Err(e);
            },
        };
        if is_name(&method, 80, 85, 84) {
            let key = match self.read_slice() {
                Ok(k) => k,
                Err(e) => {
                    self.pos = start;
                    return Err(e);
                },
            };
            let value = match self.read_slice() {
                Ok(v) => v,
                Err(e) => {
                    self.pos = start;
                    return Err(e);
                },
            };
            Ok(Operation::Put(PutOp(key, value)))
        } else if is_name(&method, 71, 69, 84) {
            let key = match self.read_slice() {
                Ok(k) => k,
                Err(e) => {
                    self.pos = start;
                    return Err(e);
                },
            };
            Ok(Operation::Get(GetOp(key)))
        } else {
            self.pos = start;
            Err(ParseError::UnknownMethod)
        }
    }

    /// Reads the frame of a byte string as a slice.
    pub fn read_slice(&mut self) -> (r: Result<Slice, ParseError>)
        requires
            old(self).wf(),
        ensures
            final(self).wf(),
            final(self).bytes() == old(self).bytes(),
            match parse_vec(old(self).bytes(), old(self).place()) {
                Ok((v, q)) => r matches Ok(w) && w@ == v && final(self).place() == q,
                Err(e) => r matches Err(f) && f == e && final(self).place() == old(self).place(),
            },
    {
        match self.read_vec() {
            Ok(v) => {
                proof {
                    crate::slice::lemma_from_vec_view(v);
                }
                Ok(Slice::from(v))
            },
            Err(e) => Err(e),
        }
    }
}


/// Writes frames as bytes, front to back.
pub struct ProtocolWriter {
    out: Vec<u8>,
}

impl ProtocolWriter {
    /// The bytes written so far.
    pub closed spec fn bytes(&self) -> Seq<u8> {
        self.out@
    }

    /// A writer that has written nothing.
    pub fn new() -> (r: ProtocolWriter)
        ensures
            r.bytes() == Seq::<u8>::empty(),
    {
        ProtocolWriter { out: Vec::new() }
    }

    /// The bytes written.
    pub fn into_bytes(self) -> (r: Vec<u8>)
        ensures
            r@ == self.bytes(),
    {
        self.out
    }

    fn push_all(&mut self, b: &[u8])
        ensures
            final(self).bytes() == old(self).bytes() + b@,
    {
        let ghost start = self.out@;
        let mut i: usize = 0;
        while i < b.len()
            invariant
                i <= b@.len(),
                self.out@ == start + b@.subrange(0, i as int),
            decreases b@.len() - i,
        {
            self.out.push(b[i]);
            i = i + 1;
            proof {
                assert(self.out@ =~= start + b@.subrange(0, i as int));
            }
        }
        proof {
            assert(b@.subrange(0, b@.len() as int) =~= b@);
        }
    }

    /// Writes a prefix byte.
    pub fn write_prefix(&mut self, prefix: Prefix)
        ensures
            final(self).bytes() == old(self).bytes().push(
                match prefix {
                    Prefix::Count => COUNT_BYTE,
                    Prefix::String => STRING_BYTE,
                },
            ),
    {
        match prefix {
            Prefix::Count => self.out.push(COUNT_BYTE),
            Prefix::String => self.out.push(STRING_BYTE),
        }
    }

    /// Writes a signed 32-bit number, most significant byte first.
    pub fn write_num(&mut self, num: i32)
        ensures
            final(self).bytes() == old(self).bytes() + be_bytes(num as int),
    {
        let b = be_i32_bytes(num);
        self.push_all(b.as_slice());
    }

    /// Writes a line break.
    pub fn write_break_line(&mut self)
        ensures
            final(self).bytes() == old(self).bytes() + break_line(),
    {
        self.out.push(13);
        self.out.push(10);
        proof {
            assert(self.out@ =~= old(self).bytes() + break_line());
        }
    }

    /// Writes the frame of a byte string.
    pub fn write_vec(&mut self, vec: Vec<u8>)
        requires
            vec@.len() <= i32::MAX,
        ensures
            final(self).bytes() == old(self).bytes() + frame(vec@),
    {
        self.write_prefix(Prefix::String);
        self.write_num(vec.len() as i32);
        self.write_break_line();
        self.push_all(vec.as_slice());
        self.write_break_line();
        proof {
            reveal(frame);
            assert(self.out@ =~= old(self).bytes() + frame(vec@));
        }
    }

    /// Writes the frame of the UTF-8 bytes of a string.
    pub fn write_str(&mut self, text: String)
        requires
            vstd::utf8::encode_utf8(text@).len() <= i32::MAX,
        ensures
            final(self).bytes() == old(self).bytes() + frame(vstd::utf8::encode_utf8(text@)),
    {
        self.write_slice(Slice::from(text));
    }

    /// Writes the frame of the bytes of a slice.
    pub fn write_slice(&mut self, slice: Slice)
        requires
            slice@.len() <= i32::MAX,
        ensures
            final(self).bytes() == old(self).bytes() + frame(slice@),
    {
        self.write_vec(slice.into_bytes());
    }

    /// Writes a reply: for a `GET`, the frame of the value read.
    pub fn write_return(&mut self, ret: Return)
        requires
            ret matches Return::Get(g) && g.0@.len() <= i32::MAX,
        ensures
            ret matches Return::Get(g) && final(self).bytes() == old(self).bytes() + frame(g.0@),
    {
        match ret {
            Return::Get(get_return) => self.write_slice(get_return.0),
        }
    }
}

} // verus!
