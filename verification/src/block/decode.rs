//! The block body decoder.
use crate::block::format::{MIN_COPY2_OFFSET, MIN_COPY3_OFFSET};
use crate::block::load_store::append_range;
use crate::block::ops;
use crate::block::ops::{Op, State};
use crate::error::Error;
use vstd::prelude::*;

verus! {

/// The header of an operation: where its bytes lie and what it asks for.
pub struct Token {
    /// Bytes of the header, before the literals.
    pub header: usize,
    /// Literal bytes behind the header.
    pub lits: usize,
    /// The offset of a new copy; `None` for a literal or a repeat.
    pub offset: Option<usize>,
    /// Bytes to copy from earlier output; zero for a literal.
    pub length: usize,
}

impl Token {
    /// The operation that this header and the bytes of `s` behind it make up.
    pub open spec fn op(self, s: Seq<u8>) -> Op {
        let lits = s.subrange(self.header as int, self.header + self.lits);
        match self.offset {
            Some(offset) => Op::Copy { lits, offset: offset as int, length: self.length as int },
            None => if self.length == 0 {
                Op::Literal(lits)
            } else {
                Op::Repeat(self.length as int)
            },
        }
    }

    /// `self` is the header of the operation at the head of `s`.
    pub open spec fn heads(self, s: Seq<u8>) -> bool {
        &&& 1 <= self.header
        &&& self.header + self.lits <= s.len()
        &&& self.lits <= 30 + 0xff_ffff
        &&& self.length <= 64 + 0xff_ffff
        &&& self.offset matches Some(offset) ==> 1 <= offset <= 65536 + 0x1f_ffff
            && self.length >= 4
        &&& self.offset is None ==> (self.lits == 0 || self.length == 0)
        &&& ops::parse_op(s) == Some((self.op(s), self.header + self.lits))
    }
}

/// The length of a literal or a repeat at `src[s..]`, and its header length.
fn read_run_length(src: &[u8], s: usize) -> (r: Option<(usize, usize)>)
    requires
        s < src.len(),
    ensures
        (match r {
            Some((length, n)) => {
                &&& ops::parse_run_length(src@.skip(s as int)) == Some((length as int, n as int))
                &&& 1 <= length <= 30 + 0xff_ffff
                &&& 1 <= n <= 4
                &&& s + n <= src.len()
            },
            None => ops::parse_run_length(src@.skip(s as int)) is None,
        }),
{
    let rest: usize = src.len() - s;
    let field: usize = src[s] as usize / 8;
    if field < 29 {
        Some((field + 1, 1))
    } else if field == 29 {
        if rest < 2 {
            return None;
        }
        Some((30 + src[s + 1] as usize, 2))
    } else if field == 30 {
        if rest < 3 {
            return None;
        }
        Some((30 + src[s + 1] as usize + 256 * src[s + 2] as usize, 3))
    } else {
        if rest < 4 {
            return None;
        }
        Some(
            (
                30 + src[s + 1] as usize + 256 * src[s + 2] as usize + 65536 * src[s + 3] as usize,
                4,
            ),
        )
    }
}

/// The length of a copy at `src[s..]` from its six-bit length field and the
/// extra length bytes at `at` behind `s`, and the number of those bytes.
fn read_copy_length(src: &[u8], s: usize, field: usize, at: usize) -> (r: Option<(usize, usize)>)
    requires
        at <= 4,
        s + at <= src.len(),
        field < 64,
    ensures
        (match r {
            Some((length, n)) => {
                &&& ops::parse_copy_length(src@.skip(s as int), field as int, at as int) == Some(
                    (length as int, n as int),
                )
                &&& 4 <= length <= 64 + 0xff_ffff
                &&& n <= 3
                &&& s + at + n <= src.len()
            },
            None => ops::parse_copy_length(src@.skip(s as int), field as int, at as int) is None,
        }),
{
    let p: usize = s + at;
    let rest: usize = src.len() - p;
    if field <= 60 {
        Some((field + 4, 0))
    } else if field == 61 {
        if rest < 1 {
            return None;
        }
        Some((64 + src[p] as usize, 1))
    } else if field == 62 {
        if rest < 2 {
            return None;
        }
        Some((64 + src[p] as usize + 256 * src[p + 1] as usize, 2))
    } else {
        if rest < 3 {
            return None;
        }
        Some(
            (64 + src[p] as usize + 256 * src[p + 1] as usize + 65536 * src[p + 2] as usize, 3),
        )
    }
}

/// Reads the header of the operation at `src[s..]`; `None` where it is cut off.
pub fn read_token(src: &[u8], s: usize) -> (r: Option<Token>)
    requires
        s < src.len(),
    ensures
        (match r {
            Some(t) => t.heads(src@.skip(s as int)),
            None => ops::parse_op(src@.skip(s as int)) is None,
        }),
{
    proof {
        reveal(ops::parse_op);
    }
    let ghost rem = src@.skip(s as int);
    let rest: usize = src.len() - s;
    let tag: usize = src[s] as usize;
    let kind: usize = tag % 4;
    assert(rem.subrange(0, 0) =~= Seq::<u8>::empty());
    if kind == 0 {
        match read_run_length(src, s) {
            None => None,
            Some((length, n)) => {
                if (tag / 4) % 2 == 1 {
                    Some(Token { header: n, lits: 0, offset: None, length })
                } else if length > rest - n {
                    None
                } else {
                    Some(Token { header: n, lits: length, offset: None, length: 0 })
                }
            },
        }
    } else if kind == 1 {
        if rest < 2 {
            return None;
        }
        let field: usize = (tag / 4) % 16;
        let offset: usize = (tag + 256 * src[s + 1] as usize) / 64 + 1;
        assert(rem.subrange(2, 2) =~= Seq::<u8>::empty());
        if field < 15 {
            Some(Token { header: 2, lits: 0, offset: Some(offset), length: field + 4 })
        } else {
            if rest < 3 {
                return None;
            }
            assert(rem.subrange(3, 3) =~= Seq::<u8>::empty());
            Some(Token { header: 3, lits: 0, offset: Some(offset), length: 18 + src[s + 2] as usize })
        }
    } else if kind == 2 {
        if rest < 3 {
            return None;
        }
        let offset: usize = src[s + 1] as usize + 256 * src[s + 2] as usize + MIN_COPY2_OFFSET;
        match read_copy_length(src, s, tag / 4, 3) {
            None => None,
            Some((length, n)) => {
                assert(rem.subrange(3 + n, 3 + n) =~= Seq::<u8>::empty());
                Some(Token { header: 3 + n, lits: 0, offset: Some(offset), length })
            },
        }
    } else {
        let count: usize = (tag / 8) % 4;
        if (tag / 4) % 2 == 0 {
            if rest < 3 + (count + 1) {
                return None;
            }
            let offset: usize = src[s + 1] as usize + 256 * src[s + 2] as usize + MIN_COPY2_OFFSET;
            Some(Token { header: 3, lits: count + 1, offset: Some(offset), length: tag / 32 + 4 })
        } else {
            if rest < 4 {
                return None;
            }
            let val: u64 = tag as u64 + 256 * src[s + 1] as u64 + 65536 * src[s + 2] as u64
                + 16777216 * src[s + 3] as u64;
            let field: usize = ((val / 32) % 64) as usize;
            let offset: usize = (val / 2048) as usize + MIN_COPY3_OFFSET;
            match read_copy_length(src, s, field, 4) {
                None => None,
                Some((length, n)) => {
                    if rest < 4 + n + count {
                        return None;
                    }
                    Some(Token { header: 4 + n, lits: count, offset: Some(offset), length })
                },
            }
        }
    }
}

/// Appends `length` bytes found `offset` bytes before the end of `dst`; the
/// bytes of the block start at `base`.
fn forward_copy(dst: &mut Vec<u8>, base: usize, offset: usize, length: usize)
    requires
        base <= old(dst).len(),
        1 <= offset <= old(dst).len() - base,
    ensures
        final(dst)@ == old(dst)@.take(base as int) + ops::copy_back(
            old(dst)@.skip(base as int),
            offset as int,
            length as int,
        ),
{
    let mut i: usize = 0;
    let ghost out0 = dst@.skip(base as int);
    assert(dst@ =~= old(dst)@.take(base as int) + dst@.skip(base as int));
    while i < length
        invariant
            i <= length,
            base <= old(dst).len() <= dst.len(),
            1 <= offset <= dst.len() - base,
            dst@ == old(dst)@.take(base as int) + dst@.skip(base as int),
            ops::copy_back(dst@.skip(base as int), offset as int, length - i) == ops::copy_back(
                out0,
                offset as int,
                length as int,
            ),
        decreases length - i,
    {
        let ghost before = dst@;
        let b: u8 = dst[dst.len() - offset];
        dst.push(b);
        i = i + 1;
        proof {
            let o = before.skip(base as int);
            assert(o[o.len() - offset] == b);
            assert(dst@.skip(base as int) =~= o.push(b));
        }
    }
}

/// Performs the operation with header `t` at `src[s..]` on the block that starts
/// at `base` in `dst`, where `offset` is that of the last copy and the block may
/// not grow beyond `dlen` bytes. Gives the offset of the last copy afterwards, or
/// `None` where the operation cannot be performed.
fn apply_token(
    dst: &mut Vec<u8>,
    base: usize,
    dlen: usize,
    src: &[u8],
    s: usize,
    offset: usize,
    t: &Token,
) -> (r: Option<usize>)
    requires
        base <= old(dst).len(),
        old(dst).len() - base <= dlen,
        s < src.len(),
        offset >= 1,
        t.heads(src@.skip(s as int)),
    ensures
        base <= final(dst).len(),
        final(dst)@.take(base as int) == old(dst)@.take(base as int),
        ({
            let st = State { out: old(dst)@.skip(base as int), offset: offset as int };
            let next = ops::step(st, t.op(src@.skip(s as int)));
            match r {
                Some(o) => {
                    &&& o >= 1
                    &&& final(dst).len() - base <= dlen
                    &&& next == Some(
                        State { out: final(dst)@.skip(base as int), offset: o as int },
                    )
                },
                None => next matches Some(end) ==> end.out.len() > dlen,
            }
        }),
{
    let ghost rem = src@.skip(s as int);
    let ghost st = State { out: dst@.skip(base as int), offset: offset as int };
    let ghost op = t.op(rem);
    let ghost lits = rem.subrange(t.header as int, t.header + t.lits);
    let d: usize = dst.len() - base;
    proof {
        ops::lemma_step_grows(st, op);
    }
    if t.lits > dlen - d || t.length > dlen - d - t.lits {
        return None;
    }
    append_range(dst, src, s + t.header, t.lits);
    proof {
        assert(src@.subrange(s + t.header, s + t.header + t.lits) =~= lits);
        assert(dst@.skip(base as int) =~= st.out + lits);
        assert(dst@.take(base as int) =~= old(dst)@.take(base as int));
        assert(t.lits == 0 ==> st.out + lits =~= st.out);
    }
    let o: usize = match t.offset {
        Some(o) => o,
        None => offset,
    };
    if t.length > 0 {
        if o > dst.len() - base {
            return None;
        }
        let ghost mid = dst@;
        forward_copy(dst, base, o, t.length);
        proof {
            ops::lemma_copy_back_len(mid.skip(base as int), o as int, t.length as int);
            assert(dst@.skip(base as int) =~= ops::copy_back(
                mid.skip(base as int),
                o as int,
                t.length as int,
            ));
            assert(dst@.take(base as int) =~= mid.take(base as int));
        }
    }
    Some(o)
}

/// Decodes the block body `src`, which must make up exactly `dlen` bytes, and
/// appends the result to `dst`. On an error `dst` is as before.
pub fn minlz_decode(dst: &mut Vec<u8>, dlen: usize, src: &[u8]) -> (r: Result<(), Error>)
    ensures
        r is Ok <==> (ops::decoded(src@) matches Some(out) && out.len() == dlen),
        r is Ok ==> final(dst)@ == old(dst)@ + ops::decoded(src@)->0,
        r is Err ==> r == Err::<(), Error>(Error::Corrupt("invalid block body")) && final(dst)@
            == old(dst)@,
{
    let base: usize = dst.len();
    let mut s: usize = 0;
    let mut offset: usize = 1;
    let mut ok: bool = true;
    proof {
        assert(src@.skip(0) =~= src@);
        assert(dst@.skip(base as int) =~= Seq::<u8>::empty());
        assert(dst@.take(base as int) =~= old(dst)@);
    }
    while ok && s < src.len()
        invariant
            s <= src.len(),
            base == old(dst).len(),
            base <= dst.len(),
            dst@.take(base as int) == old(dst)@,
            ok ==> dst.len() - base <= dlen,
            offset >= 1,
            ok ==> ops::run(src@, ops::start()) == ops::run(
                src@.skip(s as int),
                State { out: dst@.skip(base as int), offset: offset as int },
            ),
            !ok ==> (match ops::run(src@, ops::start()) {
                Some(end) => end.out.len() != dlen,
                None => true,
            }),
        decreases
            (if ok {
                1int
            } else {
                0int
            }),
            src.len() - s,
    {
        let ghost rem = src@.skip(s as int);
        let ghost st = State { out: dst@.skip(base as int), offset: offset as int };
        match read_token(src, s) {
            None => {
                ok = false;
            },
            Some(t) => {
                let ghost n = t.header + t.lits;
                proof {
                    let next = ops::step(st, t.op(rem));
                    if next is Some {
                        ops::lemma_run_grows(rem.skip(n), next->0);
                    }
                    assert(rem.skip(n) =~= src@.skip(s + n));
                }
                match apply_token(dst, base, dlen, src, s, offset, &t) {
                    None => {
                        ok = false;
                    },
                    Some(o) => {
                        offset = o;
                        s = s + t.header + t.lits;
                    },
                }
            },
        }
    }
    if !ok || dst.len() - base != dlen {
        dst.truncate(base);
        return Err(Error::Corrupt("invalid block body"));
    }
    proof {
        assert(dst@ =~= dst@.take(base as int) + dst@.skip(base as int));
    }
    Ok(())
}

} // verus!
