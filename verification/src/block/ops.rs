//! The block body as a mathematical object: a sequence of operations, what
//! each does to the output, and how each is written in bytes.
use vstd::prelude::*;

verus! {

/// One operation of a block body.
pub enum Op {
    /// Append these bytes.
    Literal(Seq<u8>),
    /// Append `length` bytes found at the offset of the last copy.
    Repeat(int),
    /// Append the bytes `lits`, then `length` bytes found `offset` bytes back.
    Copy { lits: Seq<u8>, offset: int, length: int },
}

/// What a block body has produced so far.
#[verifier::ext_equal]
pub struct State {
    /// The decoded bytes.
    pub out: Seq<u8>,
    /// The offset of the last copy, one before the first.
    pub offset: int,
}

/// The state before the first operation.
pub open spec fn start() -> State {
    State { out: Seq::empty(), offset: 1 }
}

/// The two bytes of `s` at `i` as a little-endian number.
pub open spec fn le16(s: Seq<u8>, i: int) -> int {
    s[i] + 256 * s[i + 1]
}

/// The three bytes of `s` at `i` as a little-endian number.
pub open spec fn le24(s: Seq<u8>, i: int) -> int {
    s[i] + 256 * s[i + 1] + 65536 * s[i + 2]
}

/// The four bytes of `s` at `i` as a little-endian number.
pub open spec fn le32(s: Seq<u8>, i: int) -> int {
    s[i] + 256 * s[i + 1] + 65536 * s[i + 2] + 16777216 * s[i + 3]
}

/// The length that the head of `s` gives a literal or a repeat, and the number
/// of header bytes: short lengths stand in the tag, longer ones in the one to
/// three bytes after it.
pub open spec fn parse_run_length(s: Seq<u8>) -> Option<(int, int)> {
    let field = s[0] as int / 8;
    if field < 29 {
        Some((field + 1, 1))
    } else if field == 29 {
        if s.len() < 2 {
            None
        } else {
            Some((30 + s[1], 2))
        }
    } else if field == 30 {
        if s.len() < 3 {
            None
        } else {
            Some((30 + le16(s, 1), 3))
        }
    } else {
        if s.len() < 4 {
            None
        } else {
            Some((30 + le24(s, 1), 4))
        }
    }
}

/// The length of a copy whose six-bit length field is `field` and whose extra
/// length bytes start at `at`, and the number of those bytes.
pub open spec fn parse_copy_length(s: Seq<u8>, field: int, at: int) -> Option<(int, int)> {
    if field <= 60 {
        Some((field + 4, 0))
    } else if field == 61 {
        if s.len() < at + 1 {
            None
        } else {
            Some((64 + s[at], 1))
        }
    } else if field == 62 {
        if s.len() < at + 2 {
            None
        } else {
            Some((64 + le16(s, at), 2))
        }
    } else {
        if s.len() < at + 3 {
            None
        } else {
            Some((64 + le24(s, at), 3))
        }
    }
}

/// The operation at the head of `s`, of which the tag is there, and its length
/// in bytes.
#[verifier::opaque]
pub open spec fn parse_op(s: Seq<u8>) -> Option<(Op, int)> {
    let tag = s[0] as int;
    if tag % 4 == 0 {
        match parse_run_length(s) {
            None => None,
            Some((length, n)) => if (tag / 4) % 2 == 1 {
                Some((Op::Repeat(length), n))
            } else if n + length > s.len() {
                None
            } else {
                Some((Op::Literal(s.subrange(n, n + length)), n + length))
            },
        }
    } else if tag % 4 == 1 {
        parse_copy1(s)
    } else if tag % 4 == 2 {
        parse_copy2(s)
    } else if (tag / 4) % 2 == 0 {
        parse_copy2_fused(s)
    } else {
        parse_copy3(s)
    }
}

/// A copy with an offset of ten bits, in two or three bytes.
pub open spec fn parse_copy1(s: Seq<u8>) -> Option<(Op, int)> {
    let field = (s[0] as int / 4) % 16;
    if s.len() < 2 {
        None
    } else {
        let offset = le16(s, 0) / 64 + 1;
        if field < 15 {
            Some((Op::Copy { lits: Seq::empty(), offset, length: field + 4 }, 2))
        } else if s.len() < 3 {
            None
        } else {
            Some((Op::Copy { lits: Seq::empty(), offset, length: 18 + s[2] }, 3))
        }
    }
}

/// A copy with an offset of sixteen bits, in three to six bytes.
pub open spec fn parse_copy2(s: Seq<u8>) -> Option<(Op, int)> {
    if s.len() < 3 {
        None
    } else {
        match parse_copy_length(s, s[0] as int / 4, 3) {
            None => None,
            Some((length, n)) => Some(
                (Op::Copy { lits: Seq::empty(), offset: le16(s, 1) + 64, length }, 3 + n),
            ),
        }
    }
}

/// A copy with an offset of sixteen bits and one to four literals before it.
pub open spec fn parse_copy2_fused(s: Seq<u8>) -> Option<(Op, int)> {
    let count = (s[0] as int / 8) % 4 + 1;
    if s.len() < 3 + count {
        None
    } else {
        Some(
            (
                Op::Copy {
                    lits: s.subrange(3, 3 + count),
                    offset: le16(s, 1) + 64,
                    length: s[0] as int / 32 + 4,
                },
                3 + count,
            ),
        )
    }
}

/// A copy with an offset of 21 bits and at most three literals before it.
pub open spec fn parse_copy3(s: Seq<u8>) -> Option<(Op, int)> {
    let count = (s[0] as int / 8) % 4;
    if s.len() < 4 {
        None
    } else {
        match parse_copy_length(s, (le32(s, 0) / 32) % 64, 4) {
            None => None,
            Some((length, n)) => if s.len() < 4 + n + count {
                None
            } else {
                Some(
                    (
                        Op::Copy {
                            lits: s.subrange(4 + n, 4 + n + count),
                            offset: le32(s, 0) / 2048 + 65536,
                            length,
                        },
                        4 + n + count,
                    ),
                )
            },
        }
    }
}

/// Appends to `out`, one at a time, `length` bytes found `offset` bytes back;
/// a byte just appended may be read again.
pub open spec fn copy_back(out: Seq<u8>, offset: int, length: int) -> Seq<u8>
    decreases length,
{
    if length <= 0 {
        out
    } else {
        copy_back(out.push(out[out.len() - offset]), offset, length - 1)
    }
}

/// The state after an operation, or `None` where a copy reaches back beyond the
/// start of the output.
pub open spec fn step(st: State, op: Op) -> Option<State> {
    match op {
        Op::Literal(lits) => Some(State { out: st.out + lits, offset: st.offset }),
        Op::Repeat(length) => if st.offset > st.out.len() {
            None
        } else {
            Some(State { out: copy_back(st.out, st.offset, length), offset: st.offset })
        },
        Op::Copy { lits, offset, length } => if offset > st.out.len() + lits.len() {
            None
        } else {
            Some(State { out: copy_back(st.out + lits, offset, length), offset })
        },
    }
}

/// The state after all operations in `s`, or `None` where `s` is malformed.
pub open spec fn run(s: Seq<u8>, st: State) -> Option<State>
    decreases s.len(),
{
    if s.len() == 0 {
        Some(st)
    } else {
        match parse_op(s) {
            None => None,
            Some((op, n)) => if 1 <= n <= s.len() {
                match step(st, op) {
                    None => None,
                    Some(next) => run(s.skip(n), next),
                }
            } else {
                None
            },
        }
    }
}

/// What the block body `s` decodes to, or `None` where it is malformed.
pub open spec fn decoded(s: Seq<u8>) -> Option<Seq<u8>> {
    match run(s, start()) {
        Some(st) => Some(st.out),
        None => None,
    }
}

/// The bounds of a parsed operation.
pub proof fn lemma_parse_op_bounds(s: Seq<u8>)
    requires
        s.len() > 0,
    ensures
        (match parse_op(s) {
            None => true,
            Some((op, n)) => 1 <= n <= s.len() && (match op {
                Op::Literal(lits) => 1 <= lits.len() <= 30 + 0xff_ffff,
                Op::Repeat(length) => 1 <= length <= 30 + 0xff_ffff,
                Op::Copy { lits, offset, length } => {
                    &&& 0 <= lits.len() <= 4
                    &&& 1 <= offset <= 65536 + 0x1f_ffff
                    &&& 4 <= length <= 64 + 0xff_ffff
                },
            }),
        }),
{
    reveal(parse_op);
}

/// What follows an operation does not change how it reads.
pub proof fn lemma_parse_op_prefix(s: Seq<u8>, tail: Seq<u8>)
    requires
        s.len() > 0,
        parse_op(s) is Some,
    ensures
        parse_op(s + tail) == parse_op(s),
{
    reveal(parse_op);
    let t = s + tail;
    assert(forall|i: int| 0 <= i < s.len() ==> t[i] == s[i]);
    assert(forall|a: int, b: int|
        0 <= a <= b <= s.len() ==> #[trigger] t.subrange(a, b) =~= s.subrange(a, b));
}

/// Operations one after the other act one after the other.
pub proof fn lemma_run_concat(a: Seq<u8>, b: Seq<u8>, st: State)
    requires
        run(a, st) is Some,
    ensures
        run(a + b, st) == run(b, run(a, st)->0),
    decreases a.len(),
{
    if a.len() == 0 {
        assert(a + b =~= b);
    } else {
        let (op, n) = parse_op(a)->0;
        lemma_parse_op_prefix(a, b);
        assert((a + b).skip(n) =~= a.skip(n) + b);
        lemma_run_concat(a.skip(n), b, step(st, op)->0);
    }
}

/// One more operation at the end of a body.
pub proof fn lemma_run_push(a: Seq<u8>, b: Seq<u8>, st: State)
    requires
        run(a, st) is Some,
        b.len() > 0,
        parse_op(b) is Some,
        (parse_op(b)->0).1 == b.len(),
    ensures
        run(a + b, st) == step(run(a, st)->0, (parse_op(b)->0).0),
{
    lemma_run_concat(a, b, st);
    let (op, n) = parse_op(b)->0;
    let mid = run(a, st)->0;
    assert(b.skip(n).len() == 0);
    if step(mid, op) is Some {
        assert(run(b.skip(n), step(mid, op)->0) == step(mid, op));
    }
}

/// A copy appends exactly `length` bytes.
pub proof fn lemma_copy_back_len(out: Seq<u8>, offset: int, length: int)
    requires
        length >= 0,
    ensures
        copy_back(out, offset, length).len() == out.len() + length,
    decreases length,
{
    if length > 0 {
        lemma_copy_back_len(out.push(out[out.len() - offset]), offset, length - 1);
    }
}

/// The output never shrinks.
pub proof fn lemma_run_grows(s: Seq<u8>, st: State)
    ensures
        run(s, st) matches Some(end) ==> end.out.len() >= st.out.len(),
    decreases s.len(),
{
    if s.len() > 0 {
        lemma_parse_op_bounds(s);
        if let Some((op, n)) = parse_op(s) {
            if let Some(next) = step(st, op) {
                lemma_step_grows(st, op);
                lemma_run_grows(s.skip(n), next);
            }
        }
    }
}

/// An operation appends as many bytes as it says.
pub proof fn lemma_step_grows(st: State, op: Op)
    requires
        (match op {
            Op::Literal(_) => true,
            Op::Repeat(length) => length >= 0,
            Op::Copy { length, .. } => length >= 0,
        }),
    ensures
        step(st, op) matches Some(next) ==> next.out.len() == st.out.len() + (match op {
            Op::Literal(lits) => lits.len() as int,
            Op::Repeat(length) => length,
            Op::Copy { lits, length, .. } => lits.len() + length,
        }),
{
    match op {
        Op::Literal(_) => {},
        Op::Repeat(length) => {
            lemma_copy_back_len(st.out, st.offset, length);
        },
        Op::Copy { lits, offset, length } => {
            lemma_copy_back_len(st.out + lits, offset, length);
        },
    }
}

/// Where `src` repeats itself `offset` bytes later, a copy reproduces it.
pub proof fn lemma_copy_back_matches(src: Seq<u8>, p: int, offset: int, length: int)
    requires
        0 < offset <= p,
        0 <= length,
        p + length <= src.len(),
        forall|i: int| p <= i < p + length ==> #[trigger] src[i] == src[i - offset],
    ensures
        copy_back(src.take(p), offset, length) == src.take(p + length),
    decreases length,
{
    if length > 0 {
        assert(src[p] == src[p - offset]);
        assert(src.take(p).push(src.take(p)[p - offset]) =~= src.take(p + 1));
        lemma_copy_back_matches(src, p + 1, offset, length - 1);
    }
}

} // verus!
