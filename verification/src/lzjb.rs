//! The LZJB codec: a byte-exact stream compressor and its decompressor.
//!
//! A stream is a run of groups. Each group opens with a control byte and
//! holds up to eight items; bit `k` of the control byte says whether item
//! `k` is a literal byte (clear) or a two-byte match item (set). A match
//! item holds the match length less `MATCH_MIN` in its upper six bits and a
//! ten-bit distance back into the output in the rest.

use vstd::prelude::*;

verus! {

/// Number of bits per byte, and of items per control byte.
pub const NBBY: usize = 8;
/// Bits of a match item that hold the length.
pub const MATCH_BITS: usize = 6;
/// Shortest match.
pub const MATCH_MIN: usize = 3;
/// Longest match.
pub const MATCH_MAX: usize = 66;
/// Largest distance a match item can hold.
pub const OFFSET_MASK: usize = 1023;
/// Entries of the encoder's table of recent positions.
pub const LEMPEL_SIZE: usize = 1024;

/// Two to the power `k`, for the bit positions of a control byte.
pub open spec fn pow2(k: int) -> int {
    if k <= 0 {
        1
    } else if k == 1 {
        2
    } else if k == 2 {
        4
    } else if k == 3 {
        8
    } else if k == 4 {
        16
    } else if k == 5 {
        32
    } else if k == 6 {
        64
    } else if k == 7 {
        128
    } else {
        256
    }
}

/// Whether bit `k` of the control byte `map` is set.
pub open spec fn bit_set(map: u8, k: int) -> bool {
    (map as int / pow2(k)) % 2 == 1
}

/// The buffer after `count` bytes were copied one by one from `offset`
/// places behind the cursor `di`. A byte written by the run may be read by
/// it again, so the copied ranges may overlap.
pub open spec fn copy_run(buf: Seq<u8>, di: int, offset: int, count: int) -> Seq<u8>
    decreases count,
{
    if count <= 0 {
        buf
    } else {
        copy_run(buf.update(di, buf[di - offset]), di + 1, offset, count - 1)
    }
}

/// The decoder between two items.
pub struct DecState {
    /// Next position in the stream.
    pub si: int,
    /// Next position in the output.
    pub di: int,
    /// Control byte of the current group.
    pub map: u8,
    /// Bit of the control byte that the next item goes by; 8 when a new
    /// control byte is due.
    pub bit: int,
    /// The output buffer.
    pub buf: Seq<u8>,
    /// The stream was found corrupt.
    pub bad: bool,
}

/// The decoder before the first item.
pub open spec fn dec_init(buf: Seq<u8>) -> DecState {
    DecState { si: 0, di: 0, map: 0, bit: 8, buf, bad: false }
}

/// Whether the decoder has come to rest: the output is full or the stream corrupt.
pub open spec fn dec_done(st: DecState) -> bool {
    st.bad || st.di >= st.buf.len()
}

/// The state `st`, marked corrupt.
pub open spec fn dec_fail(st: DecState) -> DecState {
    DecState { bad: true, ..st }
}

/// One item of the stream `s` decoded. A stream that ends inside an item,
/// or a match that reaches back before the start of the output, leaves the
/// state as it was, marked corrupt.
pub open spec fn dec_step(s: Seq<u8>, st: DecState) -> DecState {
    if dec_done(st) {
        st
    } else if st.bit == 8 && st.si >= s.len() {
        dec_fail(st)
    } else {
        let map = if st.bit == 8 { s[st.si] } else { st.map };
        let si = if st.bit == 8 { st.si + 1 } else { st.si };
        let bit = if st.bit == 8 { 0 } else { st.bit };
        if bit_set(map, bit) {
            if si + 1 >= s.len() {
                dec_fail(st)
            } else {
                let mlen = s[si] as int / 4 + MATCH_MIN;
                let offset = (s[si] as int % 4) * 256 + s[si + 1] as int;
                let room = st.buf.len() - st.di;
                let count = if mlen < room { mlen } else { room };
                if st.di < offset {
                    dec_fail(st)
                } else {
                    DecState {
                        si: si + 2,
                        di: st.di + count,
                        map,
                        bit: bit + 1,
                        buf: copy_run(st.buf, st.di, offset, count),
                        bad: false,
                    }
                }
            }
        } else if si >= s.len() {
            dec_fail(st)
        } else {
            DecState {
                si: si + 1,
                di: st.di + 1,
                map,
                bit: bit + 1,
                buf: st.buf.update(st.di, s[si]),
                bad: false,
            }
        }
    }
}

/// The decoder after `k` items of the stream `s`, started on the buffer `buf`.
pub open spec fn dec_run(s: Seq<u8>, buf: Seq<u8>, k: nat) -> DecState
    decreases k,
{
    if k == 0 {
        dec_init(buf)
    } else {
        dec_step(s, dec_run(s, buf, (k - 1) as nat))
    }
}

/// The decoder at rest: every item writes at least one byte, so as many
/// items as the buffer has bytes always suffice.
pub open spec fn decoded(s: Seq<u8>, buf: Seq<u8>) -> DecState {
    dec_run(s, buf, buf.len())
}

/// Once at rest the decoder stays as it is.
pub proof fn lemma_dec_rest(s: Seq<u8>, buf: Seq<u8>, k: nat, j: nat)
    requires
        k <= j,
        dec_done(dec_run(s, buf, k)),
    ensures
        dec_run(s, buf, j) == dec_run(s, buf, k),
    decreases j,
{
    if j > k {
        lemma_dec_rest(s, buf, k, (j - 1) as nat);
    }
}

/// Table slot of the three bytes `a`, `b`, `c`.
pub open spec fn hash3(a: u8, b: u8, c: u8) -> int {
    let h0 = a as int * 65536 + b as int * 256 + c as int;
    let h1 = h0 + h0 / 512;
    let h2 = h1 + h1 / 32;
    h2 % LEMPEL_SIZE as int
}

/// Length of the match of the bytes at `si` with those at `cpy`, counted on
/// from `m` and capped at `MATCH_MAX`.
pub open spec fn match_len(src: Seq<u8>, si: int, cpy: int, m: int) -> int
    decreases MATCH_MAX - m,
{
    if m < MATCH_MAX && src[si + m] == src[cpy + m] {
        match_len(src, si, cpy, m + 1)
    } else {
        m
    }
}

/// The encoder between two items.
pub struct EncState {
    /// Next position in the input.
    pub si: int,
    /// Next position in the output.
    pub di: int,
    /// Position of the current group's control byte in the output.
    pub map_pos: int,
    /// Bit of the control byte that stands for the next item; 8 when a new
    /// group is due.
    pub bit: int,
    /// For each table slot, the last input position that hashed to it.
    pub table: Seq<usize>,
    /// The output buffer.
    pub out: Seq<u8>,
    /// The output buffer ran short of room for another group.
    pub stopped: bool,
}

/// The encoder before the first item.
pub open spec fn enc_init(out: Seq<u8>) -> EncState {
    EncState {
        si: 0,
        di: 0,
        map_pos: 0,
        bit: 8,
        table: Seq::new(LEMPEL_SIZE as nat, |i: int| 0usize),
        out,
        stopped: false,
    }
}

/// Opens a new group where one is due. A group may take a control byte and
/// eight items of two bytes, so the encoder stops where no more than that
/// is left of the output buffer.
pub open spec fn enc_open(st: EncState) -> EncState {
    if st.bit != 8 {
        st
    } else if st.di + 1 + 2 * NBBY >= st.out.len() {
        EncState { stopped: true, ..st }
    } else {
        EncState { map_pos: st.di, di: st.di + 1, bit: 0, out: st.out.update(st.di, 0u8), ..st }
    }
}

/// The state `st` of an open group after the input byte at `st.si` went out as a literal.
pub open spec fn enc_literal(src: Seq<u8>, st: EncState) -> EncState {
    EncState {
        si: st.si + 1,
        di: st.di + 1,
        bit: st.bit + 1,
        out: st.out.update(st.di, src[st.si]),
        ..st
    }
}

/// Emits one item in an open group. Fewer than `MATCH_MAX` bytes before
/// the end of the input every byte is a literal. Elsewhere the table names
/// an earlier position: where the three bytes there equal the three bytes
/// here, a match item goes out, as long as the bytes agree; else a literal.
pub open spec fn enc_item(src: Seq<u8>, st: EncState) -> EncState {
    if st.si + MATCH_MAX > src.len() {
        enc_literal(src, st)
    } else {
        let hp = hash3(src[st.si], src[st.si + 1], src[st.si + 2]);
        let offset = (st.si - st.table[hp]) % (OFFSET_MASK + 1);
        let cpy = st.si - offset;
        let seen = EncState { table: st.table.update(hp, st.si as usize), ..st };
        if offset != 0 && src[st.si] == src[cpy] && src[st.si + 1] == src[cpy + 1] && src[st.si + 2]
            == src[cpy + 2] {
            let mlen = match_len(src, st.si, cpy, MATCH_MIN as int);
            let marked = seen.out.update(st.map_pos, (seen.out[st.map_pos] + pow2(st.bit)) as u8);
            EncState {
                si: st.si + mlen,
                di: st.di + 2,
                bit: st.bit + 1,
                out: marked.update(st.di, ((mlen - MATCH_MIN) * 4 + offset / 256) as u8).update(
                    st.di + 1,
                    (offset % 256) as u8,
                ),
                ..seen
            }
        } else {
            enc_literal(src, seen)
        }
    }
}

/// One item encoded, with the opening of a group where one is due.
pub open spec fn enc_step(src: Seq<u8>, st: EncState) -> EncState {
    let open = enc_open(st);
    if open.stopped {
        open
    } else {
        enc_item(src, open)
    }
}

/// The encoder run from `st` to its rest: to the end of the input, or to
/// where the output buffer ran short. Every item takes at least one byte
/// of the input, so the run ends.
pub open spec fn enc_run(src: Seq<u8>, st: EncState) -> EncState
    decreases src.len() - st.si,
{
    if st.stopped || st.si >= src.len() {
        st
    } else {
        let next = enc_step(src, st);
        if st.si < next.si <= src.len() {
            enc_run(src, next)
        } else {
            next
        }
    }
}

/// The encoder at rest after the whole of `src`, started on the buffer `out`.
pub open spec fn encoded(src: Seq<u8>, out: Seq<u8>) -> EncState {
    enc_run(src, enc_init(out))
}

/// The mathematical side of a control byte: where `s` agrees with `v` below
/// bit `b + 1`, bit `b` of `s` is that of `v`, and `s` agrees with the rest
/// of `v` below bit `b`.
proof fn lemma_control_bit(s: int, v: int, b: int)
    requires
        0 <= b < 8,
        0 <= s < 256,
        0 <= v < pow2(b),
    ensures
        s % pow2(b + 1) == v ==> s % pow2(b) == v && (s / pow2(b)) % 2 == 0,
        s % pow2(b + 1) == v + pow2(b) ==> s % pow2(b) == v && (s / pow2(b)) % 2 == 1,
{
    let p = pow2(b);
    assert(pow2(b + 1) == 2 * p);
    let q = s / (2 * p);
    let r = s % (2 * p);
    vstd::arithmetic::div_mod::lemma_fundamental_div_mod(s, 2 * p);
    assert((2 * p) * q == (2 * q) * p) by (nonlinear_arith);
    assert((2 * q) * p + p == (2 * q + 1) * p) by (nonlinear_arith);
    if r == v {
        vstd::arithmetic::div_mod::lemma_fundamental_div_mod_converse(s, p, 2 * q, v);
    }
    if r == v + p {
        vstd::arithmetic::div_mod::lemma_fundamental_div_mod_converse(s, p, 2 * q + 1, v);
    }
}

/// Whether the input holds the same byte `j` places after `a` and after `b`.
spec fn repeats(src: Seq<u8>, a: int, b: int, j: int) -> bool {
    src[a + j] == src[b + j]
}

/// A match is at most `MATCH_MAX` long, and the bytes agree all along it.
proof fn lemma_match_len(src: Seq<u8>, si: int, cpy: int, m: int)
    requires
        m <= MATCH_MAX,
    ensures
        m <= match_len(src, si, cpy, m) <= MATCH_MAX,
        forall|j: int| m <= j < match_len(src, si, cpy, m) ==> #[trigger] repeats(src, si, cpy, j),
    decreases MATCH_MAX - m,
{
    if m < MATCH_MAX && src[si + m] == src[cpy + m] {
        lemma_match_len(src, si, cpy, m + 1);
    }
}

/// The first `n` bytes of `src` before the rest of `buf`.
spec fn mixed(src: Seq<u8>, buf: Seq<u8>, n: int) -> Seq<u8> {
    Seq::new(buf.len(), |i: int| if i < n { src[i] } else { buf[i] })
}

/// Copying a run out of a buffer that holds the start of `src`, from a
/// place where `src` repeats itself, extends that start by the run.
proof fn lemma_copy_run(src: Seq<u8>, buf: Seq<u8>, di: int, offset: int, count: int)
    requires
        buf.len() == src.len(),
        1 <= offset <= di,
        0 <= count,
        di + count <= src.len(),
        forall|j: int| 0 <= j < count ==> #[trigger] repeats(src, di, di - offset, j),
    ensures
        copy_run(mixed(src, buf, di), di, offset, count) == mixed(src, buf, di + count),
    decreases count,
{
    if count > 0 {
        let cur = mixed(src, buf, di);
        assert(repeats(src, di, di - offset, 0));
        assert(cur.update(di, cur[di - offset]) =~= mixed(src, buf, di + 1));
        assert forall|j: int| 0 <= j < count - 1 implies #[trigger] repeats(
            src,
            di + 1,
            di + 1 - offset,
            j,
        ) by {
            assert(repeats(src, di, di - offset, j + 1));
        }
        lemma_copy_run(src, buf, di + 1, offset, count - 1);
    }
}

/// What holds of the encoder between two items.
spec fn enc_wf(src: Seq<u8>, st: EncState) -> bool {
    &&& 0 <= st.si <= src.len() <= usize::MAX
    &&& 0 <= st.di <= st.out.len()
    &&& 0 <= st.bit <= 8
    &&& !st.stopped
    &&& st.table.len() == LEMPEL_SIZE
    &&& forall|h: int| 0 <= h < LEMPEL_SIZE ==> #[trigger] st.table[h] <= st.si
    &&& 0 <= st.map_pos
    &&& st.di > 0 ==> st.map_pos < st.di
    &&& st.bit < 8 ==> st.di > 0 && st.out[st.map_pos] < pow2(st.bit) && st.di + 2 * (8 - st.bit)
        < st.out.len()
    &&& 8 * st.di + st.bit <= 9 * st.si + 8
}

/// Whether the stream `s` starts as the output of the encoder `st` does, as
/// far as that output is settled: the bits of the open group's control
/// byte that stand for items to come are not.
spec fn agrees(s: Seq<u8>, st: EncState) -> bool {
    &&& st.di <= s.len()
    &&& forall|i: int| 0 <= i < st.di && i != st.map_pos ==> s[i] == st.out[i]
    &&& st.di > 0 ==> s[st.map_pos] as int % pow2(st.bit) == st.out[st.map_pos] as int
}

/// Whether the decoder `d` of the stream `s` stands where the encoder `st` does.
spec fn follows(d: DecState, s: Seq<u8>, st: EncState, src: Seq<u8>, buf: Seq<u8>) -> bool {
    &&& d.si == st.di
    &&& d.di == st.si
    &&& d.bit == st.bit
    &&& !d.bad
    &&& d.buf == mixed(src, buf, st.si)
    &&& st.bit < 8 ==> d.map == s[st.map_pos]
}

/// Whether after `k` items the decoder of every stream that starts as the
/// encoder's output stands where the encoder does.
spec fn tracks(src: Seq<u8>, st: EncState, buf: Seq<u8>, k: nat) -> bool {
    forall|s: Seq<u8>| #[trigger] agrees(s, st) ==> follows(dec_run(s, buf, k), s, st, src, buf)
}

/// One item of the encoder keeps what holds between two items, and the
/// decoder follows it by one item.
proof fn lemma_enc_step(src: Seq<u8>, st: EncState, buf: Seq<u8>, k: nat)
    requires
        enc_wf(src, st),
        st.si < src.len(),
        buf.len() == src.len(),
        tracks(src, st, buf, k),
        !enc_step(src, st).stopped,
    ensures
        enc_wf(src, enc_step(src, st)),
        st.si < enc_step(src, st).si,
        st.di < enc_step(src, st).di,
        enc_step(src, st).out.len() == st.out.len(),
        forall|i: int|
            enc_step(src, st).di <= i < st.out.len() ==> enc_step(src, st).out[i] == st.out[i],
        tracks(src, enc_step(src, st), buf, k + 1),
{
    let open = enc_open(st);
    let next = enc_step(src, st);
    let hp = hash3(src[st.si], src[st.si + 1], src[st.si + 2]);
    let offset = (st.si - st.table[hp]) % 1024;
    let cpy = st.si - offset;
    let is_match = st.si + MATCH_MAX <= src.len() && offset != 0 && src[st.si] == src[cpy] && src[st.si
        + 1] == src[cpy + 1] && src[st.si + 2] == src[cpy + 2];
    let mlen = match_len(src, st.si, cpy, MATCH_MIN as int);
    lemma_match_len(src, st.si, cpy, MATCH_MIN as int);
    if st.si + MATCH_MAX <= src.len() {
        assert(0 <= hp < 1024);
        assert(st.table[hp] <= st.si);
    }
    assert(enc_wf(src, next));
    assert forall|s: Seq<u8>| #[trigger] agrees(s, next) implies follows(
        dec_run(s, buf, k + 1),
        s,
        next,
        src,
        buf,
    ) by {
        lemma_control_bit(s[open.map_pos] as int, open.out[open.map_pos] as int, open.bit);
        assert(agrees(s, st));
        let d = dec_run(s, buf, k);
        assert(follows(d, s, st, src, buf));
        assert(dec_run(s, buf, k + 1) == dec_step(s, d));
        let map = if st.bit == 8 { s[st.di] } else { d.map };
        assert(map == s[open.map_pos]);
        if is_match {
            assert(bit_set(map, open.bit));
            assert(s[open.di] == next.out[open.di]);
            assert(s[open.di + 1] == next.out[open.di + 1]);
            assert forall|j: int| 0 <= j < mlen implies #[trigger] repeats(src, st.si, st.si - offset, j) by {
                if j >= 3 {
                    assert(repeats(src, st.si, cpy, j));
                }
            }
            lemma_copy_run(src, buf, st.si, offset, mlen);
        } else {
            assert(!bit_set(map, open.bit));
            assert(s[open.di] == next.out[open.di]);
            assert(d.buf.update(st.si, src[st.si]) =~= mixed(src, buf, st.si + 1));
        }
    }
}

/// The encoder run to its rest from a state that the decoder tracks: where
/// it did not stop for want of room, the decoder makes the input of its
/// output; and it does not stop where the output buffer holds the input,
/// a control byte for every eight bytes of it, and one group more.
proof fn lemma_enc_run(src: Seq<u8>, st: EncState, buf: Seq<u8>, k: nat)
    requires
        enc_wf(src, st),
        buf.len() == src.len(),
        k <= st.si,
        tracks(src, st, buf, k),
    ensures
        st.out.len() >= 17 + src.len() + (src.len() + 7) / 8 ==> !enc_run(src, st).stopped,
        enc_run(src, st).out.len() == st.out.len(),
        st.di <= enc_run(src, st).di <= st.out.len(),
        !enc_run(src, st).stopped && st.si < src.len() ==> st.di < enc_run(src, st).di,
        forall|i: int|
            enc_run(src, st).di <= i < st.out.len() ==> enc_run(src, st).out[i] == st.out[i],
        !enc_run(src, st).stopped ==> 0 <= enc_run(src, st).di <= st.out.len() && 8 * enc_run(src, st).di <= 9 * src.len() + 8 && ({
            let fin = enc_run(src, st);
            let d = decoded(fin.out.take(fin.di), buf);
            !d.bad && d.buf == src
        }),
    decreases src.len() - st.si,
{
    if st.si >= src.len() {
        let s = st.out.take(st.di);
        assert(s.len() == st.di);
        if st.di > 0 {
            let m = st.out[st.map_pos] as int;
            assert(s[st.map_pos] == st.out[st.map_pos]);
            assert(0 <= m < pow2(st.bit));
            assert(m % pow2(st.bit) == m) by {
                vstd::arithmetic::div_mod::lemma_small_mod(m as nat, pow2(st.bit) as nat);
            }
        }
        assert(agrees(s, st));
        lemma_dec_rest(s, buf, k, buf.len());
        assert(mixed(src, buf, st.si) =~= src);
    } else {
        let next = enc_step(src, st);
        if !next.stopped {
            lemma_enc_step(src, st, buf, k);
            lemma_enc_run(src, next, buf, k + 1);
        }
    }
}

/// Decoding what the encoder wrote gives the input back: for every input,
/// the output of an encoder that did not stop for want of room decodes,
/// into a buffer as long as the input, to that input.
pub proof fn lemma_round_trip(src: Seq<u8>, out: Seq<u8>, buf: Seq<u8>)
    requires
        src.len() <= usize::MAX,
        buf.len() == src.len(),
        !encoded(src, out).stopped,
    ensures
        0 <= encoded(src, out).di <= out.len(),
        !decoded(encoded(src, out).out.take(encoded(src, out).di), buf).bad,
        decoded(encoded(src, out).out.take(encoded(src, out).di), buf).buf == src,
{
    lemma_enc_start(src, out, buf);
    lemma_enc_run(src, enc_init(out), buf, 0);
}

/// Room that the encoder never runs short of on `n` bytes of input: the
/// input, a control byte for every group of eight bytes begun, and a
/// control byte and eight match items more.
pub open spec fn enough_room(n: nat) -> nat {
    17 + n + (n + 7) / 8
}

/// The encoder writes a front of its buffer and nothing else: the bytes
/// from the count it arrived at on are as they were. Where it did not stop
/// for want of room, that count is zero for the empty input alone.
pub proof fn lemma_encoder_frame(src: Seq<u8>, out: Seq<u8>)
    requires
        src.len() <= usize::MAX,
    ensures
        encoded(src, out).out.len() == out.len(),
        0 <= encoded(src, out).di <= out.len(),
        forall|i: int|
            encoded(src, out).di <= i < out.len() ==> encoded(src, out).out[i] == out[i],
        !encoded(src, out).stopped ==> (encoded(src, out).di == 0 <==> src.len() == 0),
{
    let buf = src;
    lemma_enc_start(src, out, buf);
    lemma_enc_run(src, enc_init(out), buf, 0);
}

/// The encoder never stops for want of room in a buffer of `enough_room`
/// bytes for its input, or more.
pub proof fn lemma_enough_room(src: Seq<u8>, out: Seq<u8>)
    requires
        src.len() <= usize::MAX,
        out.len() >= enough_room(src.len()),
    ensures
        !encoded(src, out).stopped,
        encoded(src, out).out.len() == out.len(),
        8 * encoded(src, out).di <= 9 * src.len() + 8,
{
    let buf = src;
    lemma_enc_start(src, out, buf);
    lemma_enc_run(src, enc_init(out), buf, 0);
}

/// Before the first item the decoder stands where the encoder does.
proof fn lemma_enc_start(src: Seq<u8>, out: Seq<u8>, buf: Seq<u8>)
    requires
        src.len() <= usize::MAX,
        buf.len() == src.len(),
    ensures
        enc_wf(src, enc_init(out)),
        tracks(src, enc_init(out), buf, 0),
{
    assert(mixed(src, buf, 0) =~= buf);
}

/// Compressor over borrowed input.
pub struct LzjbEncoder<'a> {
    src: &'a [u8],
}

/// A table of `LEMPEL_SIZE` zeroes.
fn fresh_table() -> (t: Vec<usize>)
    ensures
        t@ == Seq::new(LEMPEL_SIZE as nat, |i: int| 0usize),
{
    let mut t: Vec<usize> = Vec::new();
    while t.len() < LEMPEL_SIZE
        invariant
            t@.len() <= LEMPEL_SIZE,
            forall|i: int| 0 <= i < t@.len() ==> t@[i] == 0,
        decreases LEMPEL_SIZE - t@.len(),
    {
        t.push(0);
    }
    assert(t@ =~= Seq::new(LEMPEL_SIZE as nat, |i: int| 0usize));
    t
}

impl<'a> LzjbEncoder<'a> {
    /// The bytes that the encoder compresses.
    pub closed spec fn input(&self) -> Seq<u8> {
        self.src@
    }

    /// An encoder over the input `src`.
    pub fn new(src: &'a [u8]) -> (r: LzjbEncoder<'a>)
        ensures
            r.input() == src@,
    {
        LzjbEncoder { src }
    }

    /// Compresses the input into `dst`.
    ///
    /// Returns the number of bytes written to the front of `dst`. Where
    /// `dst` runs short of room for another group the encoder stops and
    /// returns the number of input bytes it has consumed instead.
    pub fn read(&mut self, dst: &mut [u8]) -> (r: usize)
        ensures
            final(self).input() == old(self).input(),
            final(dst)@ == encoded(old(self).input(), old(dst)@).out,
            encoded(old(self).input(), old(dst)@).stopped ==> r == encoded(old(self).input(), old(dst)@).si,
            !encoded(old(self).input(), old(dst)@).stopped ==> r == encoded(old(self).input(), old(dst)@).di,
            !encoded(old(self).input(), old(dst)@).stopped ==> r <= old(dst)@.len() && (r == 0
                <==> old(self).input().len() == 0),
            !encoded(old(self).input(), old(dst)@).stopped ==> forall|i: int|
                r <= i < old(dst)@.len() ==> final(dst)@[i] == old(dst)@[i],
    {
        let src = self.src;
        let len = src.len();
        let cap = dst.len();
        let ghost out0 = dst@;
        let mut si: usize = 0;
        let mut di: usize = 0;
        let mut map_pos: usize = 0;
        let mut mask: u16 = 256;
        let mut table = fresh_table();
        let ghost mut bit: int = 8;
        proof {
            lemma_encoder_frame(src@, out0);
        }
        while si < len
            invariant
                src@ == self.src@,
                self.src@ == old(self).src@,
                out0 == old(dst)@,
                len == src@.len(),
                dst@.len() == cap,
                si <= len,
                di <= cap,
                table@.len() == LEMPEL_SIZE,
                forall|h: int| 0 <= h < LEMPEL_SIZE ==> table@[h] <= si,
                0 <= bit <= 8,
                mask == pow2(bit),
                bit < 8 ==> map_pos < di && dst@[map_pos as int] < pow2(bit) && di + 2 * (8 - bit) < cap,
                encoded(src@, out0) == enc_run(
                    src@,
                    EncState {
                        si: si as int,
                        di: di as int,
                        map_pos: map_pos as int,
                        bit,
                        table: table@,
                        out: dst@,
                        stopped: false,
                    },
                ),
            decreases len - si,
        {
            let ghost cur = EncState {
                si: si as int,
                di: di as int,
                map_pos: map_pos as int,
                bit,
                table: table@,
                out: dst@,
                stopped: false,
            };
            if mask == 256 {
                if cap - di <= 1 + 2 * NBBY {
                    return si;
                }
                mask = 1;
                map_pos = di;
                dst[di] = 0;
                di += 1;
                proof {
                    bit = 0;
                }
            }
            let ghost open = enc_open(cur);
            assert(open == EncState {
                si: si as int,
                di: di as int,
                map_pos: map_pos as int,
                bit,
                table: table@,
                out: dst@,
                stopped: false,
            });
            if len - si < MATCH_MAX {
                dst[di] = src[si];
                di += 1;
                si += 1;
            } else {
                let a = src[si];
                let b = src[si + 1];
                let c = src[si + 2];
                let h0: u32 = a as u32 * 65536 + b as u32 * 256 + c as u32;
                let h1: u32 = h0 + h0 / 512;
                let h2: u32 = h1 + h1 / 32;
                let hp: usize = h2 as usize % LEMPEL_SIZE;
                assert(hp == hash3(a, b, c));
                let offset: usize = (si - table[hp]) % (OFFSET_MASK + 1);
                let cpy: usize = si - offset;
                table[hp] = si;
                if offset != 0 && a == src[cpy] && b == src[cpy + 1] && c == src[cpy + 2] {
                    let mut mlen: usize = MATCH_MIN;
                    while mlen < MATCH_MAX && src[si + mlen] == src[cpy + mlen]
                        invariant
                            len == src@.len(),
                            si + MATCH_MAX <= len,
                            cpy <= si,
                            MATCH_MIN <= mlen <= MATCH_MAX,
                            match_len(src@, si as int, cpy as int, MATCH_MIN as int) == match_len(
                                src@,
                                si as int,
                                cpy as int,
                                mlen as int,
                            ),
                        decreases MATCH_MAX - mlen,
                    {
                        mlen += 1;
                    }
                    let m = dst[map_pos];
                    dst[map_pos] = m + mask as u8;
                    dst[di] = ((mlen - MATCH_MIN) * 4 + offset / 256) as u8;
                    dst[di + 1] = (offset % 256) as u8;
                    di += 2;
                    si += mlen;
                } else {
                    dst[di] = a;
                    di += 1;
                    si += 1;
                }
            }
            mask = mask * 2;
            proof {
                bit = bit + 1;
                assert(enc_step(src@, cur) == EncState {
                    si: si as int,
                    di: di as int,
                    map_pos: map_pos as int,
                    bit,
                    table: table@,
                    out: dst@,
                    stopped: false,
                });
            }
        }
        di
    }
}

/// Copying a run within the buffer keeps its length.
proof fn lemma_copy_run_len(buf: Seq<u8>, di: int, offset: int, count: int)
    requires
        0 <= di,
        di + count <= buf.len(),
    ensures
        copy_run(buf, di, offset, count).len() == buf.len(),
    decreases count,
{
    if count > 0 {
        lemma_copy_run_len(buf.update(di, buf[di - offset]), di + 1, offset, count - 1);
    }
}

/// The decoder keeps the length of its buffer, and every item it decodes
/// before it comes to rest writes at least one byte.
pub proof fn lemma_dec_shape(s: Seq<u8>, buf: Seq<u8>, k: nat)
    ensures
        dec_run(s, buf, k).buf.len() == buf.len(),
        0 <= dec_run(s, buf, k).di,
        !dec_done(dec_run(s, buf, k)) ==> k <= dec_run(s, buf, k).di,
    decreases k,
{
    if k > 0 {
        lemma_dec_shape(s, buf, (k - 1) as nat);
        let st = dec_run(s, buf, (k - 1) as nat);
        if !dec_done(st) {
            let si = if st.bit == 8 { st.si + 1 } else { st.si };
            let mlen = s[si] as int / 4 + MATCH_MIN;
            let offset = (s[si] as int % 4) * 256 + s[si + 1] as int;
            let room = st.buf.len() - st.di;
            let count = if mlen < room { mlen } else { room };
            lemma_copy_run_len(st.buf, st.di, offset, count);
        }
    }
}

/// Whether the next item of the stream `s`, for the decoder `st`, is a
/// match item that the stream holds in full.
pub open spec fn next_is_match(s: Seq<u8>, st: DecState) -> bool {
    let map = if st.bit == 8 { s[st.si] } else { st.map };
    let si = if st.bit == 8 { st.si + 1 } else { st.si };
    let bit = if st.bit == 8 { 0 } else { st.bit };
    !dec_done(st) && si + 1 < s.len() && bit_set(map, bit)
}

/// Whether the stream `s` ends inside the next item of the decoder `st`:
/// before the control byte that is due, or before the last byte of the item.
pub open spec fn runs_out(s: Seq<u8>, st: DecState) -> bool {
    let map = if st.bit == 8 { s[st.si] } else { st.map };
    let si = if st.bit == 8 { st.si + 1 } else { st.si };
    let bit = if st.bit == 8 { 0 } else { st.bit };
    !dec_done(st) && ((st.bit == 8 && st.si >= s.len()) || (bit_set(map, bit) && si + 1 >= s.len())
        || (!bit_set(map, bit) && si >= s.len()))
}

/// Whether the next item of the stream `s` cannot be decoded by the
/// decoder `st`: the stream ends inside it, or it is a match item that
/// reaches back before the start of the output.
pub open spec fn corrupt_at(s: Seq<u8>, st: DecState) -> bool {
    runs_out(s, st) || (next_is_match(s, st) && next_distance(s, st) > st.di)
}

/// How far back the next item of the stream `s` reaches, where it is a match item.
pub open spec fn next_distance(s: Seq<u8>, st: DecState) -> int {
    let si = if st.bit == 8 { st.si + 1 } else { st.si };
    (s[si] as int % 4) * 256 + s[si + 1] as int
}

/// A match item that reaches back before the start of the output makes the
/// stream corrupt, wherever in the stream it stands: the decoder comes to
/// rest with what it had decoded before that item.
pub proof fn lemma_match_before_start(s: Seq<u8>, buf: Seq<u8>, k: nat)
    requires
        next_is_match(s, dec_run(s, buf, k)),
        next_distance(s, dec_run(s, buf, k)) > dec_run(s, buf, k).di,
    ensures
        decoded(s, buf).bad,
        decoded(s, buf).buf == dec_run(s, buf, k).buf,
{
    lemma_dec_shape(s, buf, k);
    assert(dec_run(s, buf, k + 1) == dec_step(s, dec_run(s, buf, k)));
    lemma_dec_rest(s, buf, k + 1, buf.len());
}

/// The first item that a corrupt stream fails on.
proof fn lemma_first_bad(s: Seq<u8>, buf: Seq<u8>, j: nat) -> (k: nat)
    requires
        dec_run(s, buf, j).bad,
    ensures
        k < j,
        !dec_run(s, buf, k).bad,
        dec_run(s, buf, k + 1).bad,
    decreases j,
{
    if dec_run(s, buf, (j - 1) as nat).bad {
        lemma_first_bad(s, buf, (j - 1) as nat)
    } else {
        (j - 1) as nat
    }
}

/// A stream is corrupt exactly where, decoding from the left, an item is
/// reached that cannot be decoded: one that the stream ends inside, or a
/// match item that reaches back before the start of the output.
pub proof fn lemma_corrupt_iff(s: Seq<u8>, buf: Seq<u8>)
    ensures
        decoded(s, buf).bad <==> exists|k: nat|
            k < buf.len() && corrupt_at(s, #[trigger] dec_run(s, buf, k)),
{
    if decoded(s, buf).bad {
        let k = lemma_first_bad(s, buf, buf.len());
        assert(dec_run(s, buf, k + 1) == dec_step(s, dec_run(s, buf, k)));
        assert(corrupt_at(s, dec_run(s, buf, k)));
    }
    if exists|k: nat| k < buf.len() && corrupt_at(s, #[trigger] dec_run(s, buf, k)) {
        let k = choose|k: nat| k < buf.len() && corrupt_at(s, #[trigger] dec_run(s, buf, k));
        assert(dec_run(s, buf, k + 1) == dec_step(s, dec_run(s, buf, k)));
        lemma_dec_rest(s, buf, k + 1, buf.len());
    }
}

/// A stream whose first item is a match that reaches back at all is
/// corrupt: nothing is decoded yet that the match could copy.
pub proof fn lemma_first_match_corrupt(s: Seq<u8>, buf: Seq<u8>)
    requires
        buf.len() > 0,
        s.len() >= 3,
        bit_set(s[0], 0),
        (s[1] as int % 4) * 256 + s[2] as int > 0,
    ensures
        decoded(s, buf).bad,
        decoded(s, buf).buf == buf,
{
    assert(dec_run(s, buf, 0) == dec_init(buf));
    assert(dec_run(s, buf, 1) == dec_step(s, dec_init(buf)));
    lemma_dec_rest(s, buf, 1, buf.len());
}

/// Decompressor over a borrowed LZJB stream.
pub struct LzjbDecoder<'a> {
    src: &'a [u8],
}

/// The stream handed to a decoder is corrupt.
#[derive(Debug)]
pub struct DecoderError;

impl DecoderError {
    /// What the error means, in words.
    pub fn description(&self) -> (r: &'static str)
        ensures
            r@ == "Failed to decode. The data is likely corrupted."@,
    {
        "Failed to decode. The data is likely corrupted."
    }
}

impl<'a> LzjbDecoder<'a> {
    /// The stream that the decoder reads.
    pub closed spec fn input(&self) -> Seq<u8> {
        self.src@
    }

    /// A decoder over the stream `src`.
    pub fn new(src: &'a [u8]) -> (r: LzjbDecoder<'a>)
        ensures
            r.input() == src@,
    {
        LzjbDecoder { src }
    }

    /// Decodes the stream into `dst` until `dst` is full.
    ///
    /// Returns the length of `dst`, or an error where the stream is corrupt:
    /// where it ends inside an item, or a match reaches back before the
    /// start of `dst`. Either way `dst` holds what was decoded up to there.
    pub fn read(&mut self, dst: &mut [u8]) -> (r: Result<usize, DecoderError>)
        ensures
            final(self).input() == old(self).input(),
            final(dst)@ == decoded(old(self).input(), old(dst)@).buf,
            r is Err <==> decoded(old(self).input(), old(dst)@).bad,
            r is Ok ==> r->Ok_0 == old(dst)@.len(),
    {
        let src = self.src;
        let n = dst.len();
        let ghost buf0 = dst@;
        let mut si: usize = 0;
        let mut di: usize = 0;
        let mut map: u8 = 0;
        let mut mask: u16 = 256;
        let ghost mut bit: int = 8;
        let ghost mut k: nat = 0;
        while di < n
            invariant
                src@ == self.src@,
                self.src@ == old(self).src@,
                buf0 == old(dst)@,
                buf0.len() == n,
                dst@.len() == n,
                di <= n,
                si <= src@.len(),
                0 <= bit <= 8,
                mask == pow2(bit),
                k <= di,
                dec_run(src@, buf0, k) == (DecState { si: si as int, di: di as int, map, bit, buf: dst@, bad: false }),
            decreases n - di,
        {
            let ghost prev = dec_run(src@, buf0, k);
            proof {
                assert(dec_run(src@, buf0, k + 1) == dec_step(src@, prev));
            }
            if mask == 256 {
                if si >= src.len() {
                    proof {
                        lemma_dec_rest(src@, buf0, k + 1, n as nat);
                    }
                    return Err(DecoderError);
                }
                mask = 1;
                map = src[si];
                si += 1;
                proof {
                    bit = 0;
                }
            }
            if (map as u16 / mask) % 2 == 1 {
                if src.len() - si < 2 {
                    proof {
                        lemma_dec_rest(src@, buf0, k + 1, n as nat);
                    }
                    return Err(DecoderError);
                }
                let b0 = src[si];
                let b1 = src[si + 1];
                let mlen: usize = (b0 / 4) as usize + MATCH_MIN;
                let offset: usize = (b0 % 4) as usize * 256 + b1 as usize;
                if di < offset {
                    proof {
                        lemma_dec_rest(src@, buf0, k + 1, n as nat);
                    }
                    return Err(DecoderError);
                }
                let count: usize = if mlen < n - di { mlen } else { n - di };
                let ghost start = dst@;
                let ghost d0 = di as int;
                let mut j: usize = 0;
                while j < count
                    invariant
                        dst@.len() == n,
                        j <= count,
                        di == d0 + j,
                        d0 + count <= n,
                        offset <= d0,
                        copy_run(start, d0, offset as int, count as int) == copy_run(dst@, di as int, offset as int, count - j),
                    decreases count - j,
                {
                    let b = dst[di - offset];
                    dst[di] = b;
                    di += 1;
                    j += 1;
                }
                si += 2;
            } else {
                if si >= src.len() {
                    proof {
                        lemma_dec_rest(src@, buf0, k + 1, n as nat);
                    }
                    return Err(DecoderError);
                }
                dst[di] = src[si];
                di += 1;
                si += 1;
            }
            mask = mask * 2;
            proof {
                bit = bit + 1;
                k = k + 1;
            }
        }
        proof {
            lemma_dec_rest(src@, buf0, k, n as nat);
        }
        Ok(n)
    }
}

/// A buffer of `n` zero bytes.
pub open spec fn zeroes(n: nat) -> Seq<u8> {
    Seq::new(n, |i: int| 0u8)
}

/// The LZJB stream of the input `src`.
pub open spec fn encoding(src: Seq<u8>) -> Seq<u8> {
    let rest = encoded(src, zeroes(enough_room(src.len())));
    rest.out.take(rest.di)
}

/// The `n` bytes that the stream `s` decodes to, where it is not corrupt.
pub open spec fn decoding(s: Seq<u8>, n: nat) -> Option<Seq<u8>> {
    let rest = decoded(s, zeroes(n));
    if rest.bad {
        None
    } else {
        Some(rest.buf)
    }
}

/// Decoding the stream of an input gives the input back, whatever the input.
pub proof fn lemma_decode_encode(src: Seq<u8>)
    requires
        src.len() <= usize::MAX,
    ensures
        decoding(encoding(src), src.len()) == Some(src),
{
    let out = zeroes(enough_room(src.len()));
    lemma_enough_room(src, out);
    lemma_round_trip(src, out, zeroes(src.len()));
}

/// A vector of `n` zero bytes.
fn zeroed(n: usize) -> (r: Vec<u8>)
    ensures
        r@ == zeroes(n as nat),
{
    let r = vec![0u8; n];
    assert(r@ =~= zeroes(n as nat));
    r
}

/// Compresses `src` into a stream of its own.
pub fn encode(src: &[u8]) -> (r: Vec<u8>)
    requires
        enough_room(src@.len()) <= usize::MAX,
    ensures
        r@ == encoding(src@),
{
    let len = src.len();
    let mut dst = zeroed(17 + len + (len + 7) / 8);
    let mut encoder = LzjbEncoder::new(src);
    proof {
        lemma_enough_room(src@, dst@);
    }
    let written = encoder.read(dst.as_mut_slice());
    dst.truncate(written);
    dst
}

/// Decodes the stream `src` into `capacity` bytes.
///
/// Fails with `DecoderError` where the stream is corrupt: where it ends
/// before `capacity` bytes are decoded, or a match reaches back before the
/// start of the output.
pub fn decode(src: &[u8], capacity: usize) -> (r: Result<Vec<u8>, DecoderError>)
    ensures
        match r {
            Ok(bytes) => decoding(src@, capacity as nat) == Some(bytes@),
            Err(_) => decoding(src@, capacity as nat) is None,
        },
{
    let mut dst = zeroed(capacity);
    let mut decoder = LzjbDecoder::new(src);
    match decoder.read(dst.as_mut_slice()) {
        Ok(_) => Ok(dst),
        Err(e) => Err(e),
    }
}

} // verus!
