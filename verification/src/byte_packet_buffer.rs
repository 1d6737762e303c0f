//! The byte cursor over a fixed 512-byte message buffer.
//!
//! All reads and writes are big-endian and move the position; absolute
//! writes (`set`, `set_u16`) exist for backpatching reserved length
//! fields. Domain names are read with pointer decompression under a
//! jump limit, and written as plain length-prefixed labels.

use vstd::prelude::*;

use crate::errors::BytePacketBufferError;

verus! {

/// The conventional maximum size of a UDP DNS message.
pub const BUFFER_SIZE: usize = 512;

/// How many compression-pointer jumps one name may follow.
pub const MAX_JUMPS: usize = 5;

pub type BytePacketBufferResult<T> = Result<T, BytePacketBufferError>;

/// A fixed-capacity byte array with a read/write position.
pub struct BytePacketBuffer {
    pub buff: Vec<u8>,
    pub pos: usize,
}

/// The byte of the ASCII dot that separates labels in a name's text.
pub const DOT: u8 = 46;

/// The two big-endian bytes of a 16-bit integer.
pub open spec fn u16_bytes(v: u16) -> Seq<u8> {
    seq![(v / 256) as u8, (v % 256) as u8]
}

/// The four big-endian bytes of a 32-bit integer.
pub open spec fn u32_bytes(v: u32) -> Seq<u8> {
    seq![
        (v / 0x1000000) as u8,
        ((v / 0x10000) % 256) as u8,
        ((v / 256) % 256) as u8,
        (v % 256) as u8,
    ]
}

/// The 16-bit integer two big-endian bytes carry.
pub open spec fn be16(b0: u8, b1: u8) -> u16 {
    (b0 * 256 + b1) as u16
}

/// The 32-bit integer four big-endian bytes carry.
pub open spec fn be32(b0: u8, b1: u8, b2: u8, b3: u8) -> u32 {
    (b0 * 0x1000000 + b1 * 0x10000 + b2 * 256 + b3) as u32
}

/// The ASCII-lowercased image of one byte.
pub open spec fn lower(b: u8) -> u8 {
    if 65 <= b && b <= 90 {
        (b + 32) as u8
    } else {
        b
    }
}

/// The outcome of decompressing a domain name out of a buffer.
pub enum NameParse {
    /// The name's text, labels joined with `.`, lowercased.
    Parsed { name: Seq<u8> },
    /// More pointer jumps than the limit allows.
    TooManyJumps,
    /// A length or pointer byte would lie at or past the capacity.
    OutOfRange,
    /// A label would run past the capacity.
    BadRange,
}

/// Decompresses the name that starts at `pos`, following at most
/// `jumps` more compression pointers. Mirrors the wire format: a byte
/// with both top bits set is the high half of a 14-bit pointer, a zero
/// byte ends the name, and any other byte prefixes a label of that
/// length.
pub open spec fn parse_name_at(buf: Seq<u8>, pos: int, jumps: nat) -> NameParse
    decreases jumps, (if 0 <= pos <= BUFFER_SIZE { BUFFER_SIZE - pos } else { 0int }),
{
    if pos < 0 || pos >= BUFFER_SIZE {
        NameParse::OutOfRange
    } else {
        let len = buf[pos];
        if len >= 0xC0 {
            if pos + 1 >= BUFFER_SIZE {
                NameParse::OutOfRange
            } else if jumps == 0 {
                NameParse::TooManyJumps
            } else {
                parse_name_at(buf, (len - 0xC0) * 256 + buf[pos + 1], (jumps - 1) as nat)
            }
        } else if len == 0 {
            NameParse::Parsed { name: Seq::empty() }
        } else if pos + 1 + len > BUFFER_SIZE {
            NameParse::BadRange
        } else {
            let label = buf.subrange(pos + 1, pos + 1 + len).map_values(|b: u8| lower(b));
            match parse_name_at(buf, pos + 1 + len, jumps) {
                NameParse::Parsed { name } => NameParse::Parsed {
                    name: if name.len() == 0 {
                        label
                    } else {
                        label + seq![DOT] + name
                    },
                },
                other => other,
            }
        }
    }
}

/// Where the cursor stands after reading the name at `pos`: just past
/// the terminating zero byte, or just past the first pointer followed.
pub open spec fn name_end_at(buf: Seq<u8>, pos: int) -> int
    decreases (if 0 <= pos <= BUFFER_SIZE { BUFFER_SIZE - pos } else { 0int }),
{
    if pos < 0 || pos >= BUFFER_SIZE {
        pos
    } else {
        let len = buf[pos];
        if len >= 0xC0 {
            pos + 2
        } else if len == 0 {
            pos + 1
        } else {
            name_end_at(buf, pos + 1 + len)
        }
    }
}

/// Joins two pieces of a name's text with a dot, unless one is empty.
pub open spec fn name_join(acc: Seq<u8>, rest: Seq<u8>) -> Seq<u8> {
    if acc.len() == 0 {
        rest
    } else if rest.len() == 0 {
        acc
    } else {
        acc + seq![DOT] + rest
    }
}

/// Prepends already-collected labels to the outcome of the rest of a
/// name.
pub open spec fn name_join_parse(acc: Seq<u8>, p: NameParse) -> NameParse {
    match p {
        NameParse::Parsed { name } => NameParse::Parsed { name: name_join(acc, name) },
        other => other,
    }
}

/// How many bytes the first label of a name's text spans: the bytes
/// before the first dot.
pub open spec fn first_label_len(name: Seq<u8>) -> nat
    decreases name.len(),
{
    if name.len() == 0 || name[0] == DOT {
        0
    } else {
        (1 + first_label_len(name.skip(1))) as nat
    }
}

/// Whether every label of a name's text fits the 63-byte limit.
pub open spec fn name_ok(name: Seq<u8>) -> bool
    decreases name.len(),
{
    let l = first_label_len(name) as int;
    &&& l <= 63
    &&& (l >= name.len() || name_ok(name.skip(l + 1)))
}

/// The length of the first label over the 63-byte limit.
pub open spec fn first_long_label_len(name: Seq<u8>) -> nat
    decreases name.len(),
{
    let l = first_label_len(name) as int;
    if l > 63 {
        l as nat
    } else if l >= name.len() {
        0
    } else {
        first_long_label_len(name.skip(l + 1))
    }
}

/// The wire encoding of a name's text: each non-empty label prefixed
/// with its length, closed with a zero byte. No pointer is ever
/// emitted.
pub open spec fn encoded_name(name: Seq<u8>) -> Seq<u8>
    decreases name.len(),
{
    let l = first_label_len(name) as int;
    let enc = if l == 0 {
        Seq::<u8>::empty()
    } else {
        seq![l as u8] + name.take(l)
    };
    if l >= name.len() {
        enc + seq![0u8]
    } else {
        enc + encoded_name(name.skip(l + 1))
    }
}

/// An encoded name holds at least its terminating zero byte.
pub proof fn lemma_encoded_name_nonempty(s: Seq<u8>)
    ensures
        encoded_name(s).len() >= 1,
    decreases s.len(),
{
    let l = first_label_len(s) as int;
    if l < s.len() {
        lemma_encoded_name_nonempty(s.skip(l + 1));
    }
}

/// A scan that saw no dot up to `k`, and a dot or the end at `k`,
/// found the first label.
pub proof fn lemma_label_scan(s: Seq<u8>, k: int)
    requires
        0 <= k <= s.len(),
        forall|m: int| 0 <= m < k ==> s[m] != DOT,
        k == s.len() || s[k] == DOT,
    ensures
        first_label_len(s) == k,
    decreases k,
{
    if k > 0 {
        assert(s[0] != DOT);
        let t = s.skip(1);
        assert forall|m: int| 0 <= m < k - 1 implies t[m] != DOT by {
            assert(t[m] == s[m + 1]);
        }
        if k - 1 < t.len() {
            assert(t[k - 1] == s[k]);
        }
        lemma_label_scan(t, k - 1);
    }
}

/// The cursor error that reports a failed name decompression.
pub open spec fn name_parse_err(p: NameParse) -> BytePacketBufferError {
    match p {
        NameParse::TooManyJumps => BytePacketBufferError::MaxJumpsExceeded { limit: MAX_JUMPS as usize },
        NameParse::OutOfRange => BytePacketBufferError::PosOutOfRange,
        NameParse::BadRange => BytePacketBufferError::RangeOutOfTheBuffer,
        NameParse::Parsed { .. } => BytePacketBufferError::PosOutOfRange,
    }
}

/// Whether a name's text has no empty label: no leading, trailing or
/// doubled dot. Only such a text survives encoding unchanged.
pub open spec fn name_labels_nonempty(name: Seq<u8>) -> bool
    decreases name.len(),
{
    if name.len() == 0 {
        true
    } else {
        let l = first_label_len(name) as int;
        &&& l > 0
        &&& (l == name.len() || (l + 1 < name.len() && name_labels_nonempty(name.skip(l + 1))))
    }
}

/// A name's text as the decoder itself would produce it: labels
/// non-empty and within the limit, bytes already lowercase.
pub open spec fn name_text_canonical(name: Seq<u8>) -> bool {
    &&& name_ok(name)
    &&& name_labels_nonempty(name)
    &&& forall|i: int| 0 <= i < name.len() ==> lower(#[trigger] name[i]) == name[i]
}

/// The byte just past a first label that does not close the text is a
/// dot.
pub proof fn lemma_first_label_ends_at_dot(name: Seq<u8>)
    requires
        first_label_len(name) < name.len(),
    ensures
        name[first_label_len(name) as int] == DOT,
    decreases name.len(),
{
    if name.len() > 0 && name[0] != DOT {
        lemma_first_label_ends_at_dot(name.skip(1));
    }
}

/// Round-trip law, name level: a name whose labels are non-empty, at
/// most 63 bytes and already lowercase reads back from its own
/// encoding exactly, wherever that encoding stands in the buffer, and
/// the cursor ends right behind it.
pub proof fn lemma_name_roundtrip(buf: Seq<u8>, pos: int, name: Seq<u8>)
    requires
        buf.len() == BUFFER_SIZE,
        0 <= pos,
        pos + encoded_name(name).len() <= BUFFER_SIZE,
        name_ok(name),
        name_labels_nonempty(name),
        forall|i: int| 0 <= i < name.len() ==> lower(#[trigger] name[i]) == name[i],
        buf.subrange(pos, pos + encoded_name(name).len()) == encoded_name(name),
    ensures
        parse_name_at(buf, pos, MAX_JUMPS as nat) == (NameParse::Parsed { name }),
        name_end_at(buf, pos) == pos + encoded_name(name).len(),
    decreases name.len(),
{
    let e = encoded_name(name);
    let l = first_label_len(name) as int;
    assert forall|k: int| 0 <= k < e.len() implies buf[pos + k] == e[k] by {
        assert(buf.subrange(pos, pos + e.len())[k] == buf[pos + k]);
    }

    if name.len() == 0 {
        assert(e =~= seq![0u8]);
        assert(buf[pos + 0] == e[0]);
        assert(buf[pos] == 0);
        assert(name =~= Seq::<u8>::empty());
        assert(parse_name_at(buf, pos, MAX_JUMPS as nat) == (NameParse::Parsed { name }));
    } else if l == name.len() {
        assert(e =~= seq![l as u8] + name + seq![0u8]);
        assert(buf[pos + 0] == e[0]);
        assert(buf[pos] == l as u8);
        assert(buf.subrange(pos + 1, pos + 1 + l) =~= name) by {
            assert forall|i: int|
                0 <= i < l implies buf.subrange(pos + 1, pos + 1 + l)[i] == name[i] by {
                assert(buf[pos + (1 + i)] == e[1 + i]);
                assert(e[1 + i] == name[i]);
            }
        }
        assert(buf.subrange(pos + 1, pos + 1 + l).map_values(|b: u8| lower(b)) =~= name);
        assert(buf[pos + (1 + l)] == e[1 + l]);
        assert(buf[pos + 1 + l] == 0);
        assert(parse_name_at(buf, pos + 1 + l, MAX_JUMPS as nat) == (NameParse::Parsed {
            name: Seq::<u8>::empty(),
        }));
        assert(name_end_at(buf, pos + 1 + l) == pos + 1 + l + 1);
        assert(parse_name_at(buf, pos, MAX_JUMPS as nat) == (NameParse::Parsed { name }));
        assert(name_end_at(buf, pos) == pos + e.len());
    } else {
        let rest = name.skip(l + 1);
        let er = encoded_name(rest);
        assert(e == (seq![l as u8] + name.take(l)) + er);
        assert(e.len() == 1 + l + er.len());
        assert(buf[pos + 0] == e[0]);
        assert(buf[pos] == l as u8);
        assert(buf.subrange(pos + 1, pos + 1 + l) =~= name.take(l)) by {
            assert forall|i: int|
                0 <= i < l implies buf.subrange(pos + 1, pos + 1 + l)[i] == name[i] by {
                assert(buf[pos + (1 + i)] == e[1 + i]);
                assert(e[1 + i] == name[i]);
            }
        }
        assert forall|i: int|
            0 <= i < name.take(l).len() implies lower(#[trigger] name.take(l)[i])
            == name.take(l)[i] by {
            assert(name.take(l)[i] == name[i]);
        }
        assert(buf.subrange(pos + 1, pos + 1 + l).map_values(|b: u8| lower(b)) =~= name.take(l));

        assert forall|i: int| 0 <= i < rest.len() implies lower(#[trigger] rest[i]) == rest[i] by {
            assert(rest[i] == name[l + 1 + i]);
        }
        assert(buf.subrange(pos + 1 + l, pos + 1 + l + er.len()) =~= er) by {
            assert forall|m: int|
                0 <= m < er.len() implies buf.subrange(pos + 1 + l, pos + 1 + l + er.len())[m]
                == er[m] by {
                assert(buf[pos + (1 + l + m)] == e[1 + l + m]);
                assert(e[1 + l + m] == er[m]);
            }
        }
        lemma_encoded_name_nonempty(rest);
        lemma_name_roundtrip(buf, pos + 1 + l, rest);

        lemma_first_label_ends_at_dot(name);
        assert(name =~= name.take(l) + seq![DOT] + rest);
        assert(rest.len() > 0);
        assert(parse_name_at(buf, pos, MAX_JUMPS as nat) == (NameParse::Parsed { name }));
        assert(name_end_at(buf, pos) == pos + e.len());
    }
}

/// A parse that succeeds under a jump budget is unchanged by a
/// larger one.
pub proof fn lemma_parse_name_more_jumps(buf: Seq<u8>, pos: int, j1: nat, j2: nat)
    requires
        j1 <= j2,
        parse_name_at(buf, pos, j1) matches NameParse::Parsed { .. },
    ensures
        parse_name_at(buf, pos, j2) == parse_name_at(buf, pos, j1),
    decreases j1, (if 0 <= pos <= BUFFER_SIZE { BUFFER_SIZE - pos } else { 0int }),
{
    if 0 <= pos < BUFFER_SIZE {
        let len = buf[pos];
        if len >= 0xC0 {
            if pos + 1 < BUFFER_SIZE && j1 > 0 {
                lemma_parse_name_more_jumps(
                    buf,
                    (len - 0xC0) * 256 + buf[pos + 1],
                    (j1 - 1) as nat,
                    (j2 - 1) as nat,
                );
            }
        } else if len != 0 && pos + 1 + len <= BUFFER_SIZE {
            if parse_name_at(buf, pos + 1 + len, j1) matches NameParse::Parsed { .. } {
                lemma_parse_name_more_jumps(buf, pos + 1 + len, j1, j2);
            }
        }
    }
}

/// Decompression law: a name that is entirely a pointer reads exactly
/// the labels of the name stored at the pointed-to offset, whenever
/// that name itself parses without using the whole jump budget.
pub proof fn lemma_pointer_reads_target(buf: Seq<u8>, pos: int, target: int)
    requires
        buf.len() == BUFFER_SIZE,
        0 <= pos,
        pos + 1 < BUFFER_SIZE,
        buf[pos] >= 0xC0,
        target == (buf[pos] - 0xC0) * 256 + buf[pos + 1],
        parse_name_at(buf, target, (MAX_JUMPS - 1) as nat) matches NameParse::Parsed { .. },
    ensures
        parse_name_at(buf, pos, MAX_JUMPS as nat) == parse_name_at(
            buf,
            target,
            MAX_JUMPS as nat,
        ),
        name_end_at(buf, pos) == pos + 2,
{
    lemma_parse_name_more_jumps(buf, target, (MAX_JUMPS - 1) as nat, MAX_JUMPS as nat);
}

/// Decompression law: a chain of pointers one deeper than the jump
/// budget exhausts it, whatever the chain points through.
pub proof fn lemma_pointer_chain_exhausts(buf: Seq<u8>, ps: Seq<int>, j: nat)
    requires
        buf.len() == BUFFER_SIZE,
        ps.len() == j + 1,
        forall|k: int| 0 <= k < ps.len() ==> 0 <= #[trigger] ps[k] && ps[k] + 1 < BUFFER_SIZE,
        forall|k: int| 0 <= k < ps.len() ==> buf[#[trigger] ps[k]] >= 0xC0,
        forall|k: int|
            0 <= k < ps.len() - 1 ==> (buf[#[trigger] ps[k]] - 0xC0) * 256 + buf[ps[k] + 1]
                == ps[k + 1],
    ensures
        parse_name_at(buf, ps[0], j) == NameParse::TooManyJumps,
    decreases j,
{
    if j > 0 {
        let rest = ps.skip(1);
        assert forall|k: int| 0 <= k < rest.len() implies 0 <= #[trigger] rest[k] && rest[k] + 1
            < BUFFER_SIZE && buf[rest[k]] >= 0xC0 by {
            assert(rest[k] == ps[k + 1]);
        }
        assert forall|k: int|
            0 <= k < rest.len() - 1 implies (buf[#[trigger] rest[k]] - 0xC0) * 256 + buf[rest[k]
            + 1] == rest[k + 1] by {
            assert(rest[k] == ps[k + 1] && rest[k + 1] == ps[k + 2]);
        }
        lemma_pointer_chain_exhausts(buf, rest, (j - 1) as nat);
        assert(rest[0] == ps[1]);
    }
}

impl BytePacketBuffer {
    /// The backing store always spans the full capacity.
    pub open spec fn wf(&self) -> bool {
        self.buff@.len() == BUFFER_SIZE
    }

    /// A fresh, zeroed buffer with the position at the start.
    pub fn new() -> (r: Self)
        ensures
            r.wf(),
            r.pos == 0,
            r.buff@ == Seq::new(BUFFER_SIZE as nat, |i: int| 0u8),
    {
        let mut buff: Vec<u8> = Vec::new();
        let mut i: usize = 0;
        while i < BUFFER_SIZE
            invariant
                i <= BUFFER_SIZE,
                buff@ =~= Seq::new(i as nat, |j: int| 0u8),
            decreases BUFFER_SIZE - i,
        {
            buff.push(0);
            i = i + 1;
        }
        proof {
            assert(buff@ =~= Seq::new(BUFFER_SIZE as nat, |i: int| 0u8));
        }
        BytePacketBuffer { buff, pos: 0 }
    }

    /// The current read/write position.
    pub fn pos(&self) -> (r: usize)
        ensures
            r == self.pos,
    {
        self.pos
    }

    /// Moves the position forward by `steps` without touching the bytes.
    pub fn step(&mut self, steps: usize)
        requires
            old(self).pos + steps <= usize::MAX,
        ensures
            final(self).pos == old(self).pos + steps,
            final(self).buff == old(self).buff,
    {
        self.pos = self.pos + steps;
    }

    /// Moves the position to `pos` without touching the bytes.
    pub fn seek(&mut self, pos: usize)
        ensures
            final(self).pos == pos,
            final(self).buff == old(self).buff,
    {
        self.pos = pos;
    }

    /// The byte at the absolute position `pos`, without moving.
    pub fn get(&self, pos: usize) -> (r: BytePacketBufferResult<u8>)
        requires
            self.wf(),
        ensures
            pos < BUFFER_SIZE ==> r == Ok::<u8, BytePacketBufferError>(self.buff@[pos as int]),
            pos >= BUFFER_SIZE ==> r == Err::<u8, BytePacketBufferError>(
                BytePacketBufferError::PosOutOfRange,
            ),
    {
        if pos >= BUFFER_SIZE {
            return Err(BytePacketBufferError::PosOutOfRange);
        }
        Ok(self.buff[pos])
    }

    /// Reads one byte at the position and advances past it.
    pub fn read(&mut self) -> (r: BytePacketBufferResult<u8>)
        requires
            old(self).wf(),
        ensures
            final(self).wf(),
            final(self).buff == old(self).buff,
            old(self).pos < BUFFER_SIZE ==> r == Ok::<u8, BytePacketBufferError>(
                old(self).buff@[old(self).pos as int],
            ) && final(self).pos == old(self).pos + 1,
            old(self).pos >= BUFFER_SIZE ==> r == Err::<u8, BytePacketBufferError>(
                BytePacketBufferError::PosOutOfRange,
            ) && final(self).pos == old(self).pos,
    {
        let res = self.get(self.pos)?;
        self.step(1);
        Ok(res)
    }

    /// A copy of `len` bytes starting at `start`, without moving.
    pub fn get_range(&self, start: usize, len: usize) -> (r: BytePacketBufferResult<Vec<u8>>)
        requires
            self.wf(),
            start + len <= usize::MAX,
        ensures
            start + len <= BUFFER_SIZE ==> (r matches Ok(v) && v@ == self.buff@.subrange(
                start as int,
                start + len,
            )),
            start + len > BUFFER_SIZE ==> r == Err::<Vec<u8>, BytePacketBufferError>(
                BytePacketBufferError::RangeOutOfTheBuffer,
            ),
    {
        if start + len > BUFFER_SIZE {
            return Err(BytePacketBufferError::RangeOutOfTheBuffer);
        }
        let mut v: Vec<u8> = Vec::new();
        let mut i: usize = 0;
        while i < len
            invariant
                self.wf(),
                i <= len,
                start + len <= BUFFER_SIZE,
                v@ =~= self.buff@.subrange(start as int, start + i),
            decreases len - i,
        {
            v.push(self.buff[start + i]);
            i = i + 1;
        }
        proof {
            assert(v@ =~= self.buff@.subrange(start as int, start + len));
        }
        Ok(v)
    }

    /// Reads a big-endian 16-bit integer.
    pub fn read_u16(&mut self) -> (r: BytePacketBufferResult<u16>)
        requires
            old(self).wf(),
        ensures
            final(self).wf(),
            final(self).buff == old(self).buff,
            old(self).pos + 2 <= BUFFER_SIZE ==> r == Ok::<u16, BytePacketBufferError>(
                (old(self).buff@[old(self).pos as int] * 256 + old(self).buff@[old(self).pos + 1]) as u16,
            ) && final(self).pos == old(self).pos + 2,
            old(self).pos + 2 > BUFFER_SIZE ==> r == Err::<u16, BytePacketBufferError>(
                BytePacketBufferError::PosOutOfRange,
            ) && final(self).pos == (if old(self).pos < BUFFER_SIZE {
                (old(self).pos + 1) as usize
            } else {
                old(self).pos
            }),
    {
        let hi = self.read()?;
        let lo = self.read()?;
        Ok((hi as u16) * 256 + (lo as u16))
    }

    /// Reads a big-endian 32-bit integer.
    pub fn read_u32(&mut self) -> (r: BytePacketBufferResult<u32>)
        requires
            old(self).wf(),
        ensures
            final(self).wf(),
            final(self).buff == old(self).buff,
            old(self).pos + 4 <= BUFFER_SIZE ==> r == Ok::<u32, BytePacketBufferError>(
                (old(self).buff@[old(self).pos as int] * 0x1000000
                    + old(self).buff@[old(self).pos + 1] * 0x10000
                    + old(self).buff@[old(self).pos + 2] * 256
                    + old(self).buff@[old(self).pos + 3]) as u32,
            ) && final(self).pos == old(self).pos + 4,
            old(self).pos + 4 > BUFFER_SIZE ==> r == Err::<u32, BytePacketBufferError>(
                BytePacketBufferError::PosOutOfRange,
            ),
    {
        let hi = self.read_u16()?;
        let lo = self.read_u16()?;
        Ok((hi as u32) * 0x10000 + (lo as u32))
    }

    /// Writes one byte at the position and advances past it.
    pub fn write_u8(&mut self, value: u8) -> (r: BytePacketBufferResult<()>)
        requires
            old(self).wf(),
        ensures
            final(self).wf(),
            old(self).pos < BUFFER_SIZE ==> r == Ok::<(), BytePacketBufferError>(())
                && final(self).buff@ == old(self).buff@.update(old(self).pos as int, value)
                && final(self).pos == old(self).pos + 1,
            old(self).pos >= BUFFER_SIZE ==> r == Err::<(), BytePacketBufferError>(
                BytePacketBufferError::PosOutOfRange,
            ) && *final(self) == *old(self),
    {
        if self.pos >= BUFFER_SIZE {
            return Err(BytePacketBufferError::PosOutOfRange);
        }
        self.buff.set(self.pos, value);
        self.pos = self.pos + 1;
        Ok(())
    }

    /// Writes a big-endian 16-bit integer.
    pub fn write_u16(&mut self, value: u16) -> (r: BytePacketBufferResult<()>)
        requires
            old(self).wf(),
        ensures
            final(self).wf(),
            final(self).pos >= old(self).pos,
            old(self).pos + 2 <= BUFFER_SIZE ==> r == Ok::<(), BytePacketBufferError>(())
                && final(self).buff@ == old(self).buff@.update(
                    old(self).pos as int,
                    (value / 256) as u8,
                ).update(old(self).pos + 1, (value % 256) as u8)
                && final(self).pos == old(self).pos + 2,
            old(self).pos + 2 > BUFFER_SIZE ==> r == Err::<(), BytePacketBufferError>(
                BytePacketBufferError::PosOutOfRange,
            ),
    {
        self.write_u8((value / 256) as u8)?;
        self.write_u8((value % 256) as u8)?;
        Ok(())
    }

    /// Writes a big-endian 32-bit integer.
    pub fn write_u32(&mut self, value: u32) -> (r: BytePacketBufferResult<()>)
        requires
            old(self).wf(),
        ensures
            final(self).wf(),
            final(self).pos >= old(self).pos,
            old(self).pos + 4 <= BUFFER_SIZE ==> r == Ok::<(), BytePacketBufferError>(())
                && final(self).buff@ == old(self).buff@.update(
                    old(self).pos as int,
                    (value / 0x1000000) as u8,
                ).update(old(self).pos + 1, ((value / 0x10000) % 256) as u8).update(
                    old(self).pos + 2,
                    ((value / 256) % 256) as u8,
                ).update(old(self).pos + 3, (value % 256) as u8)
                && final(self).pos == old(self).pos + 4,
            old(self).pos + 4 > BUFFER_SIZE ==> r == Err::<(), BytePacketBufferError>(
                BytePacketBufferError::PosOutOfRange,
            ),
    {
        let hi = (value / 0x10000) as u16;
        let lo = (value % 0x10000) as u16;
        self.write_u16(hi)?;
        self.write_u16(lo)?;
        proof {
            assert((value / 0x10000) / 256 == value / 0x1000000) by (nonlinear_arith);
            assert((value % 0x10000) / 256 == (value / 256) % 256) by (nonlinear_arith);
            assert((value % 0x10000) % 256 == value % 256) by (nonlinear_arith);
        }
        Ok(())
    }

    /// Overwrites the byte at the absolute position `pos` without moving.
    pub fn set(&mut self, pos: usize, val: u8)
        requires
            old(self).wf(),
            pos < BUFFER_SIZE,
        ensures
            final(self).wf(),
            final(self).buff@ == old(self).buff@.update(pos as int, val),
            final(self).pos == old(self).pos,
    {
        self.buff.set(pos, val);
    }

    /// Reads the domain name at the position, decompressing pointers,
    /// and appends its lowercased text to `outstr`. If no pointer was
    /// followed the position ends just past the terminating zero byte;
    /// otherwise it ends just past the first pointer.
    pub fn read_qname(&mut self, outstr: &mut Vec<u8>) -> (r: BytePacketBufferResult<()>)
        requires
            old(self).wf(),
        ensures
            final(self).wf(),
            final(self).buff@ == old(self).buff@,
            (parse_name_at(old(self).buff@, old(self).pos as int, MAX_JUMPS as nat) matches
                NameParse::Parsed { name } ==> r == Ok::<(), BytePacketBufferError>(())
                && final(outstr)@ == old(outstr)@ + name
                && final(self).pos == name_end_at(old(self).buff@, old(self).pos as int)),
            !(parse_name_at(old(self).buff@, old(self).pos as int, MAX_JUMPS as nat) matches
                NameParse::Parsed { name }) ==> r == Err::<(), BytePacketBufferError>(
                name_parse_err(
                    parse_name_at(old(self).buff@, old(self).pos as int, MAX_JUMPS as nat),
                ),
            ),
    {
        let ghost buf = self.buff@;
        let ghost pos0 = self.pos as int;
        let ghost acc0 = outstr@;

        let mut pos: usize = self.pos;
        let mut jumped = false;
        let mut jumps_performed: usize = 0;
        let mut first = true;

        proof {
            assert(outstr@.skip(acc0.len() as int) =~= Seq::<u8>::empty());
            match parse_name_at(buf, pos0, MAX_JUMPS as nat) {
                NameParse::Parsed { name } => {
                    assert(name_join(Seq::<u8>::empty(), name) == name);
                },
                _ => {},
            }
            assert(outstr@.take(acc0.len() as int) =~= acc0);
        }

        loop
            invariant_except_break
                buf == old(self).buff@,
                pos0 == old(self).pos as int,
                acc0 == old(outstr)@,
                self.wf(),
                self.buff@ == buf,
                jumps_performed <= MAX_JUMPS + 1,
                outstr@.len() >= acc0.len(),
                outstr@.take(acc0.len() as int) == acc0,
                first <==> outstr@.len() == acc0.len(),
                jumps_performed <= MAX_JUMPS ==> parse_name_at(buf, pos0, MAX_JUMPS as nat)
                    == name_join_parse(
                    outstr@.skip(acc0.len() as int),
                    parse_name_at(buf, pos as int, (MAX_JUMPS - jumps_performed) as nat),
                ),
                jumps_performed == MAX_JUMPS + 1 ==> parse_name_at(buf, pos0, MAX_JUMPS as nat)
                    == NameParse::TooManyJumps,
                jumped ==> self.pos == name_end_at(buf, pos0),
                !jumped ==> self.pos == pos0 && jumps_performed == 0 && name_end_at(buf, pos0)
                    == name_end_at(buf, pos as int),
            ensures
                buf == old(self).buff@,
                pos0 == old(self).pos as int,
                acc0 == old(outstr)@,
                self.wf(),
                self.buff@ == buf,
                outstr@.len() >= acc0.len(),
                outstr@.take(acc0.len() as int) == acc0,
                parse_name_at(buf, pos0, MAX_JUMPS as nat) == (NameParse::Parsed {
                    name: outstr@.skip(acc0.len() as int),
                }),
                jumped ==> self.pos == name_end_at(buf, pos0),
                !jumped ==> self.pos == pos0 && name_end_at(buf, pos0) == pos,
            decreases MAX_JUMPS + 1 - jumps_performed, (if pos <= BUFFER_SIZE {
                BUFFER_SIZE - pos
            } else {
                0int
            }),
        {
            if jumps_performed > MAX_JUMPS {
                return Err(BytePacketBufferError::MaxJumpsExceeded { limit: MAX_JUMPS });
            }

            let len = self.get(pos)?;
            proof {
                assert((len & 0xC0u8) == 0xC0 <==> len >= 192) by (bit_vector);
            }

            if (len & 0xC0) == 0xC0 {
                let ghost pos_before = pos as int;
                if !jumped {
                    self.seek(pos + 2);
                }

                let b2 = self.get(pos + 1)? as u16;
                let offset = (((len as u16) ^ 0xC0) << 8) | b2;
                proof {
                    let l16 = len as u16;
                    assert((((l16 ^ 0xC0) << 8) | b2) == (l16 - 0xC0) * 256 + b2)
                        by (bit_vector)
                        requires
                            l16 >= 192 && l16 < 256 && b2 < 256,
                    ;
                }
                pos = offset as usize;

                proof {
                    let jl = (MAX_JUMPS - jumps_performed) as nat;
                    if jumps_performed < MAX_JUMPS {
                        assert(parse_name_at(buf, pos_before, jl) == parse_name_at(
                            buf,
                            pos as int,
                            (jl - 1) as nat,
                        ));
                    } else {
                        assert(parse_name_at(buf, pos_before, jl) == NameParse::TooManyJumps);
                    }
                }

                jumped = true;
                jumps_performed = jumps_performed + 1;
            } else {
                let ghost pos_before = pos as int;
                pos = pos + 1;

                if len == 0 {
                    proof {
                        assert(parse_name_at(buf, pos_before, (MAX_JUMPS - jumps_performed) as nat)
                            == (NameParse::Parsed { name: Seq::<u8>::empty() }));
                        assert(name_join(outstr@.skip(acc0.len() as int), Seq::<u8>::empty())
                            == outstr@.skip(acc0.len() as int));
                        assert(name_end_at(buf, pos_before) == pos as int);
                    }
                    break;
                }

                let ghost acc_before = outstr@.skip(acc0.len() as int);
                if !first {
                    outstr.push(DOT);
                }
                let ghost base = outstr@;

                let label = self.get_range(pos, len as usize)?;
                let ghost label_low = buf.subrange(pos as int, pos + len).map_values(
                    |b: u8| lower(b),
                );

                let mut k: usize = 0;
                while k < label.len()
                    invariant
                        k <= label.len(),
                        label@ == buf.subrange(pos_before + 1, pos_before + 1 + len),
                        label@.len() == len as int,
                        outstr@ =~= base + label@.take(k as int).map_values(|b: u8| lower(b)),
                    decreases label.len() - k,
                {
                    let bch = label[k];
                    let lowered: u8 = if bch >= 65 && bch <= 90 {
                        bch + 32
                    } else {
                        bch
                    };
                    proof {
                        assert(lowered == lower(label@[k as int]));
                    }
                    outstr.push(lowered);
                    k = k + 1;
                    proof {
                        assert(label@.take(k as int).map_values(|b: u8| lower(b)) =~= label@.take(
                            k - 1,
                        ).map_values(|b: u8| lower(b)) + seq![lower(label@[k - 1])]);
                    }
                }

                proof {
                    assert(label@.take(len as int) =~= label@);
                    assert(label_low =~= label@.map_values(|b: u8| lower(b)));
                    assert(outstr@ =~= base + label_low);
                    assert(outstr@.take(acc0.len() as int) =~= acc0);
                    let acc_after = outstr@.skip(acc0.len() as int);
                    assert(acc_after =~= (if first {
                        label_low
                    } else {
                        acc_before + seq![DOT] + label_low
                    }));
                    assert(label_low.len() == len as int);
                }

                first = false;
                pos = pos + len as usize;

                proof {
                    let jl = (MAX_JUMPS - jumps_performed) as nat;
                    let acc_after = outstr@.skip(acc0.len() as int);
                    let pnext = parse_name_at(buf, pos as int, jl);
                    match pnext {
                        NameParse::Parsed { name } => {
                            assert(name_join(label_low, name) == (if name.len() == 0 {
                                label_low
                            } else {
                                label_low + seq![DOT] + name
                            }));
                            assert(parse_name_at(buf, pos_before, jl) == (NameParse::Parsed {
                                name: name_join(label_low, name),
                            }));
                            assert(name_join(acc_before, name_join(label_low, name)) =~= name_join(
                                acc_after,
                                name,
                            ));
                        },
                        _ => {
                            assert(parse_name_at(buf, pos_before, jl) == pnext);
                        },
                    }
                }
            }
        }

        if !jumped {
            self.seek(pos);
        }

        proof {
            assert(old(outstr)@ + outstr@.skip(acc0.len() as int) =~= outstr@);
        }
        Ok(())
    }

    /// Writes the name's text as length-prefixed labels closed with a
    /// zero byte. Empty labels are skipped; a label over 63 bytes is
    /// refused.
    pub fn write_qname(&mut self, qname: &Vec<u8>) -> (r: BytePacketBufferResult<()>)
        requires
            old(self).wf(),
        ensures
            final(self).wf(),
            final(self).pos >= old(self).pos,
            (r == Ok::<(), BytePacketBufferError>(())) <==> (name_ok(qname@) && old(self).pos
                + encoded_name(qname@).len() <= BUFFER_SIZE),
            r == Ok::<(), BytePacketBufferError>(()) ==> final(self).buff@ == old(self).buff@.take(
                old(self).pos as int,
            ) + encoded_name(qname@) + old(self).buff@.skip(
                old(self).pos + encoded_name(qname@).len(),
            ) && final(self).pos == old(self).pos + encoded_name(qname@).len(),
            r is Err ==> r->Err_0 == BytePacketBufferError::PosOutOfRange || (r->Err_0
                == (BytePacketBufferError::LabelLengthTooBig {
                length: first_long_label_len(qname@) as usize,
            }) && !name_ok(qname@)),
            (r is Err && name_ok(qname@)) ==> r->Err_0 == BytePacketBufferError::PosOutOfRange,
            (r is Err && !name_ok(qname@) && old(self).pos + encoded_name(qname@).len()
                <= BUFFER_SIZE) ==> r->Err_0 == (BytePacketBufferError::LabelLengthTooBig {
                length: first_long_label_len(qname@) as usize,
            }),
    {
        let ghost name = qname@;
        let ghost enc = encoded_name(name);
        let ghost pos0 = self.pos as int;
        let ghost buf0 = self.buff@;

        if self.pos >= BUFFER_SIZE {
            proof {
                lemma_encoded_name_nonempty(name);
            }
            return Err(BytePacketBufferError::PosOutOfRange);
        }

        let mut i: usize = 0;

        proof {
            assert(name.skip(0) =~= name);
            assert(self.buff@.subrange(pos0, pos0) + encoded_name(name.skip(0)) =~= enc);
        }

        loop
            invariant_except_break
                buf0 == old(self).buff@,
                pos0 == old(self).pos as int,
                name == qname@,
                enc == encoded_name(name),
                self.wf(),
                i <= qname.len(),
                pos0 <= self.pos <= BUFFER_SIZE,
                forall|m: int| 0 <= m < pos0 ==> self.buff@[m] == buf0[m],
                forall|m: int| self.pos <= m < BUFFER_SIZE ==> self.buff@[m] == buf0[m],
                self.buff@.subrange(pos0, self.pos as int) + encoded_name(name.skip(i as int))
                    == enc,
                name_ok(name) <==> name_ok(name.skip(i as int)),
                !name_ok(name) ==> first_long_label_len(name) == first_long_label_len(
                    name.skip(i as int),
                ),
            ensures
                buf0 == old(self).buff@,
                pos0 == old(self).pos as int,
                name == qname@,
                enc == encoded_name(name),
                self.wf(),
                pos0 <= self.pos <= BUFFER_SIZE,
                forall|m: int| 0 <= m < pos0 ==> self.buff@[m] == buf0[m],
                forall|m: int| self.pos <= m < BUFFER_SIZE ==> self.buff@[m] == buf0[m],
                self.buff@.subrange(pos0, self.pos as int) + seq![0u8] == enc,
                name_ok(name),
            decreases qname.len() - i,
        {
            let mut j: usize = i;
            while j < qname.len() && qname[j] != DOT
                invariant
                    name == qname@,
                    i <= j <= qname.len(),
                    forall|m: int| i <= m < j ==> name[m] != DOT,
                decreases qname.len() - j,
            {
                j = j + 1;
            }

            proof {
                let s = name.skip(i as int);
                assert forall|m: int| 0 <= m < j - i implies s[m] != DOT by {
                    assert(s[m] == name[i + m]);
                }
                if j < qname.len() {
                    assert(s[j - i] == name[j as int]);
                }
                lemma_label_scan(s, j - i);
            }

            let len_lab = j - i;
            if len_lab > 63 {
                proof {
                    let s = name.skip(i as int);
                    assert(!name_ok(s));
                    assert(first_long_label_len(s) == j - i);
                }
                return Err(BytePacketBufferError::LabelLengthTooBig { length: len_lab });
            }

            let ghost delta_pre = self.buff@.subrange(pos0, self.pos as int);
            let ghost rest: Seq<u8> = if j == qname.len() {
                seq![0u8]
            } else {
                encoded_name(name.skip(j + 1))
            };

            proof {
                let s = name.skip(i as int);
                assert(s.take(j - i) =~= name.subrange(i as int, j as int));
                if j < qname.len() {
                    assert(s.skip(j - i + 1) =~= name.skip(j + 1));
                    assert(encoded_name(s) == (if j == i {
                        Seq::<u8>::empty()
                    } else {
                        seq![(j - i) as u8] + name.subrange(i as int, j as int)
                    }) + encoded_name(name.skip(j + 1)));
                } else {
                    assert(encoded_name(s) == (if j == i {
                        Seq::<u8>::empty()
                    } else {
                        seq![(j - i) as u8] + name.subrange(i as int, j as int)
                    }) + seq![0u8]);
                }
                if j < qname.len() {
                    lemma_encoded_name_nonempty(name.skip(j + 1));
                }
            }

            if len_lab > 0 {
                let ghost p_mark = self.pos as int;
                if self.write_u8(len_lab as u8).is_err() {
                    proof {
                        assert(rest.len() >= 1) by {
                            if j < qname.len() {
                                lemma_encoded_name_nonempty(name.skip(j + 1));
                            }
                        }
                        assert(pos0 + enc.len() > BUFFER_SIZE);
                    }
                    return Err(BytePacketBufferError::PosOutOfRange);
                }
                proof {
                    assert(self.buff@.subrange(pos0, self.pos as int) =~= delta_pre + seq![
                        (j - i) as u8,
                    ]);
                }

                let mut k: usize = i;
                while k < j
                    invariant
                        buf0 == old(self).buff@,
                        pos0 == old(self).pos as int,
                        name == qname@,
                        enc == encoded_name(name),
                        self.wf(),
                        i <= k <= j <= qname.len(),
                        j - i <= 63,
                        p_mark >= pos0,
                        delta_pre.len() == p_mark - pos0,
                        self.pos == p_mark + 1 + (k - i),
                        self.pos <= BUFFER_SIZE,
                        forall|m: int| 0 <= m < pos0 ==> self.buff@[m] == buf0[m],
                        forall|m: int| self.pos <= m < BUFFER_SIZE ==> self.buff@[m] == buf0[m],
                        self.buff@.subrange(pos0, self.pos as int) == delta_pre + seq![
                            (j - i) as u8,
                        ] + name.subrange(i as int, k as int),
                        enc == delta_pre + seq![(j - i) as u8] + name.subrange(
                            i as int,
                            j as int,
                        ) + rest,
                        rest.len() >= 1,
                    decreases j - k,
                {
                    let ghost delta_k = self.buff@.subrange(pos0, self.pos as int);
                    if self.write_u8(qname[k]).is_err() {
                        proof {
                            assert(pos0 + enc.len() > BUFFER_SIZE);
                        }
                        return Err(BytePacketBufferError::PosOutOfRange);
                    }
                    proof {
                        assert(self.buff@.subrange(pos0, self.pos as int) =~= delta_k + seq![
                            name[k as int],
                        ]);
                        assert(delta_k + seq![name[k as int]] =~= delta_pre + seq![(j - i) as u8]
                            + name.subrange(i as int, k + 1));
                    }
                    k = k + 1;
                }
            }

            if j == qname.len() {
                proof {
                    assert(self.buff@.subrange(pos0, self.pos as int) + seq![0u8] =~= enc);
                }
                break;
            }

            proof {
                let s = name.skip(i as int);
                assert(name_ok(s) <==> name_ok(name.skip(j + 1)));
                if !name_ok(name) {
                    assert(first_long_label_len(s) == first_long_label_len(name.skip(j + 1)));
                }
                assert(self.buff@.subrange(pos0, self.pos as int)
                    + encoded_name(name.skip(j + 1)) =~= enc);
            }
            i = j + 1;
        }

        let ghost delta_fin = self.buff@.subrange(pos0, self.pos as int);
        if self.write_u8(0).is_err() {
            proof {
                assert(pos0 + enc.len() > BUFFER_SIZE);
            }
            return Err(BytePacketBufferError::PosOutOfRange);
        }

        proof {
            assert(self.buff@.subrange(pos0, self.pos as int) =~= delta_fin + seq![0u8]);
            assert(self.buff@.subrange(pos0, self.pos as int) == enc);
            assert(self.pos == pos0 + enc.len());
            assert(self.buff@ =~= buf0.take(pos0) + enc + buf0.skip(pos0 + enc.len()));
        }
        Ok(())
    }

    /// Overwrites a big-endian 16-bit integer at the absolute position
    /// `pos` without moving; used to backpatch reserved length fields.
    pub fn set_u16(&mut self, pos: usize, val: u16)
        requires
            old(self).wf(),
            pos + 1 < BUFFER_SIZE,
        ensures
            final(self).wf(),
            final(self).buff@ == old(self).buff@.update(pos as int, (val / 256) as u8).update(
                pos + 1,
                (val % 256) as u8,
            ),
            final(self).pos == old(self).pos,
    {
        self.set(pos, (val / 256) as u8);
        self.set(pos + 1, (val % 256) as u8);
    }
}

} // verus!
