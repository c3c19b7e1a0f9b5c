//! The binary layout that the external emulator writes its minimal traces in,
//! and the decoding of a shared trace buffer into execution chunks.

use vstd::prelude::*;
use crate::le_bytes::{le_bytes, push_u64_le, read_u64_le, u64_at};

verus! {

/// First register of the machine state that a chunk carries.
pub const REGS_IN_MAIN_FROM: usize = 1;

/// Size of a chunk's register state; it carries the bank's first registers from
/// `REGS_IN_MAIN_FROM` on.
pub const REGS_IN_MAIN_TOTAL_NUMBER: usize = 32;

/// Size of the register bank of a chunk record.
pub const ASM_REGISTERS: usize = 33;

/// Size in bytes of the buffer header.
pub const HEADER_BYTES: usize = 32;

/// Size in bytes of the fixed part of a chunk record.
pub const CHUNK_FIXED_BYTES: usize = 328;

/// Byte offset of `mem_reads_size` in a chunk record.
pub const MEM_READS_SIZE_OFFSET: usize = 320;

/// Size in bytes of the emulator's input descriptor.
pub const INPUT_BYTES: usize = 32;

/// Header of the shared trace buffer.
#[derive(Clone, Copy, Debug, PartialEq, Eq)]
pub struct AsmMTHeader {
    pub version: u64,
    pub exit_code: u64,
    pub mt_allocated_size: u64,
    /// Bytes of chunk records that follow the header.
    pub mt_used_size: u64,
}

/// Fixed part of a chunk record.
#[derive(Clone, Copy, Debug, PartialEq, Eq)]
pub struct AsmMTChunk {
    pub pc: u64,
    pub sp: u64,
    pub c: u64,
    pub step: u64,
    pub registers: [u64; 33],
    pub last_c: u64,
    /// 1 on the program's last chunk.
    pub end: u64,
    pub steps: u64,
    pub mem_reads_size: u64,
}

/// Input descriptor written to the external emulator before it runs.
#[derive(Clone, Copy, Debug, PartialEq, Eq)]
pub struct AsmInputC {
    pub chunk_size: u64,
    pub max_steps: u64,
    pub initial_trace_size: u64,
    pub input_data_size: u64,
}

/// Machine state at the start of a chunk.
#[derive(Clone, Copy, Debug, PartialEq, Eq)]
pub struct EmuTraceStart {
    pub pc: u64,
    pub sp: u64,
    pub c: u64,
    pub step: u64,
    pub regs: [u64; 32],
}

/// One execution chunk.
#[derive(Clone, Debug, PartialEq, Eq)]
pub struct EmuTrace {
    pub start_state: EmuTraceStart,
    pub last_c: u64,
    /// Whether this chunk is the program's last.
    pub end: bool,
    /// Machine steps executed in the chunk.
    pub steps: u64,
    /// Memory reads consumed by the chunk, in order.
    pub mem_reads: Vec<u64>,
}

/// Why a trace buffer could not be decoded.
#[derive(Clone, Copy, Debug, PartialEq, Eq)]
pub enum TraceError {
    /// The buffer is shorter than its header, or than the header says.
    Truncated,
    /// The header reports no allocated trace memory.
    NoAllocation,
    /// The header reports no trace data.
    NoTraceData,
    /// A chunk record runs past the end of the trace data.
    ChunkOverrun,
}

/// The decoded contents of a trace buffer.
#[derive(Clone, Debug, PartialEq, Eq)]
pub struct AsmMinTraces {
    pub header: AsmMTHeader,
    pub vec_chunks: Vec<EmuTrace>,
}

impl AsmInputC {
    /// The four fields, each as eight little-endian bytes, in declaration order.
    pub fn to_bytes(&self) -> (r: Vec<u8>)
        ensures
            r@ == le_bytes(self.chunk_size as nat, 8) + le_bytes(self.max_steps as nat, 8) + le_bytes(
                self.initial_trace_size as nat,
                8,
            ) + le_bytes(self.input_data_size as nat, 8),
            r@.len() == INPUT_BYTES,
            u64_at(r@, 0) == self.chunk_size,
            u64_at(r@, 8) == self.max_steps,
            u64_at(r@, 16) == self.initial_trace_size,
            u64_at(r@, 24) == self.input_data_size,
    {
        let mut bytes: Vec<u8> = Vec::with_capacity(INPUT_BYTES);
        push_u64_le(&mut bytes, self.chunk_size);
        push_u64_le(&mut bytes, self.max_steps);
        push_u64_le(&mut bytes, self.initial_trace_size);
        push_u64_le(&mut bytes, self.input_data_size);
        proof {
            crate::le_bytes::lemma_le_bytes_len(self.chunk_size as nat, 8);
            crate::le_bytes::lemma_le_bytes_len(self.max_steps as nat, 8);
            crate::le_bytes::lemma_le_bytes_len(self.initial_trace_size as nat, 8);
            crate::le_bytes::lemma_le_bytes_len(self.input_data_size as nat, 8);
            crate::le_bytes::lemma_pow256_8();
            let a = le_bytes(self.chunk_size as nat, 8);
            let b = le_bytes(self.max_steps as nat, 8);
            let c = le_bytes(self.initial_trace_size as nat, 8);
            let d = le_bytes(self.input_data_size as nat, 8);
            crate::le_bytes::lemma_le_round_trip(self.chunk_size as nat, 8);
            crate::le_bytes::lemma_le_round_trip(self.max_steps as nat, 8);
            crate::le_bytes::lemma_le_round_trip(self.initial_trace_size as nat, 8);
            crate::le_bytes::lemma_le_round_trip(self.input_data_size as nat, 8);
            assert(bytes@.subrange(0, 8) =~= a);
            assert(bytes@.subrange(8, 16) =~= b);
            assert(bytes@.subrange(16, 24) =~= c);
            assert(bytes@.subrange(24, 32) =~= d);
        }
        bytes
    }
}

/// The header stored at the start of `s`.
pub open spec fn header_of(s: Seq<u8>) -> AsmMTHeader {
    AsmMTHeader {
        version: u64_at(s, 0),
        exit_code: u64_at(s, 8),
        mt_allocated_size: u64_at(s, 16),
        mt_used_size: u64_at(s, 24),
    }
}

/// `s` starts with a whole header that reports allocated and used trace memory.
pub open spec fn header_valid(s: Seq<u8>) -> bool {
    &&& s.len() >= HEADER_BYTES
    &&& header_of(s).mt_allocated_size > 0
    &&& header_of(s).mt_used_size > 0
}

fn read_header(buf: &[u8]) -> (h: AsmMTHeader)
    requires
        buf@.len() >= HEADER_BYTES,
    ensures
        h == header_of(buf@),
{
    AsmMTHeader {
        version: read_u64_le(buf, 0),
        exit_code: read_u64_le(buf, 8),
        mt_allocated_size: read_u64_le(buf, 16),
        mt_used_size: read_u64_le(buf, 24),
    }
}

impl AsmMTHeader {
    /// Tells whether `buf` starts with a usable header; anything else is fatal.
    pub fn is_valid(buf: &[u8]) -> (r: bool)
        ensures
            r == header_valid(buf@),
    {
        if buf.len() < HEADER_BYTES {
            return false;
        }
        let h = read_header(buf);
        h.mt_allocated_size > 0 && h.mt_used_size > 0
    }

    /// Reads the header at the start of `buf`.
    pub fn from_bytes(buf: &[u8]) -> (h: AsmMTHeader)
        requires
            header_valid(buf@),
        ensures
            h == header_of(buf@),
            h.mt_allocated_size > 0 && h.mt_used_size > 0,
    {
        read_header(buf)
    }
}

/// The `u64` at word `w` of the record that starts at `pos`.
pub open spec fn word_at(s: Seq<u8>, pos: int, w: int) -> u64 {
    u64_at(s, pos + 8 * w)
}

/// The fixed part of a chunk record at `pos` is `c`.
pub open spec fn chunk_fixed_at(s: Seq<u8>, pos: int, c: AsmMTChunk) -> bool {
    &&& c.pc == word_at(s, pos, 0)
    &&& c.sp == word_at(s, pos, 1)
    &&& c.c == word_at(s, pos, 2)
    &&& c.step == word_at(s, pos, 3)
    &&& forall|k: int| 0 <= k < ASM_REGISTERS ==> #[trigger] c.registers@[k] == word_at(s, pos, 4 + k)
    &&& c.last_c == word_at(s, pos, 37)
    &&& c.end == word_at(s, pos, 38)
    &&& c.steps == word_at(s, pos, 39)
    &&& c.mem_reads_size == word_at(s, pos, 40)
}

/// Length in bytes of the chunk record at `pos`.
pub open spec fn chunk_len(s: Seq<u8>, pos: int) -> int {
    CHUNK_FIXED_BYTES + 8 * word_at(s, pos, 40)
}

/// The chunk record at `pos` lies within `end`.
pub open spec fn chunk_fits(s: Seq<u8>, pos: int, end: int) -> bool {
    pos + CHUNK_FIXED_BYTES <= end && pos + chunk_len(s, pos) <= end
}

/// The execution chunk decoded from the record at `pos` is `t`: the register state
/// is zero but for registers `1..=31`, which hold the bank's first 31 registers.
pub open spec fn trace_at(s: Seq<u8>, pos: int, t: EmuTrace) -> bool {
    &&& t.start_state.pc == word_at(s, pos, 0)
    &&& t.start_state.sp == word_at(s, pos, 1)
    &&& t.start_state.c == word_at(s, pos, 2)
    &&& t.start_state.step == word_at(s, pos, 3)
    &&& t.start_state.regs@[0] == 0
    &&& forall|k: int|
        REGS_IN_MAIN_FROM <= k < REGS_IN_MAIN_TOTAL_NUMBER ==> #[trigger] t.start_state.regs@[k]
            == word_at(s, pos, 4 + k - REGS_IN_MAIN_FROM)
    &&& t.last_c == word_at(s, pos, 37)
    &&& t.end == (word_at(s, pos, 38) == 1)
    &&& t.steps == word_at(s, pos, 39)
    &&& t.mem_reads@.len() == word_at(s, pos, 40)
    &&& forall|i: int|
        0 <= i < t.mem_reads@.len() ==> #[trigger] t.mem_reads@[i] == word_at(
            s,
            pos + CHUNK_FIXED_BYTES,
            i,
        )
}

/// Start offsets of the chunk records that tile `pos..end`, or `None` where a
/// record runs past `end`.
pub open spec fn chunk_offsets(s: Seq<u8>, pos: int, end: int) -> Option<Seq<int>>
    decreases end - pos,
{
    if pos >= end {
        Some(Seq::empty())
    } else if !chunk_fits(s, pos, end) {
        None
    } else {
        match chunk_offsets(s, pos + chunk_len(s, pos), end) {
            Some(rest) => Some(seq![pos] + rest),
            None => None,
        }
    }
}

/// `front` followed by the offsets in `rest`, if any.
pub open spec fn join_offsets(front: Seq<int>, rest: Option<Seq<int>>) -> Option<Seq<int>> {
    match rest {
        Some(r) => Some(front + r),
        None => None,
    }
}

/// The end of the trace data that the header of `s` announces.
pub open spec fn data_end(s: Seq<u8>) -> int {
    HEADER_BYTES + header_of(s).mt_used_size
}

impl AsmMTChunk {
    /// Reads the fixed part of the chunk record at `pos`.
    pub fn from_bytes(buf: &[u8], pos: usize) -> (c: AsmMTChunk)
        requires
            pos + CHUNK_FIXED_BYTES <= buf@.len(),
        ensures
            chunk_fixed_at(buf@, pos as int, c),
    {
        let n = buf.len();
        let mut registers = [0u64; 33];
        let mut k: usize = 0;
        while k < ASM_REGISTERS
            invariant
                n == buf@.len(),
                pos + CHUNK_FIXED_BYTES <= n,
                k <= ASM_REGISTERS,
                forall|j: int| 0 <= j < k ==> #[trigger] registers@[j] == word_at(buf@, pos as int, 4 + j),
            decreases ASM_REGISTERS - k,
        {
            registers[k] = read_u64_le(buf, pos + 32 + 8 * k);
            k = k + 1;
        }
        AsmMTChunk {
            pc: read_u64_le(buf, pos),
            sp: read_u64_le(buf, pos + 8),
            c: read_u64_le(buf, pos + 16),
            step: read_u64_le(buf, pos + 24),
            registers,
            last_c: read_u64_le(buf, pos + 296),
            end: read_u64_le(buf, pos + 304),
            steps: read_u64_le(buf, pos + 312),
            mem_reads_size: read_u64_le(buf, pos + MEM_READS_SIZE_OFFSET),
        }
    }
}

impl AsmMTChunk {
    /// The machine state at the start of the chunk.
    pub fn start_state(&self) -> (r: EmuTraceStart)
        ensures
            r.pc == self.pc && r.sp == self.sp && r.c == self.c && r.step == self.step,
            r.regs@[0] == 0,
            forall|k: int|
                REGS_IN_MAIN_FROM <= k < REGS_IN_MAIN_TOTAL_NUMBER ==> #[trigger] r.regs@[k]
                    == self.registers@[k - REGS_IN_MAIN_FROM],
    {
        let mut regs = [0u64; 32];
        let mut k: usize = REGS_IN_MAIN_FROM;
        while k < REGS_IN_MAIN_TOTAL_NUMBER
            invariant
                REGS_IN_MAIN_FROM <= k <= REGS_IN_MAIN_TOTAL_NUMBER,
                regs@[0] == 0,
                forall|j: int|
                    REGS_IN_MAIN_FROM <= j < k ==> #[trigger] regs@[j] == self.registers@[j
                        - REGS_IN_MAIN_FROM],
            decreases REGS_IN_MAIN_TOTAL_NUMBER - k,
        {
            regs[k] = self.registers[k - REGS_IN_MAIN_FROM];
            k = k + 1;
        }
        EmuTraceStart { pc: self.pc, sp: self.sp, c: self.c, step: self.step, regs }
    }

    /// Decodes the chunk record at `*pos`, which must end by `end`, and moves
    /// `pos` past it and past its memory reads.
    pub fn to_emu_trace(buf: &[u8], pos: &mut usize, end: usize) -> (r: Result<EmuTrace, TraceError>)
        requires
            *old(pos) <= end <= buf@.len(),
        ensures
            chunk_fits(buf@, *old(pos) as int, end as int) ==> {
                &&& r is Ok
                &&& trace_at(buf@, *old(pos) as int, r->Ok_0)
                &&& *final(pos) == *old(pos) + chunk_len(buf@, *old(pos) as int)
            },
            !chunk_fits(buf@, *old(pos) as int, end as int) ==> r == Err::<EmuTrace, TraceError>(
                TraceError::ChunkOverrun,
            ) && *final(pos) == *old(pos),
    {
        let start = *pos;
        if end - start < CHUNK_FIXED_BYTES {
            return Err(TraceError::ChunkOverrun);
        }
        let chunk = AsmMTChunk::from_bytes(buf, start);
        let body = start + CHUNK_FIXED_BYTES;
        let room = (end - body) / 8;
        if chunk.mem_reads_size > room as u64 {
            return Err(TraceError::ChunkOverrun);
        }
        let len = chunk.mem_reads_size as usize;
        let mut mem_reads: Vec<u64> = Vec::with_capacity(len);
        let mut i: usize = 0;
        while i < len
            invariant
                i <= len,
                len <= room,
                room == (end - body) / 8,
                body + 8 * room <= end,
                end <= buf@.len(),
                mem_reads@.len() == i,
                forall|j: int|
                    0 <= j < i ==> #[trigger] mem_reads@[j] == word_at(buf@, body as int, j),
            decreases len - i,
        {
            mem_reads.push(read_u64_le(buf, body + 8 * i));
            i = i + 1;
        }
        *pos = body + 8 * len;
        let start_state = chunk.start_state();
        Ok(
            EmuTrace {
                start_state,
                last_c: chunk.last_c,
                end: chunk.end == 1,
                steps: chunk.steps,
                mem_reads,
            },
        )
    }
}

/// Decodes a whole trace buffer: its header, then chunk records up to exactly
/// `mt_used_size` bytes after the header.
pub fn decode_min_traces(buf: &[u8]) -> (r: Result<AsmMinTraces, TraceError>)
    ensures
        buf@.len() < HEADER_BYTES ==> r == Err::<AsmMinTraces, TraceError>(TraceError::Truncated),
        buf@.len() >= HEADER_BYTES ==> {
            let h = header_of(buf@);
            &&& h.mt_allocated_size == 0 ==> r == Err::<AsmMinTraces, TraceError>(
                TraceError::NoAllocation,
            )
            &&& h.mt_allocated_size != 0 && h.mt_used_size == 0 ==> r == Err::<
                AsmMinTraces,
                TraceError,
            >(TraceError::NoTraceData)
            &&& h.mt_allocated_size != 0 && h.mt_used_size != 0 && data_end(buf@) > buf@.len()
                ==> r == Err::<AsmMinTraces, TraceError>(TraceError::Truncated)
            &&& h.mt_allocated_size != 0 && h.mt_used_size != 0 && data_end(buf@) <= buf@.len()
                ==> match chunk_offsets(buf@, HEADER_BYTES as int, data_end(buf@)) {
                None => r == Err::<AsmMinTraces, TraceError>(TraceError::ChunkOverrun),
                Some(offs) => {
                    &&& r is Ok
                    &&& r->Ok_0.header == h
                    &&& r->Ok_0.vec_chunks@.len() == offs.len()
                    &&& forall|i: int|
                        0 <= i < offs.len() ==> trace_at(
                            buf@,
                            #[trigger] offs[i],
                            r->Ok_0.vec_chunks@[i],
                        )
                },
            }
        },
{
    if buf.len() < HEADER_BYTES {
        return Err(TraceError::Truncated);
    }
    let header = read_header(buf);
    if header.mt_allocated_size == 0 {
        return Err(TraceError::NoAllocation);
    }
    if header.mt_used_size == 0 {
        return Err(TraceError::NoTraceData);
    }
    if header.mt_used_size > (buf.len() - HEADER_BYTES) as u64 {
        return Err(TraceError::Truncated);
    }
    let end = HEADER_BYTES + header.mt_used_size as usize;
    let ghost s = buf@;
    let ghost e = end as int;
    let mut pos = HEADER_BYTES;
    let mut vec_chunks: Vec<EmuTrace> = Vec::new();
    let ghost mut offs: Seq<int> = Seq::empty();
    assert(join_offsets(offs, chunk_offsets(s, pos as int, e)) =~= chunk_offsets(
        s,
        HEADER_BYTES as int,
        e,
    )) by {
        match chunk_offsets(s, HEADER_BYTES as int, e) {
            Some(o) => {
                assert(offs + o =~= o);
            },
            None => {},
        }
    }
    while pos < end
        invariant
            HEADER_BYTES <= pos <= end,
            end <= buf@.len(),
            s == buf@,
            e == end,
            end == data_end(s),
            header == header_of(s),
            header.mt_allocated_size != 0,
            header.mt_used_size != 0,
            join_offsets(offs, chunk_offsets(s, pos as int, e)) == chunk_offsets(
                s,
                HEADER_BYTES as int,
                e,
            ),
            vec_chunks@.len() == offs.len(),
            forall|i: int| 0 <= i < offs.len() ==> trace_at(s, #[trigger] offs[i], vec_chunks@[i]),
        decreases end - pos,
    {
        let ghost here = pos as int;
        match AsmMTChunk::to_emu_trace(buf, &mut pos, end) {
            Ok(t) => {
                proof {
                    let rest = chunk_offsets(s, pos as int, e);
                    assert(chunk_offsets(s, here, e) == join_offsets(seq![here], rest));
                    match rest {
                        Some(r) => {
                            assert(offs + (seq![here] + r) =~= offs.push(here) + r);
                        },
                        None => {},
                    }
                }
                vec_chunks.push(t);
                proof {
                    offs = offs.push(here);
                }
            },
            Err(err) => {
                assert(chunk_offsets(s, here, e) is None);
                assert(err == TraceError::ChunkOverrun);
                assert(chunk_offsets(s, HEADER_BYTES as int, e) is None);
                return Err(err);
            },
        }
    }
    assert(chunk_offsets(s, pos as int, e) == Some(Seq::<int>::empty()));
    assert(offs + Seq::<int>::empty() =~= offs);
    Ok(AsmMinTraces { header, vec_chunks })
}

/// Decoding consumes the trace data exactly: the records that a successful decode
/// reads start where the data starts, each starts where the one before it ends,
/// and the last ends where the data ends.
pub proof fn lemma_chunks_tile(s: Seq<u8>, pos: int, end: int)
    requires
        chunk_offsets(s, pos, end) is Some,
    ensures
        ({
            let o = chunk_offsets(s, pos, end)->0;
            &&& o.len() == 0 <==> pos >= end
            &&& o.len() > 0 ==> o[0] == pos && o.last() + chunk_len(s, o.last()) == end
            &&& forall|i: int|
                0 <= i < o.len() - 1 ==> #[trigger] o[i + 1] == o[i] + chunk_len(s, o[i])
        }),
    decreases end - pos,
{
    if pos < end {
        let next = pos + chunk_len(s, pos);
        lemma_chunks_tile(s, next, end);
        let r = chunk_offsets(s, next, end)->0;
        let o = chunk_offsets(s, pos, end)->0;
        assert(o == seq![pos] + r);
        if r.len() == 0 {
            assert(next >= end);
        }
        assert forall|i: int| 0 <= i < o.len() - 1 implies #[trigger] o[i + 1] == o[i] + chunk_len(
            s,
            o[i],
        ) by {
            if i > 0 {
                let k = i - 1;
                assert(r[k + 1] == r[k] + chunk_len(s, r[k]));
                assert(o[i] == r[i - 1]);
                assert(o[i + 1] == r[i]);
            } else {
                assert(o[0] == pos);
                assert(o[1] == r[0]);
                assert(r.len() > 0);
                assert(r[0] == next);
            }
        }
    }
}

} // verus!
