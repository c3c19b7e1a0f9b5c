use zisk_witness::asm_min_traces::{
    decode_min_traces, AsmInputC, AsmMTChunk, AsmMTHeader, TraceError, CHUNK_FIXED_BYTES, HEADER_BYTES,
};
use zisk_witness::le_bytes::{push_u64_le, read_u64_le};

fn header(alloc: u64, used: u64) -> Vec<u8> {
    let mut b = Vec::new();
    for w in [1u64, 0, alloc, used] {
        b.extend_from_slice(&w.to_le_bytes());
    }
    b
}

/// A chunk record whose words are distinct, with the given memory reads.
fn chunk(seed: u64, end: u64, steps: u64, reads: &[u64]) -> Vec<u8> {
    let mut b = Vec::new();
    let mut words: Vec<u64> = vec![seed, seed + 1, seed + 2, seed + 3];
    for k in 0..33u64 {
        words.push(seed * 100 + k);
    }
    words.extend_from_slice(&[seed + 4, end, steps, reads.len() as u64]);
    words.extend_from_slice(reads);
    for w in words {
        b.extend_from_slice(&w.to_le_bytes());
    }
    b
}

fn buffer(chunks: &[Vec<u8>]) -> Vec<u8> {
    let used: usize = chunks.iter().map(|c| c.len()).sum();
    let mut b = header(4096, used as u64);
    for c in chunks {
        b.extend_from_slice(c);
    }
    b
}

#[test]
fn input_descriptor_bytes() {
    let input = AsmInputC {
        chunk_size: 0x0102,
        max_steps: 1 << 32,
        initial_trace_size: 7,
        input_data_size: u64::MAX,
    };
    let bytes = input.to_bytes();
    assert_eq!(bytes.len(), 32);
    assert_eq!(&bytes[0..8], &[2, 1, 0, 0, 0, 0, 0, 0]);
    assert_eq!(&bytes[8..16], &[0, 0, 0, 0, 1, 0, 0, 0]);
    assert_eq!(&bytes[16..24], &[7, 0, 0, 0, 0, 0, 0, 0]);
    assert_eq!(&bytes[24..32], &[0xff; 8]);
}

#[test]
fn little_endian_round_trip() {
    for v in [0u64, 1, 0x1234_5678_9abc_def0, u64::MAX] {
        let mut out = vec![9u8];
        push_u64_le(&mut out, v);
        assert_eq!(&out[1..], &v.to_le_bytes());
        assert_eq!(read_u64_le(&out, 1), v);
    }
}

#[test]
fn header_shorter_than_itself_is_truncated() {
    assert!(!AsmMTHeader::is_valid(&[0u8; 31]));
    assert_eq!(decode_min_traces(&[]), Err(TraceError::Truncated));
    assert_eq!(decode_min_traces(&header(1, 1)[..20]), Err(TraceError::Truncated));
}

#[test]
fn header_sizes_must_not_be_zero() {
    assert!(!AsmMTHeader::is_valid(&header(0, 8)));
    assert!(!AsmMTHeader::is_valid(&header(8, 0)));
    assert_eq!(decode_min_traces(&header(0, 8)), Err(TraceError::NoAllocation));
    assert_eq!(decode_min_traces(&header(8, 0)), Err(TraceError::NoTraceData));
    assert!(AsmMTHeader::is_valid(&header(8, 16)));
    let h = AsmMTHeader::from_bytes(&header(8, 16));
    assert_eq!((h.version, h.exit_code, h.mt_allocated_size, h.mt_used_size), (1, 0, 8, 16));
}

#[test]
fn used_size_past_the_buffer_is_truncated() {
    let mut b = buffer(&[chunk(1, 1, 5, &[])]);
    b.truncate(b.len() - 1);
    assert_eq!(decode_min_traces(&b), Err(TraceError::Truncated));
}

#[test]
fn one_chunk_decodes_every_field() {
    let b = buffer(&[chunk(10, 1, 77, &[5, 6, 7])]);
    let t = decode_min_traces(&b).unwrap();
    assert_eq!(t.header.mt_used_size as usize, CHUNK_FIXED_BYTES + 24);
    assert_eq!(t.vec_chunks.len(), 1);
    let c = &t.vec_chunks[0];
    assert_eq!((c.start_state.pc, c.start_state.sp, c.start_state.c, c.start_state.step), (10, 11, 12, 13));
    assert_eq!(c.start_state.regs[0], 0);
    for k in 1..32 {
        assert_eq!(c.start_state.regs[k], 1000 + k as u64 - 1);
    }
    assert_eq!(c.last_c, 14);
    assert!(c.end);
    assert_eq!(c.steps, 77);
    assert_eq!(c.mem_reads, vec![5, 6, 7]);
}

#[test]
fn chunks_are_decoded_in_order_up_to_the_used_size() {
    let b = buffer(&[chunk(1, 0, 10, &[1]), chunk(2, 0, 20, &[]), chunk(3, 1, 30, &[8, 9])]);
    let t = decode_min_traces(&b).unwrap();
    let steps: Vec<u64> = t.vec_chunks.iter().map(|c| c.steps).collect();
    assert_eq!(steps, vec![10, 20, 30]);
    let ends: Vec<bool> = t.vec_chunks.iter().map(|c| c.end).collect();
    assert_eq!(ends, vec![false, false, true]);
    assert_eq!(t.vec_chunks[2].mem_reads, vec![8, 9]);
}

#[test]
fn bytes_after_the_used_size_are_not_read() {
    let mut b = buffer(&[chunk(1, 1, 10, &[])]);
    b.extend_from_slice(&[0xab; 100]);
    let t = decode_min_traces(&b).unwrap();
    assert_eq!(t.vec_chunks.len(), 1);
}

#[test]
fn chunk_running_past_the_used_size_is_refused() {
    let c = chunk(1, 1, 10, &[1, 2]);
    let mut b = header(4096, (c.len() - 8) as u64);
    b.extend_from_slice(&c);
    assert_eq!(decode_min_traces(&b), Err(TraceError::ChunkOverrun));
    let mut b = header(4096, 100);
    b.extend_from_slice(&c);
    assert_eq!(decode_min_traces(&b), Err(TraceError::ChunkOverrun));
}

#[test]
fn chunk_cursor_moves_past_record_and_reads() {
    let b = buffer(&[chunk(4, 0, 3, &[11, 12])]);
    let mut pos = HEADER_BYTES;
    let t = AsmMTChunk::to_emu_trace(&b, &mut pos, b.len()).unwrap();
    assert_eq!(pos, b.len());
    assert_eq!(t.mem_reads, vec![11, 12]);
    let mut pos = HEADER_BYTES;
    assert_eq!(AsmMTChunk::to_emu_trace(&b, &mut pos, b.len() - 1), Err(TraceError::ChunkOverrun));
    assert_eq!(pos, HEADER_BYTES);
    let fixed = AsmMTChunk::from_bytes(&b, HEADER_BYTES);
    assert_eq!(fixed.registers[32], 432);
    assert_eq!(fixed.mem_reads_size, 2);
}
