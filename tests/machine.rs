use zkmemory::base::{Base, B128, B16, B256, B32, B64};
use zkmemory::machine::{MachineError, MemoryInstruction, RamMachine};

#[test]
fn unaligned_read_spans_two_cells() {
    let mut m = RamMachine::<B256, 32>::new(256).unwrap();
    m.write(0, B256::from_bytes([5u8; 32]));
    m.write(32, B256::from_bytes([10u8; 32]));
    let got = m.read(15).to_bytes();
    let mut expected = [10u8; 32];
    expected[..17].copy_from_slice(&[5u8; 17]);
    assert_eq!(got, expected);
}

#[test]
fn write_across_cells_then_aligned_reads() {
    let mut m = RamMachine::<B32, 4>::new(32).unwrap();
    m.write(2, B32::from_bytes([3u8; 4]));
    assert_eq!(m.read(0).to_bytes(), [0, 0, 3, 3]);
    assert_eq!(m.read(4).to_bytes(), [3, 3, 0, 0]);
}

#[test]
fn unwritten_memory_reads_zero() {
    let mut m = RamMachine::<B64, 8>::new(64).unwrap();
    assert!(m.read(1000).is_zero());
    m.write(3, B64::from_u64(0x0102_0304_0506_0708));
    assert_eq!(m.read(3), B64::from_u64(0x0102_0304_0506_0708));
    assert_eq!(m.read(4).to_bytes(), [2, 3, 4, 5, 6, 7, 8, 0]);
}

#[test]
fn later_write_overwrites() {
    let mut m = RamMachine::<B16, 2>::new(16).unwrap();
    m.write(0, B16::from_u64(0xaaaa));
    m.write(1, B16::from_u64(0xbbcc));
    assert_eq!(m.read(0).to_bytes(), [0xaa, 0xbb]);
    assert_eq!(m.read(1).to_bytes(), [0xbb, 0xcc]);
}

#[test]
fn wrong_word_size_fails_construction() {
    assert_eq!(RamMachine::<B256, 32>::new(128).err(), Some(MachineError::WordSizeMismatch));
    assert_eq!(RamMachine::<B128, 16>::new(256).err(), Some(MachineError::WordSizeMismatch));
    assert_eq!(RamMachine::<B64, 8>::new(32).err(), Some(MachineError::WordSizeMismatch));
    assert_eq!(RamMachine::<B32, 4>::new(64).err(), Some(MachineError::WordSizeMismatch));
    assert_eq!(RamMachine::<B16, 2>::new(0).err(), Some(MachineError::WordSizeMismatch));
    assert!(RamMachine::<B256, 32>::new(256).is_ok());
    assert!(RamMachine::<B128, 16>::new(128).is_ok());
    assert!(RamMachine::<B64, 8>::new(64).is_ok());
    assert!(RamMachine::<B16, 2>::new(16).is_ok());
    assert_eq!(RamMachine::<B32, 4>::new(32).unwrap().word_size(), 32);
}

#[test]
fn every_access_is_logged_in_time_order() {
    let mut m = RamMachine::<B32, 4>::new(32).unwrap();
    m.write(8, B32::from_u64(77));
    let v = m.read(8);
    m.write(0, B32::from_u64(1));
    let trace = m.trace_records();
    assert_eq!(trace.len(), 3);
    assert_eq!(trace[0].time_log, 0);
    assert_eq!(trace[1].time_log, 1);
    assert_eq!(trace[2].time_log, 2);
    assert_eq!(trace[0].instruction, MemoryInstruction::Write);
    assert_eq!(trace[1].instruction, MemoryInstruction::Read);
    assert_eq!(trace[1].address, 8);
    assert_eq!(trace[1].value, v);
    assert_eq!(v, B32::from_u64(77));
}
