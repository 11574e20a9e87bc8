//! A byte-addressable RAM whose words may sit at any offset, and the trace
//! of its accesses.
use crate::base::{be_encode, be_value, Base};
use std::collections::HashMap;
use vstd::prelude::*;

verus! {

broadcast use vstd::std_specs::hash::group_hash_axioms;

/// The kind of a memory access.
#[derive(Clone, Copy, PartialEq, Eq, Debug)]
pub enum MemoryInstruction {
    Read,
    Write,
}

/// One logged access: where, when, which kind, and the word moved.
#[derive(Clone, Copy, PartialEq, Eq, Debug)]
pub struct TraceRecord<V> {
    pub address: u64,
    pub time_log: u64,
    pub instruction: MemoryInstruction,
    pub value: V,
}

/// Why a machine cannot be built.
#[derive(Clone, Copy, PartialEq, Eq, Debug)]
pub enum MachineError {
    /// The word size asked for is not the bit width of the value type.
    WordSizeMismatch,
}

/// A RAM of bytes that moves words of `S` bytes (values of type `V`) at any
/// byte offset, and records every access.
pub struct RamMachine<V, const S: usize> {
    memory: HashMap<u64, u8>,
    word_size: usize,
    time_log: u64,
    trace: Vec<TraceRecord<V>>,
}

/// The `n` bytes of `byte` from offset `address` on.
pub open spec fn bytes_from(byte: spec_fn(int) -> u8, address: int, n: nat) -> Seq<u8> {
    Seq::new(n, |k: int| byte(address + k))
}

impl<V: Base<S>, const S: usize> RamMachine<V, S> {
    /// The byte at offset `a`: what was last written there, else zero.
    pub closed spec fn byte(&self, a: int) -> u8 {
        if 0 <= a <= u64::MAX && self.memory@.contains_key(a as u64) {
            self.memory@[a as u64]
        } else {
            0
        }
    }

    /// All bytes of the memory, by offset.
    pub open spec fn bytes(&self) -> spec_fn(int) -> u8 {
        |a: int| self.byte(a)
    }

    /// The accesses so far, oldest first.
    pub closed spec fn trace(&self) -> Seq<TraceRecord<V>> {
        self.trace@
    }

    /// The number of bits that one access moves.
    pub closed spec fn word_size_bits(&self) -> nat {
        self.word_size as nat
    }

    /// The machine's invariant: words of `S` bytes, and the `i`-th access
    /// logged at time `i`.
    pub closed spec fn wf(&self) -> bool {
        &&& self.word_size == 8 * S
        &&& self.time_log as nat == self.trace@.len()
        &&& forall|i: int| 0 <= i < self.trace@.len() ==> #[trigger] self.trace@[i].time_log == i
    }

    /// The `i`-th access of a well-formed machine is logged at time `i`.
    pub proof fn lemma_time_logs(&self)
        requires
            self.wf(),
        ensures
            forall|i: int| 0 <= i < self.trace().len() ==> #[trigger] self.trace()[i].time_log == i,
    {
    }

    /// A machine whose memory is all zero and whose trace is empty. It moves
    /// `word_size_bits / 8` bytes per access, and is refused unless
    /// `word_size_bits` is the bit width of `V`.
    pub fn new(word_size_bits: usize) -> (r: Result<Self, MachineError>)
        ensures
            r is Err <==> word_size_bits != 8 * S,
            r matches Err(e) ==> e == MachineError::WordSizeMismatch,
            r matches Ok(m) ==> {
                &&& m.wf()
                &&& m.word_size_bits() == word_size_bits
                &&& m.trace().len() == 0
                &&& forall|a: int| #[trigger] m.byte(a) == 0
            },
    {
        if S > usize::MAX / 8 || word_size_bits != 8 * S {
            return Err(MachineError::WordSizeMismatch);
        }
        Ok(RamMachine { memory: HashMap::new(), word_size: word_size_bits, time_log: 0, trace: Vec::new() })
    }

    /// The number of bits that one access moves.
    pub fn word_size(&self) -> (r: usize)
        ensures
            r == self.word_size_bits(),
    {
        self.word_size
    }

    /// The accesses so far, oldest first.
    pub fn trace_records(&self) -> (r: &Vec<TraceRecord<V>>)
        ensures
            r@ == self.trace(),
    {
        &self.trace
    }

    fn get_byte(&self, a: u64) -> (r: u8)
        ensures
            r == self.byte(a as int),
    {
        match self.memory.get(&a) {
            Some(b) => *b,
            None => 0,
        }
    }

    /// Stores the `S` big-endian bytes of `value` at offsets
    /// `address .. address + S`, whatever their alignment, and logs the write.
    pub fn write(&mut self, address: u64, value: V)
        requires
            old(self).wf(),
            address + S <= u64::MAX + 1,
            old(self).trace().len() < u64::MAX,
        ensures
            final(self).wf(),
            final(self).word_size_bits() == old(self).word_size_bits(),
            forall|a: int|
                #[trigger] final(self).byte(a) == if address <= a < address + S {
                    be_encode(value.value(), S as nat)[a - address]
                } else {
                    old(self).byte(a)
                },
            final(self).trace() == old(self).trace().push(
                (TraceRecord {
                    address,
                    time_log: old(self).trace().len() as u64,
                    instruction: MemoryInstruction::Write,
                    value,
                }),
            ),
    {
        let bytes = value.to_bytes();
        let ghost before = *self;
        let mut i: usize = 0;
        while i < S
            invariant
                self.wf(),
                self.word_size == before.word_size,
                self.trace@ == before.trace@,
                self.time_log == before.time_log,
                address + S <= u64::MAX + 1,
                i <= S,
                bytes@ == be_encode(value.value(), S as nat),
                forall|a: int|
                    #[trigger] self.byte(a) == if address <= a < address + i {
                        bytes@[a - address]
                    } else {
                        before.byte(a)
                    },
            decreases S - i,
        {
            let ghost prev = *self;
            let key = address + i as u64;
            self.memory.insert(key, bytes[i]);
            proof {
                assert(self.memory@ == prev.memory@.insert(key, bytes@[i as int]));
                assert forall|a: int|
                    #[trigger] self.byte(a) == if address <= a < address + i + 1 {
                        bytes@[a - address]
                    } else {
                        before.byte(a)
                    } by {
                    if a != key as int {
                        assert(self.byte(a) == prev.byte(a));
                    }
                }
            }
            i = i + 1;
        }
        let ghost mid = *self;
        let record = TraceRecord {
            address,
            time_log: self.time_log,
            instruction: MemoryInstruction::Write,
            value,
        };
        self.trace.push(record);
        self.time_log = self.time_log + 1;
        assert forall|a: int| #[trigger] self.byte(a) == mid.byte(a) by {}
    }

    /// The word whose `S` big-endian bytes sit at offsets
    /// `address .. address + S` (bytes never written read as zero); the read
    /// is logged and the memory is left as it was.
    pub fn read(&mut self, address: u64) -> (r: V)
        requires
            old(self).wf(),
            address + S <= u64::MAX + 1,
            old(self).trace().len() < u64::MAX,
        ensures
            r.value() == be_value(bytes_from(old(self).bytes(), address as int, S as nat)),
            final(self).wf(),
            final(self).word_size_bits() == old(self).word_size_bits(),
            forall|a: int| #[trigger] final(self).byte(a) == old(self).byte(a),
            final(self).trace() == old(self).trace().push(
                (TraceRecord {
                    address,
                    time_log: old(self).trace().len() as u64,
                    instruction: MemoryInstruction::Read,
                    value: r,
                }),
            ),
    {
        let mut bytes = [0u8; S];
        let mut i: usize = 0;
        while i < S
            invariant
                address + S <= u64::MAX + 1,
                i <= S,
                bytes@.len() == S,
                forall|k: int| 0 <= k < i ==> bytes@[k] == self.byte(address + k),
            decreases S - i,
        {
            let b = self.get_byte(address + i as u64);
            bytes.set(i, b);
            i = i + 1;
        }
        assert(bytes@ =~= bytes_from(self.bytes(), address as int, S as nat));
        let value = V::from_bytes(bytes);
        let record = TraceRecord {
            address,
            time_log: self.time_log,
            instruction: MemoryInstruction::Read,
            value,
        };
        self.trace.push(record);
        self.time_log = self.time_log + 1;
        value
    }
}

} // verus!
