//! A minimal simulated processor on top of the virtual memory: it fetches
//! little-endian instruction words at the program counter and executes the
//! handful of operations the emulator knows.

use vstd::prelude::*;

use crate::vm;
use crate::vm::{
    bytes_at, read_required, seg_index_of, segs_mapped, slice_in_bounds, VirtualMemory,
};

verus! {

/// The fault a machine step can report.
#[derive(Debug)]
pub enum Error {
    Memory(vm::Error),
}

/// What one executed instruction asks of the surrounding run loop: go on,
/// end the simulated process with the exit status held in the argument
/// register, or stop at an instruction the machine does not implement.
#[derive(Clone, Copy, Debug, PartialEq, Eq, Structural)]
pub enum Step {
    Continue,
    Exit(u64),
    Unsupported(u32),
}

/// The little-endian 32-bit word formed by four bytes.
pub open spec fn word_le(b: Seq<u8>) -> u32 {
    (b[0] as u32) | ((b[1] as u32) << 8) | ((b[2] as u32) << 16) | ((b[3] as u32) << 24)
}

/// The opcode field of an instruction word.
pub open spec fn opcode_of(instr: u32) -> u32 {
    instr & 0b111_1111
}

/// The funct3 field of an instruction word.
pub open spec fn funct3_of(instr: u32) -> u32 {
    (instr >> 12) & 0b111
}

/// The 12-bit immediate field of an instruction word.
pub open spec fn imm_of(instr: u32) -> u32 {
    instr >> 20
}

/// The destination register index of an instruction word.
pub open spec fn rd_of(instr: u32) -> int {
    ((instr >> 7) & 0b1_1111) as int
}

/// The first source register index of an instruction word.
pub open spec fn rs1_of(instr: u32) -> int {
    ((instr >> 15) & 0b1_1111) as int
}

/// An add-immediate instruction.
pub open spec fn is_addi(instr: u32) -> bool {
    funct3_of(instr) == 0 && opcode_of(instr) == 0b001_0011
}

/// An environment call.
pub open spec fn is_ecall(instr: u32) -> bool {
    funct3_of(instr) == 0 && opcode_of(instr) == 0b111_0011 && imm_of(instr) == 0
}

/// The simulated machine: its memory, its register file, and the program
/// counter.
#[derive(Debug)]
pub struct Machine {
    pub memory: VirtualMemory,
    pub registers: [u64; 32],
    pub pc: u64,
}

impl Machine {
    /// The memory's non-overlap invariant, carried by the machine.
    pub open spec fn wf(&self) -> bool {
        self.memory.wf()
    }

    /// The little-endian word at the current program counter, through the
    /// slice-read path: only the read capability is enforced.
    pub fn read_word(&self, address: u64) -> (r: Result<u32, Error>)
        requires
            self.wf(),
        ensures
            ({
                let segs = self.memory@;
                let pcu = self.pc as usize;
                let a = pcu as int;
                if !segs_mapped(segs, a) {
                    r == Err::<u32, Error>(Error::Memory(vm::Error::UnmappedAddress(pcu)))
                } else {
                    let s = segs[seg_index_of(segs, a)];
                    if !s.protection.permits(read_required()) {
                        r == Err::<u32, Error>(
                            Error::Memory(
                                vm::Error::Protection {
                                    addr: pcu,
                                    available: s.protection,
                                    required: read_required(),
                                },
                            ),
                        )
                    } else if !slice_in_bounds(segs, a, 4) {
                        r == Err::<u32, Error>(
                            Error::Memory(vm::Error::SliceOutOfBounds { addr: pcu, len: 4 }),
                        )
                    } else {
                        r == Ok::<u32, Error>(word_le(bytes_at(segs, a, 4)))
                    }
                }
            }),
    {
        let buf = match self.memory.read_slice(self.pc as usize, 4) {
            Ok(b) => b,
            Err(e) => {
                return Err(Error::Memory(e));
            },
        };
        proof {
            assert(buf@.len() == 4);
        }
        let word = (buf[0] as u32) | ((buf[1] as u32) << 8) | ((buf[2] as u32) << 16) | ((buf[3]
            as u32) << 24);
        Ok(word)
    }

    /// Fetch the instruction at the program counter; only 32-bit instructions
    /// are supported.
    pub fn fetch_instruction(&self) -> (r: Result<u32, Error>)
        requires
            self.wf(),
        ensures
            ({
                let segs = self.memory@;
                let pcu = self.pc as usize;
                let a = pcu as int;
                if !segs_mapped(segs, a) {
                    r == Err::<u32, Error>(Error::Memory(vm::Error::UnmappedAddress(pcu)))
                } else {
                    let s = segs[seg_index_of(segs, a)];
                    if !s.protection.permits(read_required()) {
                        r == Err::<u32, Error>(
                            Error::Memory(
                                vm::Error::Protection {
                                    addr: pcu,
                                    available: s.protection,
                                    required: read_required(),
                                },
                            ),
                        )
                    } else if !slice_in_bounds(segs, a, 4) {
                        r == Err::<u32, Error>(
                            Error::Memory(vm::Error::SliceOutOfBounds { addr: pcu, len: 4 }),
                        )
                    } else {
                        r == Ok::<u32, Error>(word_le(bytes_at(segs, a, 4)))
                    }
                }
            }),
    {
        let word = match self.read_word(self.pc) {
            Ok(w) => w,
            Err(e) => {
                return Err(e);
            },
        };
        Ok(word)
    }

    /// Fetch and execute one instruction: an add-immediate updates the
    /// destination register and advances the program counter; an environment
    /// call with 93 in the call-number register asks the run loop to end the
    /// process with the status in the argument register; everything else is
    /// reported unsupported and leaves the machine unchanged, as does a fetch
    /// fault.
    pub fn cycle(&mut self) -> (r: Result<Step, Error>)
        requires
            old(self).wf(),
            old(self).pc + 4 <= u64::MAX,
        ensures
            final(self).wf(),
            final(self).memory == old(self).memory,
            ({
                let segs = old(self).memory@;
                let pcu = old(self).pc as usize;
                let a = pcu as int;
                if !segs_mapped(segs, a) {
                    r == Err::<Step, Error>(Error::Memory(vm::Error::UnmappedAddress(pcu)))
                        && *final(self) == *old(self)
                } else {
                    let s = segs[seg_index_of(segs, a)];
                    if !s.protection.permits(read_required()) {
                        r == Err::<Step, Error>(
                            Error::Memory(
                                vm::Error::Protection {
                                    addr: pcu,
                                    available: s.protection,
                                    required: read_required(),
                                },
                            ),
                        ) && *final(self) == *old(self)
                    } else if !slice_in_bounds(segs, a, 4) {
                        r == Err::<Step, Error>(
                            Error::Memory(vm::Error::SliceOutOfBounds { addr: pcu, len: 4 }),
                        ) && *final(self) == *old(self)
                    } else {
                        let instr = word_le(bytes_at(segs, a, 4));
                        if is_addi(instr) {
                            &&& r == Ok::<Step, Error>(Step::Continue)
                            &&& final(self).pc == old(self).pc + 4
                            &&& final(self).registers@ == old(self).registers@.update(
                                rd_of(instr),
                                old(self).registers@[rs1_of(instr)].wrapping_add(
                                    imm_of(instr) as u64,
                                ),
                            )
                        } else if is_ecall(instr) && old(self).registers@[17] == 93 {
                            &&& r == Ok::<Step, Error>(Step::Exit(old(self).registers@[10]))
                            &&& *final(self) == *old(self)
                        } else {
                            &&& r == Ok::<Step, Error>(Step::Unsupported(instr))
                            &&& *final(self) == *old(self)
                        }
                    }
                }
            }),
    {
        let instruction = match self.fetch_instruction() {
            Ok(i) => i,
            Err(e) => {
                return Err(e);
            },
        };

        let opcode = instruction & 0b111_1111;
        let funct3 = (instruction >> 12) & 0b111;
        let imm11_0 = instruction >> 20;
        let rd = ((instruction >> 7) & 0b1_1111) as usize;
        let rs1 = ((instruction >> 15) & 0b1_1111) as usize;
        proof {
            assert(((instruction >> 7) & 0b1_1111) < 32 && ((instruction >> 15) & 0b1_1111) < 32)
                by (bit_vector);
        }

        if funct3 == 0 && opcode == 0b001_0011 {
            // add immediate
            let sum = self.registers[rs1].wrapping_add(imm11_0 as u64);
            self.registers[rd] = sum;
            self.pc = self.pc + 4;
            Ok(Step::Continue)
        } else if funct3 == 0 && opcode == 0b111_0011 && imm11_0 == 0 {
            // environment call: 93 is the process-exit call
            if self.registers[17] == 93 {
                Ok(Step::Exit(self.registers[10]))
            } else {
                Ok(Step::Unsupported(instruction))
            }
        } else {
            Ok(Step::Unsupported(instruction))
        }
    }
}

} // verus!
