//! The CPU engine: a fetch-decode-execute loop over a cached instruction
//! block, with logical-to-physical address translation for data accesses.
//! Data reads and writes go straight to main memory, which serializes
//! them exactly as a request/reply channel would.  The meaning of every
//! instruction is fixed by a small-step interpreter over mathematical
//! machine states, and the engine is proved to follow it.

use vstd::prelude::*;

verus! {

use crate::{MEMORY_SIZE, NUM_REGISTERS};
use crate::instruction::{
    DecodedInstruction,
    INSTR_TYPE_ARITHMETIC,
    INSTR_TYPE_COND_BRANCH_IMMEDIATE,
    INSTR_TYPE_UNCOND_JUMP,
    decode,
    spec_address,
    spec_instr_type,
    spec_jump_address,
    spec_opcode,
    spec_reg1,
    spec_reg2,
    spec_reg3,
};
use crate::memory::Memory;
use crate::pcb::{ProcessControlBlock, ProcessState};
use crate::words::copy_words;

/// Ways an instruction can go wrong.  Any of them aborts the running
/// simulation.
#[derive(Clone, Copy, Debug, PartialEq, Eq, Structural)]
pub enum ExecutionFault {
    /// The program counter left the cached instruction block.
    ProgramCounterOutOfRange,
    /// The opcode is not defined for the instruction type.
    InvalidOpcode,
    /// An add, subtract or multiply left the 32-bit range.
    ArithmeticOverflow,
    /// A divide with a zero divisor.
    DivideByZero,
    /// A data access outside main memory.
    MemoryOutOfRange,
    /// The cycle budget ran out before the process interrupted.
    CycleLimitExceeded,
}

/// The registers, counters and signal flags of the engine, as
/// mathematical values.
#[verifier::ext_equal]
pub struct CpuState {
    pub cache: Seq<u32>,
    pub program_counter: int,
    pub mem_start_address: int,
    pub registers: Seq<u32>,
    pub interrupted: bool,
    pub interrupt_type: ProcessState,
}

/// Engine state together with the contents of main memory.
#[verifier::ext_equal]
pub struct MachineState {
    pub cpu: CpuState,
    pub memory: Seq<u32>,
}

/// Result of executing one instruction that cannot touch memory.
pub enum CpuStepOutcome {
    NextCpu(CpuState),
    FaultCpu(ExecutionFault),
}

/// Result of one machine step.
pub enum StepOutcome {
    Next(MachineState),
    Fault(ExecutionFault),
}

/// Result of running until an interrupt.
pub enum RunOutcome {
    Interrupted(MachineState),
    Faulted(ExecutionFault),
    OutOfCycles,
}

/// Meaning of one arithmetic instruction.
pub open spec fn spec_execute_arithmetic(
    c: CpuState,
    op: u32,
    r1: int,
    r2: int,
    r3: int,
) -> CpuStepOutcome {
    let a = c.registers[r1];
    let b = c.registers[r2];
    if op == 0x04 {
        CpuStepOutcome::NextCpu(CpuState { registers: c.registers.update(r1, b), ..c })
    } else if op == 0x05 {
        if a + b > u32::MAX {
            CpuStepOutcome::FaultCpu(ExecutionFault::ArithmeticOverflow)
        } else {
            CpuStepOutcome::NextCpu(
                CpuState { registers: c.registers.update(r3, (a + b) as u32), ..c },
            )
        }
    } else if op == 0x06 {
        if a < b {
            CpuStepOutcome::FaultCpu(ExecutionFault::ArithmeticOverflow)
        } else {
            CpuStepOutcome::NextCpu(
                CpuState { registers: c.registers.update(r3, (a - b) as u32), ..c },
            )
        }
    } else if op == 0x07 {
        if a * b > u32::MAX {
            CpuStepOutcome::FaultCpu(ExecutionFault::ArithmeticOverflow)
        } else {
            CpuStepOutcome::NextCpu(
                CpuState { registers: c.registers.update(r3, (a * b) as u32), ..c },
            )
        }
    } else if op == 0x08 {
        if b == 0 {
            CpuStepOutcome::FaultCpu(ExecutionFault::DivideByZero)
        } else {
            CpuStepOutcome::NextCpu(
                CpuState { registers: c.registers.update(r3, (a as int / b as int) as u32), ..c },
            )
        }
    } else if op == 0x09 {
        CpuStepOutcome::NextCpu(CpuState { registers: c.registers.update(r3, a & b), ..c })
    } else if op == 0x0A {
        CpuStepOutcome::NextCpu(CpuState { registers: c.registers.update(r3, a | b), ..c })
    } else if op == 0x10 {
        let flag: u32 = if a < b {
            1
        } else {
            0
        };
        CpuStepOutcome::NextCpu(CpuState { registers: c.registers.update(r3, flag), ..c })
    } else {
        CpuStepOutcome::FaultCpu(ExecutionFault::InvalidOpcode)
    }
}

/// Physical word index of a data access: the byte address divided by four
/// plus the process's base.
pub open spec fn spec_data_address(base: int, byte_address: int) -> int {
    byte_address / 4 + base
}

/// Meaning of one conditional-branch or immediate instruction.
pub open spec fn spec_execute_cond_branch_immediate(
    s: MachineState,
    op: u32,
    r1: int,
    r2: int,
    address: int,
) -> StepOutcome {
    let c = s.cpu;
    let a = c.registers[r1];
    let b = c.registers[r2];
    if op == 0x02 {
        let target = if r2 == 0 {
            spec_data_address(c.mem_start_address, address)
        } else {
            spec_data_address(c.mem_start_address, b as int)
        };
        if 0 <= target < s.memory.len() {
            StepOutcome::Next(MachineState { memory: s.memory.update(target, a), ..s })
        } else {
            StepOutcome::Fault(ExecutionFault::MemoryOutOfRange)
        }
    } else if op == 0x03 {
        let target = if r1 == 0 {
            spec_data_address(c.mem_start_address, address)
        } else {
            spec_data_address(c.mem_start_address, a as int)
        };
        if 0 <= target < s.memory.len() {
            StepOutcome::Next(
                MachineState {
                    cpu: CpuState { registers: c.registers.update(r2, s.memory[target]), ..c },
                    ..s
                },
            )
        } else {
            StepOutcome::Fault(ExecutionFault::MemoryOutOfRange)
        }
    } else if op == 0x0B {
        StepOutcome::Next(
            MachineState {
                cpu: CpuState { registers: c.registers.update(r2, address as u32), ..c },
                ..s
            },
        )
    } else if op == 0x0C {
        if b + address > u32::MAX {
            StepOutcome::Fault(ExecutionFault::ArithmeticOverflow)
        } else {
            StepOutcome::Next(
                MachineState {
                    cpu: CpuState { registers: c.registers.update(r2, (b + address) as u32), ..c },
                    ..s
                },
            )
        }
    } else if op == 0x0D {
        if b * address > u32::MAX {
            StepOutcome::Fault(ExecutionFault::ArithmeticOverflow)
        } else {
            StepOutcome::Next(
                MachineState {
                    cpu: CpuState { registers: c.registers.update(r2, (b * address) as u32), ..c },
                    ..s
                },
            )
        }
    } else if op == 0x0E {
        if address == 0 {
            StepOutcome::Fault(ExecutionFault::DivideByZero)
        } else {
            StepOutcome::Next(
                MachineState {
                    cpu: CpuState {
                        registers: c.registers.update(r2, (b as int / address) as u32),
                        ..c
                    },
                    ..s
                },
            )
        }
    } else if op == 0x0F {
        StepOutcome::Next(
            MachineState {
                cpu: CpuState { registers: c.registers.update(r2, address as u32), ..c },
                ..s
            },
        )
    } else if op == 0x11 {
        let flag: u32 = if (b as int) < address {
            1
        } else {
            0
        };
        StepOutcome::Next(
            MachineState { cpu: CpuState { registers: c.registers.update(r1, flag), ..c }, ..s },
        )
    } else if op == 0x15 {
        StepOutcome::Next(spec_branch_if(s, a == b, address))
    } else if op == 0x16 {
        StepOutcome::Next(spec_branch_if(s, a != b, address))
    } else if op == 0x17 {
        StepOutcome::Next(spec_branch_if(s, a == 0, address))
    } else if op == 0x18 {
        StepOutcome::Next(spec_branch_if(s, a != 0, address))
    } else if op == 0x19 {
        StepOutcome::Next(spec_branch_if(s, a > 0, address))
    } else if op == 0x1A {
        // Branch if less than zero: never taken on unsigned registers.
        StepOutcome::Next(s)
    } else {
        StepOutcome::Fault(ExecutionFault::InvalidOpcode)
    }
}

/// A taken branch retargets the program counter at a word index inside
/// the instruction cache; byte addresses are divided by four.
pub open spec fn spec_branch_if(s: MachineState, taken: bool, address: int) -> MachineState {
    if taken {
        MachineState { cpu: CpuState { program_counter: address / 4, ..s.cpu }, ..s }
    } else {
        s
    }
}

/// Meaning of one unconditional jump instruction.
pub open spec fn spec_execute_uncond_jump(c: CpuState, op: u32, address: int) -> CpuStepOutcome {
    if op == 0x12 {
        CpuStepOutcome::NextCpu(
            CpuState { interrupted: true, interrupt_type: ProcessState::Terminated, ..c },
        )
    } else if op == 0x14 {
        CpuStepOutcome::NextCpu(CpuState { program_counter: address / 4, ..c })
    } else {
        CpuStepOutcome::FaultCpu(ExecutionFault::InvalidOpcode)
    }
}

/// Meaning of one I/O instruction: reads and writes route through main
/// memory at the translated address.
pub open spec fn spec_execute_io(
    s: MachineState,
    op: u32,
    r1: int,
    r2: int,
    address: int,
) -> StepOutcome {
    let c = s.cpu;
    let target = if r2 == 0 {
        spec_data_address(c.mem_start_address, address)
    } else {
        spec_data_address(c.mem_start_address, c.registers[r2] as int)
    };
    if op == 0x00 {
        if 0 <= target < s.memory.len() {
            StepOutcome::Next(
                MachineState {
                    cpu: CpuState { registers: c.registers.update(r1, s.memory[target]), ..c },
                    ..s
                },
            )
        } else {
            StepOutcome::Fault(ExecutionFault::MemoryOutOfRange)
        }
    } else if op == 0x01 {
        if 0 <= target < s.memory.len() {
            StepOutcome::Next(
                MachineState { memory: s.memory.update(target, c.registers[r1]), ..s },
            )
        } else {
            StepOutcome::Fault(ExecutionFault::MemoryOutOfRange)
        }
    } else {
        StepOutcome::Fault(ExecutionFault::InvalidOpcode)
    }
}

/// Meaning of one fetched instruction word (the program counter has
/// already moved past it).
pub open spec fn spec_execute(s: MachineState, w: u32) -> StepOutcome {
    if spec_opcode(w) == 0x13 {
        // No-op, whatever the instruction type.
        StepOutcome::Next(s)
    } else if spec_instr_type(w) == INSTR_TYPE_ARITHMETIC {
        match spec_execute_arithmetic(
            s.cpu,
            spec_opcode(w),
            spec_reg1(w) as int,
            spec_reg2(w) as int,
            spec_reg3(w) as int,
        ) {
            CpuStepOutcome::NextCpu(c) => StepOutcome::Next(MachineState { cpu: c, ..s }),
            CpuStepOutcome::FaultCpu(f) => StepOutcome::Fault(f),
        }
    } else if spec_instr_type(w) == INSTR_TYPE_COND_BRANCH_IMMEDIATE {
        spec_execute_cond_branch_immediate(
            s,
            spec_opcode(w),
            spec_reg1(w) as int,
            spec_reg2(w) as int,
            spec_address(w) as int,
        )
    } else if spec_instr_type(w) == INSTR_TYPE_UNCOND_JUMP {
        match spec_execute_uncond_jump(s.cpu, spec_opcode(w), spec_jump_address(w) as int) {
            CpuStepOutcome::NextCpu(c) => StepOutcome::Next(MachineState { cpu: c, ..s }),
            CpuStepOutcome::FaultCpu(f) => StepOutcome::Fault(f),
        }
    } else {
        spec_execute_io(
            s,
            spec_opcode(w),
            spec_reg1(w) as int,
            spec_reg2(w) as int,
            spec_address(w) as int,
        )
    }
}

/// One machine step: fetch the word under the program counter, advance
/// the counter, and execute.
pub open spec fn spec_step(s: MachineState) -> StepOutcome {
    if !(0 <= s.cpu.program_counter < s.cpu.cache.len()) {
        StepOutcome::Fault(ExecutionFault::ProgramCounterOutOfRange)
    } else {
        spec_execute(
            MachineState {
                cpu: CpuState { program_counter: s.cpu.program_counter + 1, ..s.cpu },
                ..s
            },
            s.cpu.cache[s.cpu.program_counter],
        )
    }
}

/// Stepping until the engine raises an interrupt, with a cycle budget.
pub open spec fn spec_run(s: MachineState, fuel: nat) -> RunOutcome
    decreases fuel,
{
    if s.cpu.interrupted {
        RunOutcome::Interrupted(s)
    } else if fuel == 0 {
        RunOutcome::OutOfCycles
    } else {
        match spec_step(s) {
            StepOutcome::Next(s1) => spec_run(s1, (fuel - 1) as nat),
            StepOutcome::Fault(f) => RunOutcome::Faulted(f),
        }
    }
}

/// The engine state right after a process descriptor is loaded: its
/// instruction region cached out of memory, its counter and registers
/// restored, and the interrupt cleared so the fetch-execute loop runs.
pub open spec fn spec_loaded_cpu(
    pcb: ProcessControlBlock,
    data: Seq<u32>,
    interrupt_type: ProcessState,
) -> CpuState {
    CpuState {
        cache: data.subrange(pcb.mem_start_address as int, pcb.mem_in_start_address as int),
        program_counter: pcb.program_counter as int,
        mem_start_address: pcb.mem_start_address as int,
        registers: pcb.registers@,
        interrupted: false,
        interrupt_type,
    }
}

/// The CPU engine.  It starts in the interrupted condition, ready to
/// accept its first process.
pub struct Cpu {
    pub cache: Vec<u32>,
    pub program_counter: usize,
    pub mem_start_address: usize,
    pub registers: Vec<u32>,
    pub proc_should_interrupt: bool,
    pub proc_interrupt_type: ProcessState,
}

impl Cpu {
    pub open spec fn wf(self) -> bool {
        &&& self.registers@.len() == NUM_REGISTERS
        &&& self.mem_start_address <= MEMORY_SIZE
    }

    /// The engine state as mathematical values.
    pub open spec fn state(self) -> CpuState {
        CpuState {
            cache: self.cache@,
            program_counter: self.program_counter as int,
            mem_start_address: self.mem_start_address as int,
            registers: self.registers@,
            interrupted: self.proc_should_interrupt,
            interrupt_type: self.proc_interrupt_type,
        }
    }

    /// The engine together with main memory.
    pub open spec fn machine(self, memory: Memory) -> MachineState {
        MachineState { cpu: self.state(), memory: memory.data@ }
    }

    pub fn new() -> (r: Cpu)
        ensures
            r.wf(),
            r.state() == (CpuState {
                cache: Seq::<u32>::empty(),
                program_counter: 0,
                mem_start_address: 0,
                registers: Seq::new(NUM_REGISTERS as nat, |i: int| 0u32),
                interrupted: true,
                interrupt_type: ProcessState::Terminated,
            }),
    {
        let r = Cpu {
            cache: Vec::new(),
            program_counter: 0,
            mem_start_address: 0,
            registers: crate::words::zero_words(NUM_REGISTERS),
            proc_should_interrupt: true,
            proc_interrupt_type: ProcessState::Terminated,
        };
        proof {
            assert(r.state() =~= CpuState {
                cache: Seq::<u32>::empty(),
                program_counter: 0,
                mem_start_address: 0,
                registers: Seq::new(NUM_REGISTERS as nat, |i: int| 0u32),
                interrupted: true,
                interrupt_type: ProcessState::Terminated,
            });
        }
        r
    }

    /// The register file, for the dispatcher to save into a descriptor.
    pub fn get_registers(&self) -> (r: &Vec<u32>)
        ensures
            r@ == self.registers@,
    {
        &self.registers
    }

    /// The program counter, for the dispatcher to save into a descriptor.
    pub fn get_program_counter(&self) -> (r: usize)
        ensures
            r == self.program_counter,
    {
        self.program_counter
    }

    fn get_reg(&self, reg_num: usize) -> (r: u32)
        requires
            self.wf(),
            reg_num < NUM_REGISTERS,
        ensures
            r == self.registers@[reg_num as int],
    {
        self.registers[reg_num]
    }

    fn set_reg(&mut self, reg_num: usize, value: u32)
        requires
            old(self).wf(),
            reg_num < NUM_REGISTERS,
        ensures
            final(self).registers@ == old(self).registers@.update(reg_num as int, value),
            *final(self) == (Cpu { registers: final(self).registers, ..*old(self) }),
    {
        self.registers[reg_num] = value;
    }

    /// Loads a process onto the engine: caches its instruction region,
    /// restores its counter and registers, and clears the interrupt so
    /// the fetch-execute loop may run.
    pub fn execute_process(&mut self, memory: &Memory, pcb: &ProcessControlBlock)
        requires
            old(self).wf(),
            memory.wf(),
            pcb.wf(),
        ensures
            final(self).wf(),
            final(self).state() == spec_loaded_cpu(
                *pcb,
                memory.data@,
                old(self).proc_interrupt_type,
            ),
    {
        self.cache = memory.read_block_from(
            pcb.get_mem_start_address(),
            pcb.get_mem_in_start_address(),
        );
        self.program_counter = pcb.program_counter;
        self.mem_start_address = pcb.get_mem_start_address();
        let n = pcb.registers.len();
        self.registers = copy_words(&pcb.registers, 0, n);
        self.proc_should_interrupt = false;
        proof {
            assert(pcb.registers@.subrange(0, pcb.registers@.len() as int) =~= pcb.registers@);
            assert(final(self).state() =~= spec_loaded_cpu(
                *pcb,
                memory.data@,
                old(self).proc_interrupt_type,
            ));
        }
    }

    fn execute_arithmetic(&mut self, instruction: &DecodedInstruction) -> (r: Result<
        (),
        ExecutionFault,
    >)
        requires
            old(self).wf(),
            instruction.reg_1_num < NUM_REGISTERS,
            instruction.reg_2_num < NUM_REGISTERS,
            instruction.reg_3_num < NUM_REGISTERS,
        ensures
            final(self).wf(),
            match spec_execute_arithmetic(
                old(self).state(),
                instruction.opcode as u32,
                instruction.reg_1_num as int,
                instruction.reg_2_num as int,
                instruction.reg_3_num as int,
            ) {
                CpuStepOutcome::NextCpu(c) => r is Ok && final(self).state() == c,
                CpuStepOutcome::FaultCpu(f) => r == Err::<(), ExecutionFault>(f) && *final(self)
                    == *old(self),
            },
    {
        let op = instruction.opcode;
        let a = self.get_reg(instruction.reg_1_num);
        let b = self.get_reg(instruction.reg_2_num);
        if op == 0x04 {
            self.set_reg(instruction.reg_1_num, b);
        } else if op == 0x05 {
            if b > u32::MAX - a {
                return Err(ExecutionFault::ArithmeticOverflow);
            }
            self.set_reg(instruction.reg_3_num, a + b);
        } else if op == 0x06 {
            if a < b {
                return Err(ExecutionFault::ArithmeticOverflow);
            }
            self.set_reg(instruction.reg_3_num, a - b);
        } else if op == 0x07 {
            proof {
                assert(a as int * b as int <= u32::MAX as int * u32::MAX as int)
                    by (nonlinear_arith)
                    requires
                        a <= u32::MAX,
                        b <= u32::MAX,
                ;
            }
            let product = a as u64 * b as u64;
            if product > u32::MAX as u64 {
                return Err(ExecutionFault::ArithmeticOverflow);
            }
            self.set_reg(instruction.reg_3_num, product as u32);
        } else if op == 0x08 {
            if b == 0 {
                return Err(ExecutionFault::DivideByZero);
            }
            self.set_reg(instruction.reg_3_num, a / b);
        } else if op == 0x09 {
            self.set_reg(instruction.reg_3_num, a & b);
        } else if op == 0x0A {
            self.set_reg(instruction.reg_3_num, a | b);
        } else if op == 0x10 {
            let flag: u32 = if a < b {
                1
            } else {
                0
            };
            self.set_reg(instruction.reg_3_num, flag);
        } else {
            return Err(ExecutionFault::InvalidOpcode);
        }
        Ok(())
    }

    /// Physical word index of a data access, checked against the memory
    /// bound.
    fn data_address(&self, byte_address: usize) -> (r: Result<usize, ExecutionFault>)
        requires
            self.wf(),
        ensures
            ({
                let target = spec_data_address(self.mem_start_address as int, byte_address as int);
                if 0 <= target < MEMORY_SIZE {
                    r == Ok::<usize, ExecutionFault>(target as usize)
                } else {
                    r == Err::<usize, ExecutionFault>(ExecutionFault::MemoryOutOfRange)
                }
            }),
    {
        let target = byte_address / 4 + self.mem_start_address;
        if target >= MEMORY_SIZE {
            Err(ExecutionFault::MemoryOutOfRange)
        } else {
            Ok(target)
        }
    }

    fn execute_cond_branch_immediate(
        &mut self,
        memory: &mut Memory,
        instruction: &DecodedInstruction,
    ) -> (r: Result<(), ExecutionFault>)
        requires
            old(self).wf(),
            old(memory).wf(),
            instruction.reg_1_num < NUM_REGISTERS,
            instruction.reg_2_num < NUM_REGISTERS,
            instruction.address <= 0xFFFF,
        ensures
            final(self).wf(),
            final(memory).wf(),
            final(memory).pcbs@ == old(memory).pcbs@,
            final(memory).current_data_idx == old(memory).current_data_idx,
            match spec_execute_cond_branch_immediate(
                old(self).machine(*old(memory)),
                instruction.opcode as u32,
                instruction.reg_1_num as int,
                instruction.reg_2_num as int,
                instruction.address as int,
            ) {
                StepOutcome::Next(s1) => r is Ok && final(self).machine(*final(memory)) == s1,
                StepOutcome::Fault(f) => r == Err::<(), ExecutionFault>(f) && *final(self) == *old(
                    self,
                ) && *final(memory) == *old(memory),
            },
    {
        let op = instruction.opcode;
        let a = self.get_reg(instruction.reg_1_num);
        let b = self.get_reg(instruction.reg_2_num);
        if op == 0x02 {
            // Store: register 0 is the accumulator and never a pointer.
            let byte_address = if instruction.reg_2_num == 0 {
                instruction.address
            } else {
                b as usize
            };
            let target = self.data_address(byte_address)?;
            memory.write_to(target, a);
        } else if op == 0x03 {
            // Load: symmetric to the store.
            let byte_address = if instruction.reg_1_num == 0 {
                instruction.address
            } else {
                a as usize
            };
            let target = self.data_address(byte_address)?;
            let value = memory.read_from(target);
            self.set_reg(instruction.reg_2_num, value);
        } else if op == 0x0B {
            self.set_reg(instruction.reg_2_num, instruction.address as u32);
        } else if op == 0x0C {
            let addend = instruction.address as u32;
            if addend > u32::MAX - b {
                return Err(ExecutionFault::ArithmeticOverflow);
            }
            self.set_reg(instruction.reg_2_num, b + addend);
        } else if op == 0x0D {
            proof {
                assert(b as int * instruction.address as int <= u32::MAX as int * 0xFFFF)
                    by (nonlinear_arith)
                    requires
                        b <= u32::MAX,
                        instruction.address <= 0xFFFF,
                ;
            }
            let product = b as u64 * instruction.address as u64;
            if product > u32::MAX as u64 {
                return Err(ExecutionFault::ArithmeticOverflow);
            }
            self.set_reg(instruction.reg_2_num, product as u32);
        } else if op == 0x0E {
            if instruction.address == 0 {
                return Err(ExecutionFault::DivideByZero);
            }
            self.set_reg(instruction.reg_2_num, b / (instruction.address as u32));
        } else if op == 0x0F {
            self.set_reg(instruction.reg_2_num, instruction.address as u32);
        } else if op == 0x11 {
            let flag: u32 = if b < instruction.address as u32 {
                1
            } else {
                0
            };
            self.set_reg(instruction.reg_1_num, flag);
        } else if op == 0x15 {
            if a == b {
                self.program_counter = instruction.address / 4;
            }
        } else if op == 0x16 {
            if a != b {
                self.program_counter = instruction.address / 4;
            }
        } else if op == 0x17 {
            if a == 0 {
                self.program_counter = instruction.address / 4;
            }
        } else if op == 0x18 {
            if a != 0 {
                self.program_counter = instruction.address / 4;
            }
        } else if op == 0x19 {
            if a > 0 {
                self.program_counter = instruction.address / 4;
            }
        } else if op == 0x1A {
            // Branch if less than zero: never taken on unsigned registers.
        } else {
            return Err(ExecutionFault::InvalidOpcode);
        }
        Ok(())
    }

    fn execute_uncond_jump(&mut self, instruction: &DecodedInstruction) -> (r: Result<
        (),
        ExecutionFault,
    >)
        requires
            old(self).wf(),
        ensures
            final(self).wf(),
            match spec_execute_uncond_jump(
                old(self).state(),
                instruction.opcode as u32,
                instruction.address as int,
            ) {
                CpuStepOutcome::NextCpu(c) => r is Ok && final(self).state() == c,
                CpuStepOutcome::FaultCpu(f) => r == Err::<(), ExecutionFault>(f) && *final(self)
                    == *old(self),
            },
    {
        let op = instruction.opcode;
        if op == 0x12 {
            // Halt: raise the process interrupt.
            self.proc_interrupt_type = ProcessState::Terminated;
            self.proc_should_interrupt = true;
            Ok(())
        } else if op == 0x14 {
            self.program_counter = instruction.address / 4;
            Ok(())
        } else {
            Err(ExecutionFault::InvalidOpcode)
        }
    }

    fn execute_io(&mut self, memory: &mut Memory, instruction: &DecodedInstruction) -> (r: Result<
        (),
        ExecutionFault,
    >)
        requires
            old(self).wf(),
            old(memory).wf(),
            instruction.reg_1_num < NUM_REGISTERS,
            instruction.reg_2_num < NUM_REGISTERS,
            instruction.address <= 0xFFFF,
        ensures
            final(self).wf(),
            final(memory).wf(),
            final(memory).pcbs@ == old(memory).pcbs@,
            final(memory).current_data_idx == old(memory).current_data_idx,
            match spec_execute_io(
                old(self).machine(*old(memory)),
                instruction.opcode as u32,
                instruction.reg_1_num as int,
                instruction.reg_2_num as int,
                instruction.address as int,
            ) {
                StepOutcome::Next(s1) => r is Ok && final(self).machine(*final(memory)) == s1,
                StepOutcome::Fault(f) => r == Err::<(), ExecutionFault>(f) && *final(self) == *old(
                    self,
                ) && *final(memory) == *old(memory),
            },
    {
        let op = instruction.opcode;
        if op != 0x00 && op != 0x01 {
            return Err(ExecutionFault::InvalidOpcode);
        }
        // Register 0 is the accumulator and never a pointer.
        let byte_address = if instruction.reg_2_num == 0 {
            instruction.address
        } else {
            self.get_reg(instruction.reg_2_num) as usize
        };
        let target = self.data_address(byte_address)?;
        if op == 0x00 {
            let value = memory.read_from(target);
            self.set_reg(instruction.reg_1_num, value);
        } else {
            let value = self.get_reg(instruction.reg_1_num);
            memory.write_to(target, value);
        }
        Ok(())
    }

    /// Executes one decoded instruction; `w` is the word it was decoded
    /// from.
    fn execute(
        &mut self,
        memory: &mut Memory,
        instruction: &DecodedInstruction,
        Ghost(w): Ghost<u32>,
    ) -> (r: Result<(), ExecutionFault>)
        requires
            old(self).wf(),
            old(memory).wf(),
            instruction.decodes(w),
            instruction.instr_type <= 3,
            instruction.reg_1_num < NUM_REGISTERS,
            instruction.reg_2_num < NUM_REGISTERS,
            instruction.reg_3_num < NUM_REGISTERS,
            instruction.address <= 0xFFFF,
        ensures
            final(self).wf(),
            final(memory).wf(),
            final(memory).pcbs@ == old(memory).pcbs@,
            final(memory).current_data_idx == old(memory).current_data_idx,
            match spec_execute(old(self).machine(*old(memory)), w) {
                StepOutcome::Next(s1) => r is Ok && final(self).machine(*final(memory)) == s1,
                StepOutcome::Fault(f) => r == Err::<(), ExecutionFault>(f) && final(memory).data@
                    == old(memory).data@ && *final(self) == *old(self),
            },
    {
        if instruction.opcode == 0x13 {
            // No-op.
            return Ok(());
        }
        if instruction.instr_type == 0 {
            let r = self.execute_arithmetic(instruction);
            proof {
                lift_cpu_outcome(
                    old(self).machine(*old(memory)),
                    spec_execute_arithmetic(
                        old(self).state(),
                        instruction.opcode as u32,
                        instruction.reg_1_num as int,
                        instruction.reg_2_num as int,
                        instruction.reg_3_num as int,
                    ),
                    self.machine(*memory),
                );
            }
            r
        } else if instruction.instr_type == 1 {
            self.execute_cond_branch_immediate(memory, instruction)
        } else if instruction.instr_type == 2 {
            let r = self.execute_uncond_jump(instruction);
            proof {
                lift_cpu_outcome(
                    old(self).machine(*old(memory)),
                    spec_execute_uncond_jump(
                        old(self).state(),
                        instruction.opcode as u32,
                        instruction.address as int,
                    ),
                    self.machine(*memory),
                );
            }
            r
        } else {
            self.execute_io(memory, instruction)
        }
    }

    /// One cycle of the fetch-decode-execute loop.
    pub fn cycle(&mut self, memory: &mut Memory) -> (r: Result<(), ExecutionFault>)
        requires
            old(self).wf(),
            old(memory).wf(),
        ensures
            final(self).wf(),
            final(memory).wf(),
            final(memory).pcbs@ == old(memory).pcbs@,
            final(memory).current_data_idx == old(memory).current_data_idx,
            match spec_step(old(self).machine(*old(memory))) {
                StepOutcome::Next(s1) => r is Ok && final(self).machine(*final(memory)) == s1,
                StepOutcome::Fault(f) => {
                    &&& r == Err::<(), ExecutionFault>(f)
                    &&& final(memory).data@ == old(memory).data@
                    &&& final(self).cache@ == old(self).cache@
                    &&& final(self).registers@ == old(self).registers@
                    &&& final(self).mem_start_address == old(self).mem_start_address
                    &&& final(self).proc_should_interrupt == old(self).proc_should_interrupt
                    &&& final(self).proc_interrupt_type == old(self).proc_interrupt_type
                },
            },
    {
        let n = self.cache.len();
        if self.program_counter >= n {
            return Err(ExecutionFault::ProgramCounterOutOfRange);
        }
        let current_instruction = self.cache[self.program_counter];
        self.program_counter = self.program_counter + 1;

        let decoded = decode(current_instruction);
        self.execute(memory, &decoded, Ghost(current_instruction))
    }

    /// Runs the fetch-execute loop until the loaded process raises an
    /// interrupt and returns the interrupt's process state.  The cycle
    /// budget bounds the run; a process that neither halts nor faults
    /// within it is reported as over the limit.
    pub fn await_process_interrupt(&mut self, memory: &mut Memory, max_cycles: u64) -> (r: Result<
        ProcessState,
        ExecutionFault,
    >)
        requires
            old(self).wf(),
            old(memory).wf(),
        ensures
            final(self).wf(),
            final(memory).wf(),
            final(memory).pcbs@ == old(memory).pcbs@,
            final(memory).current_data_idx == old(memory).current_data_idx,
            match spec_run(old(self).machine(*old(memory)), max_cycles as nat) {
                RunOutcome::Interrupted(s1) => r == Ok::<ProcessState, ExecutionFault>(
                    s1.cpu.interrupt_type,
                ) && final(self).machine(*final(memory)) == s1,
                RunOutcome::Faulted(f) => r == Err::<ProcessState, ExecutionFault>(f),
                RunOutcome::OutOfCycles => r == Err::<ProcessState, ExecutionFault>(
                    ExecutionFault::CycleLimitExceeded,
                ),
            },
    {
        let mut cycles: u64 = 0;
        loop
            invariant
                self.wf(),
                memory.wf(),
                memory.pcbs@ == old(memory).pcbs@,
                memory.current_data_idx == old(memory).current_data_idx,
                cycles <= max_cycles,
                spec_run(old(self).machine(*old(memory)), max_cycles as nat) == spec_run(
                    self.machine(*memory),
                    (max_cycles - cycles) as nat,
                ),
            decreases max_cycles - cycles,
        {
            if self.proc_should_interrupt {
                return Ok(self.proc_interrupt_type);
            }
            if cycles == max_cycles {
                return Err(ExecutionFault::CycleLimitExceeded);
            }
            let ghost before = self.machine(*memory);
            match self.cycle(memory) {
                Ok(()) => {
                    proof {
                        assert(spec_run(before, (max_cycles - cycles) as nat) == spec_run(
                            self.machine(*memory),
                            (max_cycles - cycles - 1) as nat,
                        ));
                    }
                    cycles = cycles + 1;
                },
                Err(f) => {
                    return Err(f);
                },
            }
        }
    }
}

/// No instruction sets the interrupt type to anything but `Terminated`:
/// a halt raises it and nothing else writes it.
pub proof fn lemma_step_interrupt_type(s: MachineState)
    ensures
        match spec_step(s) {
            StepOutcome::Next(s1) => s1.cpu.interrupt_type == s.cpu.interrupt_type
                || s1.cpu.interrupt_type == ProcessState::Terminated,
            StepOutcome::Fault(f) => true,
        },
{
}

/// An engine whose interrupt type reads `Terminated` keeps reading
/// `Terminated`, however long it runs: every process interrupt is a
/// termination.
pub proof fn lemma_run_interrupt_type(s: MachineState, fuel: nat)
    requires
        s.cpu.interrupt_type == ProcessState::Terminated,
    ensures
        match spec_run(s, fuel) {
            RunOutcome::Interrupted(s1) => s1.cpu.interrupted && s1.cpu.interrupt_type
                == ProcessState::Terminated,
            RunOutcome::Faulted(f) => true,
            RunOutcome::OutOfCycles => true,
        },
    decreases fuel,
{
    if !s.cpu.interrupted && fuel > 0 {
        lemma_step_interrupt_type(s);
        match spec_step(s) {
            StepOutcome::Next(s1) => {
                lemma_run_interrupt_type(s1, (fuel - 1) as nat);
            },
            StepOutcome::Fault(_) => {},
        }
    }
}

/// Helper: an instruction that cannot touch memory lifts to a machine
/// step that leaves memory unchanged.
proof fn lift_cpu_outcome(s0: MachineState, outcome: CpuStepOutcome, s_after: MachineState)
    requires
        match outcome {
            CpuStepOutcome::NextCpu(c) => s_after.cpu == c && s_after.memory == s0.memory,
            CpuStepOutcome::FaultCpu(f) => true,
        },
    ensures
        match outcome {
            CpuStepOutcome::NextCpu(c) => s_after == (MachineState { cpu: c, ..s0 }),
            CpuStepOutcome::FaultCpu(f) => true,
        },
{
    match outcome {
        CpuStepOutcome::NextCpu(c) => {
            assert(s_after =~= MachineState { cpu: c, ..s0 });
        },
        CpuStepOutcome::FaultCpu(_) => {},
    }
}

} // verus!
