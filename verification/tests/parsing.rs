//! Tests of instruction decoding, the ready queues, the process
//! descriptor timers, and the program-file parser.

use batch_os::cpu::{Cpu, ExecutionFault};
use batch_os::instruction::{decode, DecodedInstruction};
use batch_os::loader::{load_programs_into_disk, parse_hex_u32, Loader, Status};
use batch_os::disk::Disk;
use batch_os::memory::Memory;
use batch_os::pcb::ProcessControlBlock;
use batch_os::program_info::ProgramInfo;
use batch_os::queue::{FifoQueue, PriorityQueue, ReadyEntry};

#[test]
fn parse_job_line() {
    let job_line = "// JOB 1 17 2";
    let pcb = Loader::parse_job(&job_line[7..]).unwrap();
    assert_eq!(1, pcb.id);
    assert_eq!(23, pcb.instruction_size);
    assert_eq!(2, pcb.priority);
    assert_eq!(Status::New, pcb.status);
}

#[test]
fn parse_job_line_missing_value() {
    let job_line = "// JOB 4 13";
    assert!(Loader::parse_job(&job_line[7..]).is_none());
}

#[test]
fn parse_job_line_invalid_value() {
    let job_line = "// JOB NOT HEX DATA";
    assert!(Loader::parse_job(&job_line[7..]).is_none());
}

#[test]
fn parse_hex_values() {
    assert_eq!(parse_hex_u32(b"0"), Some(0));
    assert_eq!(parse_hex_u32(b"17"), Some(0x17));
    assert_eq!(parse_hex_u32(b"deadBEEF"), Some(0xDEAD_BEEF));
    assert_eq!(parse_hex_u32(b"FFFFFFFF"), Some(u32::MAX));
    assert_eq!(parse_hex_u32(b"100000000"), None);
    assert_eq!(parse_hex_u32(b""), None);
    assert_eq!(parse_hex_u32(b"12G4"), None);
}

// The decoded instruction type is the top two bits and the opcode the
// next six.
#[test]
fn decode_extracts_type_and_opcode() {
    let word: u32 = 0xC050_005C;
    let decoded = decode(word);
    assert_eq!(decoded.instr_type as u32, word >> 30);
    assert_eq!(decoded.opcode as u32, (word >> 24) & 0x3F);
    assert_eq!(decoded.instr_type, 3);
    assert_eq!(decoded.opcode, 0);

    let halt = decode(0x9200_0000);
    assert_eq!(halt.instr_type, 2);
    assert_eq!(halt.opcode, 0x12);
}

// Re-packing the decoded fields of an arithmetic word reproduces it up
// to the unused low twelve bits.
#[test]
fn arithmetic_encode_roundtrip() {
    let words = [0x0565_8000u32, 0x1065_8000, 0x0507_0000, 0x0403_F123];
    for &word in words.iter() {
        let decoded = decode(word);
        assert_eq!(decoded.instr_type, 0);
        let encoded = ((decoded.instr_type as u32) << 30) | ((decoded.opcode as u32) << 24)
            | ((decoded.reg_1_num as u32) << 20) | ((decoded.reg_2_num as u32) << 16)
            | ((decoded.reg_3_num as u32) << 12);
        assert_eq!(encoded, word & 0xFFFF_F000);
    }
}

#[test]
fn decoded_instruction_new_is_zeroed() {
    let d = DecodedInstruction::new();
    assert_eq!(d.instr_type, 0);
    assert_eq!(d.opcode, 0);
    assert_eq!(d.reg_1_num, 0);
    assert_eq!(d.reg_2_num, 0);
    assert_eq!(d.reg_3_num, 0);
    assert_eq!(d.address, 0);
}

fn run_single(words: &[u32], instructions: usize, max_cycles: u64) -> Result<(), ExecutionFault> {
    let info = ProgramInfo {
        id: 1,
        priority: 1,
        instruction_buffer_size: instructions,
        in_buffer_size: words.len() - instructions,
        out_buffer_size: 0,
        temp_buffer_size: 0,
        data_start_idx: 0,
    };
    let mut memory = Memory::new();
    memory.create_process(&info, words);
    let mut cpu = Cpu::new();
    cpu.execute_process(&memory, memory.get_pcb_for(1));
    cpu.await_process_interrupt(&mut memory, max_cycles).map(|_| ())
}

#[test]
fn fault_divide_by_zero() {
    // DIV r3 <- r0 / r0 with zeroed registers.
    let program = [0x0800_0000u32];
    assert_eq!(run_single(&program, 1, 100), Err(ExecutionFault::DivideByZero));
}

#[test]
fn fault_invalid_opcode() {
    // Arithmetic type with opcode 0x3F is undefined.
    let program = [0x3F00_0000u32];
    assert_eq!(run_single(&program, 1, 100), Err(ExecutionFault::InvalidOpcode));
}

#[test]
fn fault_arithmetic_underflow() {
    // MOVI r2 <- 1; SUB r3 <- r0 - r2 underflows the unsigned register.
    let program = [0x4B02_0001u32, 0x0602_3000];
    assert_eq!(run_single(&program, 2, 100), Err(ExecutionFault::ArithmeticOverflow));
}

#[test]
fn fault_memory_out_of_range() {
    // ST to byte address 0xFFFF translates past the end of memory.
    let program = [0x4200_FFFFu32, 0, 0, 0];
    let r = run_single(&program, 1, 100);
    assert_eq!(r, Err(ExecutionFault::MemoryOutOfRange));
}

#[test]
fn fault_program_counter_out_of_range() {
    // No HLT: the counter runs off the one-word cache.
    let program = [0x1300_0000u32];
    assert_eq!(run_single(&program, 1, 100), Err(ExecutionFault::ProgramCounterOutOfRange));
}

#[test]
fn fault_cycle_limit() {
    // JMP 0 loops forever; the budget runs out.
    let program = [0x9400_0000u32];
    assert_eq!(run_single(&program, 1, 100), Err(ExecutionFault::CycleLimitExceeded));
}

fn run_and_read_registers(words: &[u32], instructions: usize) -> Vec<u32> {
    let info = ProgramInfo {
        id: 1,
        priority: 1,
        instruction_buffer_size: instructions,
        in_buffer_size: words.len() - instructions,
        out_buffer_size: 0,
        temp_buffer_size: 0,
        data_start_idx: 0,
    };
    let mut memory = Memory::new();
    memory.create_process(&info, words);
    let mut cpu = Cpu::new();
    cpu.execute_process(&memory, memory.get_pcb_for(1));
    cpu.await_process_interrupt(&mut memory, 10_000).unwrap();
    cpu.get_registers().clone()
}

// Immediate moves, immediate adds, register adds and the set-less-than
// comparison leave exact register values.
#[test]
fn instruction_register_semantics() {
    let program = [
        0x4B02_0005u32, // MOVI r2 <- 5
        0x4C02_0003,    // ADDI r2 += 3
        0x4B03_0002,    // MOVI r3 <- 2
        0x0523_4000,    // ADD r4 <- r2 + r3
        0x1032_5000,    // SLT r5 <- (r3 < r2) ? 1 : 0
        0x1023_6000,    // SLT r6 <- (r2 < r3) ? 1 : 0
        0x0443_0000,    // MOV r4 <- r3
        0x9200_0000,    // HLT
    ];
    let regs = run_and_read_registers(&program, program.len());
    assert_eq!(regs[2], 8);
    assert_eq!(regs[3], 2);
    assert_eq!(regs[4], 2);
    assert_eq!(regs[5], 1);
    assert_eq!(regs[6], 0);
}

// A taken branch skips the instructions between it and its target; a
// branch on an unsigned register being below zero is never taken.
#[test]
fn instruction_branch_semantics() {
    let program = [
        0x4B02_0001u32, // MOVI r2 <- 1
        0x5810_000C,    // BNZ r1 == 0: not taken
        0x5820_0010,    // BNZ r2 != 0: taken, to word 4
        0x4B03_0063,    // skipped
        0x5A20_0000,    // BLZ r2: never taken on unsigned registers
        0x9200_0000,    // HLT
    ];
    let regs = run_and_read_registers(&program, program.len());
    assert_eq!(regs[2], 1);
    assert_eq!(regs[3], 0);
}

// Loads and stores move words between registers and the data regions,
// with byte addresses translated to word indexes.
#[test]
fn instruction_load_store_semantics() {
    let program = [
        0x4302_0010u32, // LW r2 <- [byte 0x10] (word 4: the input word)
        0x4C02_0001,    // ADDI r2 += 1
        0x4220_0014,    // ST r2 -> [byte 0x14] (word 5)
        0x9200_0000,    // HLT
        0x0000_0029,    // input word
        0x0000_0000,    // overwritten with 0x2A
    ];
    let info = ProgramInfo {
        id: 1,
        priority: 1,
        instruction_buffer_size: 4,
        in_buffer_size: 2,
        out_buffer_size: 0,
        temp_buffer_size: 0,
        data_start_idx: 0,
    };
    let mut memory = Memory::new();
    memory.create_process(&info, &program);
    let mut cpu = Cpu::new();
    cpu.execute_process(&memory, memory.get_pcb_for(1));
    cpu.await_process_interrupt(&mut memory, 10_000).unwrap();
    assert_eq!(memory.read_from(5), 0x2A);
}

fn entry(id: u32, priority: u32) -> ReadyEntry {
    let info = ProgramInfo {
        id,
        priority,
        instruction_buffer_size: 0,
        in_buffer_size: 0,
        out_buffer_size: 0,
        temp_buffer_size: 0,
        data_start_idx: 0,
    };
    let pcb = ProcessControlBlock::new(&info, 0, 0);
    ReadyEntry::of_pcb(&pcb)
}

#[test]
fn test_priority_queue() {
    let mut queue = PriorityQueue::new();
    queue.push(entry(1, 2));
    queue.push(entry(0, 1));
    queue.push(entry(2, 3));

    assert_eq!(queue.pop().unwrap().get_id(), 2);
    assert_eq!(queue.pop().unwrap().get_id(), 1);
    assert_eq!(queue.pop().unwrap().get_id(), 0);
}

// Entries of equal priority leave a priority queue in insertion order.
#[test]
fn test_priority_queue_tie_break() {
    let mut queue = PriorityQueue::new();
    queue.push(entry(10, 5));
    queue.push(entry(11, 5));
    queue.push(entry(12, 7));
    queue.push(entry(13, 5));

    assert_eq!(queue.pop().unwrap().get_id(), 12);
    assert_eq!(queue.pop().unwrap().get_id(), 10);
    assert_eq!(queue.pop().unwrap().get_id(), 11);
    assert_eq!(queue.pop().unwrap().get_id(), 13);
    assert!(queue.pop().is_none());
}

// A FIFO queue hands entries out in push order.
#[test]
fn test_fifo_queue_order() {
    let mut queue = FifoQueue::new();
    assert!(queue.pop().is_none());
    queue.push(entry(4, 9));
    queue.push(entry(5, 1));
    assert_eq!(queue.pop().unwrap().get_id(), 4);
    queue.push(entry(6, 3));
    assert_eq!(queue.pop().unwrap().get_id(), 5);
    assert_eq!(queue.pop().unwrap().get_id(), 6);
    assert!(queue.is_empty());
}

// Millisecond getters divide the recorded nanoseconds by one million.
#[test]
fn test_pcb_millisecond_conversion() {
    let info = ProgramInfo {
        id: 1,
        priority: 1,
        instruction_buffer_size: 0,
        in_buffer_size: 0,
        out_buffer_size: 0,
        temp_buffer_size: 0,
        data_start_idx: 0,
    };
    let mut pcb = ProcessControlBlock::new(&info, 0, 0);
    pcb.turnaround_time_ns = 5_500_000;
    assert_eq!(pcb.get_turnaround_time_ns(), 5_500_000);
    assert_eq!(pcb.get_turnaround_time_ms(), 5);
    assert_eq!(pcb.get_avg_burst_time_ns(), 0);
    assert_eq!(pcb.get_avg_burst_time_ms(), 0);

    pcb.burst_times_ns = vec![2_000_000, 4_000_000, 7_000_000];
    assert_eq!(pcb.get_avg_burst_time_ns(), 4_333_333);
    assert_eq!(pcb.get_avg_burst_time_ms(), 4);
}

#[test]
fn test_load_programs_into_disk_roundtrip() {
    let lines: Vec<String> = vec![
        "// JOB 1 2 3".to_string(),
        "0x92000000".to_string(),
        "0x13000000".to_string(),
        "// Data 2 1 0".to_string(),
        "0x0000000A".to_string(),
        "0x0000000B".to_string(),
        "0x00000000".to_string(),
        "// END".to_string(),
        "// JOB A 1 1".to_string(),
        "0x92000000".to_string(),
        "// Data 0 0 0".to_string(),
        "// END".to_string(),
    ];
    let mut disk = Disk::new();
    let ids = load_programs_into_disk(&mut disk, &lines).unwrap();
    assert_eq!(ids, vec![1, 10]);

    let info = disk.get_info_for(1);
    assert_eq!(info.instruction_buffer_size, 2);
    assert_eq!(info.in_buffer_size, 2);
    assert_eq!(info.out_buffer_size, 1);
    assert_eq!(info.temp_buffer_size, 0);
    assert_eq!(info.priority, 3);
    let data = disk.read_data_for(&info);
    assert_eq!(data, vec![0x92000000, 0x13000000, 0xA, 0xB, 0]);

    let info = disk.get_info_for(10);
    assert_eq!(info.instruction_buffer_size, 1);
    let data = disk.read_data_for(&info);
    assert_eq!(data, vec![0x92000000]);
}

#[test]
fn test_load_programs_rejects_bad_word() {
    let lines: Vec<String> = vec![
        "// JOB 1 1 1".to_string(),
        "0xZZZZ".to_string(),
        "// END".to_string(),
    ];
    let mut disk = Disk::new();
    assert!(load_programs_into_disk(&mut disk, &lines).is_err());
}

#[test]
fn test_load_programs_rejects_duplicate_id() {
    let lines: Vec<String> = vec![
        "// JOB 1 1 0".to_string(),
        "0x92000000".to_string(),
        "// Data 0 0 0".to_string(),
        "// END".to_string(),
        "// JOB 1 1 0".to_string(),
        "0x92000000".to_string(),
        "// Data 0 0 0".to_string(),
        "// END".to_string(),
    ];
    let mut disk = Disk::new();
    assert!(load_programs_into_disk(&mut disk, &lines).is_err());
}
