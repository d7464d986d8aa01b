//! End-to-end runs of the four sample jobs on the CPU engine, checking
//! the final memory image word for word.

use batch_os::cpu::Cpu;
use batch_os::memory::Memory;
use batch_os::program_info::ProgramInfo;

const MAX_CYCLES: u64 = 1_000_000;

fn run_job(
    id: u32,
    priority: u32,
    instruction_buffer_size: usize,
    data_start_idx: usize,
    program_data: &[u32],
) -> Vec<u32> {
    let program_info = ProgramInfo {
        id,
        priority,
        instruction_buffer_size,
        in_buffer_size: 20,
        out_buffer_size: 12,
        temp_buffer_size: 12,
        data_start_idx,
    };

    let mut memory = Memory::new();
    memory.create_process(&program_info, program_data);

    let mut cpu = Cpu::new();
    cpu.execute_process(&memory, memory.get_pcb_for(id));
    cpu.await_process_interrupt(&mut memory, MAX_CYCLES).unwrap();

    let end = memory.get_pcb_for(id).get_mem_end_address();
    memory.read_block_from(0, end)
}


#[test]
fn test_execute_job1() {
    let program_data: [u32; 67] = [
        0xC050005C, 0x4B060000, 0x4B010000, 0x4B000000, 0x4F0A005C, 0x4F0D00DC, 0x4C0A0004,
        0xC0BA0000, 0x42BD0000, 0x4C0D0004, 0x4C060001, 0x10658000, 0x56810018, 0x4B060000,
        0x4F0900DC, 0x43970000, 0x05070000, 0x4C060001, 0x4C090004, 0x10658000, 0x5681003C,
        0xC10000AC, 0x92000000, 0x0000000A, 0x00000006, 0x0000002C, 0x00000045, 0x00000001,
        0x00000007, 0x00000000, 0x00000001, 0x00000005, 0x0000000A, 0x00000055, 0x00000000,
        0x00000000, 0x00000000, 0x00000000, 0x00000000, 0x00000000, 0x00000000, 0x00000000,
        0x00000000, 0x00000000, 0x00000000, 0x00000000, 0x00000000, 0x00000000, 0x00000000,
        0x00000000, 0x00000000, 0x00000000, 0x00000000, 0x00000000, 0x00000000, 0x00000000,
        0x00000000, 0x00000000, 0x00000000, 0x00000000, 0x00000000, 0x00000000, 0x00000000,
        0x00000000, 0x00000000, 0x00000000, 0x00000000,
    ];

    let program_data = run_job(1, 2, 23, 0, &program_data);

    let expected_instruction_data: [u32; 23] = [
        0xC050005C, 0x4B060000, 0x4B010000, 0x4B000000, 0x4F0A005C, 0x4F0D00DC, 0x4C0A0004,
        0xC0BA0000, 0x42BD0000, 0x4C0D0004, 0x4C060001, 0x10658000, 0x56810018, 0x4B060000,
        0x4F0900DC, 0x43970000, 0x05070000, 0x4C060001, 0x4C090004, 0x10658000, 0x5681003C,
        0xC10000AC, 0x92000000,
    ];
    for i in 0..23 {
        assert_eq!(program_data[i], expected_instruction_data[i]);
    }

    let expected_in_data: [u32; 20] = [
        0x0000000A, 0x00000006, 0x0000002C, 0x00000045, 0x00000001, 0x00000007, 0x00000000,
        0x00000001, 0x00000005, 0x0000000A, 0x00000055, 0x00000000, 0x00000000, 0x00000000,
        0x00000000, 0x00000000, 0x00000000, 0x00000000, 0x00000000, 0x00000000,
    ];
    for i in 23..43 {
        assert_eq!(program_data[i], expected_in_data[i - 23]);
    }

    let expected_out_data: [u32; 12] = [
        0x000000E4, 0x00000000, 0x00000000, 0x00000000, 0x00000000, 0x00000000, 0x00000000,
        0x00000000, 0x00000000, 0x00000000, 0x00000000, 0x00000000,
    ];
    for i in 43..55 {
        assert_eq!(program_data[i], expected_out_data[i - 43]);
    }

    let expected_temp_data: [u32; 12] = [
        0x00000006, 0x0000002C, 0x00000045, 0x00000001, 0x00000007, 0x00000000, 0x00000001,
        0x00000005, 0x0000000A, 0x00000055, 0x00000000, 0x00000000,
    ];
    for i in 55..67 {
        assert_eq!(program_data[i], expected_temp_data[i - 55]);
    }
}


#[test]
fn test_execute_job2() {
    let program_data: [u32; 72] = [
        0xC0500070, 0x4B060000, 0x4B010000, 0x4B000000, 0x4F0A0070, 0x4F0D00F0, 0x4C0A0004,
        0xC0BA0000, 0x42BD0000, 0x4C0D0004, 0x4C060001, 0x10658000, 0x56810018, 0x4B060000,
        0x4F0900F0, 0x43900000, 0x4C060001, 0x4C090004, 0x43920000, 0x4C060001, 0x4C090004,
        0x10028000, 0x55810060, 0x04020000, 0x10658000, 0x56810048, 0xC10000C0, 0x92000000,
        0x0000000A, 0x00000006, 0x0000002C, 0x00000045, 0x00000001, 0x00000007, 0x00000000,
        0x00000001, 0x00000005, 0x0000000A, 0x00000055, 0x00000000, 0x00000000, 0x00000000,
        0x00000000, 0x00000000, 0x00000000, 0x00000000, 0x00000000, 0x00000000, 0x00000000,
        0x00000000, 0x00000000, 0x00000000, 0x00000000, 0x00000000, 0x00000000, 0x00000000,
        0x00000000, 0x00000000, 0x00000000, 0x00000000, 0x00000000, 0x00000000, 0x00000000,
        0x00000000, 0x00000000, 0x00000000, 0x00000000, 0x00000000, 0x00000000, 0x00000000,
        0x00000000, 0x00000000,
    ];

    let program_data = run_job(2, 4, 28, 0, &program_data);

    let expected_instruction_data: [u32; 28] = [
        0xC0500070, 0x4B060000, 0x4B010000, 0x4B000000, 0x4F0A0070, 0x4F0D00F0, 0x4C0A0004,
        0xC0BA0000, 0x42BD0000, 0x4C0D0004, 0x4C060001, 0x10658000, 0x56810018, 0x4B060000,
        0x4F0900F0, 0x43900000, 0x4C060001, 0x4C090004, 0x43920000, 0x4C060001, 0x4C090004,
        0x10028000, 0x55810060, 0x04020000, 0x10658000, 0x56810048, 0xC10000C0, 0x92000000,
    ];
    for i in 0..28 {
        assert_eq!(program_data[i], expected_instruction_data[i]);
    }

    let expected_in_data: [u32; 20] = [
        0x0000000A, 0x00000006, 0x0000002C, 0x00000045, 0x00000001, 0x00000007, 0x00000000,
        0x00000001, 0x00000005, 0x0000000A, 0x00000055, 0x00000000, 0x00000000, 0x00000000,
        0x00000000, 0x00000000, 0x00000000, 0x00000000, 0x00000000, 0x00000000,
    ];
    for i in 28..48 {
        assert_eq!(program_data[i], expected_in_data[i - 28]);
    }

    let expected_out_data: [u32; 12] = [
        0x00000055, 0x00000000, 0x00000000, 0x00000000, 0x00000000, 0x00000000, 0x00000000,
        0x00000000, 0x00000000, 0x00000000, 0x00000000, 0x00000000,
    ];
    for i in 48..60 {
        assert_eq!(program_data[i], expected_out_data[i - 48]);
    }

    let expected_temp_data: [u32; 12] = [
        0x00000006, 0x0000002C, 0x00000045, 0x00000001, 0x00000007, 0x00000000, 0x00000001,
        0x00000005, 0x0000000A, 0x00000055, 0x00000000, 0x00000000,
    ];
    for i in 60..72 {
        assert_eq!(program_data[i], expected_temp_data[i - 60]);
    }
}


#[test]
fn test_execute_job3() {
    let program_data: [u32; 68] = [
        0xC0500060, 0x4B060000, 0x4B010000, 0x4B000000, 0x4F0A0060, 0x4F0D00E0, 0x4C0A0004,
        0xC0BA0000, 0x42BD0000, 0x4C0D0004, 0x4C060001, 0x10658000, 0x56810018, 0x4B060000,
        0x4F0900E0, 0x43970000, 0x05070000, 0x4C060001, 0x4C090004, 0x10658000, 0x5681003C,
        0x08050000, 0xC10000B0, 0x92000000, 0x0000000A, 0x00000006, 0x0000002C, 0x00000045,
        0x00000001, 0x00000009, 0x000000B0, 0x00000001, 0x00000007, 0x000000AA, 0x00000055,
        0x00000000, 0x00000000, 0x00000000, 0x00000000, 0x00000000, 0x00000000, 0x00000000,
        0x00000000, 0x00000000, 0x00000000, 0x00000000, 0x00000000, 0x00000000, 0x00000000,
        0x00000000, 0x00000000, 0x00000000, 0x00000000, 0x00000000, 0x00000000, 0x00000000,
        0x00000000, 0x00000000, 0x00000000, 0x00000000, 0x00000000, 0x00000000, 0x00000000,
        0x00000000, 0x00000000, 0x00000000, 0x00000000, 0x00000000,
    ];

    let program_data = run_job(3, 6, 24, 24, &program_data);

    let expected_instruction_data: [u32; 24] = [
        0xC0500060, 0x4B060000, 0x4B010000, 0x4B000000, 0x4F0A0060, 0x4F0D00E0, 0x4C0A0004,
        0xC0BA0000, 0x42BD0000, 0x4C0D0004, 0x4C060001, 0x10658000, 0x56810018, 0x4B060000,
        0x4F0900E0, 0x43970000, 0x05070000, 0x4C060001, 0x4C090004, 0x10658000, 0x5681003C,
        0x08050000, 0xC10000B0, 0x92000000,
    ];
    for i in 0..24 {
        assert_eq!(program_data[i], expected_instruction_data[i]);
    }

    let expected_in_data: [u32; 20] = [
        0x0000000A, 0x00000006, 0x0000002C, 0x00000045, 0x00000001, 0x00000009, 0x000000B0,
        0x00000001, 0x00000007, 0x000000AA, 0x00000055, 0x00000000, 0x00000000, 0x00000000,
        0x00000000, 0x00000000, 0x00000000, 0x00000000, 0x00000000, 0x00000000,
    ];
    for i in 24..44 {
        assert_eq!(program_data[i], expected_in_data[i - 24]);
    }

    let expected_out_data: [u32; 12] = [
        0x00000038, 0x00000000, 0x00000000, 0x00000000, 0x00000000, 0x00000000, 0x00000000,
        0x00000000, 0x00000000, 0x00000000, 0x00000000, 0x00000000,
    ];
    for i in 44..56 {
        assert_eq!(program_data[i], expected_out_data[i - 44]);
    }

    let expected_temp_data: [u32; 12] = [
        0x00000006, 0x0000002C, 0x00000045, 0x00000001, 0x00000009, 0x000000B0, 0x00000001,
        0x00000007, 0x000000AA, 0x00000055, 0x00000000, 0x00000000,
    ];
    for i in 56..68 {
        assert_eq!(program_data[i], expected_temp_data[i - 56]);
    }
}


#[test]
fn test_execute_job4() {
    let program_data: [u32; 63] = [
        0xC050004C, 0x4B060000, 0x4B000000, 0x4B010000, 0x4B020000, 0x4B030001, 0x4F07009C,
        0xC1270000, 0x4C070004, 0x4C060001, 0x05320000, 0xC1070000, 0x4C070004, 0x4C060001,
        0x04230000, 0x04300000, 0x10658000, 0x56810028, 0x92000000, 0x0000000B, 0x00000000,
        0x00000000, 0x00000000, 0x00000000, 0x00000000, 0x00000000, 0x00000000, 0x00000000,
        0x00000000, 0x00000000, 0x00000000, 0x00000000, 0x00000000, 0x00000000, 0x00000000,
        0x00000000, 0x00000000, 0x00000000, 0x00000000, 0x00000000, 0x00000000, 0x00000000,
        0x00000000, 0x00000000, 0x00000000, 0x00000000, 0x00000000, 0x00000000, 0x00000000,
        0x00000000, 0x00000000, 0x00000000, 0x00000000, 0x00000000, 0x00000000, 0x00000000,
        0x00000000, 0x00000000, 0x00000000, 0x00000000, 0x00000000, 0x00000000, 0x00000000,
    ];

    let program_data = run_job(4, 5, 19, 0, &program_data);

    let expected_instruction_data: [u32; 19] = [
        0xC050004C, 0x4B060000, 0x4B000000, 0x4B010000, 0x4B020000, 0x4B030001, 0x4F07009C,
        0xC1270000, 0x4C070004, 0x4C060001, 0x05320000, 0xC1070000, 0x4C070004, 0x4C060001,
        0x04230000, 0x04300000, 0x10658000, 0x56810028, 0x92000000,
    ];
    for i in 0..19 {
        assert_eq!(program_data[i], expected_instruction_data[i]);
    }

    let expected_in_data: [u32; 20] = [
        0x0000000B, 0x00000000, 0x00000000, 0x00000000, 0x00000000, 0x00000000, 0x00000000,
        0x00000000, 0x00000000, 0x00000000, 0x00000000, 0x00000000, 0x00000000, 0x00000000,
        0x00000000, 0x00000000, 0x00000000, 0x00000000, 0x00000000, 0x00000000,
    ];
    for i in 19..39 {
        assert_eq!(program_data[i], expected_in_data[i - 19]);
    }

    let expected_out_data: [u32; 12] = [
        0x00000000, 0x00000001, 0x00000002, 0x00000003, 0x00000005, 0x00000008, 0x0000000D,
        0x00000015, 0x00000022, 0x00000037, 0x00000059, 0x00000000,
    ];
    for i in 39..51 {
        assert_eq!(program_data[i], expected_out_data[i - 39]);
    }

    let expected_temp_data: [u32; 12] = [
        0x00000000, 0x00000000, 0x00000000, 0x00000000, 0x00000000, 0x00000000, 0x00000000,
        0x00000000, 0x00000000, 0x00000000, 0x00000000, 0x00000000,
    ];
    for i in 51..63 {
        assert_eq!(program_data[i], expected_temp_data[i - 51]);
    }
}
