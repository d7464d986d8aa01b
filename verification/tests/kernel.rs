//! Tests of the disk, memory, schedulers and driver.

use batch_os::disk::Disk;
use batch_os::driver::Driver;
use batch_os::lts::LongTermScheduler;
use batch_os::memory::Memory;
use batch_os::cpu::Cpu;
use batch_os::pcb::ProcessState;
use batch_os::program_info::ProgramInfo;
use batch_os::sts::{ShortTermScheduler, StsSchedulingAlg};

const MAX_CYCLES: u64 = 1_000_000;

#[test]
fn test_disk_write_program_then_read_data_for() {
    let mut disk = Disk::new();
    disk.write_program(0, 0, 1, 1, 1, 2, &[1, 2, 3, 4, 5]);

    let data = disk.read_data_for(&disk.get_info_for(0));
    assert_eq!(data, &[1, 2, 3, 4, 5]);
}

#[test]
fn test_disk_update_program_overwrites_tail() {
    let mut disk = Disk::new();
    disk.write_program(7, 1, 2, 1, 1, 1, &[10, 11, 12, 13, 14]);
    disk.update_program(7, &[40, 41]);

    let data = disk.read_data_for(&disk.get_info_for(7));
    assert_eq!(data, &[10, 11, 12, 40, 41]);
}

#[test]
fn test_disk_infos_sorted_by_id() {
    let mut disk = Disk::new();
    disk.write_program(5, 0, 1, 0, 0, 0, &[1]);
    disk.write_program(2, 0, 1, 0, 0, 0, &[2]);
    disk.write_program(9, 0, 1, 0, 0, 0, &[3]);

    let infos = disk.get_program_infos(true);
    let ids: Vec<u32> = infos.iter().map(|info| info.id).collect();
    assert_eq!(ids, vec![2, 5, 9]);

    let unsorted = disk.get_program_infos(false);
    let ids: Vec<u32> = unsorted.iter().map(|info| info.id).collect();
    assert_eq!(ids, vec![5, 2, 9]);
}

#[test]
fn test_memory_read_from() {
    let memory = Memory::new();
    assert_eq!(memory.read_from(0), 0);
}

#[test]
fn test_memory_write_to() {
    let mut memory = Memory::new();
    memory.write_to(0, 10);
    assert_eq!(memory.read_from(0), 10);
}

#[test]
fn test_memory_read_block_from() {
    let memory = Memory::new();
    let block = memory.read_block_from(0, 5);
    assert_eq!(block, &[0, 0, 0, 0, 0]);
}

#[test]
fn test_memory_write_block_to() {
    let mut memory = Memory::new();
    let block = [1, 2, 3, 4, 5];
    memory.write_block_to(0, &block);
    let block = memory.read_block_from(0, 5);
    assert_eq!(block, &[1, 2, 3, 4, 5]);
}

#[test]
fn test_memory_create_process_then_get_pcb_for() {
    let mut memory = Memory::new();
    let program_info = ProgramInfo {
        id: 1,
        priority: 1,
        instruction_buffer_size: 1,
        in_buffer_size: 1,
        out_buffer_size: 1,
        temp_buffer_size: 2,
        data_start_idx: 0,
    };
    let program_data = [1, 2, 3, 4, 5];
    memory.create_process(&program_info, &program_data);
    let pcb = memory.get_pcb_for(1);
    assert_eq!(pcb.get_id(), 1);
    assert_eq!(pcb.get_priority(), 1);
    assert_eq!(pcb.get_mem_start_address(), 0);
    assert_eq!(pcb.get_mem_end_address(), 5);
}

#[test]
fn test_memory_core_dump() {
    let mut memory = Memory::new();
    let program_info = ProgramInfo {
        id: 1,
        priority: 1,
        instruction_buffer_size: 1,
        in_buffer_size: 1,
        out_buffer_size: 1,
        temp_buffer_size: 2,
        data_start_idx: 0,
    };
    let program_data = [1, 2, 3, 4, 5];
    memory.create_process(&program_info, &program_data);
    memory.core_dump();
    assert_eq!(memory.get_pcbs(false).len(), 0);
    assert_eq!(memory.read_from(0), 0);
}

#[test]
fn test_memory_get_remaining_memory() {
    let mut memory = Memory::new();
    let program_info = ProgramInfo {
        id: 1,
        priority: 1,
        instruction_buffer_size: 1,
        in_buffer_size: 1,
        out_buffer_size: 1,
        temp_buffer_size: 2,
        data_start_idx: 0,
    };
    let program_data = [1, 2, 3, 4, 5];
    memory.create_process(&program_info, &program_data);
    assert_eq!(memory.get_remaining_memory(), 1019);
}

#[test]
fn test_long_term_scheduler_enqueue_then_step() {
    let mut disk = Disk::new();
    disk.write_program(20, 1, 1, 1, 1, 2, &[1, 2, 3, 4, 5]);

    let mut memory = Memory::new();
    let mut lts = LongTermScheduler::new();

    lts.enqueue_programs(vec![20]);
    let process_id = lts.step(&disk, &mut memory).unwrap();

    assert_eq!(process_id, 20);
}

#[test]
fn test_long_term_scheduler_enqueue_then_batch_step() {
    let mut disk = Disk::new();
    disk.write_program(20, 1, 1, 1, 1, 2, &[1, 2, 3, 4, 5]);
    disk.write_program(21, 1, 1, 1, 1, 2, &[1, 2, 3, 4, 5]);

    let mut memory = Memory::new();
    let mut lts = LongTermScheduler::new();

    lts.enqueue_programs(vec![20, 21]);
    let process_ids = lts.batch_step(&disk, &mut memory);

    assert_eq!(process_ids, vec![20, 21]);
}

#[test]
fn test_long_term_scheduler_step_not_enough_memory() {
    let mut disk = Disk::new();
    let mut memory = Memory::new();

    let program_data = vec![1; memory.get_remaining_memory() - 1];

    disk.write_program(1, 1, program_data.len() - 3, 1, 1, 1, program_data.as_slice());
    disk.write_program(2, 1, 1, 1, 1, 2, &[1, 2, 3, 4, 5]);

    let mut lts = LongTermScheduler::new();

    lts.enqueue_programs(vec![1, 2]);
    let _ = lts.step(&disk, &mut memory);
    let result = lts.step(&disk, &mut memory);

    assert_eq!(result, Err("Not enough memory to load program"));
}

#[test]
fn test_long_term_scheduler_step_no_programs_in_queue() {
    let disk = Disk::new();
    let mut memory = Memory::new();
    let mut lts = LongTermScheduler::new();

    let result = lts.step(&disk, &mut memory);

    assert_eq!(result, Err("No programs in queue"));
}

#[test]
fn test_long_term_scheduler_batch_step_not_enough_memory() {
    let mut disk = Disk::new();
    let mut memory = Memory::new();

    let program_data = vec![1; memory.get_remaining_memory() - 1];

    disk.write_program(1, 1, program_data.len() - 3, 1, 1, 1, program_data.as_slice());
    disk.write_program(2, 1, 1, 1, 1, 2, &[1, 2, 3, 4, 5]);

    let mut lts = LongTermScheduler::new();

    lts.enqueue_programs(vec![1, 2]);
    let process_ids = lts.batch_step(&disk, &mut memory);

    assert_eq!(process_ids, vec![1]);

    lts.unload_all(&mut disk, &mut memory);
    let process_ids = lts.batch_step(&disk, &mut memory);

    assert_eq!(process_ids, vec![2]);
}

#[test]
fn test_long_term_scheduler_unload_all() {
    let mut disk = Disk::new();
    let mut memory = Memory::new();

    disk.write_program(1, 1, 1, 1, 1, 2, &[0, 0, 0, 0, 0]);

    let mut lts = LongTermScheduler::new();

    lts.enqueue_programs(vec![1]);
    let _ = lts.step(&disk, &mut memory);

    {
        let out_start = memory.get_pcb_for(1).get_mem_out_start_address();
        let temp_start = memory.get_pcb_for(1).get_mem_temp_start_address();
        memory.write_to(out_start, 5);
        memory.write_to(temp_start, 5);
    }

    lts.unload_all(&mut disk, &mut memory);

    let program_info = disk.get_info_for(1);
    let data = disk.read_data_for(&program_info);

    assert_eq!(data, &[0, 0, 5, 5, 0]);
}

// With memory capacity 1024, a 1020-word program and a 5-word program are
// admitted in separate batches: the second fits only after the first is
// flushed and reclaimed.
#[test]
fn test_lts_batching_across_reclaim() {
    let mut disk = Disk::new();
    let mut memory = Memory::new();

    let big = vec![0; 1020];
    disk.write_program(1, 1, 1017, 1, 1, 1, big.as_slice());
    disk.write_program(2, 1, 2, 1, 1, 1, &[0, 0, 0, 0, 0]);

    let mut lts = LongTermScheduler::new();
    lts.enqueue_programs(vec![1, 2]);

    assert_eq!(lts.batch_step(&disk, &mut memory), vec![1]);
    assert!(lts.has_programs());
    lts.unload_all(&mut disk, &mut memory);
    assert_eq!(lts.batch_step(&disk, &mut memory), vec![2]);
    assert!(!lts.has_programs());
}

fn stage_job(driver: &mut Driver, id: u32, priority: u32, halt_program: &[u32]) {
    driver.disk.write_program(id, priority, 1, 1, 1, 1, halt_program);
}

// Under FIFO the termination order is the admission order.
#[test]
fn test_sts_fifo_termination_order() {
    let mut driver = Driver::new();
    // A one-instruction program: HLT, then three data words.
    let halt = [0x92000000u32, 0, 0, 0];
    stage_job(&mut driver, 1, 2, &halt);
    stage_job(&mut driver, 2, 4, &halt);
    stage_job(&mut driver, 3, 6, &halt);
    stage_job(&mut driver, 4, 5, &halt);
    driver.lts.enqueue_programs(vec![1, 2, 3, 4]);

    driver.start(MAX_CYCLES).unwrap();

    assert_eq!(driver.sts.finished_ids, vec![1, 2, 3, 4]);
}

// Under the priority discipline terminations are ordered by descending
// priority.
#[test]
fn test_sts_priority_termination_order() {
    let mut driver = Driver::with_scheduling_alg(StsSchedulingAlg::Priority);
    let halt = [0x92000000u32, 0, 0, 0];
    stage_job(&mut driver, 1, 2, &halt);
    stage_job(&mut driver, 2, 4, &halt);
    stage_job(&mut driver, 3, 6, &halt);
    stage_job(&mut driver, 4, 5, &halt);
    driver.lts.enqueue_programs(vec![1, 2, 3, 4]);

    driver.start(MAX_CYCLES).unwrap();

    assert_eq!(driver.sts.finished_ids, vec![3, 4, 2, 1]);
    let priorities: Vec<u32> = driver.sts.finished_stats.iter().map(|r| r.priority).collect();
    assert_eq!(priorities, vec![6, 5, 4, 2]);
}

// Dispatching through the short-term scheduler alone: every scheduled
// process ends terminated with its turnaround closed and one burst on
// record.
#[test]
fn test_sts_dispatch_closes_timers() {
    let mut memory = Memory::new();
    let halt = [0x92000000u32, 0, 0, 0];
    for id in 1..=3u32 {
        let info = ProgramInfo {
            id,
            priority: id,
            instruction_buffer_size: 1,
            in_buffer_size: 1,
            out_buffer_size: 1,
            temp_buffer_size: 1,
            data_start_idx: 0,
        };
        memory.create_process(&info, &halt);
    }

    let mut cpu = Cpu::new();
    let mut sts = ShortTermScheduler::new(StsSchedulingAlg::Fifo);
    for id in 1..=3u32 {
        sts.schedule_process(memory.get_pcb_for(id));
    }
    sts.await_all_procs_finished(&mut memory, &mut cpu, MAX_CYCLES).unwrap();

    assert_eq!(sts.finished_ids, vec![1, 2, 3]);
    for id in 1..=3u32 {
        let pcb = memory.get_pcb_for(id);
        assert_eq!(pcb.state, ProcessState::Terminated);
        assert!(!pcb.turnaround_time_is_recording);
        assert!(!pcb.burst_time_is_recording);
        assert_eq!(pcb.burst_times_ns.len(), 1);
    }
}

// A single staged job runs through a whole driver cycle.
#[test]
fn test_driver_single_job() {
    let mut driver = Driver::new();
    let halt = [0x92000000u32, 0, 0, 0];
    stage_job(&mut driver, 1, 2, &halt);
    driver.lts.enqueue_programs(vec![1]);

    driver.start(MAX_CYCLES).unwrap();
    assert_eq!(driver.sts.finished_ids, vec![1]);
}
