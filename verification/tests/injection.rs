use tcp_injection::injection::dma::DmaRegion;
use tcp_injection::injection::fpga::{FpgaAction, FpgaState};
use tcp_injection::injection::pipe::{PipeAction, PipeState};

fn start(addr: usize, data: u8) -> FpgaAction {
    FpgaAction::StartWrite { seq: 1, ack: 2, data, addr }
}

fn in_transit(pipe: &PipeState) -> Vec<(usize, u8)> {
    match pipe {
        PipeState::Transferring { in_transit, .. } => in_transit.clone(),
        PipeState::Empty => vec![],
    }
}

fn output(pipe: &PipeState) -> Option<(usize, u8)> {
    match pipe {
        PipeState::Transferring { output, .. } => *output,
        PipeState::Empty => None,
    }
}

/// A reproducible sequence of actions, with the weights of a busy link.
fn actions(seed: u64, len: usize, max_index: usize) -> Vec<(FpgaAction, PipeAction)> {
    let mut state = seed;
    let mut next = |bound: u64| {
        state = state
            .wrapping_mul(6364136223846793005)
            .wrapping_add(1442695040888963407);
        (state >> 33) % bound
    };
    let mut result = Vec::new();
    for _ in 0..len {
        let fpga = match next(14) {
            0..=6 => FpgaAction::StayIdle,
            7..=9 => FpgaAction::StartWrite {
                seq: next(1000) as i32,
                ack: next(1000) as i32,
                data: next(256) as u8,
                addr: next(0x2000) as usize,
            },
            10..=11 => FpgaAction::StopWriting,
            _ => FpgaAction::ContinueWriting,
        };
        let pipe = match next(10) {
            0..=7 => PipeAction::NoAction,
            _ => PipeAction::OutputPacket { index: next(max_index as u64) as usize },
        };
        result.push((fpga, pipe));
    }
    result
}

#[test]
fn fpga_states_follow_the_actions() {
    let writing = FpgaState::Idle.advance(&FpgaAction::StartWrite {
        seq: 10,
        ack: 20,
        data: 7,
        addr: 300,
    });
    match writing {
        FpgaState::AutonomouslyWriting { internal_state, write_data, write_address } => {
            assert_eq!(internal_state.seq_num.0, 10);
            assert_eq!(internal_state.ack_num.0, 20);
            assert_eq!(write_data, 7);
            assert_eq!(write_address, 300);
        }
        FpgaState::Idle => panic!("the FPGA should be writing"),
    }
    assert!(matches!(
        writing.advance(&FpgaAction::ContinueWriting),
        FpgaState::AutonomouslyWriting { write_data: 7, write_address: 300, .. }
    ));
    assert!(matches!(
        writing.advance(&start(5, 9)),
        FpgaState::AutonomouslyWriting { write_data: 9, write_address: 5, .. }
    ));
    assert!(matches!(writing.advance(&FpgaAction::StopWriting), FpgaState::Idle));
    assert!(matches!(writing.advance(&FpgaAction::StayIdle), FpgaState::Idle));
    assert!(matches!(FpgaState::Idle.advance(&FpgaAction::StayIdle), FpgaState::Idle));
    assert!(matches!(FpgaState::Idle.advance(&FpgaAction::StopWriting), FpgaState::Idle));
    assert!(matches!(FpgaState::Idle.advance(&FpgaAction::ContinueWriting), FpgaState::Idle));
}

#[test]
fn empty_pipe_puts_nothing_out() {
    let out = PipeAction::OutputPacket { index: 0 };
    let pipe = PipeState::Empty.advance(&FpgaAction::ContinueWriting, &out);
    assert!(matches!(pipe, PipeState::Empty));
    let pipe = PipeState::Empty.advance(&start(5, 9), &out);
    assert_eq!(output(&pipe), None);
    assert_eq!(in_transit(&pipe), vec![(5, 9)]);
}

#[test]
fn pipe_puts_out_by_index() {
    let pipe = PipeState::Empty.advance(&start(1, 10), &PipeAction::NoAction);
    let pipe = pipe.advance(&start(2, 20), &PipeAction::NoAction);
    assert_eq!(in_transit(&pipe), vec![(1, 10), (2, 20)]);
    // A write that starts in the same step can be put out at once.
    let pipe = pipe.advance(&start(3, 30), &PipeAction::OutputPacket { index: 2 });
    assert_eq!(output(&pipe), Some((3, 30)));
    assert_eq!(in_transit(&pipe), vec![(1, 10), (2, 20)]);
    // An index past the end stands for the last message.
    let pipe = pipe.advance(&FpgaAction::StayIdle, &PipeAction::OutputPacket { index: 99 });
    assert_eq!(output(&pipe), Some((2, 20)));
    let copy = pipe.clone();
    assert_eq!(output(&copy), Some((2, 20)));
    assert_eq!(in_transit(&copy), vec![(1, 10)]);
    let pipe = pipe.advance(&FpgaAction::StayIdle, &PipeAction::OutputPacket { index: 0 });
    assert_eq!(output(&pipe), Some((1, 10)));
    assert_eq!(in_transit(&pipe), vec![]);
    assert!(matches!(pipe, PipeState::Transferring { .. }));
    let pipe = pipe.advance(&FpgaAction::StayIdle, &PipeAction::OutputPacket { index: 0 });
    assert!(matches!(pipe, PipeState::Empty));
}

#[test]
fn dma_addresses_wrap_around() {
    let mut dma = DmaRegion::new(4);
    assert_eq!(dma.read(3), Some(0));
    dma.write(7, 42);
    assert_eq!(dma.read(3), Some(42));
    assert_eq!(dma.read(11), Some(42));
    assert_eq!(dma.read(2), Some(0));
    dma.write(3, 43);
    assert_eq!(dma.read(7), Some(43));
}

#[test]
fn dma_takes_what_the_pipe_puts_out() {
    let mut dma = DmaRegion::new(4);
    let pipe = PipeState::Empty.advance(&start(6, 10), &PipeAction::NoAction);
    dma.process_pipe_output(&pipe);
    assert_eq!(dma.read(2), Some(0));
    let pipe = pipe.advance(&FpgaAction::StayIdle, &PipeAction::OutputPacket { index: 0 });
    dma.process_pipe_output(&pipe);
    assert_eq!(dma.read(2), Some(10));
    // Without cells there is nothing to do as long as nothing is put out.
    DmaRegion::new(0).process_pipe_output(&PipeState::Empty);
}

#[test]
fn test_simple_property_test() {
    for seed in 0..200 {
        let mut fpga = FpgaState::Idle;
        let mut pipe = PipeState::Empty;
        let mut total_writes: usize = 0;
        let mut total_outputs: usize = 0;
        for (fpga_action, pipe_action) in actions(seed, 50, 10).iter() {
            if matches!(fpga_action, FpgaAction::StartWrite { .. }) {
                total_writes += 1;
            }
            fpga = fpga.advance(fpga_action);
            pipe = pipe.advance(fpga_action, pipe_action);
            if let PipeState::Transferring { output: Some(_), .. } = &pipe {
                total_outputs += 1;
            }
            assert!(total_outputs <= total_writes, "Cannot output more than written");
            assert_eq!(
                in_transit(&pipe).len(),
                total_writes - total_outputs,
                "Queue length should match writes - outputs"
            );
        }
    }
}

/// Runs the actions, drains the pipe, and returns the memory with what was issued and what was
/// delivered, in order.
fn run(
    actions: &[(FpgaAction, PipeAction)],
    dma_size: usize,
) -> (DmaRegion, Vec<(usize, u8)>, Vec<(usize, u8)>) {
    let mut pipe = PipeState::Empty;
    let mut dma = DmaRegion::new(dma_size);
    let mut issued = Vec::new();
    let mut delivered = Vec::new();
    for (fpga_action, pipe_action) in actions {
        if let FpgaAction::StartWrite { addr, data, .. } = fpga_action {
            issued.push((*addr, *data));
        }
        pipe = pipe.advance(fpga_action, pipe_action);
        delivered.extend(output(&pipe));
        dma.process_pipe_output(&pipe);
    }
    while !in_transit(&pipe).is_empty() {
        pipe = pipe.advance(&FpgaAction::StayIdle, &PipeAction::OutputPacket { index: 0 });
        delivered.extend(output(&pipe));
        dma.process_pipe_output(&pipe);
    }
    (dma, issued, delivered)
}

fn last_write(writes: &[(usize, u8)], dma_size: usize, addr: usize) -> Option<u8> {
    writes
        .iter()
        .rev()
        .find(|(a, _)| a % dma_size == addr % dma_size)
        .map(|(_, d)| *d)
}

/// Whether another address that was written to wraps around to the cell of `addr`.
fn shares_cell(writes: &[(usize, u8)], dma_size: usize, addr: usize) -> bool {
    writes
        .iter()
        .any(|(a, _)| *a != addr && a % dma_size == addr % dma_size)
}

#[test]
fn test_dma_region_receives_all_writes() {
    let mut checked = 0;
    let mut shared = 0;
    for seed in 0..500 {
        let dma_size = 1024 + (seed as usize * 37) % 3072;
        let (dma, expected_writes, _) = run(&actions(seed, 100, 10), dma_size);
        for (addr, expected_data) in &expected_writes {
            let actual_data = dma
                .read(*addr)
                .expect("DMA read should not fail for valid address");
            // The order of different addresses that wrap around to one cell is the pipe's: see
            // `shared_cells_hold_the_last_delivered_write`.
            if shares_cell(&expected_writes, dma_size, *addr) {
                shared += 1;
                continue;
            }
            // Later writes to the same address overwrite earlier ones.
            let final_value = last_write(&expected_writes, dma_size, *addr)
                .unwrap_or(*expected_data);
            assert_eq!(
                actual_data,
                final_value,
                "DMA at address {} (wrapped to {}) should contain correct data",
                addr,
                addr % dma_size
            );
            checked += 1;
        }
    }
    assert!(checked > 10 * shared);
}

#[test]
fn shared_cells_hold_the_last_delivered_write() {
    let mut shared = 0;
    for seed in 0..500 {
        let dma_size = 1024 + (seed as usize * 37) % 3072;
        let (dma, issued, delivered) = run(&actions(seed, 100, 10), dma_size);
        for (addr, _) in &issued {
            if shares_cell(&issued, dma_size, *addr) {
                shared += 1;
            }
            assert_eq!(dma.read(*addr), last_write(&delivered, dma_size, *addr));
        }
    }
    assert!(shared > 0);
}

#[test]
fn dma_region_receives_all_writes_to_few_addresses() {
    for seed in 0..500 {
        // The same mix of actions, with many writes to each address.
        let steps: Vec<(FpgaAction, PipeAction)> = actions(seed, 100, 10)
            .into_iter()
            .map(|(fpga, pipe)| match fpga {
                FpgaAction::StartWrite { seq, ack, data, addr } => {
                    (FpgaAction::StartWrite { seq, ack, data, addr: addr % 4 }, pipe)
                }
                other => (other, pipe),
            })
            .collect();
        let (dma, mut issued, mut delivered) = run(&steps, 1024);
        for address in 0..4 {
            let sent: Vec<_> = issued.iter().filter(|(a, _)| *a == address).collect();
            let got: Vec<_> = delivered.iter().filter(|(a, _)| *a == address).collect();
            assert_eq!(sent, got);
            assert_eq!(
                dma.read(address),
                Some(last_write(&issued, 1024, address).unwrap_or(0))
            );
        }
        issued.sort();
        delivered.sort();
        assert_eq!(issued, delivered);
    }
}

#[test]
fn dma_region_receives_all_writes_in_order() {
    for seed in 0..200 {
        // A pipe that keeps the order, and a memory so small that addresses wrap around.
        let (dma, issued, delivered) = run(&actions(seed, 100, 1), 8);
        assert_eq!(issued, delivered);
        for (addr, _) in &issued {
            assert_eq!(dma.read(*addr), last_write(&issued, 8, *addr));
        }
    }
}

#[test]
fn no_write_overtakes_another_to_its_address() {
    let steps = [
        (start(16, 1), PipeAction::NoAction),
        (start(16, 2), PipeAction::OutputPacket { index: 1 }),
    ];
    let (dma, issued, delivered) = run(&steps, 1024);
    assert_eq!(issued, vec![(16, 1), (16, 2)]);
    assert_eq!(delivered, vec![(16, 1), (16, 2)]);
    assert_eq!(dma.read(16), Some(2));
}

#[test]
fn a_write_overtakes_one_to_another_address() {
    let steps = [
        (start(1, 10), PipeAction::NoAction),
        (start(2, 20), PipeAction::NoAction),
        (start(2, 30), PipeAction::OutputPacket { index: 2 }),
    ];
    let (dma, _, delivered) = run(&steps, 4);
    assert_eq!(delivered, vec![(2, 20), (1, 10), (2, 30)]);
    assert_eq!(dma.read(1), Some(10));
    assert_eq!(dma.read(2), Some(30));
}

#[test]
fn states_agree_with_what_happened() {
    for seed in 0..200 {
        let mut fpga = FpgaState::Idle;
        let mut pipe = PipeState::Empty;
        let mut last_issued = None;
        for (fpga_action, pipe_action) in actions(seed, 50, 10).iter() {
            if let FpgaAction::StartWrite { addr, data, .. } = fpga_action {
                last_issued = Some((*addr, *data));
            }
            fpga = fpga.advance(fpga_action);
            pipe = pipe.advance(fpga_action, pipe_action);
            if let FpgaState::AutonomouslyWriting { write_data, write_address, .. } = fpga {
                assert_eq!(last_issued, Some((write_address, write_data)));
            }
            assert_eq!(
                matches!(pipe, PipeState::Empty),
                in_transit(&pipe).is_empty() && output(&pipe).is_none()
            );
        }
    }
}
