use evmtrace::trace_function_execution;
use evmtrace::Block;
use evmtrace::BlockType;
use evmtrace::Cfg;
use evmtrace::DynamicJumpTarget;

fn ins(offset: usize, text: &str) -> (usize, String) {
    (offset, text.to_string())
}

#[test]
fn trace_covers_all_branches_sorted() {
    let mut g = Cfg::new();
    g.insert(Block { start: 0, end: 9, btype: BlockType::Jump { to: 10 } });
    g.insert(Block { start: 10, end: 19, btype: BlockType::Jumpi { true_to: 20, false_to: 30 } });
    g.insert(Block { start: 20, end: 29, btype: BlockType::Terminate { success: true } });
    g.insert(Block { start: 30, end: 39, btype: BlockType::Terminate { success: false } });
    let disasm: Vec<(usize, String)> = vec![];
    let (blocks, instrs) = trace_function_execution(0, &g, &disasm);
    assert_eq!(blocks, vec![(0, 9), (10, 19), (20, 29), (30, 39)]);
    assert!(instrs.is_empty());
}

#[test]
fn trace_terminates_on_cycle() {
    let mut g = Cfg::new();
    g.insert(Block { start: 0, end: 4, btype: BlockType::Jump { to: 5 } });
    g.insert(Block { start: 5, end: 9, btype: BlockType::Jump { to: 0 } });
    let disasm = vec![ins(0, "JUMPDEST"), ins(5, "JUMPDEST")];
    let (blocks, instrs) = trace_function_execution(0, &g, &disasm);
    assert_eq!(blocks, vec![(0, 4), (5, 9)]);
    assert!(!blocks.is_empty());
    assert_eq!(instrs, vec![ins(0, "JUMPDEST"), ins(5, "JUMPDEST")]);
}

#[test]
fn trace_drops_dangling_targets() {
    let mut g = Cfg::new();
    g.insert(Block { start: 0, end: 4, btype: BlockType::Jump { to: 100 } });
    let disasm = vec![ins(0, "PUSH1"), ins(2, "JUMP")];
    let (blocks, instrs) = trace_function_execution(0, &g, &disasm);
    assert_eq!(blocks, vec![(0, 4)]);
    assert_eq!(instrs, vec![ins(0, "PUSH1"), ins(2, "JUMP")]);
}

#[test]
fn trace_missing_entry_yields_empty() {
    let mut g = Cfg::new();
    g.insert(Block { start: 0, end: 4, btype: BlockType::Terminate { success: true } });
    let disasm = vec![ins(0, "STOP")];
    let (blocks, instrs) = trace_function_execution(50, &g, &disasm);
    assert!(blocks.is_empty());
    assert!(instrs.is_empty());
}

#[test]
fn trace_instructions_filtered_ordered_deduplicated() {
    let mut g = Cfg::new();
    g.insert(Block { start: 0, end: 10, btype: BlockType::Jumpi { true_to: 5, false_to: 20 } });
    g.insert(Block { start: 5, end: 15, btype: BlockType::Jump { to: 20 } });
    g.insert(Block { start: 20, end: 25, btype: BlockType::Terminate { success: true } });
    let disasm = vec![
        ins(3, "PUSH1"),
        ins(7, "DUP1"),
        ins(12, "SWAP1"),
        ins(18, "POP"),
        ins(22, "STOP"),
    ];
    let (blocks, instrs) = trace_function_execution(0, &g, &disasm);
    assert_eq!(blocks, vec![(0, 10), (5, 15), (20, 25)]);
    // offset 7 is covered by two overlapping blocks yet appears once; offset
    // 18 lies in no traced block and is absent.
    assert_eq!(
        instrs,
        vec![ins(3, "PUSH1"), ins(7, "DUP1"), ins(12, "SWAP1"), ins(22, "STOP")]
    );
}

#[test]
fn trace_follows_resolved_dynamic_targets() {
    let mut g = Cfg::new();
    g.insert(Block {
        start: 0,
        end: 4,
        btype: BlockType::DynamicJump {
            to: vec![
                DynamicJumpTarget { to: Some(10) },
                DynamicJumpTarget { to: None },
                DynamicJumpTarget { to: Some(20) },
            ],
        },
    });
    g.insert(Block { start: 10, end: 14, btype: BlockType::Terminate { success: true } });
    g.insert(Block { start: 20, end: 24, btype: BlockType::Terminate { success: false } });
    let disasm: Vec<(usize, String)> = vec![];
    let (blocks, _) = trace_function_execution(0, &g, &disasm);
    assert_eq!(blocks, vec![(0, 4), (10, 14), (20, 24)]);
}

#[test]
fn trace_follows_dynamic_jumpi_fallthrough() {
    let mut g = Cfg::new();
    g.insert(Block {
        start: 0,
        end: 4,
        btype: BlockType::DynamicJumpi {
            true_to: vec![DynamicJumpTarget { to: None }, DynamicJumpTarget { to: Some(10) }],
            false_to: 20,
        },
    });
    g.insert(Block { start: 10, end: 14, btype: BlockType::Terminate { success: true } });
    g.insert(Block { start: 20, end: 24, btype: BlockType::Terminate { success: true } });
    let disasm: Vec<(usize, String)> = vec![];
    let (blocks, _) = trace_function_execution(0, &g, &disasm);
    assert_eq!(blocks, vec![(0, 4), (10, 14), (20, 24)]);
}

#[test]
fn trace_stops_at_step_ceiling() {
    // A straight chain of 150 one-offset blocks: the walk takes up blocks
    // only while fewer than 101 have been taken up, so the trace is cut
    // short instead of looping or covering the whole chain.
    let mut g = Cfg::new();
    for i in 0..150usize {
        let btype = if i == 149 {
            BlockType::Terminate { success: true }
        } else {
            BlockType::Jump { to: i + 1 }
        };
        g.insert(Block { start: i, end: i, btype });
    }
    let disasm: Vec<(usize, String)> = vec![];
    let (blocks, _) = trace_function_execution(0, &g, &disasm);
    assert_eq!(blocks.len(), 101);
    assert_eq!(blocks[0], (0, 0));
    assert_eq!(blocks[100], (100, 100));
}

#[test]
fn graph_insert_replaces_block_with_same_start() {
    let mut g = Cfg::new();
    g.insert(Block { start: 0, end: 5, btype: BlockType::Terminate { success: true } });
    g.insert(Block { start: 0, end: 7, btype: BlockType::Terminate { success: false } });
    let disasm: Vec<(usize, String)> = vec![];
    let (blocks, _) = trace_function_execution(0, &g, &disasm);
    assert_eq!(blocks, vec![(0, 7)]);
}

#[test]
fn trace_no_duplicate_blocks_on_reconverging_paths() {
    // Both branches of the conditional reach the same terminator; its range
    // appears once.
    let mut g = Cfg::new();
    g.insert(Block { start: 0, end: 4, btype: BlockType::Jumpi { true_to: 10, false_to: 20 } });
    g.insert(Block { start: 10, end: 14, btype: BlockType::Jump { to: 30 } });
    g.insert(Block { start: 20, end: 24, btype: BlockType::Jump { to: 30 } });
    g.insert(Block { start: 30, end: 34, btype: BlockType::Terminate { success: true } });
    let disasm: Vec<(usize, String)> = vec![];
    let (blocks, _) = trace_function_execution(0, &g, &disasm);
    assert_eq!(blocks, vec![(0, 4), (10, 14), (20, 24), (30, 34)]);
}

#[test]
fn trace_unreachable_blocks_absent() {
    let mut g = Cfg::new();
    g.insert(Block { start: 0, end: 4, btype: BlockType::Terminate { success: true } });
    g.insert(Block { start: 10, end: 14, btype: BlockType::Terminate { success: true } });
    let disasm = vec![ins(0, "STOP"), ins(12, "STOP")];
    let (blocks, instrs) = trace_function_execution(0, &g, &disasm);
    assert_eq!(blocks, vec![(0, 4)]);
    assert_eq!(instrs, vec![ins(0, "STOP")]);
}
