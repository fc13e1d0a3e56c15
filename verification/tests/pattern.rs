use evmtrace::contains_substr;
use evmtrace::search_pattern_in_functions;
use evmtrace::selector_to_hex;
use evmtrace::FunctionTrace;

fn ins(offset: usize, text: &str) -> (usize, String) {
    (offset, text.to_string())
}

fn mk_trace(selector: Vec<u8>, entry: usize, disassembled: Vec<(usize, String)>) -> FunctionTrace {
    let selector_hex = selector_to_hex(&selector);
    FunctionTrace { selector, selector_hex, entry_point: entry, blocks: vec![], disassembled }
}

fn filler_run(start_offset: usize, count: usize) -> Vec<(usize, String)> {
    let mut v = Vec::new();
    for k in 0..count {
        v.push(ins(start_offset + 2 * k, "PUSH1"));
    }
    v
}

#[test]
fn caller_eq_pattern_single_match() {
    let disasm = vec![
        ins(96, "PUSH1"),
        ins(98, "DUP1"),
        ins(100, "CALLER"),
        ins(102, "PUSH20"),
        ins(104, "EQ"),
        ins(106, "PUSH2"),
        ins(108, "JUMPI"),
    ];
    let trace = mk_trace(vec![0xfa, 0x46, 0x1e, 0x33], 0, disasm.clone());
    let targets = vec!["0xfa461e33".to_string()];
    let traces = vec![trace];
    let matches = search_pattern_in_functions(&targets, &traces, "CALLER", "EQ", 2, "auth check");
    assert_eq!(matches.len(), 1);
    assert_eq!(matches[0].function_selector, "0xfa461e33");
    assert_eq!(matches[0].location, 100);
    assert_eq!(matches[0].context, disasm[0..=6].to_vec());
}

#[test]
fn untargeted_selector_contributes_nothing() {
    let disasm = vec![ins(0, "CALLER"), ins(2, "EQ")];
    let trace = mk_trace(vec![0x11, 0x22, 0x33, 0x44], 0, disasm);
    let targets = vec!["0xfa461e33".to_string()];
    let traces = vec![trace];
    let matches = search_pattern_in_functions(&targets, &traces, "CALLER", "EQ", 5, "auth check");
    assert!(matches.is_empty());
}

#[test]
fn lookahead_hit_nine_ahead() {
    let mut disasm = vec![ins(0, "CALLER")];
    disasm.extend(filler_run(2, 8));
    disasm.push(ins(100, "EQ"));
    let trace = mk_trace(vec![0xfa, 0x46, 0x1e, 0x33], 0, disasm);
    let targets = vec!["0xfa461e33".to_string()];
    let traces = vec![trace];
    let matches = search_pattern_in_functions(&targets, &traces, "CALLER", "EQ", 1, "window");
    assert_eq!(matches.len(), 1);
    assert_eq!(matches[0].location, 0);
}

#[test]
fn lookahead_miss_ten_ahead() {
    let mut disasm = vec![ins(0, "CALLER")];
    disasm.extend(filler_run(2, 9));
    disasm.push(ins(100, "EQ"));
    let trace = mk_trace(vec![0xfa, 0x46, 0x1e, 0x33], 0, disasm);
    let targets = vec!["0xfa461e33".to_string()];
    let traces = vec![trace];
    let matches = search_pattern_in_functions(&targets, &traces, "CALLER", "EQ", 1, "window");
    assert!(matches.is_empty());
}

#[test]
fn lookahead_miss_eleven_ahead() {
    let mut disasm = vec![ins(0, "CALLER")];
    disasm.extend(filler_run(2, 10));
    disasm.push(ins(100, "EQ"));
    let trace = mk_trace(vec![0xfa, 0x46, 0x1e, 0x33], 0, disasm);
    let targets = vec!["0xfa461e33".to_string()];
    let traces = vec![trace];
    let matches = search_pattern_in_functions(&targets, &traces, "CALLER", "EQ", 1, "window");
    assert!(matches.is_empty());
}

#[test]
fn context_clamped_at_sequence_start() {
    let disasm = vec![ins(0, "CALLER"), ins(2, "PUSH20"), ins(4, "EQ"), ins(6, "JUMPI")];
    let trace = mk_trace(vec![0xfa, 0x46, 0x1e, 0x33], 0, disasm.clone());
    let targets = vec!["0xfa461e33".to_string()];
    let traces = vec![trace];
    let matches = search_pattern_in_functions(&targets, &traces, "CALLER", "EQ", 5, "clamp");
    assert_eq!(matches.len(), 1);
    assert_eq!(matches[0].location, 0);
    // context_size 5 before index 0 clamps to index 0; 5 past index 2 clamps
    // to the last index.
    assert_eq!(matches[0].context, disasm);
}

#[test]
fn no_match_when_second_precedes_first() {
    let disasm = vec![ins(0, "EQ"), ins(2, "CALLER"), ins(4, "JUMPI")];
    let trace = mk_trace(vec![0xfa, 0x46, 0x1e, 0x33], 0, disasm);
    let targets = vec!["0xfa461e33".to_string()];
    let traces = vec![trace];
    let matches = search_pattern_in_functions(&targets, &traces, "CALLER", "EQ", 2, "order");
    assert!(matches.is_empty());
}

#[test]
fn scan_resumes_after_each_first_hit() {
    // Two first-opcode hits share the one second-opcode occurrence ahead of
    // both: each yields its own match.
    let disasm = vec![ins(0, "CALLER"), ins(2, "CALLER"), ins(4, "PUSH20"), ins(6, "EQ")];
    let trace = mk_trace(vec![0xfa, 0x46, 0x1e, 0x33], 0, disasm);
    let targets = vec!["0xfa461e33".to_string()];
    let traces = vec![trace];
    let matches = search_pattern_in_functions(&targets, &traces, "CALLER", "EQ", 0, "repeat");
    assert_eq!(matches.len(), 2);
    assert_eq!(matches[0].location, 0);
    assert_eq!(matches[1].location, 2);
}

#[test]
fn zero_context_size_keeps_hit_to_second_span() {
    let disasm = vec![ins(0, "DUP1"), ins(2, "CALLER"), ins(4, "PUSH20"), ins(6, "EQ"), ins(8, "JUMPI")];
    let trace = mk_trace(vec![0xfa, 0x46, 0x1e, 0x33], 0, disasm.clone());
    let targets = vec!["0xfa461e33".to_string()];
    let traces = vec![trace];
    let matches = search_pattern_in_functions(&targets, &traces, "CALLER", "EQ", 0, "span");
    assert_eq!(matches.len(), 1);
    assert_eq!(matches[0].context, disasm[1..=3].to_vec());
}

#[test]
fn matches_follow_trace_order() {
    let d1 = vec![ins(0, "CALLER"), ins(2, "EQ")];
    let d2 = vec![ins(0, "CALLER"), ins(2, "EQ")];
    let t1 = mk_trace(vec![0xfa, 0x46, 0x1e, 0x33], 0, d1);
    let t2 = mk_trace(vec![0xd0, 0xf6, 0x1a, 0x17], 0, d2);
    let targets = vec!["0xfa461e33".to_string(), "0xd0f61a17".to_string()];
    let traces = vec![t1, t2];
    let matches = search_pattern_in_functions(&targets, &traces, "CALLER", "EQ", 1, "order");
    assert_eq!(matches.len(), 2);
    assert_eq!(matches[0].function_selector, "0xfa461e33");
    assert_eq!(matches[1].function_selector, "0xd0f61a17");
}

#[test]
fn substring_matching_is_not_exact() {
    assert!(contains_substr("DELEGATECALL", "CALL"));
    assert!(!contains_substr("CALL", "CALLER"));
    assert!(contains_substr("EQ", ""));
    assert!(contains_substr("PUSH20", "PUSH2"));
    assert!(!contains_substr("", "EQ"));
}

#[test]
fn overmatching_mnemonics_share_a_prefix() {
    // Substring matching lets a "CALL" query hit CALLER too; both positions
    // pair with the EQ ahead.
    let disasm = vec![ins(0, "CALL"), ins(2, "CALLER"), ins(4, "EQ")];
    let trace = mk_trace(vec![0xfa, 0x46, 0x1e, 0x33], 0, disasm);
    let targets = vec!["0xfa461e33".to_string()];
    let traces = vec![trace];
    let matches = search_pattern_in_functions(&targets, &traces, "CALL", "EQ", 1, "prefix");
    assert_eq!(matches.len(), 2);
}
