use stcm2tool::chunk::chunk_actions;
use stcm2tool::stcm2::{Action, Parameter};

fn act(call: bool, opcode: u32, params: Vec<Parameter>) -> Action {
    Action { export: None, call, opcode, params, data: Vec::new() }
}

#[test]
fn chunks_split_on_terminators() {
    // two straight-line functions, each ending in a bare terminator
    let acts = vec![
        (0u32, act(false, 5, vec![])),
        (16u32, act(false, 0, vec![])),
        (32u32, act(false, 7, vec![])),
        (48u32, act(false, 0, vec![])),
    ];
    let r = chunk_actions(&acts);
    assert_eq!(r, vec![(0usize, 2usize), (2usize, 4usize)]);
}

#[test]
fn chunks_merge_on_forward_reference() {
    // the first chunk points into the second, so they merge into one
    let acts = vec![
        (0u32, act(false, 5, vec![Parameter::ActionRef(32)])),
        (16u32, act(false, 0, vec![])),
        (32u32, act(false, 7, vec![])),
        (48u32, act(false, 0, vec![])),
    ];
    let r = chunk_actions(&acts);
    assert_eq!(r, vec![(0usize, 4usize)]);
}

#[test]
fn chunks_cover_every_action_once() {
    let acts = vec![
        (0u32, act(false, 1, vec![])),
        (16u32, act(false, 0, vec![])),
        (32u32, act(true, 0, vec![])),
        (48u32, act(false, 0, vec![])),
        (64u32, act(false, 9, vec![])),
    ];
    let r = chunk_actions(&acts);
    // a partition: starts at the first action, ends at the last, no gaps
    assert_eq!(r.first().unwrap().0, 0);
    assert_eq!(r.last().unwrap().1, acts.len());
    for w in r.windows(2) {
        assert_eq!(w[0].1, w[1].0);
    }
    for c in &r {
        assert!(c.0 < c.1);
    }
}

#[test]
fn empty_stream_has_no_chunks() {
    let acts: Vec<(u32, Action)> = Vec::new();
    assert_eq!(chunk_actions(&acts), Vec::<(usize, usize)>::new());
}
