use pydeob::code_graph::{BasicBlock, BasicBlockFlags, CodeGraph, EdgeKind, Ending};
use pydeob::error::Error;
use pydeob::instruction::Instruction;
use pydeob::long::Long;
use pydeob::object::{Code, Obj};
use pydeob::opcode::Opcode;
use pydeob::walker::ParsedInstr;

fn code_object(instrs: &[Instruction], consts: Vec<Obj>) -> Code {
    let mut bytecode = Vec::new();
    for instr in instrs {
        instr.serialize(&mut bytecode);
    }
    Code {
        argcount: 0,
        nlocals: 0,
        stacksize: 0,
        flags: 0,
        code: bytecode,
        consts,
        names: vec![],
        varnames: vec![b"flag".to_vec()],
        freevars: vec![],
        cellvars: vec![],
        filename: vec![],
        name: vec![],
        firstlineno: 0,
        lnotab: vec![],
    }
}

fn good(opcode: Opcode, arg: Option<u16>) -> ParsedInstr {
    ParsedInstr::Good(Instruction::new(opcode, arg))
}

fn live_blocks(graph: &CodeGraph) -> Vec<usize> {
    (0..graph.blocks.len()).filter(|b| graph.live[*b]).collect()
}

fn diamond() -> Code {
    code_object(
        &[
            // 0
            Instruction::new(Opcode::LOAD_FAST, Some(0)),
            // 3
            Instruction::new(Opcode::POP_JUMP_IF_FALSE, Some(12)),
            // 6
            Instruction::new(Opcode::LOAD_CONST, Some(1)),
            // 9
            Instruction::new(Opcode::JUMP_FORWARD, Some(0)),
            // 12
            Instruction::new(Opcode::LOAD_CONST, Some(0)),
            // 15
            Instruction::new(Opcode::RETURN_VALUE, None),
        ],
        vec![Obj::PyNone, Obj::Long(Long::from_i64(1))],
    )
}

#[test]
fn blocks_are_split_at_jumps_and_targets() {
    let graph = CodeGraph::from_code(&diamond()).unwrap();
    // Three blocks of the bytecode and the stub.
    assert_eq!(graph.blocks.len(), 4);
    assert_eq!(graph.root, 0);
    assert_eq!(graph.blocks[0].start_offset, 0);
    assert_eq!(graph.blocks[0].end_offset, 6);
    assert_eq!(
        graph.blocks[0].instrs,
        vec![good(Opcode::LOAD_FAST, Some(0)), good(Opcode::POP_JUMP_IF_FALSE, Some(12))]
    );
    assert_eq!(graph.blocks[1].start_offset, 6);
    assert_eq!(graph.blocks[2].start_offset, 12);
    assert_eq!(graph.next, vec![Some(1), None, None, None]);
    assert_eq!(graph.jump, vec![Some(2), Some(2), None, None]);
    assert!(graph.blocks[3].instrs.is_empty());
    assert!(graph.blocks[3].flags.bad);
}

#[test]
fn a_block_with_two_predecessors_is_not_joined() {
    let mut graph = CodeGraph::from_code(&diamond()).unwrap();
    graph.fix_bbs_with_bad_instr();
    graph.prune_unreachable();
    assert_eq!(live_blocks(&graph), vec![0, 1, 2]);
    graph.join_blocks();
    assert_eq!(live_blocks(&graph), vec![0, 1, 2]);
}

#[test]
fn a_chain_of_blocks_is_joined_into_its_first_block() {
    let code = code_object(
        &[
            // 0
            Instruction::new(Opcode::LOAD_CONST, Some(0)),
            // 3
            Instruction::new(Opcode::JUMP_ABSOLUTE, Some(10)),
            // 6
            Instruction::new(Opcode::POP_TOP, None),
            // 7
            Instruction::new(Opcode::JUMP_ABSOLUTE, Some(14)),
            // 10
            Instruction::new(Opcode::JUMP_ABSOLUTE, Some(6)),
            // 13
            Instruction::new(Opcode::NOP, None),
            // 14
            Instruction::new(Opcode::LOAD_CONST, Some(0)),
            // 17
            Instruction::new(Opcode::RETURN_VALUE, None),
        ],
        vec![Obj::PyNone],
    );
    let mut graph = CodeGraph::from_code(&code).unwrap();
    graph.fix_bbs_with_bad_instr();
    graph.prune_unreachable();
    graph.join_blocks();
    assert_eq!(live_blocks(&graph), vec![0]);
    assert_eq!(
        graph.blocks[0].instrs,
        vec![
            good(Opcode::LOAD_CONST, Some(0)),
            good(Opcode::POP_TOP, None),
            good(Opcode::LOAD_CONST, Some(0)),
            good(Opcode::RETURN_VALUE, None),
        ]
    );
    assert_eq!(graph.next[0], None);
    assert_eq!(graph.jump[0], None);
}

#[test]
fn the_layout_places_the_follower_before_the_target() {
    let mut graph = CodeGraph::from_code(&diamond()).unwrap();
    graph.fix_bbs_with_bad_instr();
    graph.prune_unreachable();
    graph.update_bb_offsets().unwrap();
    assert_eq!(graph.order, vec![0, 1, 2]);
    assert_eq!(graph.blocks[0].start_offset, 0);
    assert_eq!(graph.blocks[1].start_offset, 6);
    assert_eq!(graph.blocks[2].start_offset, 12);
    assert!(graph.blocks[2].flags.offsets_updated);
    assert_eq!(graph.update_branches(), Ok(false));
    let mut bytes = Vec::new();
    graph.write_bytecode(&mut bytes);
    assert_eq!(bytes, diamond().code);
}

#[test]
fn a_fall_through_to_a_block_that_was_placed_is_made_explicit() {
    // 0: a loop head that falls through from its own end.
    let code = code_object(
        &[
            // 0
            Instruction::new(Opcode::LOAD_FAST, Some(0)),
            // 3
            Instruction::new(Opcode::POP_JUMP_IF_TRUE, Some(0)),
            // 6
            Instruction::new(Opcode::LOAD_FAST, Some(0)),
            // 9
            Instruction::new(Opcode::POP_JUMP_IF_TRUE, Some(13)),
            // 12
            Instruction::new(Opcode::RETURN_VALUE, None),
            // 13
            Instruction::new(Opcode::LOAD_FAST, Some(0)),
            // 16
            Instruction::new(Opcode::POP_JUMP_IF_TRUE, Some(12)),
            // 19
            Instruction::new(Opcode::JUMP_ABSOLUTE, Some(12)),
        ],
        vec![Obj::PyNone],
    );
    let mut graph = CodeGraph::from_code(&code).unwrap();
    graph.fix_bbs_with_bad_instr();
    graph.prune_unreachable();
    graph.update_bb_offsets().unwrap();
    let blocks_before = graph.blocks.len();
    let mut rounds = 0;
    while graph.update_branches().unwrap() {
        graph.update_bb_offsets().unwrap();
        rounds += 1;
        assert!(rounds < 4);
    }
    assert!(graph.blocks.len() >= blocks_before);
    let mut bytes = Vec::new();
    graph.write_bytecode(&mut bytes);
    // Every jump of the output lands on the start of a block of the layout.
    let starts: Vec<u64> = graph.order.iter().map(|b| graph.blocks[*b].start_offset).collect();
    let mut offset = 0usize;
    while offset < bytes.len() {
        let instr = pydeob::instruction::decode(&bytes, offset).unwrap();
        if instr.opcode.is_jump() {
            let arg = instr.arg.unwrap() as u64;
            let target =
                if instr.opcode.is_relative_jump() { offset as u64 + 3 + arg } else { arg };
            assert!(starts.contains(&target));
        }
        offset += instr.len();
    }
    assert_eq!(offset, bytes.len());
}

#[test]
fn bad_entries_are_cut_off_and_the_block_is_flagged() {
    let mut code = code_object(&[Instruction::new(Opcode::LOAD_CONST, Some(0))], vec![Obj::PyNone]);
    code.code.push(0xff);
    let mut graph = CodeGraph::from_code(&code).unwrap();
    assert_eq!(graph.blocks[0].instrs, vec![good(Opcode::LOAD_CONST, Some(0)), ParsedInstr::Bad]);
    assert_eq!(pydeob::code_graph::ending_of(&graph.blocks[0].instrs), Ending::Bad);
    graph.fix_bbs_with_bad_instr();
    assert_eq!(graph.blocks[0].instrs, vec![good(Opcode::LOAD_CONST, Some(0))]);
    assert!(graph.blocks[0].flags.bad);
    graph.massage_returns_for_decompiler(&code).unwrap();
    assert_eq!(
        graph.blocks[0].instrs,
        vec![
            good(Opcode::LOAD_CONST, Some(0)),
            good(Opcode::LOAD_CONST, Some(0)),
            good(Opcode::RETURN_VALUE, None),
        ]
    );
}

#[test]
fn a_constant_condition_is_resolved_and_its_producers_are_removed() {
    let code = code_object(
        &[
            // 0
            Instruction::new(Opcode::LOAD_FAST, Some(0)),
            // 3
            Instruction::new(Opcode::POP_TOP, None),
            // 4
            Instruction::new(Opcode::LOAD_CONST, Some(1)),
            // 7
            Instruction::new(Opcode::UNARY_NOT, None),
            // 8
            Instruction::new(Opcode::POP_JUMP_IF_TRUE, Some(15)),
            // 11
            Instruction::new(Opcode::LOAD_CONST, Some(0)),
            // 14
            Instruction::new(Opcode::RETURN_VALUE, None),
            // 15
            Instruction::new(Opcode::LOAD_CONST, Some(1)),
            // 18
            Instruction::new(Opcode::RETURN_VALUE, None),
        ],
        vec![Obj::PyNone, Obj::Long(Long::from_i64(1))],
    );
    let mut graph = CodeGraph::from_code(&code).unwrap();
    graph.fix_bbs_with_bad_instr();
    graph.prune_unreachable();
    assert_eq!(graph.remove_const_conditions(&code), Ok(true));
    assert_eq!(
        graph.blocks[0].instrs,
        vec![good(Opcode::LOAD_FAST, Some(0)), good(Opcode::POP_TOP, None)]
    );
    assert_eq!(graph.jump[0], None);
    assert!(graph.next[0].is_some());
    assert_eq!(graph.remove_const_conditions(&code), Ok(false));
}

#[test]
fn a_value_that_is_used_elsewhere_is_popped_instead_of_removed() {
    let code = code_object(
        &[
            // 0
            Instruction::new(Opcode::LOAD_CONST, Some(1)),
            // 3
            Instruction::new(Opcode::DUP_TOP, None),
            // 4
            Instruction::new(Opcode::POP_JUMP_IF_FALSE, Some(9)),
            // 7
            Instruction::new(Opcode::POP_TOP, None),
            // 8
            Instruction::new(Opcode::RETURN_VALUE, None),
            // 9
            Instruction::new(Opcode::RETURN_VALUE, None),
        ],
        vec![Obj::PyNone, Obj::Long(Long::from_i64(1))],
    );
    let mut graph = CodeGraph::from_code(&code).unwrap();
    graph.fix_bbs_with_bad_instr();
    graph.prune_unreachable();
    assert_eq!(graph.remove_const_conditions(&code), Ok(true));
    assert_eq!(
        graph.blocks[0].instrs,
        vec![
            good(Opcode::LOAD_CONST, Some(1)),
            good(Opcode::DUP_TOP, None),
            good(Opcode::POP_TOP, None),
        ]
    );
}

#[test]
fn bytecode_that_is_too_long_for_a_jump_argument_is_refused() {
    let mut instrs = vec![Instruction::new(Opcode::LOAD_CONST, Some(0)); 0x5555];
    instrs.push(Instruction::new(Opcode::POP_TOP, None));
    instrs.push(Instruction::new(Opcode::RETURN_VALUE, None));
    let code = code_object(&instrs, vec![Obj::PyNone]);
    let mut graph = CodeGraph::from_code(&code).unwrap();
    graph.fix_bbs_with_bad_instr();
    assert_eq!(graph.update_bb_offsets(), Err(Error::JumpOutOfRange));
}

struct Lcg(u64);

impl Lcg {
    fn next(&mut self, bound: usize) -> usize {
        self.0 = self.0.wrapping_mul(6364136223846793005).wrapping_add(1442695040888963407);
        ((self.0 >> 33) as usize) % bound
    }
}

fn random_graph(rng: &mut Lcg) -> CodeGraph {
    let count = 1 + rng.next(12);
    let mut graph = CodeGraph {
        blocks: Vec::new(),
        next: Vec::new(),
        jump: Vec::new(),
        live: Vec::new(),
        root: rng.next(count),
        order: Vec::new(),
    };
    for _ in 0..count {
        let mut instrs = Vec::new();
        for _ in 0..rng.next(4) {
            instrs.push(match rng.next(3) {
                0 => good(Opcode::LOAD_CONST, Some(0)),
                1 => good(Opcode::POP_TOP, None),
                _ => good(Opcode::LOAD_FAST, Some(0)),
            });
        }
        let (next, jump) = match rng.next(6) {
            0 => {
                instrs.push(good(Opcode::RETURN_VALUE, None));
                (None, None)
            }
            1 => {
                instrs.push(good(Opcode::JUMP_ABSOLUTE, Some(0)));
                (None, Some(rng.next(count)))
            }
            2 => {
                instrs.push(good(Opcode::JUMP_FORWARD, Some(0)));
                (None, Some(rng.next(count)))
            }
            3 => {
                instrs.push(good(Opcode::POP_JUMP_IF_TRUE, Some(0)));
                (Some(rng.next(count)), Some(rng.next(count)))
            }
            4 => {
                instrs.push(good(Opcode::JUMP_IF_FALSE_OR_POP, Some(0)));
                (Some(rng.next(count)), Some(rng.next(count)))
            }
            _ => (if rng.next(2) == 0 { Some(rng.next(count)) } else { None }, None),
        };
        graph.blocks.push(BasicBlock {
            start_offset: 0,
            end_offset: 0,
            instrs,
            flags: BasicBlockFlags {
                offsets_updated: false,
                bad: false,
                joined: false,
            },
        });
        graph.next.push(next);
        graph.jump.push(jump);
        graph.live.push(true);
    }
    graph
}

#[test]
fn laid_out_graphs_decode_and_their_jumps_target_blocks() {
    let mut rng = Lcg(0x5eed);
    for _ in 0..200 {
        let mut graph = random_graph(&mut rng);
        graph.prune_unreachable();
        let mut rounds = 0;
        loop {
            graph.update_bb_offsets().unwrap();
            if !graph.update_branches().unwrap() {
                break;
            }
            rounds += 1;
            assert!(rounds < 4, "the layout settles");
        }
        let mut bytes = Vec::new();
        graph.write_bytecode(&mut bytes);
        let starts: Vec<u64> =
            graph.order.iter().map(|b| graph.blocks[*b].start_offset).collect();
        let mut offset = 0usize;
        while offset < bytes.len() {
            let instr = pydeob::instruction::decode(&bytes, offset).unwrap();
            if instr.opcode.is_jump() {
                let arg = instr.arg.unwrap() as u64;
                let target =
                    if instr.opcode.is_relative_jump() { offset as u64 + 3 + arg } else { arg };
                assert!(starts.contains(&target));
            }
            offset += instr.len();
        }
        assert_eq!(offset, bytes.len());
        // Every block falls through to the block that is written after it.
        for (p, b) in graph.order.iter().enumerate() {
            if let Some(c) = graph.next[*b] {
                assert_eq!(graph.order[p + 1], c);
            }
        }
        // Laying the graph out again changes nothing.
        let mut again = Vec::new();
        graph.update_bb_offsets().unwrap();
        assert_eq!(graph.update_branches(), Ok(false));
        graph.write_bytecode(&mut again);
        assert_eq!(again, bytes);
    }
}

fn assert_no_pair_can_be_joined(graph: &CodeGraph) {
    for a in 0..graph.blocks.len() {
        if !graph.live[a] {
            continue;
        }
        let edges = graph.successors(a);
        if edges.len() != 1 {
            continue;
        }
        let (b, kind) = edges[0];
        if !matches!(
            kind,
            EdgeKind::Unconditional | EdgeKind::Fallthrough
        ) {
            continue;
        }
        let unconditional = !matches!(
            graph.blocks[a].instrs.last(),
            Some(ParsedInstr::Good(i)) if i.opcode.is_jump() && !i.opcode.is_unconditional_jump()
        );
        let others = (0..graph.blocks.len())
            .filter(|c| graph.live[*c] && *c != a)
            .filter(|c| graph.next[*c] == Some(b) || graph.jump[*c] == Some(b))
            .count();
        assert!(!unconditional || b == a || b == graph.root || others > 0);
    }
}

#[test]
fn joined_graphs_hold_no_pair_that_can_be_joined() {
    let mut rng = Lcg(77);
    for _ in 0..200 {
        let mut graph = random_graph(&mut rng);
        graph.prune_unreachable();
        graph.join_blocks();
        assert_no_pair_can_be_joined(&graph);
    }
}

#[test]
fn the_layout_of_a_joined_graph_holds_no_pair_that_can_be_joined() {
    let mut rng = Lcg(4242);
    let mut lengthened = 0;
    for _ in 0..300 {
        let mut graph = random_graph(&mut rng);
        graph.prune_unreachable();
        graph.join_blocks();
        loop {
            graph.update_bb_offsets().unwrap();
            if !graph.update_branches().unwrap() {
                break;
            }
            lengthened += 1;
            assert_no_pair_can_be_joined(&graph);
        }
        assert_no_pair_can_be_joined(&graph);
    }
    assert!(lengthened > 0, "some fall through was made explicit");
}

#[test]
fn edges_carry_the_branch_that_they_stand_for() {
    let mut graph = CodeGraph::from_code(&diamond()).unwrap();
    graph.fix_bbs_with_bad_instr();
    assert_eq!(
        graph.successors(0),
        vec![(1, EdgeKind::TrueBranch), (2, EdgeKind::FalseBranch)]
    );
    assert_eq!(graph.successors(1), vec![(2, EdgeKind::Unconditional)]);
    assert_eq!(graph.successors(2), vec![]);
}
