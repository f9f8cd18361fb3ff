use pydeob::error::Error;
use pydeob::instruction::{DecodeError, Instruction};
use pydeob::long::Long;
use pydeob::object::Obj;
use pydeob::opcode::Opcode;
use pydeob::walker::{
    const_jmp_instruction_walker, remove_bad_instructions_behind_offset, walk_with_limit,
    NoCallback, ParsedInstr, WalkerCallback, WalkerState,
};
use std::collections::BTreeMap;

fn serialized(instrs: &[Instruction]) -> Vec<u8> {
    let mut bytecode = Vec::new();
    for instr in instrs {
        instr.serialize(&mut bytecode);
    }
    bytecode
}

fn offsets(map: &BTreeMap<u64, ParsedInstr>) -> Vec<u64> {
    map.keys().copied().collect()
}

struct Recorder {
    seen: Vec<(u64, Opcode)>,
    reply_at: Vec<(u64, WalkerState)>,
}

impl WalkerCallback for Recorder {
    type State = ();

    fn visit(&mut self, instr: &Instruction, offset: u64) -> Result<WalkerState, Error> {
        self.seen.push((offset, instr.opcode));
        for (at, reply) in &self.reply_at {
            if *at == offset {
                return Ok(*reply);
            }
        }
        Ok(WalkerState::Continue)
    }
}

#[test]
fn follows_jumps_and_skips_what_they_jump_over() {
    let mut bytecode = serialized(&[Instruction::new(Opcode::JUMP_ABSOLUTE, Some(5))]);
    bytecode.extend_from_slice(&[0xff, 0xff]);
    bytecode.extend(serialized(&[
        Instruction::new(Opcode::LOAD_CONST, Some(0)),
        Instruction::new(Opcode::RETURN_VALUE, None),
    ]));
    let map = const_jmp_instruction_walker(&bytecode, &vec![Obj::PyNone], &mut NoCallback).unwrap();
    assert_eq!(offsets(&map), vec![0, 5, 8]);
    assert_eq!(map[&5], ParsedInstr::Good(Instruction::new(Opcode::LOAD_CONST, Some(0))));
    assert_eq!(map[&8].unwrap(), Instruction::new(Opcode::RETURN_VALUE, None));
}

#[test]
fn an_undecided_condition_queues_both_branches() {
    let bytecode = serialized(&[
        Instruction::new(Opcode::LOAD_FAST, Some(0)),
        Instruction::new(Opcode::POP_JUMP_IF_FALSE, Some(10)),
        Instruction::new(Opcode::LOAD_CONST, Some(0)),
        Instruction::new(Opcode::RETURN_VALUE, None),
        Instruction::new(Opcode::LOAD_CONST, Some(0)),
        Instruction::new(Opcode::RETURN_VALUE, None),
    ]);
    let map = const_jmp_instruction_walker(&bytecode, &vec![Obj::PyNone], &mut NoCallback).unwrap();
    assert_eq!(offsets(&map), vec![0, 3, 6, 9, 10, 13]);
}

#[test]
fn a_constant_condition_queues_the_branch_that_is_taken() {
    let program = |jump: Opcode| {
        serialized(&[
            Instruction::new(Opcode::LOAD_CONST, Some(1)),
            Instruction::new(jump, Some(10)),
            Instruction::new(Opcode::LOAD_CONST, Some(0)),
            Instruction::new(Opcode::RETURN_VALUE, None),
            Instruction::new(Opcode::LOAD_CONST, Some(0)),
            Instruction::new(Opcode::RETURN_VALUE, None),
        ])
    };
    let consts = vec![Obj::PyNone, Obj::Long(Long::from_i64(1))];
    let taken =
        const_jmp_instruction_walker(&program(Opcode::POP_JUMP_IF_TRUE), &consts, &mut NoCallback)
            .unwrap();
    assert_eq!(offsets(&taken), vec![0, 3, 10, 13]);
    let fallen =
        const_jmp_instruction_walker(&program(Opcode::POP_JUMP_IF_FALSE), &consts, &mut NoCallback)
            .unwrap();
    assert_eq!(offsets(&fallen), vec![0, 3, 6, 9]);
}

#[test]
fn a_reachable_bad_byte_is_recorded_and_not_followed() {
    let mut bytecode = serialized(&[Instruction::new(Opcode::LOAD_CONST, Some(0))]);
    bytecode.push(0xff);
    bytecode.extend(serialized(&[Instruction::new(Opcode::RETURN_VALUE, None)]));
    let map = const_jmp_instruction_walker(&bytecode, &vec![Obj::PyNone], &mut NoCallback).unwrap();
    assert_eq!(offsets(&map), vec![0, 3]);
    assert_eq!(map[&3], ParsedInstr::Bad);
}

#[test]
fn a_jump_to_no_instruction_stays_and_is_not_followed() {
    let mut bytecode = serialized(&[
        Instruction::new(Opcode::LOAD_FAST, Some(0)),
        Instruction::new(Opcode::POP_JUMP_IF_FALSE, Some(13)),
        Instruction::new(Opcode::LOAD_CONST, Some(0)),
        Instruction::new(Opcode::POP_TOP, None),
        Instruction::new(Opcode::JUMP_ABSOLUTE, Some(16)),
        Instruction::new(Opcode::LOAD_CONST, Some(0)),
    ]);
    bytecode.push(0xff);
    let map = const_jmp_instruction_walker(&bytecode, &vec![Obj::PyNone], &mut NoCallback).unwrap();
    // The jump at offset 10 targets the byte at offset 16, which is no
    // opcode: the jump stays as it was decoded, and its target is reached
    // only by falling through from offset 13.
    assert_eq!(offsets(&map), vec![0, 3, 6, 9, 10, 13, 16]);
    assert_eq!(map[&10], ParsedInstr::Good(Instruction::new(Opcode::JUMP_ABSOLUTE, Some(16))));
    assert_eq!(map[&13], ParsedInstr::Good(Instruction::new(Opcode::LOAD_CONST, Some(0))));
    assert_eq!(map[&16], ParsedInstr::Bad);
}

#[test]
fn a_jump_beyond_the_bytecode_stays_a_good_entry() {
    let bytecode = vec![113, 200, 0, 83];
    let mut recorder = Recorder { seen: vec![], reply_at: vec![] };
    let map = const_jmp_instruction_walker(&bytecode, &vec![Obj::PyNone], &mut recorder).unwrap();
    assert_eq!(offsets(&map), vec![0]);
    assert_eq!(map[&0], ParsedInstr::Good(Instruction::new(Opcode::JUMP_ABSOLUTE, Some(200))));
    assert_eq!(recorder.seen.len(), 1);
}

#[test]
fn every_offset_is_shown_to_a_callback_that_continues_once() {
    // Two jumps to no instruction, and a loop back to the start.
    let bytecode = serialized(&[
        Instruction::new(Opcode::LOAD_FAST, Some(0)),
        Instruction::new(Opcode::POP_JUMP_IF_FALSE, Some(10)),
        Instruction::new(Opcode::POP_TOP, None),
        Instruction::new(Opcode::JUMP_ABSOLUTE, Some(200)),
        Instruction::new(Opcode::JUMP_ABSOLUTE, Some(0)),
    ]);
    let mut recorder = Recorder { seen: vec![], reply_at: vec![] };
    let map = const_jmp_instruction_walker(&bytecode, &vec![Obj::PyNone], &mut recorder).unwrap();
    let mut seen: Vec<u64> = recorder.seen.iter().map(|(offset, _)| *offset).collect();
    seen.sort();
    assert_eq!(seen, offsets(&map));
    assert_eq!(offsets(&map), vec![0, 3, 6, 7, 10]);
}

#[test]
fn bytecode_that_ends_within_an_instruction_is_an_error() {
    let bytecode = vec![100, 0];
    let r = const_jmp_instruction_walker(&bytecode, &vec![], &mut NoCallback);
    assert!(matches!(r, Err(Error::DisassemblerError(DecodeError::TruncatedInput))));
}

#[test]
fn empty_bytecode_yields_an_empty_map() {
    let map = const_jmp_instruction_walker(&[], &vec![], &mut NoCallback).unwrap();
    assert!(map.is_empty());
}

#[test]
fn the_callback_sees_every_instruction_once_in_queue_order() {
    let bytecode = serialized(&[
        Instruction::new(Opcode::LOAD_FAST, Some(0)),
        Instruction::new(Opcode::POP_JUMP_IF_FALSE, Some(7)),
        Instruction::new(Opcode::RETURN_VALUE, None),
        Instruction::new(Opcode::RETURN_VALUE, None),
    ]);
    let mut recorder = Recorder { seen: vec![], reply_at: vec![] };
    const_jmp_instruction_walker(&bytecode, &vec![], &mut recorder).unwrap();
    assert_eq!(
        recorder.seen,
        vec![
            (0, Opcode::LOAD_FAST),
            (3, Opcode::POP_JUMP_IF_FALSE),
            (7, Opcode::RETURN_VALUE),
            (6, Opcode::RETURN_VALUE),
        ]
    );
}

#[test]
fn break_stops_the_walk_after_the_instruction_is_recorded() {
    let bytecode = serialized(&[
        Instruction::new(Opcode::LOAD_CONST, Some(0)),
        Instruction::new(Opcode::POP_TOP, None),
        Instruction::new(Opcode::RETURN_VALUE, None),
    ]);
    let mut recorder = Recorder { seen: vec![], reply_at: vec![(3, WalkerState::Break)] };
    let map = const_jmp_instruction_walker(&bytecode, &vec![Obj::PyNone], &mut recorder).unwrap();
    assert_eq!(offsets(&map), vec![0, 3]);
    assert_eq!(map[&3], ParsedInstr::Good(Instruction::new(Opcode::POP_TOP, None)));
    assert_eq!(recorder.seen.len(), 2);

    let bytecode = vec![100, 0, 0, 83];
    let mut recorder = Recorder { seen: vec![], reply_at: vec![(0, WalkerState::Break)] };
    let map = const_jmp_instruction_walker(&bytecode, &vec![Obj::PyNone], &mut recorder).unwrap();
    assert_eq!(offsets(&map), vec![0]);
    assert_eq!(map[&0], ParsedInstr::Good(Instruction::new(Opcode::LOAD_CONST, Some(0))));
    assert_eq!(recorder.seen.len(), 1);
}

#[test]
fn jump_to_records_the_instruction_and_continues_elsewhere() {
    let bytecode = serialized(&[
        Instruction::new(Opcode::LOAD_CONST, Some(0)),
        Instruction::new(Opcode::POP_TOP, None),
        Instruction::new(Opcode::POP_TOP, None),
        Instruction::new(Opcode::RETURN_VALUE, None),
    ]);
    let mut recorder = Recorder { seen: vec![], reply_at: vec![(0, WalkerState::JumpTo(4))] };
    let map = const_jmp_instruction_walker(&bytecode, &vec![Obj::PyNone], &mut recorder).unwrap();
    // The successor of offset 0, offset 3, is not queued on its account.
    assert_eq!(offsets(&map), vec![0, 4, 5]);
    assert_eq!(map[&0], ParsedInstr::Good(Instruction::new(Opcode::LOAD_CONST, Some(0))));
}

#[test]
fn an_assumed_comparison_overrides_the_constant() {
    let bytecode = serialized(&[
        Instruction::new(Opcode::LOAD_CONST, Some(1)),
        Instruction::new(Opcode::POP_JUMP_IF_TRUE, Some(10)),
        Instruction::new(Opcode::LOAD_CONST, Some(0)),
        Instruction::new(Opcode::RETURN_VALUE, None),
        Instruction::new(Opcode::LOAD_CONST, Some(0)),
        Instruction::new(Opcode::RETURN_VALUE, None),
    ]);
    let consts = vec![Obj::PyNone, Obj::Long(Long::from_i64(1))];
    let mut recorder =
        Recorder { seen: vec![], reply_at: vec![(3, WalkerState::AssumeComparison(false))] };
    let map = const_jmp_instruction_walker(&bytecode, &consts, &mut recorder).unwrap();
    assert_eq!(offsets(&map), vec![0, 3, 6, 9]);
}

#[test]
fn a_forced_walk_around_a_loop_runs_into_the_step_limit() {
    let bytecode = serialized(&[Instruction::new(Opcode::JUMP_ABSOLUTE, Some(0))]);
    let mut recorder = Recorder {
        seen: vec![],
        reply_at: vec![(0, WalkerState::ContinueIgnoreAnalyzedInstructions)],
    };
    let r = walk_with_limit(&bytecode, &vec![], &mut recorder, 10);
    assert!(matches!(r, Err(Error::StepLimitReached)));
    assert_eq!(recorder.seen.len(), 10);
}

#[test]
fn force_queue_next_holds_for_the_forcing_replies() {
    assert!(!WalkerState::Continue.force_queue_next());
    assert!(!WalkerState::Break.force_queue_next());
    assert!(WalkerState::ContinueIgnoreAnalyzedInstructions.force_queue_next());
    assert!(WalkerState::JumpTo(3).force_queue_next());
    assert!(WalkerState::AssumeComparison(true).force_queue_next());
}

#[test]
fn entries_behind_the_last_jump_are_removed() {
    let mut map = BTreeMap::new();
    map.insert(0, ParsedInstr::Good(Instruction::new(Opcode::LOAD_CONST, Some(0))));
    map.insert(3, ParsedInstr::Good(Instruction::new(Opcode::POP_JUMP_IF_TRUE, Some(20))));
    map.insert(6, ParsedInstr::Good(Instruction::new(Opcode::LOAD_CONST, Some(0))));
    map.insert(9, ParsedInstr::Bad);
    map.insert(10, ParsedInstr::Good(Instruction::new(Opcode::JUMP_ABSOLUTE, Some(99))));
    map.insert(13, ParsedInstr::Good(Instruction::new(Opcode::RETURN_VALUE, None)));
    remove_bad_instructions_behind_offset(10, &mut map);
    assert_eq!(offsets(&map), vec![0, 3, 10, 13]);
    let mut untouched = BTreeMap::new();
    untouched.insert(0, ParsedInstr::Good(Instruction::new(Opcode::LOAD_CONST, Some(0))));
    untouched.insert(3, ParsedInstr::Good(Instruction::new(Opcode::POP_TOP, None)));
    remove_bad_instructions_behind_offset(4, &mut untouched);
    assert_eq!(offsets(&untouched), vec![0, 3]);
}
