//! A reference interpreter for the basic-instruction streams, used to check
//! that the safe optimisation levels preserve what a program does.
use worn::ast::BInstr;
use worn::ast::Instruction;
use worn::ast::SuperValue;
use worn::ast::WithPos;
use worn::optimizer::Optimizer;
use worn::wbf::WBFEmitter;

/// Run a stream on a zeroed tape; `None` when the step budget runs out.
fn interpret(program: &[BInstr], input: &[u8], fuel: usize) -> Option<Vec<u8>> {
    let mut tape = vec![0u8; 1 << 20];
    let mut ptr: usize = 1 << 19;
    let mut inp = input.iter().copied();
    let mut out = Vec::new();
    let mut pc: usize = 0;
    let mut steps: usize = 0;
    while pc < program.len() {
        steps += 1;
        if steps >= fuel {
            return None;
        }
        match program[pc] {
            BInstr::Add(n) => {
                tape[ptr] = tape[ptr].wrapping_add((n & 0xff) as u8);
            }
            BInstr::Move(n) => {
                ptr = (ptr as i64 + n as i64) as usize;
            }
            BInstr::PutC => out.push(tape[ptr]),
            BInstr::GetC => {
                if let Some(b) = inp.next() {
                    tape[ptr] = b;
                }
            }
            BInstr::LoopStart => {
                if tape[ptr] == 0 {
                    let mut depth = 1;
                    while depth > 0 {
                        pc += 1;
                        match program[pc] {
                            BInstr::LoopStart => depth += 1,
                            BInstr::LoopEnd => depth -= 1,
                            _ => {}
                        }
                    }
                }
            }
            BInstr::LoopEnd => {
                if tape[ptr] != 0 {
                    let mut depth = 1;
                    while depth > 0 {
                        pc -= 1;
                        match program[pc] {
                            BInstr::LoopEnd => depth += 1,
                            BInstr::LoopStart => depth -= 1,
                            _ => {}
                        }
                    }
                }
            }
        }
        pc += 1;
    }
    Some(out)
}

fn wp(value: Instruction) -> WithPos<Instruction> {
    WithPos { start: 0, end: 0, value }
}

fn compile(program: Vec<WithPos<Instruction>>) -> Vec<BInstr> {
    let mut emitter = WBFEmitter::new(program);
    emitter.compile().unwrap();
    emitter.finalize().unwrap()
}

#[test]
fn test_safe_levels_preserve_behaviour() {
    // a program with large constants, folds, a loop and both kinds of I/O:
    // read a byte, print it incremented, then print 'd' computed as 100
    let program = vec![
        wp(Instruction::GetC),
        wp(Instruction::Add(1)),
        wp(Instruction::PutC),
        wp(Instruction::Loop { body: vec![wp(Instruction::Add(-1))] }),
        wp(Instruction::Add(60)),
        wp(Instruction::Add(40)),
        wp(Instruction::PutC),
        wp(Instruction::Move(3)),
        wp(Instruction::Move(-3)),
        wp(Instruction::PutC),
    ];
    let base = compile(program);
    let reference = interpret(&base, &[41], 100000).unwrap();
    assert_eq!(reference, vec![42, 100, 100]);
    for level in 0..=5u8 {
        let opt = Optimizer { level, adv_opt: vec![] };
        let optimized = opt.apply(base.clone());
        let got = interpret(&optimized, &[41], 100000).unwrap();
        assert_eq!(got, reference, "level {} changed the behaviour", level);
    }
}

#[test]
fn test_compressed_constant_computes_the_same_value() {
    // `Add(1000)` alone, on a fresh tape: the multiplication loops must
    // leave 1000 mod 256 in the starting cell
    let program = vec![wp(Instruction::InlineValue(SuperValue::Integer(1000))), wp(
        Instruction::PutC,
    )];
    let base = compile(program);
    let reference = interpret(&base, &[], 1000000).unwrap();
    assert_eq!(reference, vec![(1000 % 256) as u8]);
    for level in 0..=5u8 {
        let opt = Optimizer { level, adv_opt: vec![] };
        let got = interpret(&opt.apply(base.clone()), &[], 1000000).unwrap();
        assert_eq!(got, reference, "level {} changed the value", level);
    }
}

#[test]
fn test_empty_program_compiles_to_nothing() {
    assert_eq!(compile(vec![]), vec![]);
}

fn next_rand(state: &mut u64) -> u64 {
    *state = state.wrapping_mul(6364136223846793005).wrapping_add(1442695040888963407);
    *state >> 33
}

fn random_body(state: &mut u64, depth: u32, len: usize) -> Vec<WithPos<Instruction>> {
    let mut body = Vec::new();
    for _ in 0..len {
        let pick = next_rand(state) % if depth > 0 { 6 } else { 5 };
        let node = match pick {
            0 => Instruction::Add((next_rand(state) % 21) as i32 - 10),
            1 => Instruction::Move((next_rand(state) % 3) as i32 - 1),
            2 => Instruction::PutC,
            3 => Instruction::GetC,
            4 => Instruction::InlineValue(SuperValue::Integer((next_rand(state) % 300) as u32)),
            _ => {
                let inner_len = (next_rand(state) % 3 + 1) as usize;
                Instruction::Loop { body: random_body(state, depth - 1, inner_len) }
            },
        };
        body.push(wp(node));
    }
    body
}

/// Random programs, compared at the levels that only fold: the higher levels
/// rewrite through scratch cells and are exercised on clean tapes in the
/// tests above instead.
#[test]
fn test_random_programs_agree_across_folding_levels() {
    let mut state: u64 = 0x5eed;
    let mut checked = 0;
    for _ in 0..200 {
        let len = (next_rand(&mut state) % 8 + 1) as usize;
        let program = random_body(&mut state, 2, len);
        let base = compile(program);
        let mut input = [0u8; 8];
        for b in input.iter_mut() {
            *b = next_rand(&mut state) as u8;
        }
        let reference = match interpret(&base, &input, 40000) {
            Some(out) => out,
            None => continue,  // a non-terminating loop; nothing to compare
        };
        for level in 0..=1u8 {
            let opt = Optimizer { level, adv_opt: vec![] };
            let got = interpret(&opt.apply(base.clone()), &input, 40000);
            assert_eq!(got, Some(reference.clone()), "level {} diverged", level);
        }
        checked += 1;
    }
    assert!(checked > 100, "too few terminating programs: {}", checked);
}
