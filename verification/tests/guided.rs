use rand::{SeedableRng, rngs::SmallRng};
use stratamoto::{
    Instruction, Operation, Program, ProgramBuilder, ProgramContext, Protocol,
    generators::{Generator, setup_connection::SetupConnectionGenerator},
    guided::{
        AnyRoleAdversarialSetup, AnyRoleRawFrame, AnyRoleSetup, MAX_INSTRUCTIONS, Reduction,
        acceptable, global_points, insert_fragment, mutated, spliced,
    },
    minimizers::{cutting::CuttingMinimizer, nopping::NoppingMinimizer},
    mutators::{concat::ConcatMutator, input::InputMutator},
};

fn context() -> ProgramContext {
    ProgramContext {
        num_roles: 3,
        num_connections: 0,
        seed: 0,
    }
}

fn seeded(seed: u64) -> Program {
    let mut rng = SmallRng::seed_from_u64(seed);
    let mut builder = ProgramBuilder::new(context());
    SetupConnectionGenerator::new(0)
        .generate(&mut builder, &mut rng)
        .unwrap();
    builder.finalize().unwrap()
}

fn setup_program() -> Program {
    Program::unchecked_new(
        context(),
        vec![
            Instruction::new(Operation::LoadRole(1), vec![]),
            Instruction::new(Operation::Connect, vec![0]),
            Instruction::new(Operation::BeginBuildSetupConnection, vec![]),
            Instruction::new(Operation::LoadFlags(5), vec![]),
            Instruction::new(Operation::SetFlags, vec![2, 3]),
            Instruction::new(
                Operation::EndBuildSetupConnection {
                    protocol: Protocol::Mining,
                },
                vec![2],
            ),
            Instruction::new(
                Operation::SendSetupConnection {
                    protocol: Protocol::Mining,
                },
                vec![1, 4],
            ),
        ],
    )
}

#[test]
fn fragments_go_only_where_no_block_is_open() {
    assert_eq!(global_points(&setup_program()), vec![0, 1, 2, 6, 7]);
    assert_eq!(
        global_points(&Program::unchecked_new(context(), vec![])),
        vec![0]
    );
}

#[test]
fn an_inserted_fragment_keeps_the_program_valid_and_its_ends() {
    let original = setup_program();
    assert!(original.is_statically_valid());
    let mut rng = SmallRng::seed_from_u64(11);
    let mut inserted = 0;
    for _ in 0..50 {
        for generated in [
            insert_fragment(&AnyRoleRawFrame { num_roles: 3 }, &original, &mut rng),
            insert_fragment(&AnyRoleSetup { num_roles: 3 }, &original, &mut rng),
            insert_fragment(&AnyRoleAdversarialSetup { num_roles: 0 }, &original, &mut rng),
        ] {
            let Some(program) = generated else { continue };
            inserted += 1;
            assert!(program.is_statically_valid(), "{}", program.render());
            assert!(program.instructions.len() > original.instructions.len());
            assert!(program.instructions.len() <= MAX_INSTRUCTIONS);
            assert_eq!(program.context, original.context);
            // The original's instructions are all there, in order: a prefix as it was, then the
            // fragment, then the rest with only their inputs renumbered.
            let kept = program
                .instructions
                .iter()
                .zip(original.instructions.iter())
                .take_while(|(a, b)| a == b)
                .count();
            let tail = original.instructions.len() - kept;
            let moved = &program.instructions[program.instructions.len() - tail..];
            for (after, before) in moved.iter().zip(original.instructions[kept..].iter()) {
                assert_eq!(after.operation, before.operation);
            }
        }
    }
    assert!(inserted > 0, "nothing was ever inserted");
}

#[test]
fn a_kept_mutation_is_a_valid_program() {
    let mut rng = SmallRng::seed_from_u64(12);
    let program = seeded(3);
    let other = seeded(4);
    let mut kept = 0;
    for _ in 0..100 {
        if let Some(p) = mutated(&mut InputMutator, &program, &mut rng) {
            assert!(acceptable(&p));
            kept += 1;
        }
        if let Some(p) = spliced(&mut ConcatMutator, &program, &other, &mut rng) {
            assert!(acceptable(&p));
            assert!(p.instructions.len() > program.instructions.len());
            kept += 1;
        }
    }
    assert!(kept > 0);
}

#[test]
fn a_crash_reduction_keeps_what_still_fails() {
    let program = seeded(5);
    let before = program.instructions.len();
    let mut reduction: Reduction<CuttingMinimizer> = Reduction::new(program, 0, 10, true, 0);
    let mut reports = 0;
    while let Some(_candidate) = reduction.next_candidate() {
        // Every candidate still crashes.
        assert!(reduction.report(false, 0));
        reports += 1;
    }
    assert!(reports > 0);
    let (reduced, failures) = reduction.finish();
    let reduced = reduced.expect("a candidate was kept");
    assert!(reduced.instructions.len() < before);
    assert_eq!(failures, 0);
}

#[test]
fn a_reduction_gives_up_after_too_many_rejections() {
    let program = seeded(6);
    let mut reduction: Reduction<NoppingMinimizer> = Reduction::new(program, 0, 2, false, 4);
    let mut reports = 0;
    while let Some(_candidate) = reduction.next_candidate() {
        // The candidate lost a novelty.
        assert!(!reduction.report(true, 3));
        reports += 1;
    }
    assert_eq!(reports, 3, "the limit is exceeded on the third rejection");
    let (reduced, failures) = reduction.finish();
    assert!(reduced.is_none());
    assert_eq!(failures, 3);
}
