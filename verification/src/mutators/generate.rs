use rand::rngs::SmallRng;
use vstd::prelude::*;

use crate::builder::{lemma_buildable_replayable, lemma_run_shape, ProgramBuilder};
use crate::generators::{extends, Generator};
use crate::mutators::{within_limits, Mutator, MutatorError, MutatorResult};
use crate::program::Program;
use crate::random::ExSmallRng;

verus! {

/// Appends a generated fragment to a program.
///
/// Mutating values alone can never introduce an operation the program does not already have,
/// so growth has to come from a generator.
pub struct GeneratorMutator<G> {
    pub generator: G,
}

impl<G> GeneratorMutator<G> {
    pub fn new(generator: G) -> (m: Self)
        ensures
            m.generator == generator,
    {
        Self { generator }
    }
}

impl<G: Generator> Mutator for GeneratorMutator<G> {
    fn mutate(&mut self, program: &mut Program, rng: &mut SmallRng) -> (r: MutatorResult)
        ensures
            r is Err ==> r == Err::<(), MutatorError>(MutatorError::CreatedInvalidProgram),
            r is Ok ==> final(program)@.is_valid(),
            r is Ok ==> extends(old(program)@.instructions, final(program)@.instructions),
    {
        proof {
            lemma_run_shape(program.context, program@.instructions);
            lemma_buildable_replayable(program.context, program@.instructions);
        }
        let mut builder = match ProgramBuilder::from_prefix(program.context, program.instructions.as_slice()) {
            Ok(builder) => builder,
            Err(_) => {
                return Err(MutatorError::CreatedInvalidProgram);
            },
        };
        match self.generator.generate(&mut builder, rng) {
            Ok(()) => {},
            Err(_) => {
                return Err(MutatorError::CreatedInvalidProgram);
            },
        }
        match builder.finalize() {
            Ok(generated) => {
                *program = generated;
                Ok(())
            },
            Err(_) => Err(MutatorError::CreatedInvalidProgram),
        }
    }

    fn name(&self) -> (n: &'static str)
        ensures
            n@ == "GeneratorMutator"@,
    {
        "GeneratorMutator"
    }
}

} // verus!
