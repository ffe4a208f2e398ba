//! State of one interactive game: the hidden solution and all guesses so far.
use vstd::prelude::*;
use crate::mastermind_mechanics::{
    generate_code, gradable, spec_grade, CodeType, ConfigType, LineType,
};

verus! {

/// One game: the guesses entered so far, graded against the hidden solution.
#[allow(non_camel_case_types)]
pub struct game<'a> {
    pub guesses: Vec<LineType>,
    pub solution: CodeType,
    pub configuration: &'a ConfigType,
}

impl<'a> game<'a> {
    /// A new game with a random solution and no guesses yet.
    pub fn new(configuration: &'a ConfigType) -> (r: Self)
        requires
            configuration.colors > 0 || configuration.columns == 0,
        ensures
            r.guesses@.len() == 0,
            r.configuration == configuration,
            r.solution@.len() == configuration.columns,
            forall|i: int| 0 <= i < r.solution@.len() ==> r.solution@[i] < configuration.colors,
    {
        let solution = generate_code(configuration);
        Self { guesses: Vec::new(), solution: solution, configuration: configuration }
    }

    /// Grade the entered code, store it and tell whether it solved the game.
    pub fn guess(&mut self, code: CodeType) -> (done: bool)
        requires
            gradable(code@, old(self).solution@),
        ensures
            final(self).solution == old(self).solution,
            final(self).configuration == old(self).configuration,
            final(self).guesses@.len() == old(self).guesses@.len() + 1,
            forall|i: int|
                0 <= i < old(self).guesses@.len() ==> final(self).guesses@[i] == old(
                    self,
                ).guesses@[i],
            final(self).guesses@.last().code@ == code@,
            final(self).guesses@.last().result == spec_grade(code@, old(self).solution@),
            done == (old(self).configuration.columns == spec_grade(
                code@,
                old(self).solution@,
            ).positions),
    {
        let line = LineType::new(code, &self.solution);
        let done = line.done(self.configuration);
        self.guesses.push(line);
        done
    }
}

} // verus!
