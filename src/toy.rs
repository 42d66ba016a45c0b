use vstd::prelude::*;

verus! {

#[verifier::external_type_specification]
#[verifier::external_body]
pub struct ExIoError(std::io::Error);

/// A word to say hello with.
#[derive(Debug)]
pub struct Toy {
    pub word: String,
}

impl Toy {
    /// The word.
    pub fn hello(&self) -> (r: Result<String, std::io::Error>)
        ensures
            r matches Ok(s) && s@ == self.word@,
    {
        Ok(self.word.clone())
    }

    /// A toy with another word.
    pub fn toy(&self, new_word: String) -> (r: Self)
        ensures
            r.word@ == new_word@,
    {
        Toy { word: new_word }
    }
}

} // verus!
