//! Model configuration: where the model artifact lives, the ordered
//! class names (index = class id), and the square input size the model
//! expects. Loaded once at startup by the unverified shell; immutable
//! thereafter.

use vstd::prelude::*;

verus! {

#[derive(Debug)]
pub struct ModelConfig {
    pub model_path: String,
    pub class_names: Vec<String>,
    pub input_size: i32,
}

impl ModelConfig {
    /// The configuration invariant: the model input size is a positive
    /// square side. (That `model_path` names an existing artifact is
    /// checked by the loader, which owns the file system.)
    pub open spec fn valid(self) -> bool {
        self.input_size > 0
    }

    /// Executable check of `valid`.
    pub fn validate(&self) -> (r: bool)
        ensures
            r == self.valid(),
    {
        self.input_size > 0
    }

    pub fn num_classes(&self) -> (r: usize)
        ensures
            r == self.class_names@.len(),
    {
        self.class_names.len()
    }

    /// The channel count the model's output tensor must have: four box
    /// parameters plus one score per class. `None` only in the absurd
    /// case that the count would not fit a `usize`.
    pub fn expected_channels(&self) -> (r: Option<usize>)
        ensures
            r is Some <==> self.class_names@.len() <= usize::MAX - 4,
            r matches Some(n) ==> n == 4 + self.class_names@.len(),
    {
        let k = self.class_names.len();
        if k <= usize::MAX - 4 {
            Some(4 + k)
        } else {
            None
        }
    }
}

} // verus!
