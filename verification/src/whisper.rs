//! Configuration of a local Whisper model load, and the prompt a pass is given.

use vstd::prelude::*;

use crate::strings::{concat, trim, unicode_trim};

verus! {

/// Builder for a loaded Whisper model: where the model file lives.
#[derive(Debug)]
pub struct LoadedWhisperBuilder {
    model_path: Option<String>,
}

impl LoadedWhisperBuilder {
    /// The configured model path, if any.
    pub closed spec fn spec_model_path(&self) -> Option<Seq<char>> {
        match self.model_path {
            Some(p) => Some(p@),
            None => None,
        }
    }

    /// A builder with no model path yet.
    pub fn new() -> (r: Self)
        ensures
            r.spec_model_path() is None,
    {
        LoadedWhisperBuilder { model_path: None }
    }

    /// Sets the model file to load.
    pub fn model_path(self, model_path: String) -> (r: Self)
        ensures
            r.spec_model_path() == Some(model_path@),
    {
        let mut builder = self;
        builder.model_path = Some(model_path);
        builder
    }

    /// The model file to load, if one was set.
    pub fn configured_model_path(&self) -> (r: Option<&String>)
        ensures
            r is Some <==> self.spec_model_path() is Some,
            r matches Some(p) ==> self.spec_model_path() == Some(p@),
    {
        match &self.model_path {
            Some(p) => Some(p),
            None => None,
        }
    }
}

impl Default for LoadedWhisperBuilder {
    fn default() -> (r: Self)
        ensures
            r.spec_model_path() is None,
    {
        LoadedWhisperBuilder::new()
    }
}

/// The initial prompt a transcription pass hands the model: the text of the
/// previous pass and the configured prompt, each trimmed, on two lines, the
/// whole trimmed again.
pub fn initial_prompt(dynamic_prompt: &str, configured_prompt: &str) -> (r: String)
    ensures
        r@ == unicode_trim(unicode_trim(dynamic_prompt@) + "\n"@ + unicode_trim(configured_prompt@)),
{
    let first = trim(dynamic_prompt);
    let second = trim(configured_prompt);
    let head = concat(first.as_str(), "\n");
    let joined = concat(head.as_str(), second.as_str());
    trim(joined.as_str())
}

} // verus!
