//! Settings of the test annotation, and the tests found in source files.

pub mod annotator;

use vstd::prelude::*;

verus! {

/// A provider of annotations.
#[derive(Debug, Clone, Copy, PartialEq, Eq, Structural)]
pub enum AiProvider {
    Anthropic,
    OpenAI,
}

impl Default for AiProvider {
    fn default() -> (p: AiProvider)
        ensures
            p == AiProvider::Anthropic,
    {
        AiProvider::Anthropic
    }
}

/// How annotations are made.
#[derive(Debug, Clone)]
pub struct AiConfig {
    pub provider: String,
    pub api_key: Option<String>,
    pub model: Option<String>,
    pub auto_annotate: bool,
    pub language: String,
}

/// The annotation language used when none is configured.
pub fn default_language() -> (s: String)
    ensures
        s@ == "en"@,
{
    "en".to_owned()
}

impl Default for AiConfig {
    fn default() -> (c: AiConfig)
        ensures
            c.provider@ == "anthropic"@,
            c.api_key is None,
            c.model is None,
            !c.auto_annotate,
            c.language@ == "en"@,
    {
        AiConfig {
            provider: "anthropic".to_owned(),
            api_key: None,
            model: None,
            auto_annotate: false,
            language: default_language(),
        }
    }
}

/// What a test is about.
#[derive(Debug, Clone)]
pub struct TestAnnotation {
    pub test_name: String,
    pub description: String,
    pub purpose: Option<String>,
    pub tested_function: Option<String>,
    pub test_type: Option<String>,
    pub tags: Vec<String>,
}

} // verus!
