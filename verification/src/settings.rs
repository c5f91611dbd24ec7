//! User settings.
use vstd::prelude::*;
use crate::types::{JobOptions, MODE_BILINGUAL};

verus! {

broadcast use vstd::string::group_string_axioms;

#[derive(Debug, Clone)]
pub struct Settings {
    pub api_key: String,
    pub model: String,
    pub mode: String,
    pub custom_instructions: String,
    /// Continue on the next same-tier model when the daily quota dies.
    pub auto_switch_model: bool,
}

impl Default for Settings {
    /// No key; the default job's model, mode and instructions; switching on.
    fn default() -> (s: Self)
        ensures
            s.api_key@ == Seq::<char>::empty(),
            s.model@ == "gemini-3.5-flash-lite"@,
            s.mode@ == MODE_BILINGUAL@,
            s.custom_instructions@ == Seq::<char>::empty(),
            s.auto_switch_model,
    {
        let o = JobOptions::default();
        Settings {
            api_key: String::new(),
            model: o.model,
            mode: o.mode,
            custom_instructions: o.custom_instructions,
            auto_switch_model: true,
        }
    }
}

} // verus!
