//! Plain configuration records for the surrounding application.

use vstd::prelude::*;

verus! {

/// API keys of the outside speech and translation services. An empty key
/// means the service is switched off.
#[derive(Debug, Clone)]
pub struct Keys {
    pub elevenlabs: String,
    pub deepl: String,
}

impl Default for Keys {
    /// Both keys empty: every keyed service off.
    fn default() -> (r: Self)
        ensures
            r.elevenlabs@ == Seq::<char>::empty(),
            r.deepl@ == Seq::<char>::empty(),
    {
        Keys { elevenlabs: String::new(), deepl: String::new() }
    }
}

/// How to reach one chat back-end: a display name, an API key, the
/// endpoint, and the model to ask for.
#[derive(Debug, Clone)]
pub struct AiChatConfiguration {
    pub name: String,
    pub key: String,
    pub url: String,
    pub model: String,
}

impl Default for AiChatConfiguration {
    /// All fields empty.
    fn default() -> (r: Self)
        ensures
            r.name@ == Seq::<char>::empty(),
            r.key@ == Seq::<char>::empty(),
            r.url@ == Seq::<char>::empty(),
            r.model@ == Seq::<char>::empty(),
    {
        AiChatConfiguration {
            name: String::new(),
            key: String::new(),
            url: String::new(),
            model: String::new(),
        }
    }
}

} // verus!
