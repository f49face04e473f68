use vstd::prelude::*;

verus! {

/// The model asked for when none is configured.
pub const DEFAULT_MODEL: &'static str = "meta-llama/llama-3.3-70b-instruct:free";

/// How many turns are kept when no capacity is configured.
pub const DEFAULT_MAX_HISTORY: usize = 20;

/// The settings that the program starts with.
pub struct Config {
    pub openrouter_api_key: String,
    pub openrouter_model: String,
    pub telegram_bot_token: String,
    pub telegram_chat_id: String,
    pub child_name: Option<String>,
    pub max_history: usize,
}

/// A configured child's name, where an empty one counts as none.
pub fn child_name_from(value: Option<String>) -> (r: Option<String>)
    ensures
        match value {
            Some(v) => if v@.len() > 0 {
                r matches Some(s) && s@ == v@
            } else {
                r is None
            },
            None => r is None,
        },
{
    match value {
        Some(v) => {
            if v.as_str().unicode_len() > 0 {
                Some(v)
            } else {
                None
            }
        },
        None => None,
    }
}

} // verus!
