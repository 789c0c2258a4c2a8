//! Static metadata a deployment of the engine presents about itself.

use vstd::prelude::*;

verus! {

broadcast use vstd::string::to_string_from_display_ensures_for_str;

/// Descriptive metadata of the player: protocol version and cosmetic fields.
#[derive(Debug)]
pub struct SnakeInfo {
    pub apiversion: String,
    pub author: Option<String>,
    pub color: Option<String>,
    pub head: Option<String>,
    pub tail: Option<String>,
    pub version: Option<String>,
}

impl SnakeInfo {
    /// The engine's own metadata: protocol version one, nothing cosmetic.
    pub fn standard() -> (r: SnakeInfo)
        ensures
            r.apiversion@ == "1"@,
            r.author is None,
            r.color is None,
            r.head is None,
            r.tail is None,
            r.version is None,
    {
        SnakeInfo {
            apiversion: "1".to_string(),
            author: None,
            color: None,
            head: None,
            tail: None,
            version: None,
        }
    }
}

} // verus!
