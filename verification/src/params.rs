//! The parameters of a content request.
use crate::response::ResponseParameters;
use crate::text::same_text;
use vstd::prelude::*;

verus! {

/// The parameters as they come: each as it is written, where it is given.
pub struct RawTokenParams {
    pub o_rev_id: Option<String>,
    pub editor: Option<String>,
    pub token_id: Option<String>,
    pub inbound: Option<String>,
    pub outbound: Option<String>,
}

/// Whether a parameter is given and is exactly `true`.
pub open spec fn is_set(raw: Option<String>) -> bool {
    raw is Some && raw->0@ == "true"@
}

/// Whether a parameter is given and is exactly `true`.
fn as_true(raw: &Option<String>) -> (r: bool)
    ensures
        r == is_set(*raw),
{
    match raw {
        Some(s) => same_text(s.as_str(), "true"),
        None => false,
    }
}

impl Default for RawTokenParams {
    fn default() -> (r: Self)
        ensures
            r == (RawTokenParams {
                o_rev_id: None,
                editor: None,
                token_id: None,
                inbound: None,
                outbound: None,
            }),
    {
        RawTokenParams { o_rev_id: None, editor: None, token_id: None, inbound: None, outbound: None }
    }
}

impl RawTokenParams {
    /// Which fields the tokens carry.
    pub fn into_response_parameters(self) -> (r: ResponseParameters)
        ensures
            r.o_rev_id == is_set(self.o_rev_id),
            r.editor == is_set(self.editor),
            r.token_id == is_set(self.token_id),
            r.inbound == is_set(self.inbound),
            r.outbound == is_set(self.outbound),
    {
        ResponseParameters {
            o_rev_id: as_true(&self.o_rev_id),
            editor: as_true(&self.editor),
            token_id: as_true(&self.token_id),
            inbound: as_true(&self.inbound),
            outbound: as_true(&self.outbound),
        }
    }
}

} // verus!
