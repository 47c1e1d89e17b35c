//! Interpretation of `Authentication-Results` headers for deciding whether an
//! incoming message may change a sender's key.

use vstd::prelude::*;

pub mod candidates;
pub mod comments;
pub mod policy;
pub mod results;
pub mod text;

pub use candidates::{parse_authservid_candidates_config, update_authservid_candidates};
pub use comments::remove_comments;
pub use policy::{
    handle_authres, should_allow_keychange, single_candidate, AuthresOutcome, CandidateChoice,
    KeychangeDecision,
};
pub use results::{
    authres_dkim_passed, authres_header_values, parse_authres_headers, AuthenticationResults,
    AuthresMap,
};

verus! {

} // verus!
