//! Naming for the recorded runs: the prefix of a baseline's metrics and the
//! provider that answered, read from the endpoint.

use vstd::prelude::*;

use crate::baseline::BaselineModel;
use crate::text::{chars_of, occurs_at, occurs_at_exec, occurs_in, occurs_in_exec};

verus! {

/// The experiment name under which runs are recorded.
pub const EXPERIMENT: &'static str = "s3";

/// The stable id of this replication.
pub const REPO_ID: &'static str = "gao2023";

/// The field of the study; a simulation carries a master seed.
pub const DOMAIN: &'static str = "simulation";

/// The prefix of a baseline's metrics when several models share one run.
pub fn baseline_prefix(model: BaselineModel) -> (r: String)
    ensures
        r@ == "baseline_"@ + model.spec_label(),
{
    let mut r = String::from_str("baseline_");
    r.append(model.label());
    r
}

/// The provider that answered, classified from its endpoint: `mock://…` is
/// the offline scripted client, an endpoint naming OpenAI is OpenAI, and
/// anything else is Ollama.
pub open spec fn provider_of(endpoint: Seq<char>) -> Seq<char> {
    if occurs_at(endpoint, "mock://"@, 0) {
        "mock"@
    } else if occurs_in(endpoint, "openai"@) {
        "openai"@
    } else {
        "ollama"@
    }
}

/// The provider recorded for a run, from the endpoint that answered.
pub fn llm_provider(endpoint: &str) -> (r: &'static str)
    ensures
        r@ == provider_of(endpoint@),
{
    let e = chars_of(endpoint);
    if occurs_at_exec(&e, &chars_of("mock://"), 0) {
        "mock"
    } else if occurs_in_exec(&e, &chars_of("openai")) {
        "openai"
    } else {
        "ollama"
    }
}

} // verus!
