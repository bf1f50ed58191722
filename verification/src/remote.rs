//! What the two sides of a run over a connection decide.
//!
//! Over a connection the prover's side sends its first message and its
//! response and the verifier's side sends its challenge and, last, its
//! verdict as one word. The sending and receiving is not here; the decisions
//! about the verdict are.

use vstd::prelude::*;

verus! {

/// Why a run was rejected, for the side that receives the prover's messages
/// and runs the verifier.
#[derive(Debug)]
pub enum RemoteProverProtocolError<VError> {
    /// The verifier of the protocol underneath rejected the transcript.
    SubProtocolFailure(VError),
}

/// Why a run was rejected, for the side that runs the prover and receives the
/// verdict.
#[derive(Debug)]
pub enum RemoteVerifierProtocolError<VError> {
    /// The verifier of the protocol underneath rejected the transcript.
    SubProtocolFailure(VError),
}

/// The word that the verifier's side sends for what its verifier found:
/// `true` exactly where the transcript was accepted.
pub open spec fn word_for<VError>(outcome: Result<(), VError>) -> bool {
    outcome is Ok
}

/// The verdict that the prover's side takes from the word it received.
pub open spec fn verdict_of(word: bool) -> Result<(), ()> {
    if word {
        Ok(())
    } else {
        Err(())
    }
}

/// The prover's side accepts exactly where the verifier of the other side
/// accepted, provided that the word arrives as it was sent.
pub proof fn lemma_verdict_crosses_unchanged<VError>(outcome: Result<(), VError>)
    ensures
        verdict_of(word_for(outcome)) is Ok <==> outcome is Ok,
{
}

/// What the verifier's side returns and what it sends, given what its own
/// verifier found: the finding, with an error wrapped, and the word for it.
pub fn verdict_to_send<VError>(outcome: Result<(), VError>) -> (r: (
    Result<(), RemoteProverProtocolError<VError>>,
    bool,
))
    ensures
        r.1 == word_for(outcome),
        match outcome {
            Ok(_) => r.0 is Ok,
            Err(err) => r.0 == Err::<(), RemoteProverProtocolError<VError>>(
                RemoteProverProtocolError::SubProtocolFailure(err),
            ),
        },
{
    match outcome {
        Ok(()) => (Ok(()), true),
        Err(err) => (Err(RemoteProverProtocolError::SubProtocolFailure(err)), false),
    }
}

/// What the prover's side returns for the word it received: acceptance for
/// `true`, rejection for `false`.
pub fn verdict_received(accepted: bool) -> (r: Result<(), ()>)
    ensures
        r == verdict_of(accepted),
{
    if accepted {
        Ok(())
    } else {
        Err(())
    }
}

} // verus!
