//! Saving and loading a proof together with the circuit it was made against, as two
//! blobs. The circuit blob is decoded first: the proof blob is read against its
//! common parameters.
use crate::attestation::{
    decode_proof, encode_proof, fits, lemma_proof_length, lemma_proof_round_trip, parse_proof,
    proof_bytes, Proof, ProofView,
};
use crate::circuit::{
    circuit_bytes, decode_circuit, encodable, encode_circuit, has_unknown, lemma_circuit_round_trip,
    lemma_circuit_truncated, lemma_circuit_unknown_kind, parse_circuit, registered, sized, Circuit,
    CircuitView,
};
use crate::registry::{Registry, StoreError};
use vstd::prelude::*;

verus! {

/// What loading a proof blob and a circuit blob gives under `reg`.
pub open spec fn load_result(proof_blob: Seq<u8>, circuit_blob: Seq<u8>, reg: Registry) -> Result<
    (ProofView, CircuitView),
    StoreError,
> {
    match parse_circuit(circuit_blob, reg) {
        Err(e) => Err(e),
        Ok(c) => match parse_proof(proof_blob, c.common) {
            Err(e) => Err(e),
            Ok(p) => Ok((p, c)),
        },
    }
}

/// Encodes `proof` and `data` as `(proof blob, circuit blob)`. Fails with
/// `UnknownKind`, and only then, when `data` holds a kind that `reg` lacks. The proof
/// is written as it is: whether it has the shape `data.common` gives is settled when
/// it is loaded.
pub fn save_proof_and_circuit(proof: &Proof, data: &Circuit, reg: &Registry) -> (r: Result<
    (Vec<u8>, Vec<u8>),
    StoreError,
>)
    ensures
        r is Ok <==> registered(data@, *reg),
        r is Err ==> r->Err_0 == StoreError::UnknownKind,
        r is Ok ==> r->Ok_0.0@ == proof_bytes(proof@) && r->Ok_0.1@ == circuit_bytes(data@),
        r is Ok ==> encodable(data@.gates, reg.gates()) && encodable(
            data@.generators,
            reg.generators(),
        ),
{
    let circuit_blob = match encode_circuit(data, reg) {
        Ok(b) => b,
        Err(e) => return Err(e),
    };
    let proof_blob = encode_proof(proof);
    Ok((proof_blob, circuit_blob))
}

/// Decodes the circuit blob under `reg`, then the proof blob against that circuit's
/// common parameters; the first failure is returned.
pub fn load_proof_and_circuit(proof_blob: &Vec<u8>, circuit_blob: &Vec<u8>, reg: &Registry) -> (r:
    Result<(Proof, Circuit), StoreError>)
    ensures
        match (r, load_result(proof_blob@, circuit_blob@, *reg)) {
            (Ok((p, c)), Ok((pv, cv))) => p@ == pv && c@ == cv,
            (Err(e), Err(f)) => e == f,
            _ => false,
        },
{
    let circuit = match decode_circuit(circuit_blob, reg) {
        Ok(c) => c,
        Err(e) => return Err(e),
    };
    let proof = match decode_proof(proof_blob, &circuit.common) {
        Ok(p) => p,
        Err(e) => return Err(e),
    };
    Ok((proof, circuit))
}

/// Loading the blobs that saving a proof and its circuit wrote gives back that proof
/// and that circuit, under the registry they were saved with.
pub proof fn lemma_save_load_round_trip(p: ProofView, c: CircuitView, reg: Registry)
    requires
        encodable(c.gates, reg.gates()),
        encodable(c.generators, reg.generators()),
        fits(p, c.common),
    ensures
        load_result(proof_bytes(p), circuit_bytes(c), reg) == Ok::<
            (ProofView, CircuitView),
            StoreError,
        >((p, c)),
{
    lemma_circuit_round_trip(c, reg);
    lemma_proof_round_trip(p, c.common);
}

/// A saved circuit blob or proof blob cut short at any byte fails to load as malformed.
pub proof fn lemma_truncated_blob_rejected(p: ProofView, c: CircuitView, reg: Registry, k: nat)
    requires
        encodable(c.gates, reg.gates()),
        encodable(c.generators, reg.generators()),
        fits(p, c.common),
    ensures
        k < circuit_bytes(c).len() ==> load_result(
            proof_bytes(p),
            circuit_bytes(c).subrange(0, k as int),
            reg,
        ) == Err::<(ProofView, CircuitView), StoreError>(StoreError::MalformedPayload),
        k < proof_bytes(p).len() ==> load_result(
            proof_bytes(p).subrange(0, k as int),
            circuit_bytes(c),
            reg,
        ) == Err::<(ProofView, CircuitView), StoreError>(StoreError::MalformedPayload),
{
    lemma_save_load_round_trip(p, c, reg);
    if k < circuit_bytes(c).len() {
        lemma_circuit_truncated(circuit_bytes(c), reg, k);
    }
    if k < proof_bytes(p).len() {
        lemma_proof_length(proof_bytes(p), c.common);
        lemma_proof_length(proof_bytes(p).subrange(0, k as int), c.common);
    }
}

/// Two loads of the same blobs under the same registry give equal results.
pub proof fn lemma_load_idempotent(
    proof_blob: Seq<u8>,
    circuit_blob: Seq<u8>,
    reg: Registry,
    first: Result<(ProofView, CircuitView), StoreError>,
    second: Result<(ProofView, CircuitView), StoreError>,
)
    requires
        first == load_result(proof_blob, circuit_blob, reg),
        second == load_result(proof_blob, circuit_blob, reg),
    ensures
        first == second,
{
}

/// A circuit saved with a gate or generator kind that the loading registry lacks fails
/// to load with `UnknownKind`, whatever the proof blob holds.
pub proof fn lemma_unknown_kind_rejected(proof_blob: Seq<u8>, c: CircuitView, reg: Registry)
    requires
        sized(c.gates),
        sized(c.generators),
        has_unknown(c.gates, reg.gates()) || has_unknown(c.generators, reg.generators()),
    ensures
        load_result(proof_blob, circuit_bytes(c), reg) == Err::<
            (ProofView, CircuitView),
            StoreError,
        >(StoreError::UnknownKind),
{
    lemma_circuit_unknown_kind(c, reg);
}

} // verus!
