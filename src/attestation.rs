//! The proof blob: `[proof elements][public inputs]`, one word each. It carries no
//! counts; they come from the common parameters of the circuit the proof belongs to.
use crate::bytes::{le64, le64_value, lemma_le64_round_trip, push_u64, read_u64};
use crate::circuit::CommonParams;
use crate::registry::StoreError;
use vstd::prelude::*;

verus! {

/// An attestation: its field elements and the public inputs it is over.
#[derive(Clone, Debug, PartialEq, Eq)]
pub struct Proof {
    pub elements: Vec<u64>,
    pub public_inputs: Vec<u64>,
}

pub ghost struct ProofView {
    pub elements: Seq<u64>,
    pub public_inputs: Seq<u64>,
}

impl View for Proof {
    type V = ProofView;

    open spec fn view(&self) -> ProofView {
        ProofView { elements: self.elements@, public_inputs: self.public_inputs@ }
    }
}

pub open spec fn words_bytes(ws: Seq<u64>) -> Seq<u8>
    decreases ws.len(),
{
    if ws.len() == 0 {
        Seq::empty()
    } else {
        words_bytes(ws.drop_last()) + le64(ws.last())
    }
}

/// The first `n` words of `s`.
pub open spec fn parse_words(s: Seq<u8>, n: nat) -> Seq<u64> {
    Seq::new(n, |i: int| le64_value(s.subrange(8 * i, s.len() as int)))
}

/// The proof blob of `p`.
pub open spec fn proof_bytes(p: ProofView) -> Seq<u8> {
    words_bytes(p.elements) + words_bytes(p.public_inputs)
}

/// The length a proof blob has under `common`.
pub open spec fn proof_len(common: CommonParams) -> int {
    8 * (common.num_proof_elements + common.num_public_inputs)
}

/// `p` has the shape that `common` describes.
pub open spec fn fits(p: ProofView, common: CommonParams) -> bool {
    &&& p.elements.len() == common.num_proof_elements
    &&& p.public_inputs.len() == common.num_public_inputs
}

/// What decoding a proof blob against `common` gives: blobs of any other length are
/// malformed.
pub open spec fn parse_proof(s: Seq<u8>, common: CommonParams) -> Result<ProofView, StoreError> {
    if s.len() != proof_len(common) {
        Err(StoreError::MalformedPayload)
    } else {
        let k = 8 * common.num_proof_elements;
        Ok(
            ProofView {
                elements: parse_words(s, common.num_proof_elements as nat),
                public_inputs: parse_words(
                    s.subrange(k, s.len() as int),
                    common.num_public_inputs as nat,
                ),
            },
        )
    }
}

proof fn lemma_words_bytes(ws: Seq<u64>)
    ensures
        words_bytes(ws).len() == 8 * ws.len(),
        forall|i: int|
            0 <= i < ws.len() ==> words_bytes(ws).subrange(8 * i, 8 * i + 8) == le64(#[trigger] ws[i]),
    decreases ws.len(),
{
    if ws.len() > 0 {
        let init = ws.drop_last();
        lemma_words_bytes(init);
        lemma_le64_round_trip(ws.last());
        let b = words_bytes(ws);
        assert forall|i: int| 0 <= i < ws.len() implies b.subrange(8 * i, 8 * i + 8) == le64(
            #[trigger] ws[i],
        ) by {
            if i < init.len() {
                assert(b.subrange(8 * i, 8 * i + 8) =~= words_bytes(init).subrange(8 * i, 8 * i + 8));
                assert(init[i] == ws[i]);
            } else {
                assert(b.subrange(8 * i, 8 * i + 8) =~= le64(ws.last()));
            }
        }
    }
}

proof fn lemma_words_round_trip(ws: Seq<u64>, rest: Seq<u8>)
    ensures
        parse_words(words_bytes(ws) + rest, ws.len()) == ws,
{
    lemma_words_bytes(ws);
    let s = words_bytes(ws) + rest;
    assert forall|i: int| 0 <= i < ws.len() implies le64_value(s.subrange(8 * i, s.len() as int))
        == ws[i] by {
        lemma_le64_round_trip(ws[i]);
        let x = s.subrange(8 * i, s.len() as int);
        assert(words_bytes(ws).subrange(8 * i, 8 * i + 8) == le64(ws[i]));
        assert forall|j: int| 0 <= j < 8 implies x[j] == le64(ws[i])[j] by {
            assert(words_bytes(ws).subrange(8 * i, 8 * i + 8)[j] == words_bytes(ws)[8 * i + j]);
        }
    }
    assert(parse_words(s, ws.len()) =~= ws);
}

/// Decoding the blob of a proof against parameters it fits gives the proof back.
pub proof fn lemma_proof_round_trip(p: ProofView, common: CommonParams)
    requires
        fits(p, common),
    ensures
        parse_proof(proof_bytes(p), common) == Ok::<ProofView, StoreError>(p),
{
    lemma_words_bytes(p.elements);
    lemma_words_bytes(p.public_inputs);
    let s = proof_bytes(p);
    lemma_words_round_trip(p.elements, words_bytes(p.public_inputs));
    assert(s.subrange(8 * p.elements.len() as int, s.len() as int) =~= words_bytes(p.public_inputs)
        + Seq::<u8>::empty());
    lemma_words_round_trip(p.public_inputs, Seq::empty());
}

/// A proof blob is decoded only where its length is the one `common` gives; in
/// particular one cut short is malformed.
pub proof fn lemma_proof_length(s: Seq<u8>, common: CommonParams)
    ensures
        parse_proof(s, common) is Ok <==> s.len() == proof_len(common),
        parse_proof(s, common) is Err ==> parse_proof(s, common)->Err_0
            == StoreError::MalformedPayload,
{
}

/// Writes the proof blob of `p`.
pub fn encode_proof(p: &Proof) -> (r: Vec<u8>)
    ensures
        r@ == proof_bytes(p@),
{
    let mut out: Vec<u8> = Vec::new();
    push_words(&p.elements, &mut out);
    push_words(&p.public_inputs, &mut out);
    out
}

fn push_words(ws: &Vec<u64>, out: &mut Vec<u8>)
    ensures
        final(out)@ == old(out)@ + words_bytes(ws@),
{
    let mut i: usize = 0;
    while i < ws.len()
        invariant
            i <= ws@.len(),
            out@ == old(out)@ + words_bytes(ws@.take(i as int)),
        decreases ws@.len() - i,
    {
        push_u64(out, ws[i]);
        proof {
            assert(ws@.take(i + 1).drop_last() =~= ws@.take(i as int));
        }
        i = i + 1;
    }
    assert(ws@.take(i as int) =~= ws@);
}

/// Reads `n` words starting at `pos`, which the caller has checked are all there.
fn read_words(bytes: &Vec<u8>, pos: usize, n: u64) -> (r: Vec<u64>)
    requires
        pos + 8 * n <= bytes@.len(),
    ensures
        r@ == parse_words(bytes@.subrange(pos as int, bytes@.len() as int), n as nat),
{
    let ghost s = bytes@.subrange(pos as int, bytes@.len() as int);
    let mut r: Vec<u64> = Vec::new();
    let mut i: u64 = 0;
    let mut at: usize = pos;
    let total = bytes.len();
    while i < n
        invariant
            i <= n,
            total == bytes@.len(),
            pos + 8 * n <= bytes@.len(),
            at == pos + 8 * i,
            s == bytes@.subrange(pos as int, bytes@.len() as int),
            r@ == parse_words(s, i as nat),
        decreases n - i,
    {
        let w = match read_u64(bytes, at) {
            Some(w) => w,
            None => {
                assert(false);
                0
            },
        };
        assert(s.subrange(8 * i, s.len() as int) =~= bytes@.subrange(at as int, bytes@.len() as int));
        r.push(w);
        i = i + 1;
        at = at + 8;
        assert(r@ =~= parse_words(s, i as nat));
    }
    r
}

/// Decodes a proof blob against the common parameters of its circuit, as
/// `parse_proof` says.
pub fn decode_proof(bytes: &Vec<u8>, common: &CommonParams) -> (r: Result<Proof, StoreError>)
    ensures
        match (r, parse_proof(bytes@, *common)) {
            (Ok(p), Ok(pv)) => p@ == pv,
            (Err(e), Err(f)) => e == f,
            _ => false,
        },
{
    let want: u128 = 8 * (common.num_proof_elements as u128 + common.num_public_inputs as u128);
    if bytes.len() as u128 != want {
        return Err(StoreError::MalformedPayload);
    }
    let elements = read_words(bytes, 0, common.num_proof_elements);
    let k: usize = 8 * common.num_proof_elements as usize;
    let public_inputs = read_words(bytes, k, common.num_public_inputs);
    assert(bytes@.subrange(0, bytes@.len() as int) =~= bytes@);
    Ok(Proof { elements, public_inputs })
}

} // verus!
