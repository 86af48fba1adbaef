use proof_store::attestation::{decode_proof, encode_proof, Proof};
use proof_store::bytes::{copy_range, push_u64, read_u64};
use proof_store::circuit::{decode_circuit, encode_circuit, Circuit, CommonParams};
use proof_store::registry::{
    decode_component, encode_component, Component, Registry, StoreError, STANDARD_GATE_KINDS,
    STANDARD_GENERATOR_KINDS,
};
use proof_store::store::{load_proof_and_circuit, save_proof_and_circuit};

fn common(elements: u64, inputs: u64) -> CommonParams {
    CommonParams {
        degree_bits: 3,
        num_wires: 135,
        num_proof_elements: elements,
        num_public_inputs: inputs,
    }
}

fn component(kind: u64, payload: &[u8]) -> Component {
    Component { kind, payload: payload.to_vec() }
}

fn sample_circuit() -> Circuit {
    Circuit {
        common: common(4, 2),
        gates: vec![component(0, &[1, 2, 3]), component(9, &[]), component(13, &[7; 20])],
        generators: vec![component(5, &[42, 43])],
    }
}

fn sample_proof() -> Proof {
    Proof { elements: vec![11, 22, u64::MAX, 0], public_inputs: vec![1, 1000000007] }
}

#[test]
fn word_bytes_are_little_endian() {
    let mut out = vec![9u8];
    push_u64(&mut out, 0x0102030405060708);
    assert_eq!(out, vec![9, 8, 7, 6, 5, 4, 3, 2, 1]);
    assert_eq!(read_u64(&out, 1), Some(0x0102030405060708));
    assert_eq!(read_u64(&out, 2), None);
}

#[test]
fn copy_range_copies_the_slice() {
    let v = vec![1u8, 2, 3, 4, 5];
    assert_eq!(copy_range(&v, 1, 4), vec![2, 3, 4]);
    assert_eq!(copy_range(&v, 2, 2), Vec::<u8>::new());
}

#[test]
fn standard_registry_kinds() {
    let reg = Registry::standard();
    assert!(reg.knows_gate(0));
    assert!(reg.knows_gate(STANDARD_GATE_KINDS - 1));
    assert!(!reg.knows_gate(STANDARD_GATE_KINDS));
    assert!(reg.knows_generator(STANDARD_GENERATOR_KINDS - 1));
    assert!(!reg.knows_generator(STANDARD_GENERATOR_KINDS));
    assert_eq!(STANDARD_GATE_KINDS, 16);
    assert_eq!(STANDARD_GENERATOR_KINDS, 24);
}

#[test]
fn registering_custom_kinds() {
    let mut reg = Registry::empty();
    assert!(!reg.knows_gate(500));
    reg.register_gate(500);
    reg.register_gate(500);
    assert!(reg.knows_gate(500));
    assert!(!reg.knows_generator(500));
    assert_eq!(reg.gate_kinds, vec![500]);
    reg.register_generator(77);
    assert!(reg.knows_generator(77));
    assert!(!reg.knows_gate(77));
}

#[test]
fn component_envelope_layout() {
    let mut out = Vec::new();
    let c = component(3, &[0xaa, 0xbb]);
    assert_eq!(encode_component(&vec![3], &c, &mut out), Ok(()));
    assert_eq!(out, vec![3, 0, 0, 0, 0, 0, 0, 0, 2, 0, 0, 0, 0, 0, 0, 0, 0xaa, 0xbb]);
    let (back, next) = decode_component(&out, 0, &vec![3]).unwrap();
    assert_eq!(back, c);
    assert_eq!(next, 18);
}

#[test]
fn component_with_unregistered_kind_is_not_written() {
    let mut out = vec![1u8];
    let c = component(4, &[1]);
    assert_eq!(encode_component(&vec![3], &c, &mut out), Err(StoreError::UnknownKind));
    assert_eq!(out, vec![1]);
}

#[test]
fn component_decode_errors() {
    let mut out = Vec::new();
    encode_component(&vec![3], &component(3, &[1, 2, 3]), &mut out).unwrap();
    assert_eq!(decode_component(&out, 0, &vec![4]), Err(StoreError::UnknownKind));
    let short = out[..out.len() - 1].to_vec();
    assert_eq!(decode_component(&short, 0, &vec![3]), Err(StoreError::MalformedPayload));
    assert_eq!(decode_component(&out[..5].to_vec(), 0, &vec![3]), Err(StoreError::MalformedPayload));
}

#[test]
fn circuit_blob_layout() {
    let reg = Registry::standard();
    let c = Circuit { common: common(1, 0), gates: vec![component(2, &[5])], generators: vec![] };
    let blob = encode_circuit(&c, &reg).unwrap();
    let mut want = Vec::new();
    for w in [3u64, 135, 1, 0, 1, 2, 1] {
        want.extend_from_slice(&w.to_le_bytes());
    }
    want.push(5);
    want.extend_from_slice(&0u64.to_le_bytes());
    assert_eq!(blob, want);
    assert_eq!(decode_circuit(&blob, &reg), Ok(c));
}

#[test]
fn circuit_with_trailing_bytes_is_malformed() {
    let reg = Registry::standard();
    let mut blob = encode_circuit(&sample_circuit(), &reg).unwrap();
    blob.push(0);
    assert_eq!(decode_circuit(&blob, &reg), Err(StoreError::MalformedPayload));
}

#[test]
fn proof_blob_layout_and_shape() {
    let p = Proof { elements: vec![1], public_inputs: vec![256] };
    let blob = encode_proof(&p);
    assert_eq!(blob, vec![1, 0, 0, 0, 0, 0, 0, 0, 0, 1, 0, 0, 0, 0, 0, 0]);
    assert_eq!(decode_proof(&blob, &common(1, 1)), Ok(p.clone()));
    let swapped = decode_proof(&blob, &common(0, 2)).unwrap();
    assert_eq!(swapped.elements, Vec::<u64>::new());
    assert_eq!(swapped.public_inputs, vec![1, 256]);
    assert_eq!(decode_proof(&blob, &common(1, 2)), Err(StoreError::MalformedPayload));
    assert_eq!(decode_proof(&blob, &common(u64::MAX, u64::MAX)), Err(StoreError::MalformedPayload));
}

#[test]
fn save_then_load_gives_back_both() {
    let reg = Registry::standard();
    let (proof_blob, circuit_blob) =
        save_proof_and_circuit(&sample_proof(), &sample_circuit(), &reg).unwrap();
    let (p, c) = load_proof_and_circuit(&proof_blob, &circuit_blob, &reg).unwrap();
    assert_eq!(p, sample_proof());
    assert_eq!(c, sample_circuit());
    let again = save_proof_and_circuit(&p, &c, &reg).unwrap();
    assert_eq!(again, (proof_blob, circuit_blob));
}

#[test]
fn three_gates_one_generator_two_inputs() {
    let reg = Registry::standard();
    let circuit = Circuit {
        common: common(3, 2),
        gates: vec![component(0, &[1]), component(3, &[2, 2]), component(11, &[3, 3, 3])],
        generators: vec![component(6, &[9])],
    };
    let proof = Proof { elements: vec![5, 6, 7], public_inputs: vec![17, 99] };
    let (proof_blob, circuit_blob) = save_proof_and_circuit(&proof, &circuit, &reg).unwrap();
    let (p, c) = load_proof_and_circuit(&proof_blob, &circuit_blob, &reg).unwrap();
    assert_eq!(c.gates.len(), 3);
    let kinds: Vec<u64> = c.gates.iter().map(|g| g.kind).collect();
    assert_eq!(kinds, vec![0, 3, 11]);
    assert_eq!(c.generators.len(), 1);
    assert_eq!(c.generators[0].kind, 6);
    assert_eq!(p.public_inputs, vec![17, 99]);
}

#[test]
fn save_rejects_unregistered_kind() {
    let reg = Registry::standard();
    let mut circuit = sample_circuit();
    circuit.generators.push(component(STANDARD_GENERATOR_KINDS, &[]));
    assert_eq!(
        save_proof_and_circuit(&sample_proof(), &circuit, &reg),
        Err(StoreError::UnknownKind)
    );
}

#[test]
fn save_writes_proof_of_another_shape_and_load_rejects_it() {
    let reg = Registry::standard();
    let proof = Proof { elements: vec![1], public_inputs: vec![2, 3] };
    let (proof_blob, circuit_blob) =
        save_proof_and_circuit(&proof, &sample_circuit(), &reg).unwrap();
    assert_eq!(proof_blob, encode_proof(&proof));
    assert_eq!(
        load_proof_and_circuit(&proof_blob, &circuit_blob, &reg),
        Err(StoreError::MalformedPayload)
    );
}

#[test]
fn load_rejects_kind_missing_from_registry() {
    let mut saving = Registry::standard();
    saving.register_gate(1000);
    let mut circuit = sample_circuit();
    circuit.gates.push(component(1000, &[4, 4]));
    let (proof_blob, circuit_blob) =
        save_proof_and_circuit(&sample_proof(), &circuit, &saving).unwrap();
    let loading = Registry::standard();
    assert_eq!(
        load_proof_and_circuit(&proof_blob, &circuit_blob, &loading),
        Err(StoreError::UnknownKind)
    );
    assert!(load_proof_and_circuit(&proof_blob, &circuit_blob, &saving).is_ok());
}

#[test]
fn load_rejects_every_truncation() {
    let reg = Registry::standard();
    let (proof_blob, circuit_blob) =
        save_proof_and_circuit(&sample_proof(), &sample_circuit(), &reg).unwrap();
    for k in 0..circuit_blob.len() {
        let cut = circuit_blob[..k].to_vec();
        assert_eq!(
            load_proof_and_circuit(&proof_blob, &cut, &reg),
            Err(StoreError::MalformedPayload)
        );
    }
    for k in 0..proof_blob.len() {
        let cut = proof_blob[..k].to_vec();
        assert_eq!(
            load_proof_and_circuit(&cut, &circuit_blob, &reg),
            Err(StoreError::MalformedPayload)
        );
    }
}

#[test]
fn proof_needs_the_circuit_parameters() {
    let reg = Registry::standard();
    let (proof_blob, _) = save_proof_and_circuit(&sample_proof(), &sample_circuit(), &reg).unwrap();
    let other = Circuit { common: common(1, 1), gates: vec![], generators: vec![] };
    let other_blob = encode_circuit(&other, &reg).unwrap();
    assert_eq!(
        load_proof_and_circuit(&proof_blob, &other_blob, &reg),
        Err(StoreError::MalformedPayload)
    );
}

#[test]
fn loading_twice_gives_equal_independent_values() {
    let reg = Registry::standard();
    let (proof_blob, circuit_blob) =
        save_proof_and_circuit(&sample_proof(), &sample_circuit(), &reg).unwrap();
    let (mut p1, c1) = load_proof_and_circuit(&proof_blob, &circuit_blob, &reg).unwrap();
    let (p2, c2) = load_proof_and_circuit(&proof_blob, &circuit_blob, &reg).unwrap();
    assert_eq!(p1, p2);
    assert_eq!(c1, c2);
    p1.public_inputs[0] = 5;
    assert_eq!(p2.public_inputs[0], 1);
}
