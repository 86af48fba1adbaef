//! The circuit blob:
//! `[common parameters][gate count][gates][generator count][generators]`.
use crate::bytes::{le64, le64_value, lemma_le64_round_trip, push_u64, read_u64};
use crate::registry::{
    component_bytes, decode_component, encode_component, lemma_component_prefix,
    lemma_component_round_trip, parse_component, views, Component, ComponentView, Registry,
    StoreError,
};
use vstd::prelude::*;

verus! {

/// The configuration a circuit shares with every proof made against it.
#[derive(Clone, Copy, Debug, PartialEq, Eq, Structural)]
pub struct CommonParams {
    pub degree_bits: u64,
    pub num_wires: u64,
    /// How many field elements the proof body holds.
    pub num_proof_elements: u64,
    /// How many public inputs follow the proof body.
    pub num_public_inputs: u64,
}

/// A constraint system with the witness generators it was built with.
#[derive(Clone, Debug, PartialEq, Eq)]
pub struct Circuit {
    pub common: CommonParams,
    pub gates: Vec<Component>,
    pub generators: Vec<Component>,
}

pub ghost struct CircuitView {
    pub common: CommonParams,
    pub gates: Seq<ComponentView>,
    pub generators: Seq<ComponentView>,
}

impl View for Circuit {
    type V = CircuitView;

    open spec fn view(&self) -> CircuitView {
        CircuitView {
            common: self.common,
            gates: views(self.gates@),
            generators: views(self.generators@),
        }
    }
}

pub open spec fn common_bytes(p: CommonParams) -> Seq<u8> {
    le64(p.degree_bits) + le64(p.num_wires) + le64(p.num_proof_elements) + le64(
        p.num_public_inputs,
    )
}

/// The envelopes of `cs`, one after another.
pub open spec fn list_bytes(cs: Seq<ComponentView>) -> Seq<u8>
    decreases cs.len(),
{
    if cs.len() == 0 {
        Seq::empty()
    } else {
        list_bytes(cs.drop_last()) + component_bytes(cs.last())
    }
}

pub open spec fn counted_bytes(cs: Seq<ComponentView>) -> Seq<u8> {
    le64(cs.len() as u64) + list_bytes(cs)
}

/// The circuit blob of `c`.
pub open spec fn circuit_bytes(c: CircuitView) -> Seq<u8> {
    common_bytes(c.common) + counted_bytes(c.gates) + counted_bytes(c.generators)
}

pub open spec fn parse_common(s: Seq<u8>) -> Result<(CommonParams, nat), StoreError> {
    if s.len() < 32 {
        Err(StoreError::MalformedPayload)
    } else {
        Ok(
            (
                CommonParams {
                    degree_bits: le64_value(s),
                    num_wires: le64_value(s.subrange(8, s.len() as int)),
                    num_proof_elements: le64_value(s.subrange(16, s.len() as int)),
                    num_public_inputs: le64_value(s.subrange(24, s.len() as int)),
                },
                32,
            ),
        )
    }
}

/// Reads `count` components from the front of `s`.
pub open spec fn parse_list(s: Seq<u8>, count: nat, kinds: Set<u64>) -> Result<
    (Seq<ComponentView>, nat),
    StoreError,
>
    decreases count,
{
    if count == 0 {
        Ok((Seq::empty(), 0))
    } else {
        match parse_list(s, (count - 1) as nat, kinds) {
            Err(e) => Err(e),
            Ok((cs, n)) => match parse_component(s.subrange(n as int, s.len() as int), kinds) {
                Err(e) => Err(e),
                Ok((c, m)) => Ok((cs.push(c), n + m)),
            },
        }
    }
}

/// Reads a count and then that many components.
pub open spec fn parse_counted(s: Seq<u8>, kinds: Set<u64>) -> Result<
    (Seq<ComponentView>, nat),
    StoreError,
> {
    if s.len() < 8 {
        Err(StoreError::MalformedPayload)
    } else {
        match parse_list(s.subrange(8, s.len() as int), le64_value(s) as nat, kinds) {
            Err(e) => Err(e),
            Ok((cs, n)) => Ok((cs, n + 8)),
        }
    }
}

/// What decoding a whole circuit blob gives under `reg`: the first failure met, or
/// the circuit; bytes left over after the generators are malformed.
pub open spec fn parse_circuit(s: Seq<u8>, reg: Registry) -> Result<CircuitView, StoreError> {
    match parse_common(s) {
        Err(e) => Err(e),
        Ok((common, a)) => match parse_counted(s.subrange(a as int, s.len() as int), reg.gates()) {
            Err(e) => Err(e),
            Ok((gates, b)) => match parse_counted(
                s.subrange((a + b) as int, s.len() as int),
                reg.generators(),
            ) {
                Err(e) => Err(e),
                Ok((generators, c)) => if a + b + c == s.len() {
                    Ok(CircuitView { common, gates, generators })
                } else {
                    Err(StoreError::MalformedPayload)
                },
            },
        },
    }
}

/// Every component of `cs` has a kind in `kinds` and a payload whose length fits a word.
pub open spec fn encodable(cs: Seq<ComponentView>, kinds: Set<u64>) -> bool {
    &&& cs.len() <= u64::MAX
    &&& forall|i: int| 0 <= i < cs.len() ==> kinds.contains(#[trigger] cs[i].kind)
        && cs[i].payload.len() <= u64::MAX
}

pub proof fn lemma_parse_list_bound(s: Seq<u8>, count: nat, kinds: Set<u64>)
    requires
        parse_list(s, count, kinds) is Ok,
    ensures
        parse_list(s, count, kinds)->Ok_0.1 <= s.len(),
        parse_list(s, count, kinds)->Ok_0.0.len() == count,
    decreases count,
{
    if count > 0 {
        lemma_parse_list_bound(s, (count - 1) as nat, kinds);
    }
}

proof fn lemma_list_round_trip(cs: Seq<ComponentView>, rest: Seq<u8>, kinds: Set<u64>)
    requires
        encodable(cs, kinds),
    ensures
        parse_list(list_bytes(cs) + rest, cs.len(), kinds) == Ok::<
            (Seq<ComponentView>, nat),
            StoreError,
        >((cs, list_bytes(cs).len())),
    decreases cs.len(),
{
    if cs.len() == 0 {
        assert(cs =~= Seq::<ComponentView>::empty());
    } else {
        let init = cs.drop_last();
        let last = cs.last();
        let tail = component_bytes(last) + rest;
        assert(list_bytes(cs) + rest =~= list_bytes(init) + tail);
        assert(encodable(init, kinds)) by {
            assert forall|i: int| 0 <= i < init.len() implies kinds.contains(#[trigger] init[i].kind)
                && init[i].payload.len() <= u64::MAX by {
                assert(init[i] == cs[i]);
            }
        }
        lemma_list_round_trip(init, tail, kinds);
        let s = list_bytes(cs) + rest;
        let n = list_bytes(init).len();
        assert(s.subrange(n as int, s.len() as int) =~= tail);
        assert(kinds.contains(cs[cs.len() - 1].kind));
        lemma_component_round_trip(last, rest, kinds);
        assert(init.push(last) =~= cs);
    }
}

proof fn lemma_counted_round_trip(cs: Seq<ComponentView>, rest: Seq<u8>, kinds: Set<u64>)
    requires
        encodable(cs, kinds),
    ensures
        parse_counted(counted_bytes(cs) + rest, kinds) == Ok::<
            (Seq<ComponentView>, nat),
            StoreError,
        >((cs, counted_bytes(cs).len())),
{
    lemma_le64_round_trip(cs.len() as u64);
    let s = counted_bytes(cs) + rest;
    assert(s.subrange(0, 8) =~= le64(cs.len() as u64));
    assert(le64_value(s) == le64_value(le64(cs.len() as u64)));
    assert(s.subrange(8, s.len() as int) =~= list_bytes(cs) + rest);
    lemma_list_round_trip(cs, rest, kinds);
}

proof fn lemma_common_round_trip(p: CommonParams, rest: Seq<u8>)
    ensures
        parse_common(common_bytes(p) + rest) == Ok::<(CommonParams, nat), StoreError>((p, 32)),
        common_bytes(p).len() == 32,
{
    let s = common_bytes(p) + rest;
    lemma_le64_round_trip(p.degree_bits);
    lemma_le64_round_trip(p.num_wires);
    lemma_le64_round_trip(p.num_proof_elements);
    lemma_le64_round_trip(p.num_public_inputs);
    assert(s.subrange(0, 8) =~= le64(p.degree_bits));
    assert(s.subrange(8, s.len() as int).subrange(0, 8) =~= le64(p.num_wires));
    assert(s.subrange(16, s.len() as int).subrange(0, 8) =~= le64(p.num_proof_elements));
    assert(s.subrange(24, s.len() as int).subrange(0, 8) =~= le64(p.num_public_inputs));
    assert(le64_value(s) == le64_value(le64(p.degree_bits)));
    assert(le64_value(s.subrange(8, s.len() as int)) == le64_value(le64(p.num_wires)));
    assert(le64_value(s.subrange(16, s.len() as int)) == le64_value(le64(p.num_proof_elements)));
    assert(le64_value(s.subrange(24, s.len() as int)) == le64_value(le64(p.num_public_inputs)));
}

/// Decoding the blob of a circuit whose kinds are all registered gives the circuit back.
pub proof fn lemma_circuit_round_trip(c: CircuitView, reg: Registry)
    requires
        encodable(c.gates, reg.gates()),
        encodable(c.generators, reg.generators()),
    ensures
        parse_circuit(circuit_bytes(c), reg) == Ok::<CircuitView, StoreError>(c),
{
    let s = circuit_bytes(c);
    let rest = counted_bytes(c.gates) + counted_bytes(c.generators);
    assert(s =~= common_bytes(c.common) + rest);
    lemma_common_round_trip(c.common, rest);
    assert(s.subrange(32, s.len() as int) =~= rest);
    lemma_counted_round_trip(c.gates, counted_bytes(c.generators), reg.gates());
    let b = counted_bytes(c.gates).len();
    assert(s.subrange((32 + b) as int, s.len() as int) =~= counted_bytes(c.generators) + Seq::<
        u8,
    >::empty());
    lemma_counted_round_trip(c.generators, Seq::empty(), reg.generators());
}

proof fn lemma_parse_list_err_stays(s: Seq<u8>, i: nat, count: nat, kinds: Set<u64>)
    requires
        i <= count,
        parse_list(s, i, kinds) is Err,
    ensures
        parse_list(s, count, kinds) == parse_list(s, i, kinds),
    decreases count - i,
{
    if i < count {
        lemma_parse_list_err_stays(s, i, (count - 1) as nat, kinds);
    }
}

proof fn lemma_list_prefix(s: Seq<u8>, t: Seq<u8>, count: nat, kinds: Set<u64>)
    requires
        s.len() <= t.len(),
        s =~= t.subrange(0, s.len() as int),
        parse_list(t, count, kinds) is Ok,
    ensures
        ({
            let (cs, n) = parse_list(t, count, kinds)->Ok_0;
            if n <= s.len() {
                parse_list(s, count, kinds) == parse_list(t, count, kinds)
            } else {
                parse_list(s, count, kinds) == Err::<(Seq<ComponentView>, nat), StoreError>(
                    StoreError::MalformedPayload,
                )
            }
        }),
    decreases count,
{
    if count > 0 {
        let c1 = (count - 1) as nat;
        lemma_list_prefix(s, t, c1, kinds);
        let (cs, n) = parse_list(t, c1, kinds)->Ok_0;
        lemma_parse_list_bound(t, c1, kinds);
        if n <= s.len() {
            let ss = s.subrange(n as int, s.len() as int);
            let tt = t.subrange(n as int, t.len() as int);
            assert(ss =~= tt.subrange(0, ss.len() as int));
            lemma_component_prefix(ss, tt, kinds);
        }
    }
}

proof fn lemma_counted_prefix(s: Seq<u8>, t: Seq<u8>, kinds: Set<u64>)
    requires
        s.len() <= t.len(),
        s =~= t.subrange(0, s.len() as int),
        parse_counted(t, kinds) is Ok,
    ensures
        ({
            let (cs, n) = parse_counted(t, kinds)->Ok_0;
            if n <= s.len() {
                parse_counted(s, kinds) == parse_counted(t, kinds)
            } else {
                parse_counted(s, kinds) == Err::<(Seq<ComponentView>, nat), StoreError>(
                    StoreError::MalformedPayload,
                )
            }
        }),
{
    if s.len() >= 8 {
        assert(le64_value(s) == le64_value(t));
        let ss = s.subrange(8, s.len() as int);
        let tt = t.subrange(8, t.len() as int);
        assert(ss =~= tt.subrange(0, ss.len() as int));
        lemma_list_prefix(ss, tt, le64_value(t) as nat, kinds);
    }
}

proof fn lemma_parse_counted_bound(s: Seq<u8>, kinds: Set<u64>)
    requires
        parse_counted(s, kinds) is Ok,
    ensures
        parse_counted(s, kinds)->Ok_0.1 <= s.len(),
{
    lemma_parse_list_bound(s.subrange(8, s.len() as int), le64_value(s) as nat, kinds);
}

/// A circuit blob cut short anywhere before its end is malformed.
pub proof fn lemma_circuit_truncated(t: Seq<u8>, reg: Registry, k: nat)
    requires
        parse_circuit(t, reg) is Ok,
        k < t.len(),
    ensures
        parse_circuit(t.subrange(0, k as int), reg) == Err::<CircuitView, StoreError>(
            StoreError::MalformedPayload,
        ),
{
    let s = t.subrange(0, k as int);
    if s.len() >= 32 {
        assert(le64_value(s) == le64_value(t));
        assert(le64_value(s.subrange(8, s.len() as int)) == le64_value(t.subrange(8, t.len() as int)));
        assert(le64_value(s.subrange(16, s.len() as int)) == le64_value(
            t.subrange(16, t.len() as int),
        ));
        assert(le64_value(s.subrange(24, s.len() as int)) == le64_value(
            t.subrange(24, t.len() as int),
        ));
        assert(parse_common(s) == parse_common(t));
        let s1 = s.subrange(32, s.len() as int);
        let t1 = t.subrange(32, t.len() as int);
        assert(s1 =~= t1.subrange(0, s1.len() as int));
        lemma_counted_prefix(s1, t1, reg.gates());
        lemma_parse_counted_bound(t1, reg.gates());
        let b = parse_counted(t1, reg.gates())->Ok_0.1;
        if 32 + b <= s.len() {
            let s2 = s.subrange((32 + b) as int, s.len() as int);
            let t2 = t.subrange((32 + b) as int, t.len() as int);
            assert(s2 =~= t2.subrange(0, s2.len() as int));
            assert(s1.subrange(b as int, s1.len() as int) =~= s2);
            lemma_counted_prefix(s2, t2, reg.generators());
        }
    }
}

/// Appends the count of `cs` and their envelopes; fails with `UnknownKind` on the first
/// component whose tag `kinds` lacks.
fn encode_list(kinds: &Vec<u64>, cs: &Vec<Component>, out: &mut Vec<u8>) -> (r: Result<
    (),
    StoreError,
>)
    ensures
        r is Ok <==> (forall|i: int| 0 <= i < cs@.len() ==> kinds@.to_set().contains(#[trigger] cs@[i].kind)),
        r is Err ==> r->Err_0 == StoreError::UnknownKind,
        r is Ok ==> final(out)@ == old(out)@ + counted_bytes(views(cs@)),
        r is Ok ==> encodable(views(cs@), kinds@.to_set()),
{
    push_u64(out, cs.len() as u64);
    let ghost start = out@;
    let mut i: usize = 0;
    while i < cs.len()
        invariant
            i <= cs@.len(),
            forall|j: int| 0 <= j < i ==> kinds@.to_set().contains(#[trigger] cs@[j].kind),
            forall|j: int| 0 <= j < i ==> (#[trigger] cs@[j]).payload@.len() <= u64::MAX,
            out@ == start + list_bytes(views(cs@).take(i as int)),
        decreases cs@.len() - i,
    {
        match encode_component(kinds, &cs[i], out) {
            Err(e) => {
                return Err(e);
            },
            Ok(()) => {},
        }
        proof {
            let vs = views(cs@);
            assert(vs.take(i + 1).drop_last() =~= vs.take(i as int));
            assert(vs.take(i + 1).last() == cs@[i as int]@);
        }
        i = i + 1;
    }
    assert(views(cs@).take(i as int) =~= views(cs@));
    assert(out@ =~= old(out)@ + counted_bytes(views(cs@)));
    Ok(())
}

/// Reads a count at `pos` and then that many components, as `parse_counted` says.
fn decode_list(bytes: &Vec<u8>, pos: usize, kinds: &Vec<u64>) -> (r: Result<
    (Vec<Component>, usize),
    StoreError,
>)
    requires
        pos <= bytes@.len(),
    ensures
        match (r, parse_counted(bytes@.subrange(pos as int, bytes@.len() as int), kinds@.to_set())) {
            (Ok((cs, next)), Ok((cv, n))) => views(cs@) == cv && next == pos + n && next
                <= bytes@.len(),
            (Err(e), Err(f)) => e == f,
            _ => false,
        },
{
    let ghost s = bytes@.subrange(pos as int, bytes@.len() as int);
    let count = match read_u64(bytes, pos) {
        Some(n) => n,
        None => return Err(StoreError::MalformedPayload),
    };
    let ghost s8 = s.subrange(8, s.len() as int);
    let ghost set = kinds@.to_set();
    let mut cs: Vec<Component> = Vec::new();
    let total = bytes.len();
    assert(pos + 8 <= total);
    assert(views(cs@) =~= Seq::<ComponentView>::empty());
    let mut p: usize = pos + 8;
    let mut i: u64 = 0;
    while i < count
        invariant
            pos + 8 <= p <= bytes@.len(),
            s == bytes@.subrange(pos as int, bytes@.len() as int),
            s8 == s.subrange(8, s.len() as int),
            set == kinds@.to_set(),
            i <= count,
            count == le64_value(s),
            parse_list(s8, i as nat, set) == Ok::<(Seq<ComponentView>, nat), StoreError>(
                (views(cs@), (p - pos - 8) as nat),
            ),
        decreases count - i,
    {
        assert(bytes@.subrange(p as int, bytes@.len() as int) =~= s8.subrange(
            (p - pos - 8) as int,
            s8.len() as int,
        ));
        match decode_component(bytes, p, kinds) {
            Err(e) => {
                proof {
                    lemma_parse_list_err_stays(s8, (i + 1) as nat, count as nat, set);
                }
                return Err(e);
            },
            Ok((c, next)) => {
                let ghost before = cs@;
                let ghost cv = c@;
                cs.push(c);
                p = next;
                assert(views(cs@) =~= views(before).push(cv));
            },
        }
        i = i + 1;
    }
    Ok((cs, p))
}

/// Every gate and generator of `c` has its kind in `reg`.
pub open spec fn registered(c: CircuitView, reg: Registry) -> bool {
    &&& forall|i: int| 0 <= i < c.gates.len() ==> reg.gates().contains(#[trigger] c.gates[i].kind)
    &&& forall|i: int|
        0 <= i < c.generators.len() ==> reg.generators().contains(#[trigger] c.generators[i].kind)
}

/// Writes the circuit blob of `c`, or fails with `UnknownKind` when a gate or a
/// generator has a kind that `reg` lacks.
pub fn encode_circuit(c: &Circuit, reg: &Registry) -> (r: Result<Vec<u8>, StoreError>)
    ensures
        r is Ok <==> registered(c@, *reg),
        r is Err ==> r->Err_0 == StoreError::UnknownKind,
        r is Ok ==> r->Ok_0@ == circuit_bytes(c@),
        r is Ok ==> encodable(c@.gates, reg.gates()) && encodable(c@.generators, reg.generators()),
{
    let mut out: Vec<u8> = Vec::new();
    push_u64(&mut out, c.common.degree_bits);
    push_u64(&mut out, c.common.num_wires);
    push_u64(&mut out, c.common.num_proof_elements);
    push_u64(&mut out, c.common.num_public_inputs);
    let r1 = encode_list(&reg.gate_kinds, &c.gates, &mut out);
    if r1.is_err() {
        assert(!registered(c@, *reg)) by {
            let i = choose|i: int|
                0 <= i < c.gates@.len() && !reg.gates().contains(#[trigger] c.gates@[i].kind);
            assert(c@.gates[i].kind == c.gates@[i].kind);
        }
        return Err(StoreError::UnknownKind);
    }
    let r2 = encode_list(&reg.generator_kinds, &c.generators, &mut out);
    if r2.is_err() {
        assert(!registered(c@, *reg)) by {
            let i = choose|i: int|
                0 <= i < c.generators@.len() && !reg.generators().contains(
                    #[trigger] c.generators@[i].kind,
                );
            assert(c@.generators[i].kind == c.generators@[i].kind);
        }
        return Err(StoreError::UnknownKind);
    }
    assert(registered(c@, *reg)) by {
        assert forall|i: int| 0 <= i < c@.gates.len() implies reg.gates().contains(
            #[trigger] c@.gates[i].kind,
        ) by {
            assert(c@.gates[i].kind == c.gates@[i].kind);
        }
        assert forall|i: int| 0 <= i < c@.generators.len() implies reg.generators().contains(
            #[trigger] c@.generators[i].kind,
        ) by {
            assert(c@.generators[i].kind == c.generators@[i].kind);
        }
    }
    assert(out@ =~= circuit_bytes(c@));
    Ok(out)
}

/// Decodes a circuit blob under `reg`, as `parse_circuit` says.
pub fn decode_circuit(bytes: &Vec<u8>, reg: &Registry) -> (r: Result<Circuit, StoreError>)
    ensures
        match (r, parse_circuit(bytes@, *reg)) {
            (Ok(c), Ok(cv)) => c@ == cv,
            (Err(e), Err(f)) => e == f,
            _ => false,
        },
{
    let ghost s = bytes@;
    assert(s.subrange(0, s.len() as int) =~= s);
    if bytes.len() < 32 {
        return Err(StoreError::MalformedPayload);
    }
    let degree_bits = match read_u64(bytes, 0) {
        Some(v) => v,
        None => return Err(StoreError::MalformedPayload),
    };
    let num_wires = match read_u64(bytes, 8) {
        Some(v) => v,
        None => return Err(StoreError::MalformedPayload),
    };
    let num_proof_elements = match read_u64(bytes, 16) {
        Some(v) => v,
        None => return Err(StoreError::MalformedPayload),
    };
    let num_public_inputs = match read_u64(bytes, 24) {
        Some(v) => v,
        None => return Err(StoreError::MalformedPayload),
    };
    let common = CommonParams { degree_bits, num_wires, num_proof_elements, num_public_inputs };
    assert(parse_common(s) == Ok::<(CommonParams, nat), StoreError>((common, 32)));
    let (gates, p) = match decode_list(bytes, 32, &reg.gate_kinds) {
        Ok(x) => x,
        Err(e) => return Err(e),
    };
    proof {
        let b = parse_counted(s.subrange(32, s.len() as int), reg.gates())->Ok_0.1;
        assert(s.subrange((32 + b) as int, s.len() as int) =~= s.subrange(p as int, s.len() as int));
    }
    let (generators, q) = match decode_list(bytes, p, &reg.generator_kinds) {
        Ok(x) => x,
        Err(e) => return Err(e),
    };
    if q != bytes.len() {
        return Err(StoreError::MalformedPayload);
    }
    Ok(Circuit { common, gates, generators })
}

/// Every component of `cs` could be written: the list's and each payload's length fit
/// a word.
pub open spec fn sized(cs: Seq<ComponentView>) -> bool {
    &&& cs.len() <= u64::MAX
    &&& forall|i: int| 0 <= i < cs.len() ==> (#[trigger] cs[i]).payload.len() <= u64::MAX
}

/// Some component of `cs` has a kind outside `kinds`.
pub open spec fn has_unknown(cs: Seq<ComponentView>, kinds: Set<u64>) -> bool {
    exists|i: int| 0 <= i < cs.len() && !kinds.contains(#[trigger] cs[i].kind)
}

proof fn lemma_list_unknown(cs: Seq<ComponentView>, rest: Seq<u8>, kinds: Set<u64>)
    requires
        sized(cs),
        has_unknown(cs, kinds),
    ensures
        parse_list(list_bytes(cs) + rest, cs.len(), kinds) == Err::<
            (Seq<ComponentView>, nat),
            StoreError,
        >(StoreError::UnknownKind),
    decreases cs.len(),
{
    let init = cs.drop_last();
    let last = cs.last();
    let tail = component_bytes(last) + rest;
    assert(list_bytes(cs) + rest =~= list_bytes(init) + tail);
    assert(sized(init)) by {
        assert forall|i: int| 0 <= i < init.len() implies (#[trigger] init[i]).payload.len()
            <= u64::MAX by {
            assert(init[i] == cs[i]);
        }
    }
    if has_unknown(init, kinds) {
        lemma_list_unknown(init, tail, kinds);
    } else {
        assert(encodable(init, kinds)) by {
            assert forall|i: int| 0 <= i < init.len() implies kinds.contains(
                #[trigger] init[i].kind,
            ) && init[i].payload.len() <= u64::MAX by {
                assert(init[i] == cs[i]);
            }
        }
        lemma_list_round_trip(init, tail, kinds);
        let s = list_bytes(cs) + rest;
        let n = list_bytes(init).len();
        assert(s.subrange(n as int, s.len() as int) =~= tail);
        let i = choose|i: int| 0 <= i < cs.len() && !kinds.contains(#[trigger] cs[i].kind);
        if i < init.len() {
            assert(init[i] == cs[i]);
        }
        assert(!kinds.contains(last.kind));
        lemma_le64_round_trip(last.kind);
        assert(tail.subrange(0, 8) =~= le64(last.kind));
        assert(le64_value(tail) == le64_value(le64(last.kind)));
    }
}

proof fn lemma_counted_unknown(cs: Seq<ComponentView>, rest: Seq<u8>, kinds: Set<u64>)
    requires
        sized(cs),
        has_unknown(cs, kinds),
    ensures
        parse_counted(counted_bytes(cs) + rest, kinds) == Err::<
            (Seq<ComponentView>, nat),
            StoreError,
        >(StoreError::UnknownKind),
{
    lemma_le64_round_trip(cs.len() as u64);
    let s = counted_bytes(cs) + rest;
    assert(s.subrange(0, 8) =~= le64(cs.len() as u64));
    assert(le64_value(s) == le64_value(le64(cs.len() as u64)));
    assert(s.subrange(8, s.len() as int) =~= list_bytes(cs) + rest);
    lemma_list_unknown(cs, rest, kinds);
}

/// A circuit blob holding a gate or a generator of a kind that `reg` lacks fails to
/// decode with `UnknownKind`.
pub proof fn lemma_circuit_unknown_kind(c: CircuitView, reg: Registry)
    requires
        sized(c.gates),
        sized(c.generators),
        has_unknown(c.gates, reg.gates()) || has_unknown(c.generators, reg.generators()),
    ensures
        parse_circuit(circuit_bytes(c), reg) == Err::<CircuitView, StoreError>(
            StoreError::UnknownKind,
        ),
{
    let s = circuit_bytes(c);
    let rest = counted_bytes(c.gates) + counted_bytes(c.generators);
    assert(s =~= common_bytes(c.common) + rest);
    lemma_common_round_trip(c.common, rest);
    assert(s.subrange(32, s.len() as int) =~= rest);
    if has_unknown(c.gates, reg.gates()) {
        lemma_counted_unknown(c.gates, counted_bytes(c.generators), reg.gates());
    } else {
        assert(encodable(c.gates, reg.gates()));
        lemma_counted_round_trip(c.gates, counted_bytes(c.generators), reg.gates());
        let b = counted_bytes(c.gates).len();
        assert(s.subrange((32 + b) as int, s.len() as int) =~= counted_bytes(c.generators)
            + Seq::<u8>::empty());
        lemma_counted_unknown(c.generators, Seq::empty(), reg.generators());
    }
}

} // verus!
