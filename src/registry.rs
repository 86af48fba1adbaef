//! The table of gate and generator kinds a process can encode and decode, and the
//! envelope of one tagged component: `[kind tag][payload length][payload]`.
use crate::bytes::{copy_range, le64, le64_value, lemma_le64_round_trip, push_u64, read_u64};
use vstd::prelude::*;

verus! {

/// Gate kinds known to every registry made by `Registry::standard`.
pub const STANDARD_GATE_KINDS: u64 = 16;

/// Generator kinds known to every registry made by `Registry::standard`.
pub const STANDARD_GENERATOR_KINDS: u64 = 24;

/// Why a save or a load did not complete.
#[derive(Clone, Copy, Debug, PartialEq, Eq, Structural)]
pub enum StoreError {
    /// The storage could not be read or written.
    Io,
    /// A kind tag has no entry in the active registry.
    UnknownKind,
    /// The bytes do not form a value of the expected shape.
    MalformedPayload,
}

/// One gate or generator instance: its kind tag and the bytes its kind's codec wrote.
#[derive(Clone, Debug, PartialEq, Eq)]
pub struct Component {
    pub kind: u64,
    pub payload: Vec<u8>,
}

pub ghost struct ComponentView {
    pub kind: u64,
    pub payload: Seq<u8>,
}

impl View for Component {
    type V = ComponentView;

    open spec fn view(&self) -> ComponentView {
        ComponentView { kind: self.kind, payload: self.payload@ }
    }
}

pub open spec fn views(cs: Seq<Component>) -> Seq<ComponentView> {
    Seq::new(cs.len(), |i: int| cs[i]@)
}

/// The kinds a process has codecs for, gates and generators apart.
#[derive(Clone, Debug)]
pub struct Registry {
    pub gate_kinds: Vec<u64>,
    pub generator_kinds: Vec<u64>,
}

impl Registry {
    pub open spec fn gates(&self) -> Set<u64> {
        self.gate_kinds@.to_set()
    }

    pub open spec fn generators(&self) -> Set<u64> {
        self.generator_kinds@.to_set()
    }

    /// A registry that knows no kind.
    pub fn empty() -> (r: Registry)
        ensures
            r.gates() == Set::<u64>::empty(),
            r.generators() == Set::<u64>::empty(),
    {
        let r = Registry { gate_kinds: Vec::new(), generator_kinds: Vec::new() };
        assert(r.gates() =~= Set::<u64>::empty());
        assert(r.generators() =~= Set::<u64>::empty());
        r
    }

    /// The built-in kinds: gate tags below `STANDARD_GATE_KINDS` and generator tags
    /// below `STANDARD_GENERATOR_KINDS`.
    pub fn standard() -> (r: Registry)
        ensures
            forall|k: u64| r.gates().contains(k) <==> k < STANDARD_GATE_KINDS,
            forall|k: u64| r.generators().contains(k) <==> k < STANDARD_GENERATOR_KINDS,
    {
        let gate_kinds = kinds_below(STANDARD_GATE_KINDS);
        let generator_kinds = kinds_below(STANDARD_GENERATOR_KINDS);
        Registry { gate_kinds, generator_kinds }
    }

    /// Adds a gate kind; registering a known kind changes nothing.
    pub fn register_gate(&mut self, kind: u64)
        ensures
            final(self).gates() == old(self).gates().insert(kind),
            final(self).generators() == old(self).generators(),
    {
        if !contains(&self.gate_kinds, kind) {
            self.gate_kinds.push(kind);
        }
        assert(self.gate_kinds@.to_set() =~= old(self).gate_kinds@.to_set().insert(kind)) by {
            broadcast use vstd::seq_lib::group_seq_properties;
        }
    }

    /// Adds a generator kind; registering a known kind changes nothing.
    pub fn register_generator(&mut self, kind: u64)
        ensures
            final(self).generators() == old(self).generators().insert(kind),
            final(self).gates() == old(self).gates(),
    {
        if !contains(&self.generator_kinds, kind) {
            self.generator_kinds.push(kind);
        }
        assert(self.generator_kinds@.to_set() =~= old(self).generator_kinds@.to_set().insert(kind))
            by {
            broadcast use vstd::seq_lib::group_seq_properties;
        }
    }

    pub fn knows_gate(&self, kind: u64) -> (r: bool)
        ensures
            r == self.gates().contains(kind),
    {
        contains(&self.gate_kinds, kind)
    }

    pub fn knows_generator(&self, kind: u64) -> (r: bool)
        ensures
            r == self.generators().contains(kind),
    {
        contains(&self.generator_kinds, kind)
    }
}

fn kinds_below(n: u64) -> (r: Vec<u64>)
    ensures
        forall|k: u64| r@.to_set().contains(k) <==> k < n,
{
    let mut r: Vec<u64> = Vec::new();
    let mut i: u64 = 0;
    while i < n
        invariant
            i <= n,
            r@.len() == i,
            forall|j: int| 0 <= j < i ==> r@[j] == j,
        decreases n - i,
    {
        r.push(i);
        i = i + 1;
    }
    assert forall|k: u64| r@.to_set().contains(k) <==> k < n by {
        if k < n {
            assert(r@[k as int] == k);
        }
    }
    r
}

fn contains(v: &Vec<u64>, x: u64) -> (r: bool)
    ensures
        r == v@.to_set().contains(x),
{
    let mut i: usize = 0;
    while i < v.len()
        invariant
            i <= v@.len(),
            forall|j: int| 0 <= j < i ==> v@[j] != x,
        decreases v@.len() - i,
    {
        if v[i] == x {
            assert(v@.to_set().contains(x) == v@.contains(x));
            assert(v@[i as int] == x);
            return true;
        }
        i = i + 1;
    }
    assert(v@.to_set().contains(x) == v@.contains(x));
    false
}

/// The envelope of one component.
pub open spec fn component_bytes(c: ComponentView) -> Seq<u8> {
    le64(c.kind) + le64(c.payload.len() as u64) + c.payload
}

/// Reads one component from the front of `s`, accepting the kinds in `kinds`; on
/// success also gives the number of bytes it took.
pub open spec fn parse_component(s: Seq<u8>, kinds: Set<u64>) -> Result<
    (ComponentView, nat),
    StoreError,
> {
    if s.len() < 8 {
        Err(StoreError::MalformedPayload)
    } else if !kinds.contains(le64_value(s)) {
        Err(StoreError::UnknownKind)
    } else if s.len() < 16 {
        Err(StoreError::MalformedPayload)
    } else if s.len() - 16 < le64_value(s.subrange(8, s.len() as int)) {
        Err(StoreError::MalformedPayload)
    } else {
        let len = le64_value(s.subrange(8, s.len() as int));
        Ok(
            (
                ComponentView { kind: le64_value(s), payload: s.subrange(16, 16 + len) },
                (16 + len) as nat,
            ),
        )
    }
}

/// Decoding a component's envelope followed by anything gives the component back.
pub proof fn lemma_component_round_trip(c: ComponentView, rest: Seq<u8>, kinds: Set<u64>)
    requires
        kinds.contains(c.kind),
        c.payload.len() <= u64::MAX,
    ensures
        parse_component(component_bytes(c) + rest, kinds) == Ok::<(ComponentView, nat), StoreError>(
            (c, component_bytes(c).len()),
        ),
        component_bytes(c).len() == 16 + c.payload.len(),
{
    lemma_le64_round_trip(c.kind);
    lemma_le64_round_trip(c.payload.len() as u64);
    let s = component_bytes(c) + rest;
    let len = c.payload.len() as u64;
    assert(s.subrange(0, 8) =~= le64(c.kind));
    assert(s.subrange(8, s.len() as int).subrange(0, 8) =~= le64(len));
    assert(le64_value(s) == le64_value(le64(c.kind)));
    assert(le64_value(s.subrange(8, s.len() as int)) == le64_value(le64(len)));
    assert(s.subrange(16, 16 + len) =~= c.payload);
}

/// A component read from `t` is read the same from any prefix of `t` that holds it;
/// a shorter prefix is malformed.
pub proof fn lemma_component_prefix(s: Seq<u8>, t: Seq<u8>, kinds: Set<u64>)
    requires
        s.len() <= t.len(),
        s =~= t.subrange(0, s.len() as int),
        parse_component(t, kinds) is Ok,
    ensures
        ({
            let (c, n) = parse_component(t, kinds)->Ok_0;
            if n <= s.len() {
                parse_component(s, kinds) == parse_component(t, kinds)
            } else {
                parse_component(s, kinds) == Err::<(ComponentView, nat), StoreError>(
                    StoreError::MalformedPayload,
                )
            }
        }),
{
    if s.len() >= 8 {
        assert(le64_value(s) == le64_value(t));
    }
    if s.len() >= 16 {
        assert(le64_value(s.subrange(8, s.len() as int)) == le64_value(t.subrange(8, t.len() as int)));
        let len = le64_value(t.subrange(8, t.len() as int));
        if 16 + len <= s.len() {
            assert(s.subrange(16, 16 + len) =~= t.subrange(16, 16 + len));
        }
    }
}

/// Appends the envelope of `c`, or fails with `UnknownKind` when `kinds` lacks its tag.
pub fn encode_component(kinds: &Vec<u64>, c: &Component, out: &mut Vec<u8>) -> (r: Result<
    (),
    StoreError,
>)
    ensures
        r is Err <==> !kinds@.to_set().contains(c.kind),
        r is Err ==> r->Err_0 == StoreError::UnknownKind && final(out)@ == old(out)@,
        r is Ok ==> final(out)@ == old(out)@ + component_bytes(c@),
        r is Ok ==> c.payload@.len() <= u64::MAX,
{
    if !contains(kinds, c.kind) {
        return Err(StoreError::UnknownKind);
    }
    push_u64(out, c.kind);
    push_u64(out, c.payload.len() as u64);
    let mut i: usize = 0;
    let ghost start = out@;
    while i < c.payload.len()
        invariant
            i <= c.payload@.len(),
            out@ == start + c.payload@.subrange(0, i as int),
        decreases c.payload@.len() - i,
    {
        out.push(c.payload[i]);
        i = i + 1;
        assert(out@ =~= start + c.payload@.subrange(0, i as int));
    }
    assert(c.payload@.subrange(0, i as int) =~= c.payload@);
    assert(out@ =~= old(out)@ + component_bytes(c@));
    Ok(())
}

/// Reads the component at `pos`, as `parse_component` says, with the position after it.
pub fn decode_component(bytes: &Vec<u8>, pos: usize, kinds: &Vec<u64>) -> (r: Result<
    (Component, usize),
    StoreError,
>)
    requires
        pos <= bytes@.len(),
    ensures
        match (r, parse_component(bytes@.subrange(pos as int, bytes@.len() as int), kinds@.to_set())) {
            (Ok((c, next)), Ok((cv, n))) => c@ == cv && next == pos + n,
            (Err(e), Err(f)) => e == f,
            _ => false,
        },
{
    let ghost s = bytes@.subrange(pos as int, bytes@.len() as int);
    let kind = match read_u64(bytes, pos) {
        Some(k) => k,
        None => return Err(StoreError::MalformedPayload),
    };
    if !contains(kinds, kind) {
        return Err(StoreError::UnknownKind);
    }
    if bytes.len() - pos < 16 {
        return Err(StoreError::MalformedPayload);
    }
    let len = match read_u64(bytes, pos + 8) {
        Some(l) => l,
        None => return Err(StoreError::MalformedPayload),
    };
    assert(bytes@.subrange(pos + 8, bytes@.len() as int) =~= s.subrange(8, s.len() as int));
    if ((bytes.len() - pos - 16) as u64) < len {
        return Err(StoreError::MalformedPayload);
    }
    let start = pos + 16;
    let end = start + len as usize;
    let payload = copy_range(bytes, start, end);
    assert(payload@ =~= s.subrange(16, 16 + len));
    Ok((Component { kind, payload }, end))
}

} // verus!
