//! The snapshot codec: builds a self-contained snapshot from the
//! payload-bearing entities of the registry, serializes it into a
//! self-describing, line-oriented textual byte format, parses such bytes back
//! into a snapshot, and instantiates a snapshot's bundles as live entities.
//!
//! One bundle is written as four lines: one line per registered component
//! kind — `payload`, `carrier`, `label` — each holding either `-` for an
//! absent component or `=` followed by the serialized value, then a closing
//! `end` line. Parsing inverts serialization exactly.

use crate::registry::{CarrierId, ComponentA, EntityRecord, Registry};
use vstd::prelude::*;

verus! {

broadcast use vstd::seq_lib::group_seq_properties;

/// The mathematical content of one component bundle: the component values a
/// snapshot carries for one entity, free of any live identifier.
#[verifier::ext_equal]
pub struct BundleAbs {
    pub payload: Option<ComponentA>,
    pub carrier: Option<CarrierId>,
    pub label: Option<Seq<u8>>,
}

/// One stored component bundle.
pub struct Bundle {
    pub payload: Option<ComponentA>,
    pub carrier: Option<CarrierId>,
    pub label: Option<Vec<u8>>,
}

impl View for Bundle {
    type V = BundleAbs;

    open spec fn view(&self) -> BundleAbs {
        BundleAbs {
            payload: self.payload,
            carrier: self.carrier,
            label: match self.label {
                Some(l) => Some(l@),
                None => None,
            },
        }
    }
}

/// A snapshot: an ordered sequence of component bundles, self-contained and
/// independent of any live registry state, never mutated after creation.
pub struct Snapshot {
    pub bundles: Vec<Bundle>,
}

impl View for Snapshot {
    type V = Seq<BundleAbs>;

    open spec fn view(&self) -> Seq<BundleAbs> {
        self.bundles@.map_values(|b: Bundle| b@)
    }
}

/// The type-registry side-table: the component-kind names that have been
/// registered for snapshot encoding and decoding.
pub struct TypeRegistry {
    pub kinds: Vec<Vec<u8>>,
}

/// What can go wrong around a snapshot: the storage resource failed, a value
/// was not representable in the schema, or stored bytes were malformed. All
/// three are recoverable; none aborts the server.
#[derive(Clone, Copy, Debug, PartialEq, Eq, Structural)]
pub enum SnapshotError {
    Io,
    Serialization,
    Decode,
}

/// The kind name of the payload component.
pub open spec fn name_payload() -> Seq<u8> {
    seq![112u8, 97u8, 121u8, 108u8, 111u8, 97u8, 100u8]
}

/// The kind name of the carrier component.
pub open spec fn name_carrier() -> Seq<u8> {
    seq![99u8, 97u8, 114u8, 114u8, 105u8, 101u8, 114u8]
}

/// The kind name of the label component.
pub open spec fn name_label() -> Seq<u8> {
    seq![108u8, 97u8, 98u8, 101u8, 108u8]
}

/// The closing line of one bundle: `end` and a newline.
pub open spec fn end_line() -> Seq<u8> {
    seq![101u8, 110u8, 100u8, 10u8]
}

/// Whether a kind name is registered.
pub open spec fn kind_registered(reg: TypeRegistry, name: Seq<u8>) -> bool {
    exists|i: int| 0 <= i < reg.kinds@.len() && (#[trigger] reg.kinds@[i])@ == name
}

/// Whether every component kind a snapshot may mention is registered;
/// registration must precede serialization and decoding.
pub open spec fn all_kinds_registered(reg: TypeRegistry) -> bool {
    kind_registered(reg, name_payload()) && kind_registered(reg, name_carrier())
        && kind_registered(reg, name_label())
}

/// The decimal digits of `n`, most significant first.
pub open spec fn dec_digits(n: nat) -> Seq<u8>
    decreases n,
{
    if n < 10 {
        seq![(48 + n) as u8]
    } else {
        dec_digits(n / 10).push((48 + n % 10) as u8)
    }
}

/// Whether every byte is a decimal digit.
pub open spec fn all_digits(s: Seq<u8>) -> bool {
    forall|i: int| 0 <= i < s.len() ==> 48 <= #[trigger] s[i] <= 57
}

/// The value of a digit sequence, most significant first.
pub open spec fn digits_val(s: Seq<u8>) -> int
    decreases s.len(),
{
    if s.len() == 0 {
        0
    } else {
        digits_val(s.drop_last()) * 10 + (s.last() - 48)
    }
}

/// Whether a label value can be written into the line-oriented schema.
pub open spec fn label_ok(l: Seq<u8>) -> bool {
    forall|i: int| 0 <= i < l.len() ==> #[trigger] l[i] != 10
}

/// Whether a bundle is representable in the schema.
pub open spec fn representable(b: BundleAbs) -> bool {
    match b.label {
        Some(l) => label_ok(l),
        None => true,
    }
}

/// Whether a whole snapshot can be serialized against a registry.
pub open spec fn serializable(s: Seq<BundleAbs>, reg: TypeRegistry) -> bool {
    all_kinds_registered(reg) && forall|i: int|
        0 <= i < s.len() ==> representable(#[trigger] s[i])
}

/// One line of the textual format: the kind name, a space, the value text,
/// a newline.
pub open spec fn line(name: Seq<u8>, content: Seq<u8>) -> Seq<u8> {
    name + seq![32u8] + content + seq![10u8]
}

/// The value text of an optional payload: `-` when absent, `=` and the
/// decimal digits when present.
pub open spec fn enc_payload(o: Option<ComponentA>) -> Seq<u8> {
    match o {
        None => seq![45u8],
        Some(c) => seq![61u8] + dec_digits(c.0 as nat),
    }
}

/// The value text of an optional carrier.
pub open spec fn enc_carrier(o: Option<CarrierId>) -> Seq<u8> {
    match o {
        None => seq![45u8],
        Some(c) => seq![61u8] + dec_digits(c.0 as nat),
    }
}

/// The value text of an optional label: the raw bytes after `=`.
pub open spec fn enc_label(o: Option<Seq<u8>>) -> Seq<u8> {
    match o {
        None => seq![45u8],
        Some(l) => seq![61u8] + l,
    }
}

/// The encoding of one bundle: its three component lines and the `end` line.
pub open spec fn encode_bundle(b: BundleAbs) -> Seq<u8> {
    line(name_payload(), enc_payload(b.payload)) + line(name_carrier(), enc_carrier(b.carrier))
        + line(name_label(), enc_label(b.label)) + end_line()
}

/// The encoding of a snapshot: its bundles' encodings in order.
pub open spec fn encode_snap(s: Seq<BundleAbs>) -> Seq<u8>
    decreases s.len(),
{
    if s.len() == 0 {
        Seq::empty()
    } else {
        encode_bundle(s[0]) + encode_snap(s.skip(1))
    }
}

/// Position of the first newline at or after `from`, if any.
pub open spec fn line_end(b: Seq<u8>, from: int) -> Option<int>
    decreases b.len() - from,
{
    if from < 0 || from >= b.len() {
        None
    } else if b[from] == 10 {
        Some(from)
    } else {
        line_end(b, from + 1)
    }
}

/// Parse one line at `pos`: the expected kind name, a space, then the value
/// text up to the newline. Yields the value text and the position after the
/// newline.
pub open spec fn parse_line_at(b: Seq<u8>, pos: int, name: Seq<u8>) -> Option<(Seq<u8>, int)> {
    if 0 <= pos && pos + name.len() + 1 <= b.len() && b.subrange(pos, pos + name.len() as int)
        == name && b[pos + name.len()] == 32 {
        match line_end(b, pos + name.len() + 1) {
            Some(e) => Some((b.subrange(pos + name.len() + 1, e), e + 1)),
            None => None,
        }
    } else {
        None
    }
}

/// Decode an optional payload value text.
pub open spec fn dec_opt_payload(c: Seq<u8>) -> Option<Option<ComponentA>> {
    if c == seq![45u8] {
        Some(None)
    } else if c.len() >= 2 && c[0] == 61 && all_digits(c.skip(1)) && digits_val(c.skip(1))
        <= usize::MAX {
        Some(Some(ComponentA(digits_val(c.skip(1)) as usize)))
    } else {
        None
    }
}

/// Decode an optional carrier value text.
pub open spec fn dec_opt_carrier(c: Seq<u8>) -> Option<Option<CarrierId>> {
    if c == seq![45u8] {
        Some(None)
    } else if c.len() >= 2 && c[0] == 61 && all_digits(c.skip(1)) && digits_val(c.skip(1))
        <= u64::MAX {
        Some(Some(CarrierId(digits_val(c.skip(1)) as u64)))
    } else {
        None
    }
}

/// Decode an optional label value text.
pub open spec fn dec_opt_label(c: Seq<u8>) -> Option<Option<Seq<u8>>> {
    if c == seq![45u8] {
        Some(None)
    } else if c.len() >= 1 && c[0] == 61 {
        Some(Some(c.skip(1)))
    } else {
        None
    }
}

/// Parse one bundle at `pos`: the three component lines in schema order,
/// then the `end` line. Yields the bundle and the position after it.
pub open spec fn parse_bundle_at(b: Seq<u8>, pos: int) -> Option<(BundleAbs, int)> {
    match parse_line_at(b, pos, name_payload()) {
        None => None,
        Some((c1, p1)) => match dec_opt_payload(c1) {
            None => None,
            Some(payload) => match parse_line_at(b, p1, name_carrier()) {
                None => None,
                Some((c2, p2)) => match dec_opt_carrier(c2) {
                    None => None,
                    Some(carrier) => match parse_line_at(b, p2, name_label()) {
                        None => None,
                        Some((c3, p3)) => match dec_opt_label(c3) {
                            None => None,
                            Some(label) => if p3 + 4 <= b.len() && b.subrange(p3, p3 + 4)
                                == end_line() {
                                Some((BundleAbs { payload, carrier, label }, p3 + 4))
                            } else {
                                None
                            },
                        },
                    },
                },
            },
        },
    }
}

/// Parse a whole snapshot from `pos` to the end of the bytes: a sequence of
/// bundles with nothing left over.
pub open spec fn parse_snap_at(b: Seq<u8>, pos: int) -> Option<Seq<BundleAbs>>
    decreases b.len() - pos,
{
    if pos == b.len() {
        Some(Seq::empty())
    } else if pos < 0 || pos > b.len() {
        None
    } else {
        match parse_bundle_at(b, pos) {
            None => None,
            Some((bun, p2)) => if pos < p2 <= b.len() {
                match parse_snap_at(b, p2) {
                    None => None,
                    Some(rest) => Some(seq![bun] + rest),
                }
            } else {
                None
            },
        }
    }
}

/// The kind name of the payload component, as bytes.
pub fn payload_name_bytes() -> (v: Vec<u8>)
    ensures
        v@ == name_payload(),
{
    let mut v: Vec<u8> = Vec::new();
    v.push(112);
    v.push(97);
    v.push(121);
    v.push(108);
    v.push(111);
    v.push(97);
    v.push(100);
    proof {
        assert(v@ =~= name_payload());
    }
    v
}

/// The kind name of the carrier component, as bytes.
pub fn carrier_name_bytes() -> (v: Vec<u8>)
    ensures
        v@ == name_carrier(),
{
    let mut v: Vec<u8> = Vec::new();
    v.push(99);
    v.push(97);
    v.push(114);
    v.push(114);
    v.push(105);
    v.push(101);
    v.push(114);
    proof {
        assert(v@ =~= name_carrier());
    }
    v
}

/// The kind name of the label component, as bytes.
pub fn label_name_bytes() -> (v: Vec<u8>)
    ensures
        v@ == name_label(),
{
    let mut v: Vec<u8> = Vec::new();
    v.push(108);
    v.push(97);
    v.push(98);
    v.push(101);
    v.push(108);
    proof {
        assert(v@ =~= name_label());
    }
    v
}

/// The closing `end` line, as bytes.
fn end_line_bytes() -> (v: Vec<u8>)
    ensures
        v@ == end_line(),
{
    let mut v: Vec<u8> = Vec::new();
    v.push(101);
    v.push(110);
    v.push(100);
    v.push(10);
    proof {
        assert(v@ =~= end_line());
    }
    v
}

/// Byte-for-byte copy of a byte vector.
#[verifier::loop_isolation(false)]
pub fn clone_bytes(v: &Vec<u8>) -> (r: Vec<u8>)
    ensures
        r@ == v@,
{
    let mut r: Vec<u8> = Vec::new();
    let mut i: usize = 0;
    while i < v.len()
        invariant
            0 <= i <= v@.len(),
            r@ == v@.subrange(0, i as int),
        decreases v@.len() - i,
    {
        r.push(v[i]);
        proof {
            assert(v@.subrange(0, i as int).push(v@[i as int]) =~= v@.subrange(0, i as int + 1));
        }
        i = i + 1;
    }
    proof {
        assert(v@.subrange(0, v@.len() as int) =~= v@);
    }
    r
}

/// Byte-for-byte equality of two byte vectors.
#[verifier::loop_isolation(false)]
fn bytes_equal(a: &Vec<u8>, b: &Vec<u8>) -> (r: bool)
    ensures
        r == (a@ == b@),
{
    if a.len() != b.len() {
        return false;
    }
    let mut i: usize = 0;
    while i < a.len()
        invariant
            0 <= i <= a@.len(),
            a@.len() == b@.len(),
            forall|j: int| 0 <= j < i ==> a@[j] == b@[j],
        decreases a@.len() - i,
    {
        if a[i] != b[i] {
            return false;
        }
        i = i + 1;
    }
    proof {
        assert(a@ =~= b@);
    }
    true
}

/// Whether the registry holds the given kind name.
#[verifier::loop_isolation(false)]
fn registry_has(reg: &TypeRegistry, name: &Vec<u8>) -> (r: bool)
    ensures
        r == kind_registered(*reg, name@),
{
    let mut i: usize = 0;
    while i < reg.kinds.len()
        invariant
            0 <= i <= reg.kinds@.len(),
            forall|j: int| 0 <= j < i ==> (#[trigger] reg.kinds@[j])@ != name@,
        decreases reg.kinds@.len() - i,
    {
        if bytes_equal(&reg.kinds[i], name) {
            return true;
        }
        i = i + 1;
    }
    false
}

/// Whether the bytes contain a newline.
#[verifier::loop_isolation(false)]
fn has_newline(v: &Vec<u8>) -> (r: bool)
    ensures
        r == !label_ok(v@),
{
    let mut i: usize = 0;
    while i < v.len()
        invariant
            0 <= i <= v@.len(),
            forall|j: int| 0 <= j < i ==> v@[j] != 10,
        decreases v@.len() - i,
    {
        if v[i] == 10 {
            return true;
        }
        i = i + 1;
    }
    false
}

/// Append the decimal digits of `n`.
fn push_dec_u64(out: &mut Vec<u8>, n: u64)
    ensures
        final(out)@ == old(out)@ + dec_digits(n as nat),
    decreases n,
{
    if n < 10 {
        out.push(48 + n as u8);
        proof {
            assert(out@ =~= old(out)@ + dec_digits(n as nat));
        }
    } else {
        push_dec_u64(out, n / 10);
        out.push(48 + (n % 10) as u8);
        proof {
            assert(out@ =~= old(out)@ + dec_digits(n as nat));
        }
    }
}

/// Append the decimal digits of `n`.
fn push_dec_usize(out: &mut Vec<u8>, n: usize)
    ensures
        final(out)@ == old(out)@ + dec_digits(n as nat),
    decreases n,
{
    if n < 10 {
        out.push(48 + n as u8);
        proof {
            assert(out@ =~= old(out)@ + dec_digits(n as nat));
        }
    } else {
        push_dec_usize(out, n / 10);
        out.push(48 + (n % 10) as u8);
        proof {
            assert(out@ =~= old(out)@ + dec_digits(n as nat));
        }
    }
}

/// Append one component line.
fn push_line(out: &mut Vec<u8>, name: &Vec<u8>, content: &Vec<u8>)
    ensures
        final(out)@ == old(out)@ + line(name@, content@),
{
    let mut i: usize = 0;
    while i < name.len()
        invariant
            0 <= i <= name@.len(),
            out@ == old(out)@ + name@.subrange(0, i as int),
        decreases name@.len() - i,
    {
        out.push(name[i]);
        proof {
            assert(name@.subrange(0, i as int).push(name@[i as int]) =~= name@.subrange(
                0,
                i as int + 1,
            ));
            assert(out@ =~= old(out)@ + name@.subrange(0, i as int + 1));
        }
        i = i + 1;
    }
    proof {
        assert(name@.subrange(0, name@.len() as int) =~= name@);
    }
    out.push(32);
    let mut j: usize = 0;
    while j < content.len()
        invariant
            0 <= j <= content@.len(),
            out@ == old(out)@ + name@ + seq![32u8] + content@.subrange(0, j as int),
        decreases content@.len() - j,
    {
        out.push(content[j]);
        proof {
            assert(content@.subrange(0, j as int).push(content@[j as int]) =~= content@.subrange(
                0,
                j as int + 1,
            ));
            assert(out@ =~= old(out)@ + name@ + seq![32u8] + content@.subrange(0, j as int + 1));
        }
        j = j + 1;
    }
    proof {
        assert(content@.subrange(0, content@.len() as int) =~= content@);
    }
    out.push(10);
    proof {
        assert(out@ =~= old(out)@ + line(name@, content@));
    }
}

/// The value text of an optional payload.
fn payload_content(o: &Option<ComponentA>) -> (v: Vec<u8>)
    ensures
        v@ == enc_payload(*o),
{
    let mut v: Vec<u8> = Vec::new();
    match o {
        None => {
            v.push(45);
            proof {
                assert(v@ =~= enc_payload(*o));
            }
        },
        Some(c) => {
            v.push(61);
            push_dec_usize(&mut v, c.0);
            proof {
                assert(v@ =~= enc_payload(*o));
            }
        },
    }
    v
}

/// The value text of an optional carrier.
fn carrier_content(o: &Option<CarrierId>) -> (v: Vec<u8>)
    ensures
        v@ == enc_carrier(*o),
{
    let mut v: Vec<u8> = Vec::new();
    match o {
        None => {
            v.push(45);
            proof {
                assert(v@ =~= enc_carrier(*o));
            }
        },
        Some(c) => {
            v.push(61);
            push_dec_u64(&mut v, c.0);
            proof {
                assert(v@ =~= enc_carrier(*o));
            }
        },
    }
    v
}

/// The value text of an optional label.
fn label_content(o: &Option<Vec<u8>>) -> (v: Vec<u8>)
    ensures
        v@ == enc_label(
            match *o {
                Some(l) => Some(l@),
                None => None,
            },
        ),
{
    let mut v: Vec<u8> = Vec::new();
    match o {
        None => {
            v.push(45);
        },
        Some(l) => {
            v.push(61);
            let mut i: usize = 0;
            while i < l.len()
                invariant
                    0 <= i <= l@.len(),
                    v@ == seq![61u8] + l@.subrange(0, i as int),
                decreases l@.len() - i,
            {
                v.push(l[i]);
                proof {
                    assert(l@.subrange(0, i as int).push(l@[i as int]) =~= l@.subrange(
                        0,
                        i as int + 1,
                    ));
                    assert(v@ =~= seq![61u8] + l@.subrange(0, i as int + 1));
                }
                i = i + 1;
            }
            proof {
                assert(l@.subrange(0, l@.len() as int) =~= l@);
            }
        },
    }
    proof {
        assert(v@ =~= enc_label(
            match *o {
                Some(l) => Some(l@),
                None => None,
            },
        ));
    }
    v
}

/// Append the full encoding of one bundle.
fn push_bundle(out: &mut Vec<u8>, b: &Bundle)
    ensures
        final(out)@ == old(out)@ + encode_bundle(b@),
{
    let payload_name = payload_name_bytes();
    let carrier_name = carrier_name_bytes();
    let label_name = label_name_bytes();
    let c1 = payload_content(&b.payload);
    push_line(out, &payload_name, &c1);
    let c2 = carrier_content(&b.carrier);
    push_line(out, &carrier_name, &c2);
    let c3 = label_content(&b.label);
    push_line(out, &label_name, &c3);
    out.push(101);
    out.push(110);
    out.push(100);
    out.push(10);
    proof {
        assert(out@ =~= old(out)@ + encode_bundle(b@));
    }
}

/// Appending one bundle to a snapshot appends its encoding to the snapshot's
/// encoding.
proof fn lemma_encode_snap_snoc(s: Seq<BundleAbs>, b: BundleAbs)
    ensures
        encode_snap(s.push(b)) == encode_snap(s) + encode_bundle(b),
    decreases s.len(),
{
    if s.len() == 0 {
        assert(s.push(b)[0] == b);
        assert(s.push(b).skip(1) =~= Seq::<BundleAbs>::empty());
        assert(encode_snap(s.push(b)) =~= encode_snap(s) + encode_bundle(b));
    } else {
        assert(s.push(b).skip(1) =~= s.skip(1).push(b));
        lemma_encode_snap_snoc(s.skip(1), b);
        assert(s.push(b)[0] == s[0]);
        assert(encode_snap(s.push(b)) =~= encode_snap(s) + encode_bundle(b));
    }
}

/// Serialize a snapshot: deterministic bytes for a given snapshot value, or
/// a `Serialization` error exactly when a component kind is unregistered or a
/// component value cannot be written into the schema.
#[verifier::loop_isolation(false)]
pub fn serialize(s: &Snapshot, reg: &TypeRegistry) -> (r: Result<Vec<u8>, SnapshotError>)
    ensures
        match r {
            Ok(bytes) => serializable(s@, *reg) && bytes@ == encode_snap(s@),
            Err(e) => e == SnapshotError::Serialization && !serializable(s@, *reg),
        },
{
    let payload_name = payload_name_bytes();
    let carrier_name = carrier_name_bytes();
    let label_name = label_name_bytes();
    if !(registry_has(reg, &payload_name) && registry_has(reg, &carrier_name) && registry_has(
        reg,
        &label_name,
    )) {
        return Err(SnapshotError::Serialization);
    }
    let mut out: Vec<u8> = Vec::new();
    let mut i: usize = 0;
    while i < s.bundles.len()
        invariant
            0 <= i <= s.bundles@.len(),
            out@ == encode_snap(s@.take(i as int)),
            forall|j: int| 0 <= j < i ==> representable(#[trigger] s@[j]),
        decreases s.bundles@.len() - i,
    {
        let representable_here = match &s.bundles[i].label {
            Some(l) => !has_newline(l),
            None => true,
        };
        if !representable_here {
            proof {
                assert(!representable(s@[i as int]));
            }
            return Err(SnapshotError::Serialization);
        }
        push_bundle(&mut out, &s.bundles[i]);
        proof {
            assert(s@.take(i as int).push(s@[i as int]) =~= s@.take(i as int + 1));
            lemma_encode_snap_snoc(s@.take(i as int), s@[i as int]);
        }
        i = i + 1;
    }
    proof {
        assert(s@.take(s@.len() as int) =~= s@);
    }
    Ok(out)
}

/// Position of the first newline at or after `from`.
#[verifier::loop_isolation(false)]
fn find_line_end(b: &Vec<u8>, from: usize) -> (r: Option<usize>)
    requires
        from <= b@.len(),
    ensures
        match r {
            Some(e) => line_end(b@, from as int) == Some(e as int) && from <= e < b@.len(),
            None => line_end(b@, from as int) is None,
        },
{
    let mut i: usize = from;
    while i < b.len()
        invariant
            from <= i <= b@.len(),
            line_end(b@, from as int) == line_end(b@, i as int),
        decreases b@.len() - i,
    {
        if b[i] == 10 {
            return Some(i);
        }
        i = i + 1;
    }
    None
}

/// Whether `name` occurs at `pos`.
#[verifier::loop_isolation(false)]
fn check_name_at(b: &Vec<u8>, pos: usize, name: &Vec<u8>) -> (r: bool)
    ensures
        r == (pos + name@.len() <= b@.len() && b@.subrange(
            pos as int,
            pos as int + name@.len() as int,
        ) == name@),
{
    if name.len() > b.len() || pos > b.len() - name.len() {
        return false;
    }
    let mut i: usize = 0;
    while i < name.len()
        invariant
            0 <= i <= name@.len(),
            pos + name@.len() <= b@.len(),
            forall|j: int| 0 <= j < i ==> b@[pos + j] == name@[j],
        decreases name@.len() - i,
    {
        if b[pos + i] != name[i] {
            proof {
                let sub = b@.subrange(pos as int, pos as int + name@.len() as int);
                assert(sub[i as int] == b@[pos + i as int]);
                assert(sub != name@);
            }
            return false;
        }
        i = i + 1;
    }
    proof {
        assert(b@.subrange(pos as int, pos as int + name@.len() as int) =~= name@);
    }
    true
}

/// Parse one component line; yields the value text's byte range and the
/// position after the line.
fn parse_line_exec(b: &Vec<u8>, pos: usize, name: &Vec<u8>) -> (r: Option<(usize, usize)>)
    requires
        pos <= b@.len(),
    ensures
        match r {
            Some((cs, ce)) => {
                &&& parse_line_at(b@, pos as int, name@) == Some(
                    (b@.subrange(cs as int, ce as int), ce as int + 1),
                )
                &&& pos < cs <= ce < b@.len()
                &&& cs == pos + name@.len() + 1
            },
            None => parse_line_at(b@, pos as int, name@) is None,
        },
{
    let blen = b.len();
    if !check_name_at(b, pos, name) {
        return None;
    }
    if name.len() >= blen - pos {
        return None;
    }
    if b[pos + name.len()] != 32 {
        return None;
    }
    let cs = pos + name.len() + 1;
    match find_line_end(b, cs) {
        Some(e) => Some((cs, e)),
        None => None,
    }
}

/// Digits never shrink a value as more of them are read.
proof fn lemma_digits_val_mono(s: Seq<u8>, i: int)
    requires
        all_digits(s),
        0 <= i <= s.len(),
    ensures
        0 <= digits_val(s.take(i)) <= digits_val(s),
    decreases s.len(),
{
    if s.len() == 0 {
        assert(s.take(i) =~= s);
    } else if i == s.len() {
        assert(s.take(i) =~= s);
        lemma_digits_val_mono(s.drop_last(), s.len() - 1);
        assert(s.drop_last().take(s.len() - 1) =~= s.drop_last());
    } else {
        assert(s.drop_last().take(i) =~= s.take(i));
        assert(all_digits(s.drop_last())) by {
            assert forall|j: int| 0 <= j < s.drop_last().len() implies 48 <= #[trigger] s.drop_last()[j] <= 57 by {
                assert(s.drop_last()[j] == s[j]);
            }
        }
        lemma_digits_val_mono(s.drop_last(), i);
        assert(digits_val(s.drop_last()) * 10 >= digits_val(s.drop_last())) by {
            assert(digits_val(s.drop_last()) >= 0);
        }
        assert(s.last() >= 48);
    }
}

/// Decode the value text between `cs` and `ce` as an optional carrier
/// number.
#[verifier::loop_isolation(false)]
fn dec_opt_u64_exec(b: &Vec<u8>, cs: usize, ce: usize) -> (r: Option<Option<u64>>)
    requires
        cs <= ce <= b@.len(),
    ensures
        ({
            let c = b@.subrange(cs as int, ce as int);
            match r {
                None => dec_opt_carrier(c) is None,
                Some(None) => dec_opt_carrier(c) == Some(Option::<CarrierId>::None),
                Some(Some(v)) => dec_opt_carrier(c) == Some(Some(CarrierId(v))),
            }
        }),
{
    let ghost c = b@.subrange(cs as int, ce as int);
    if ce - cs == 1 && b[cs] == 45 {
        proof {
            assert(c =~= seq![45u8]);
        }
        return Some(None);
    }
    proof {
        if c == seq![45u8] {
            assert(c.len() == 1 && c[0] == 45);
            assert(b@[cs as int] == 45);
        }
    }
    if ce - cs < 2 || b[cs] != 61 {
        return None;
    }
    let ghost d = c.skip(1);
    let mut acc: u64 = 0;
    let mut i: usize = cs + 1;
    while i < ce
        invariant
            cs + 1 <= i <= ce,
            all_digits(b@.subrange(cs as int + 1, i as int)),
            acc == digits_val(b@.subrange(cs as int + 1, i as int)),
        decreases ce - i,
    {
        let ch = b[i];
        if ch < 48 || ch > 57 {
            proof {
                assert(d[i - cs - 1] == b@[i as int]);
                assert(!all_digits(d));
            }
            return None;
        }
        let digit = (ch - 48) as u64;
        if acc > (u64::MAX - digit) / 10 {
            proof {
                let pre = b@.subrange(cs as int + 1, i as int + 1);
                assert(pre.drop_last() =~= b@.subrange(cs as int + 1, i as int));
                assert(digits_val(pre) == acc * 10 + digit);
                assert(acc * 10 + digit > u64::MAX) by (nonlinear_arith)
                    requires
                        acc > (u64::MAX - digit) / 10,
                        0 <= digit <= 9,
                {}
                if all_digits(d) {
                    assert(d.take(i - cs) =~= pre);
                    lemma_digits_val_mono(d, i - cs);
                    assert(digits_val(d) > u64::MAX);
                }
            }
            return None;
        }
        acc = acc * 10 + digit;
        proof {
            let pre = b@.subrange(cs as int + 1, i as int + 1);
            assert(pre.drop_last() =~= b@.subrange(cs as int + 1, i as int));
            assert forall|j: int| 0 <= j < pre.len() implies 48 <= #[trigger] pre[j] <= 57 by {
                if j < pre.len() - 1 {
                    assert(pre[j] == b@.subrange(cs as int + 1, i as int)[j]);
                }
            }
        }
        i = i + 1;
    }
    proof {
        assert(b@.subrange(cs as int + 1, ce as int) =~= d);
        assert(d.len() >= 1);
        assert(c != seq![45u8]);
        assert(c[0] == 61);
        assert(c.len() >= 2);
    }
    Some(Some(acc))
}

/// Decode the value text between `cs` and `ce` as an optional payload.
fn dec_opt_payload_exec(b: &Vec<u8>, cs: usize, ce: usize) -> (r: Option<Option<ComponentA>>)
    requires
        cs <= ce <= b@.len(),
    ensures
        ({
            let c = b@.subrange(cs as int, ce as int);
            match r {
                None => dec_opt_payload(c) is None,
                Some(None) => dec_opt_payload(c) == Some(Option::<ComponentA>::None),
                Some(Some(v)) => dec_opt_payload(c) == Some(Some(v)),
            }
        }),
{
    let ghost c = b@.subrange(cs as int, ce as int);
    proof {
        assert(usize::MAX <= u64::MAX);
    }
    match dec_opt_u64_exec(b, cs, ce) {
        None => {
            proof {
                if c != seq![45u8] && c.len() >= 2 && c[0] == 61 && all_digits(c.skip(1))
                    && digits_val(c.skip(1)) <= usize::MAX {
                    assert(digits_val(c.skip(1)) <= u64::MAX);
                    assert(dec_opt_carrier(c) is Some);
                }
            }
            None
        },
        Some(None) => Some(None),
        Some(Some(v)) => {
            proof {
                let d = c.skip(1);
                assert(dec_opt_carrier(c) == Some(Some(CarrierId(v))));
                assert(c != seq![45u8]);
                assert(c.len() >= 2 && c[0] == 61 && all_digits(d) && digits_val(d) <= u64::MAX);
                lemma_digits_val_mono(d, d.len() as int);
                assert(d.take(d.len() as int) =~= d);
                assert(digits_val(d) >= 0);
                assert(CarrierId(digits_val(d) as u64) == CarrierId(v));
                assert(digits_val(d) == v);
            }
            if v <= usize::MAX as u64 {
                Some(Some(ComponentA(v as usize)))
            } else {
                None
            }
        },
    }
}

/// Decode the value text between `cs` and `ce` as an optional label.
#[verifier::loop_isolation(false)]
fn dec_opt_label_exec(b: &Vec<u8>, cs: usize, ce: usize) -> (r: Option<Option<Vec<u8>>>)
    requires
        cs <= ce <= b@.len(),
    ensures
        ({
            let c = b@.subrange(cs as int, ce as int);
            match r {
                None => dec_opt_label(c) is None,
                Some(None) => dec_opt_label(c) == Some(Option::<Seq<u8>>::None),
                Some(Some(v)) => dec_opt_label(c) == Some(Some(v@)),
            }
        }),
{
    let ghost c = b@.subrange(cs as int, ce as int);
    if ce - cs == 1 && b[cs] == 45 {
        proof {
            assert(c =~= seq![45u8]);
        }
        return Some(None);
    }
    proof {
        if c == seq![45u8] {
            assert(c.len() == 1 && c[0] == 45);
            assert(b@[cs as int] == 45);
        }
    }
    if ce == cs || b[cs] != 61 {
        return None;
    }
    let mut v: Vec<u8> = Vec::new();
    let mut i: usize = cs + 1;
    while i < ce
        invariant
            cs + 1 <= i <= ce,
            v@ == b@.subrange(cs as int + 1, i as int),
        decreases ce - i,
    {
        v.push(b[i]);
        proof {
            assert(b@.subrange(cs as int + 1, i as int).push(b@[i as int]) =~= b@.subrange(
                cs as int + 1,
                i as int + 1,
            ));
        }
        i = i + 1;
    }
    proof {
        assert(c.skip(1) =~= b@.subrange(cs as int + 1, ce as int));
    }
    Some(Some(v))
}

/// Parse one bundle; yields the bundle and the position after it.
fn parse_bundle_exec(b: &Vec<u8>, pos: usize) -> (r: Option<(Bundle, usize)>)
    requires
        pos <= b@.len(),
    ensures
        match r {
            Some(p) => parse_bundle_at(b@, pos as int) == Some((p.0@, p.1 as int)) && pos < p.1
                <= b@.len(),
            None => parse_bundle_at(b@, pos as int) is None,
        },
{
    let blen = b.len();
    let payload_name = payload_name_bytes();
    let carrier_name = carrier_name_bytes();
    let label_name = label_name_bytes();
    let (c1s, c1e) = match parse_line_exec(b, pos, &payload_name) {
        None => {
            return None;
        },
        Some(p) => p,
    };
    let payload = match dec_opt_payload_exec(b, c1s, c1e) {
        None => {
            return None;
        },
        Some(o) => o,
    };
    let (c2s, c2e) = match parse_line_exec(b, c1e + 1, &carrier_name) {
        None => {
            return None;
        },
        Some(p) => p,
    };
    let carrier = match dec_opt_u64_exec(b, c2s, c2e) {
        None => {
            return None;
        },
        Some(None) => None,
        Some(Some(v)) => Some(CarrierId(v)),
    };
    let (c3s, c3e) = match parse_line_exec(b, c2e + 1, &label_name) {
        None => {
            return None;
        },
        Some(p) => p,
    };
    let label = match dec_opt_label_exec(b, c3s, c3e) {
        None => {
            return None;
        },
        Some(o) => o,
    };
    let p3 = c3e + 1;
    let marker = end_line_bytes();
    if !check_name_at(b, p3, &marker) {
        return None;
    }
    let bun = Bundle { payload, carrier, label };
    Some((bun, p3 + 4))
}

/// Parse every bundle from `pos` to the end of the bytes.
fn parse_from(b: &Vec<u8>, pos: usize) -> (r: Option<Vec<Bundle>>)
    requires
        pos <= b@.len(),
    ensures
        match r {
            Some(v) => parse_snap_at(b@, pos as int) == Some(v@.map_values(|x: Bundle| x@)),
            None => parse_snap_at(b@, pos as int) is None,
        },
    decreases b@.len() - pos,
{
    if pos == b.len() {
        let v: Vec<Bundle> = Vec::new();
        proof {
            assert(v@.map_values(|x: Bundle| x@) =~= Seq::<BundleAbs>::empty());
        }
        return Some(v);
    }
    match parse_bundle_exec(b, pos) {
        None => None,
        Some((bun, p2)) => {
            match parse_from(b, p2) {
                None => None,
                Some(mut rest) => {
                    let ghost rest_view = rest@;
                    rest.insert(0, bun);
                    proof {
                        assert(rest@ =~= seq![bun] + rest_view);
                        assert(rest@.map_values(|x: Bundle| x@) =~= seq![bun@]
                            + rest_view.map_values(|x: Bundle| x@));
                    }
                    Some(rest)
                },
            }
        },
    }
}

/// Parse snapshot bytes, or report a `Decode` error exactly when they are
/// not a well-formed encoding.
pub fn parse_snapshot(bytes: &Vec<u8>) -> (r: Result<Snapshot, SnapshotError>)
    ensures
        match r {
            Ok(s) => parse_snap_at(bytes@, 0) == Some(s@),
            Err(e) => e == SnapshotError::Decode && parse_snap_at(bytes@, 0) is None,
        },
{
    match parse_from(bytes, 0) {
        Some(v) => Ok(Snapshot { bundles: v }),
        None => Err(SnapshotError::Decode),
    }
}

/// Load a snapshot read from durable storage at startup. An absent resource
/// (`None`) is not an error: the server proceeds with an empty snapshot.
/// Malformed bytes or missing kind registrations degrade to an empty
/// snapshot with a recoverable `Decode` error — startup never fails.
pub fn load_snapshot(contents: Option<&Vec<u8>>, reg: &TypeRegistry) -> (r: (
    Snapshot,
    Option<SnapshotError>,
))
    ensures
        match contents {
            None => r.0@.len() == 0 && r.1 is None,
            Some(b) => {
                if !all_kinds_registered(*reg) {
                    r.0@.len() == 0 && r.1 == Some(SnapshotError::Decode)
                } else {
                    match parse_snap_at(b@, 0) {
                        Some(sv) => r.0@ == sv && r.1 is None,
                        None => r.0@.len() == 0 && r.1 == Some(SnapshotError::Decode),
                    }
                }
            },
        },
{
    let empty = Snapshot { bundles: Vec::new() };
    proof {
        assert(empty@ =~= Seq::<BundleAbs>::empty());
    }
    match contents {
        None => (empty, None),
        Some(bytes) => {
            let payload_name = payload_name_bytes();
            let carrier_name = carrier_name_bytes();
            let label_name = label_name_bytes();
            if !(registry_has(reg, &payload_name) && registry_has(reg, &carrier_name)
                && registry_has(reg, &label_name)) {
                return (empty, Some(SnapshotError::Decode));
            }
            match parse_snapshot(bytes) {
                Ok(s) => (s, None),
                Err(_) => (empty, Some(SnapshotError::Decode)),
            }
        },
    }
}

/// The bundle a snapshot records for one entity.
pub open spec fn bundle_of(e: EntityRecord) -> BundleAbs {
    BundleAbs {
        payload: e.payload,
        carrier: e.carrier,
        label: match e.label {
            Some(l) => Some(l@),
            None => None,
        },
    }
}

/// The snapshot built from a registry: one bundle per payload-bearing
/// entity, in registry order.
pub open spec fn snapshot_of(s: Seq<EntityRecord>) -> Seq<BundleAbs>
    decreases s.len(),
{
    if s.len() == 0 {
        Seq::empty()
    } else {
        snapshot_of(s.drop_last()) + (if s.last().payload is Some {
            seq![bundle_of(s.last())]
        } else {
            Seq::<BundleAbs>::empty()
        })
    }
}

/// Build a snapshot over a read-only view of the registry, selecting the
/// entities tagged with the payload component; live state is never touched.
#[verifier::loop_isolation(false)]
pub fn build_snapshot(registry: &Registry) -> (s: Snapshot)
    ensures
        s@ == snapshot_of(registry.entities@),
{
    let mut bundles: Vec<Bundle> = Vec::new();
    let mut i: usize = 0;
    while i < registry.entities.len()
        invariant
            0 <= i <= registry.entities@.len(),
            bundles@.map_values(|x: Bundle| x@) == snapshot_of(registry.entities@.take(i as int)),
        decreases registry.entities@.len() - i,
    {
        let ghost prev = bundles@;
        if registry.entities[i].payload.is_some() {
            let label = match &registry.entities[i].label {
                Some(l) => Some(clone_bytes(l)),
                None => None,
            };
            let bun = Bundle {
                payload: registry.entities[i].payload,
                carrier: registry.entities[i].carrier,
                label,
            };
            bundles.push(bun);
            proof {
                assert(bun@ == bundle_of(registry.entities@[i as int]));
            }
        }
        proof {
            let t = registry.entities@.take(i as int + 1);
            assert(t.drop_last() =~= registry.entities@.take(i as int));
            assert(t.last() == registry.entities@[i as int]);
            assert(bundles@.map_values(|x: Bundle| x@) =~= snapshot_of(t));
        }
        i = i + 1;
    }
    proof {
        assert(registry.entities@.take(registry.entities@.len() as int) =~= registry.entities@);
    }
    Snapshot { bundles }
}

/// Instantiate a snapshot's bundles as fresh live entities at startup: each
/// bundle becomes an entity with equal component values, a fresh identifier,
/// and no replication target yet. Returns the new identifiers.
#[verifier::loop_isolation(false)]
pub fn instantiate(registry: &mut Registry, s: &Snapshot) -> (ids: Vec<u64>)
    requires
        old(registry).wf(),
        old(registry).next_id + s.bundles@.len() <= u64::MAX,
    ensures
        final(registry).wf(),
        final(registry).next_id == old(registry).next_id + s.bundles@.len(),
        final(registry).entities@.len() == old(registry).entities@.len() + s.bundles@.len(),
        forall|j: int|
            0 <= j < old(registry).entities@.len() ==> final(registry).entities@[j] == old(
                registry,
            ).entities@[j],
        ids@.len() == s.bundles@.len(),
        forall|k: int|
            0 <= k < s.bundles@.len() ==> #[trigger] ids@[k] == old(registry).next_id + k,
        forall|k: int|
            0 <= k < s.bundles@.len() ==> bundle_of(
                #[trigger] final(registry).entities@[old(registry).entities@.len() + k],
            ) == s@[k],
        forall|k: int|
            0 <= k < s.bundles@.len() ==> {
                let e = #[trigger] final(registry).entities@[old(registry).entities@.len() + k];
                e.id == old(registry).next_id + k && e.child_payload is None && e.target is None
            },
{
    let mut ids: Vec<u64> = Vec::new();
    let mut i: usize = 0;
    while i < s.bundles.len()
        invariant
            0 <= i <= s.bundles@.len(),
            registry.wf(),
            registry.next_id == old(registry).next_id + i,
            registry.entities@.len() == old(registry).entities@.len() + i,
            forall|j: int|
                0 <= j < old(registry).entities@.len() ==> registry.entities@[j] == old(
                    registry,
                ).entities@[j],
            ids@.len() == i,
            forall|k: int| 0 <= k < i ==> #[trigger] ids@[k] == old(registry).next_id + k,
            forall|k: int|
                0 <= k < i ==> bundle_of(
                    #[trigger] registry.entities@[old(registry).entities@.len() + k],
                ) == s@[k],
            forall|k: int|
                0 <= k < i ==> {
                    let e = #[trigger] registry.entities@[old(registry).entities@.len() + k];
                    e.id == old(registry).next_id + k && e.child_payload is None && e.target
                        is None
                },
        decreases s.bundles@.len() - i,
    {
        let label = match &s.bundles[i].label {
            Some(l) => Some(clone_bytes(l)),
            None => None,
        };
        let ghost label_view: Option<Seq<u8>> = match &label {
            Some(l) => Some(l@),
            None => None,
        };
        let id = registry.spawn(s.bundles[i].payload, s.bundles[i].carrier, label);
        ids.push(id);
        proof {
            let e = registry.entities@[old(registry).entities@.len() + i as int];
            assert(s@[i as int] == s.bundles@[i as int]@);
            assert(label_view == s.bundles@[i as int]@.label);
            assert(e.payload == s.bundles@[i as int].payload);
            assert(e.carrier == s.bundles@[i as int].carrier);
            assert(bundle_of(e) =~= s@[i as int]);
        }
        i = i + 1;
    }
    ids
}

/// Decimal digits are digits, never a newline, and decode to the number they
/// were written from.
proof fn lemma_dec_digits_props(n: nat)
    ensures
        dec_digits(n).len() >= 1,
        all_digits(dec_digits(n)),
        digits_val(dec_digits(n)) == n,
        forall|i: int| 0 <= i < dec_digits(n).len() ==> #[trigger] dec_digits(n)[i] != 10,
    decreases n,
{
    if n < 10 {
        let s = dec_digits(n);
        assert(s == seq![(48 + n) as u8]);
        assert(s.drop_last() =~= Seq::<u8>::empty());
        assert(digits_val(s.drop_last()) == 0);
        assert(digits_val(s) == s.last() - 48);
    } else {
        lemma_dec_digits_props(n / 10);
        let p = dec_digits(n / 10);
        let s = dec_digits(n);
        assert(s == p.push((48 + n % 10) as u8));
        assert(s.drop_last() =~= p);
        assert(s.last() == (48 + n % 10) as u8);
        assert(0 <= n % 10 < 10);
        assert(s.last() - 48 == n % 10);
        assert(digits_val(s) == digits_val(p) * 10 + (n % 10));
        assert(digits_val(p) == n / 10);
        assert((n / 10) * 10 + (n % 10) == n);
        assert forall|i: int| 0 <= i < s.len() implies 48 <= #[trigger] s[i] <= 57 && s[i]
            != 10 by {
            if i < s.len() - 1 {
                assert(s[i] == p[i]);
            } else {
                assert(s[i] == s.last());
            }
        }
    }
}

/// A newline placed right after a newline-free stretch is the first one
/// found.
proof fn lemma_line_end_found(b: Seq<u8>, from: int, e: int)
    requires
        0 <= from <= e < b.len(),
        forall|j: int| from <= j < e ==> b[j] != 10,
        b[e] == 10,
    ensures
        line_end(b, from) == Some(e),
    decreases e - from,
{
    if from < e {
        lemma_line_end_found(b, from + 1, e);
    }
}

/// Parsing one encoded line at its own position recovers its content.
proof fn lemma_parse_line_encoded(b: Seq<u8>, pos: int, name: Seq<u8>, content: Seq<u8>)
    requires
        0 <= pos,
        pos + line(name, content).len() <= b.len(),
        b.subrange(pos, pos + line(name, content).len() as int) == line(name, content),
        forall|i: int| 0 <= i < content.len() ==> #[trigger] content[i] != 10,
    ensures
        parse_line_at(b, pos, name) == Some(
            (content, pos + line(name, content).len() as int),
        ),
{
    let l = line(name, content);
    let nlen = name.len() as int;
    let llen = l.len() as int;
    assert forall|j: int| 0 <= j < llen implies b[pos + j] == l[j] by {
        assert(b.subrange(pos, pos + llen)[j] == b[pos + j]);
    }
    assert(b.subrange(pos, pos + nlen) =~= name);
    assert(b[pos + nlen] == l[nlen]);
    assert(l[nlen] == 32);
    let cstart = pos + nlen + 1;
    let e = pos + llen - 1;
    assert forall|j: int| cstart <= j < e implies b[j] != 10 by {
        assert(b[j] == l[j - pos]);
        assert(l[j - pos] == content[j - cstart]);
    }
    assert(b[e] == l[llen - 1]);
    assert(l[llen - 1] == 10);
    lemma_line_end_found(b, cstart, e);
    assert(b.subrange(cstart, e) =~= content) by {
        assert forall|j: int| 0 <= j < content.len() implies b.subrange(cstart, e)[j]
            == content[j] by {
            assert(b.subrange(cstart, e)[j] == b[cstart + j]);
            assert(b[cstart + j] == l[nlen + 1 + j]);
            assert(l[nlen + 1 + j] == content[j]);
        }
    }
}

/// Decoding an encoded payload value recovers the value.
proof fn lemma_dec_enc_payload(o: Option<ComponentA>)
    ensures
        dec_opt_payload(enc_payload(o)) == Some(o),
        forall|i: int| 0 <= i < enc_payload(o).len() ==> #[trigger] enc_payload(o)[i] != 10,
{
    let c = enc_payload(o);
    match o {
        None => {
            assert(c =~= seq![45u8]);
        },
        Some(v) => {
            lemma_dec_digits_props(v.0 as nat);
            assert(c.len() >= 2);
            assert(c[0] == 61);
            assert(c != seq![45u8]);
            assert(c.skip(1) =~= dec_digits(v.0 as nat));
            assert(digits_val(c.skip(1)) == v.0);
            assert(forall|i: int| 1 <= i < c.len() ==> #[trigger] c[i] == dec_digits(v.0 as nat)[i - 1]);
        },
    }
}

/// Decoding an encoded carrier value recovers the value.
proof fn lemma_dec_enc_carrier(o: Option<CarrierId>)
    ensures
        dec_opt_carrier(enc_carrier(o)) == Some(o),
        forall|i: int| 0 <= i < enc_carrier(o).len() ==> #[trigger] enc_carrier(o)[i] != 10,
{
    let c = enc_carrier(o);
    match o {
        None => {
            assert(c =~= seq![45u8]);
        },
        Some(v) => {
            lemma_dec_digits_props(v.0 as nat);
            assert(c.len() >= 2);
            assert(c[0] == 61);
            assert(c != seq![45u8]);
            assert(c.skip(1) =~= dec_digits(v.0 as nat));
            assert(digits_val(c.skip(1)) == v.0);
            assert(forall|i: int| 1 <= i < c.len() ==> #[trigger] c[i] == dec_digits(v.0 as nat)[i - 1]);
        },
    }
}

/// Decoding an encoded label value recovers the value.
proof fn lemma_dec_enc_label(o: Option<Seq<u8>>)
    requires
        match o {
            Some(l) => label_ok(l),
            None => true,
        },
    ensures
        dec_opt_label(enc_label(o)) == Some(o),
        forall|i: int| 0 <= i < enc_label(o).len() ==> #[trigger] enc_label(o)[i] != 10,
{
    let c = enc_label(o);
    match o {
        None => {
            assert(c =~= seq![45u8]);
        },
        Some(l) => {
            assert(c.len() >= 1);
            assert(c[0] == 61);
            assert(c != seq![45u8]) by {
                if c == seq![45u8] {
                    assert(c[0] == 45);
                }
            }
            assert(c.skip(1) =~= l);
            assert(forall|i: int| 1 <= i < c.len() ==> #[trigger] c[i] == l[i - 1]);
        },
    }
}

/// Parsing one encoded bundle at its own position recovers the bundle.
proof fn lemma_parse_bundle_encoded(b: Seq<u8>, pos: int, bun: BundleAbs)
    requires
        representable(bun),
        0 <= pos,
        pos + encode_bundle(bun).len() <= b.len(),
        b.subrange(pos, pos + encode_bundle(bun).len() as int) == encode_bundle(bun),
    ensures
        parse_bundle_at(b, pos) == Some((bun, pos + encode_bundle(bun).len() as int)),
{
    let eb = encode_bundle(bun);
    let l1 = line(name_payload(), enc_payload(bun.payload));
    let l2 = line(name_carrier(), enc_carrier(bun.carrier));
    let l3 = line(name_label(), enc_label(bun.label));
    let c12 = l1 + l2;
    let c123 = c12 + l3;
    let p1 = pos + l1.len() as int;
    let p2 = p1 + l2.len() as int;
    let p3 = p2 + l3.len() as int;
    let pe = p3 + 4;
    assert(eb == c123 + end_line());
    assert forall|j: int| 0 <= j < eb.len() implies b[pos + j] == eb[j] by {
        assert(b.subrange(pos, pos + eb.len() as int)[j] == b[pos + j]);
    }
    lemma_dec_enc_payload(bun.payload);
    lemma_dec_enc_carrier(bun.carrier);
    lemma_dec_enc_label(bun.label);
    assert(b.subrange(pos, p1) =~= l1) by {
        assert forall|j: int| 0 <= j < l1.len() implies b.subrange(pos, p1)[j] == l1[j] by {
            assert(b.subrange(pos, p1)[j] == b[pos + j]);
            assert(c12[j] == l1[j]);
            assert(c123[j] == c12[j]);
            assert(eb[j] == c123[j]);
        }
    }
    assert(b.subrange(p1, p2) =~= l2) by {
        assert forall|j: int| 0 <= j < l2.len() implies b.subrange(p1, p2)[j] == l2[j] by {
            let jj = l1.len() + j;
            assert(b.subrange(p1, p2)[j] == b[p1 + j]);
            assert(b[p1 + j] == eb[jj]);
            assert(c12[jj] == l2[j]);
            assert(c123[jj] == c12[jj]);
            assert(eb[jj] == c123[jj]);
        }
    }
    assert(b.subrange(p2, p3) =~= l3) by {
        assert forall|j: int| 0 <= j < l3.len() implies b.subrange(p2, p3)[j] == l3[j] by {
            let jj = c12.len() + j;
            assert(b.subrange(p2, p3)[j] == b[p2 + j]);
            assert(b[p2 + j] == eb[jj]);
            assert(c123[jj] == l3[j]);
            assert(eb[jj] == c123[jj]);
        }
    }
    assert(b.subrange(p3, pe) =~= end_line()) by {
        assert forall|j: int| 0 <= j < 4 implies b.subrange(p3, pe)[j] == end_line()[j] by {
            let jj = c123.len() + j;
            assert(b.subrange(p3, pe)[j] == b[p3 + j]);
            assert(b[p3 + j] == eb[jj]);
            assert(eb[jj] == end_line()[j]);
        }
    }
    lemma_parse_line_encoded(b, pos, name_payload(), enc_payload(bun.payload));
    lemma_parse_line_encoded(b, p1, name_carrier(), enc_carrier(bun.carrier));
    lemma_parse_line_encoded(b, p2, name_label(), enc_label(bun.label));
    assert(pe == pos + eb.len());
}

/// Snapshot round-trip: parsing the encoding of any representable snapshot,
/// laid down as a suffix, recovers the snapshot exactly.
#[verifier::rlimit(100)]
proof fn lemma_parse_encoded_suffix(b: Seq<u8>, pos: int, sv: Seq<BundleAbs>)
    requires
        forall|i: int| 0 <= i < sv.len() ==> representable(#[trigger] sv[i]),
        0 <= pos,
        pos + encode_snap(sv).len() == b.len(),
        b.subrange(pos, b.len() as int) == encode_snap(sv),
    ensures
        parse_snap_at(b, pos) == Some(sv),
    decreases sv.len(),
{
    if sv.len() == 0 {
        assert(pos == b.len());
    } else {
        let eb = encode_bundle(sv[0]);
        let rest = encode_snap(sv.skip(1));
        let es = encode_snap(sv);
        assert(es == eb + rest);
        assert forall|j: int| 0 <= j < es.len() implies b[pos + j] == es[j] by {
            assert(b.subrange(pos, b.len() as int)[j] == b[pos + j]);
        }
        assert(b.subrange(pos, pos + eb.len() as int) =~= eb) by {
            assert forall|j: int|
                0 <= j < eb.len() implies b.subrange(pos, pos + eb.len() as int)[j] == eb[j] by {
                assert(b.subrange(pos, pos + eb.len() as int)[j] == b[pos + j]);
                assert(es[j] == eb[j]);
            }
        }
        lemma_parse_bundle_encoded(b, pos, sv[0]);
        let p2 = pos + eb.len() as int;
        assert(eb.len() > 0);
        assert(b.subrange(p2, b.len() as int) =~= rest) by {
            assert forall|j: int|
                0 <= j < rest.len() implies b.subrange(p2, b.len() as int)[j] == rest[j] by {
                assert(b.subrange(p2, b.len() as int)[j] == b[p2 + j]);
                assert(b[p2 + j] == es[eb.len() + j]);
                assert(es[eb.len() + j] == rest[j]);
            }
        }
        assert forall|i: int| 0 <= i < sv.skip(1).len() implies representable(
            #[trigger] sv.skip(1)[i],
        ) by {
            assert(sv.skip(1)[i] == sv[i + 1]);
        }
        lemma_parse_encoded_suffix(b, p2, sv.skip(1));
        assert(seq![sv[0]] + sv.skip(1) =~= sv);
    }
}

/// Snapshot round-trip: for any snapshot whose bundles are representable in
/// the schema, parsing the serialized bytes reproduces the snapshot's
/// component values exactly.
pub proof fn lemma_snapshot_round_trip(sv: Seq<BundleAbs>)
    requires
        forall|i: int| 0 <= i < sv.len() ==> representable(#[trigger] sv[i]),
    ensures
        parse_snap_at(encode_snap(sv), 0) == Some(sv),
{
    let b = encode_snap(sv);
    assert(b.subrange(0, b.len() as int) =~= b);
    lemma_parse_encoded_suffix(b, 0, sv);
}

} // verus!
