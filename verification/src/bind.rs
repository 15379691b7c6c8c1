//! Binding tables and the bind operation.
//!
//! A compiled program owns two tables of slots, one per declared parameter:
//! the caller-supplied (`In`) slots and the callee-produced (`Out`-only)
//! slots.  Binding a value locates its slot by name, type-checks the value
//! against the slot's declared type, serializes it, derives the buffer usage
//! flags from the slot's qualifiers, and materializes the serialized bytes
//! into the slot.  The embedding program hands those bytes to the GPU
//! backend.

use vstd::prelude::*;

use crate::bytes::{bytes_of_u32s, serialize_u32s};
use crate::context::{empty_context, scan_param, scan_params, ContextModel};
use crate::error::PipelineError;
use crate::model::{
    clone_quals, contains_qual, derive_usage, has_qual, usage_of, BufferUsage, GLSLType,
    ParameterModel, Qualifier, ValueKind,
};

verus! {

/// The materialization of one bound value: the serialized bytes to upload
/// and the usage classification the backing GPU buffer must be allocated
/// with.
pub struct BufferData {
    pub bytes: Vec<u8>,
    pub usage: BufferUsage,
}

/// Mathematical model of a [`BufferData`].
#[verifier::ext_equal]
pub ghost struct BufferModel {
    pub bytes: Seq<u8>,
    pub usage: BufferUsage,
}

impl View for BufferData {
    type V = BufferModel;

    open spec fn view(&self) -> BufferModel {
        BufferModel { bytes: self.bytes@, usage: self.usage }
    }
}

/// One binding slot: a named, typed placeholder for one GPU buffer within a
/// compiled program.  `data` and `length` start empty and are filled only by
/// a successful bind.
pub struct DefaultBinding {
    pub binding_number: u32,
    pub name: String,
    pub data: Option<BufferData>,
    pub length: Option<u64>,
    pub gtype: GLSLType,
    pub qual: Vec<Qualifier>,
}

/// Mathematical model of a [`DefaultBinding`].
#[verifier::ext_equal]
pub ghost struct BindingModel {
    pub binding_number: u32,
    pub name: Seq<char>,
    pub data: Option<BufferModel>,
    pub length: Option<u64>,
    pub gtype: GLSLType,
    pub qual: Seq<Qualifier>,
}

impl View for DefaultBinding {
    type V = BindingModel;

    open spec fn view(&self) -> BindingModel {
        BindingModel {
            binding_number: self.binding_number,
            name: self.name@,
            data: match self.data {
                Option::Some(b) => Option::Some(b@),
                Option::None => Option::None,
            },
            length: self.length,
            gtype: self.gtype,
            qual: self.qual@,
        }
    }
}

/// The models of a vector of slots, in order.
pub open spec fn slots_model(v: Seq<DefaultBinding>) -> Seq<BindingModel> {
    v.map_values(|b: DefaultBinding| b@)
}

/// A slot holds a buffer exactly when it holds a length.
pub open spec fn slot_wf(b: BindingModel) -> bool {
    b.data is Some <==> b.length is Some
}

/// Every slot of the table is well formed.
pub open spec fn table_wf(s: Seq<BindingModel>) -> bool {
    forall|i: int| 0 <= i < s.len() ==> slot_wf(#[trigger] s[i])
}

/// The table of caller-supplied slots of one compiled program.
pub struct ProgramBindings {
    pub bindings: Vec<DefaultBinding>,
}

/// The table of callee-produced slots of one compiled program.
pub struct OutProgramBindings {
    pub bindings: Vec<DefaultBinding>,
}

impl View for ProgramBindings {
    type V = Seq<BindingModel>;

    open spec fn view(&self) -> Seq<BindingModel> {
        slots_model(self.bindings@)
    }
}

impl View for OutProgramBindings {
    type V = Seq<BindingModel>;

    open spec fn view(&self) -> Seq<BindingModel> {
        slots_model(self.bindings@)
    }
}

/// Copies a byte vector.
pub fn copy_bytes(v: &Vec<u8>) -> (r: Vec<u8>)
    ensures
        r@ == v@,
{
    let mut r: Vec<u8> = Vec::new();
    let mut i: usize = 0;
    while i < v.len()
        invariant
            i <= v@.len(),
            r@ == v@.subrange(0, i as int),
        decreases v@.len() - i,
    {
        r.push(v[i]);
        assert(r@ =~= v@.subrange(0, i + 1));
        i += 1;
    }
    assert(r@ =~= v@);
    r
}

/// Copies one slot, buffer contents included.
fn clone_slot(b: &DefaultBinding) -> (r: DefaultBinding)
    ensures
        r@ == b@,
{
    DefaultBinding {
        binding_number: b.binding_number,
        name: b.name.clone(),
        data: match &b.data {
            Option::Some(d) => Option::Some(
                BufferData { bytes: copy_bytes(&d.bytes), usage: d.usage },
            ),
            Option::None => Option::None,
        },
        length: b.length,
        gtype: b.gtype,
        qual: clone_quals(&b.qual),
    }
}

/// Copies a vector of slots.
fn clone_slots(v: &Vec<DefaultBinding>) -> (r: Vec<DefaultBinding>)
    ensures
        slots_model(r@) == slots_model(v@),
{
    let mut r: Vec<DefaultBinding> = Vec::new();
    let mut i: usize = 0;
    while i < v.len()
        invariant
            i <= v@.len(),
            r@.len() == i,
            forall|j: int| 0 <= j < i ==> (#[trigger] r@[j])@ == v@[j]@,
        decreases v@.len() - i,
    {
        r.push(clone_slot(&v[i]));
        i += 1;
    }
    assert(slots_model(r@) =~= slots_model(v@));
    r
}

/// A binding table can be copied wholesale, so that several draw or dispatch
/// invocations against one compiled pipeline can each own independently
/// valued slots.
pub trait Bindings: Sized {
    /// The model of the table's slots, in order.
    spec fn table(&self) -> Seq<BindingModel>;

    /// An independently owned table with the same slots.
    fn clone(&self) -> (r: Self)
        ensures
            r.table() == self.table(),
    ;
}

impl Bindings for ProgramBindings {
    open spec fn table(&self) -> Seq<BindingModel> {
        self@
    }

    fn clone(&self) -> (r: Self) {
        ProgramBindings { bindings: clone_slots(&self.bindings) }
    }
}

impl Bindings for OutProgramBindings {
    open spec fn table(&self) -> Seq<BindingModel> {
        self@
    }

    fn clone(&self) -> (r: Self) {
        OutProgramBindings { bindings: clone_slots(&self.bindings) }
    }
}

/// The slot with all static fields kept and the bound value dropped.
pub open spec fn cleared_slot(b: BindingModel) -> BindingModel {
    BindingModel {
        binding_number: b.binding_number,
        name: b.name,
        data: Option::None,
        length: Option::None,
        gtype: b.gtype,
        qual: b.qual,
    }
}

/// A second, independent set of slots for the same compiled program: every
/// static field is copied and every slot's value is reset to empty.
pub fn new_bindings(bindings: &Vec<DefaultBinding>) -> (r: Vec<DefaultBinding>)
    ensures
        r@.len() == bindings@.len(),
        forall|i: int|
            0 <= i < r@.len() ==> (#[trigger] r@[i])@ == cleared_slot(bindings@[i]@),
        table_wf(slots_model(r@)),
{
    let mut r: Vec<DefaultBinding> = Vec::new();
    let mut i: usize = 0;
    while i < bindings.len()
        invariant
            i <= bindings@.len(),
            r@.len() == i,
            forall|j: int| 0 <= j < i ==> (#[trigger] r@[j])@ == cleared_slot(bindings@[j]@),
        decreases bindings@.len() - i,
    {
        let b = &bindings[i];
        r.push(DefaultBinding {
            name: b.name.clone(),
            binding_number: b.binding_number,
            qual: clone_quals(&b.qual),
            gtype: b.gtype,
            data: Option::None,
            length: Option::None,
        });
        i += 1;
    }
    proof {
        assert forall|i: int| 0 <= i < slots_model(r@).len()
            implies slot_wf(slots_model(r@)[i]) by {
            assert(slots_model(r@)[i] == r@[i]@);
        }
    }
    r
}

/// True iff some slot of the table bears the name `n`.
pub open spec fn table_has_name(s: Seq<BindingModel>, n: Seq<char>) -> bool {
    exists|i: int| 0 <= i < s.len() && (#[trigger] s[i]).name == n
}

/// The least index of a slot named `n` (meaningful only when
/// [`table_has_name`] holds).
pub open spec fn first_slot(s: Seq<BindingModel>, n: Seq<char>) -> int
    decreases s.len(),
{
    if s.len() == 0 {
        0
    } else if s[0].name == n {
        0
    } else {
        1 + first_slot(s.drop_first(), n)
    }
}

/// Wherever a table holds the name, `first_slot` is a valid index bearing it.
pub proof fn lemma_first_slot_in_range(s: Seq<BindingModel>, n: Seq<char>)
    requires
        table_has_name(s, n),
    ensures
        0 <= first_slot(s, n) < s.len(),
        s[first_slot(s, n)].name == n,
    decreases s.len(),
{
    if s[0].name == n {
    } else {
        let i = choose|i: int| 0 <= i < s.len() && (#[trigger] s[i]).name == n;
        assert(i > 0);
        assert(s.drop_first()[i - 1] == s[i]);
        assert(table_has_name(s.drop_first(), n));
        lemma_first_slot_in_range(s.drop_first(), n);
        assert(s[first_slot(s, n)] == s.drop_first()[first_slot(s.drop_first(), n)]);
    }
}

proof fn lemma_first_slot(s: Seq<BindingModel>, n: Seq<char>, i: int)
    requires
        0 <= i < s.len(),
        s[i].name == n,
        forall|j: int| 0 <= j < i ==> (#[trigger] s[j]).name != n,
    ensures
        table_has_name(s, n),
        first_slot(s, n) == i,
    decreases s.len(),
{
    assert(table_has_name(s, n));
    if s[0].name == n {
        assert(i == 0);
    } else {
        assert(i > 0);
        assert(s.drop_first()[i - 1] == s[i]);
        assert forall|j: int| 0 <= j < i - 1 implies (#[trigger] s.drop_first()[j]).name != n by {
            assert(s.drop_first()[j] == s[j + 1]);
        }
        lemma_first_slot(s.drop_first(), n, i - 1);
    }
}

/// Finds the least-indexed slot named `name`.
fn find_binding(v: &Vec<DefaultBinding>, name: &String) -> (r: Option<usize>)
    ensures
        r is Some <==> table_has_name(slots_model(v@), name@),
        r matches Some(i) ==> i < v@.len() && slots_model(v@)[i as int].name == name@
            && first_slot(slots_model(v@), name@) == i,
{
    let mut i: usize = 0;
    while i < v.len()
        invariant
            i <= v@.len(),
            forall|j: int| 0 <= j < i ==> (#[trigger] slots_model(v@)[j]).name != name@,
        decreases v@.len() - i,
    {
        if v[i].name.eq(name) {
            proof {
                assert(slots_model(v@)[i as int] == v@[i as int]@);
                lemma_first_slot(slots_model(v@), name@, i as int);
            }
            return Some(i);
        }
        proof {
            assert(slots_model(v@)[i as int] == v@[i as int]@);
        }
        i += 1;
    }
    proof {
        assert(!table_has_name(slots_model(v@), name@));
    }
    None
}

/// True iff the pair of tables holds a slot named `n`.
pub open spec fn target_found(
    inb: Seq<BindingModel>,
    outb: Seq<BindingModel>,
    n: Seq<char>,
) -> bool {
    table_has_name(inb, n) || table_has_name(outb, n)
}

/// The slot a bind for `n` addresses: the first match in the caller-supplied
/// table, else the first match in the callee-produced table.
pub open spec fn target_slot(
    inb: Seq<BindingModel>,
    outb: Seq<BindingModel>,
    n: Seq<char>,
) -> BindingModel {
    if table_has_name(inb, n) {
        inb[first_slot(inb, n)]
    } else {
        outb[first_slot(outb, n)]
    }
}

/// True iff a slot other than the one at `skip` is tagged `Loop` and already
/// bound with length `l`.
pub open spec fn loop_slot_with_length(
    s: Seq<BindingModel>,
    skip: int,
    l: u64,
) -> bool {
    exists|j: int|
        0 <= j < s.len() && j != skip && has_qual((#[trigger] s[j]).qual, Qualifier::Loop)
            && s[j].length == Option::Some(l)
}

/// True iff a slot other than the one at `skip` is tagged `Loop` and already
/// bound with a length other than `len`.
pub open spec fn loop_slot_conflicts(s: Seq<BindingModel>, skip: int, len: u64) -> bool {
    exists|j: int|
        0 <= j < s.len() && j != skip && has_qual((#[trigger] s[j]).qual, Qualifier::Loop)
            && s[j].length is Some && s[j].length != Option::Some(len)
}

/// The index that a bind for `n` occupies in the caller-supplied table, or
/// `-1` when the bind addresses the other table.
pub open spec fn skip_in_index(inb: Seq<BindingModel>, n: Seq<char>) -> int {
    if table_has_name(inb, n) {
        first_slot(inb, n)
    } else {
        -1
    }
}

/// The index that a bind for `n` occupies in the callee-produced table, or
/// `-1` when the bind addresses the other table.
pub open spec fn skip_out_index(
    inb: Seq<BindingModel>,
    outb: Seq<BindingModel>,
    n: Seq<char>,
) -> int {
    if table_has_name(inb, n) {
        -1
    } else {
        first_slot(outb, n)
    }
}

/// Loop-length consistency: binding `length` elements into the slot named
/// `n` is allowed unless that slot is tagged `Loop` and some other bound
/// `Loop` slot, in either table, disagrees on length.
pub open spec fn bind_loop_ok(
    inb: Seq<BindingModel>,
    outb: Seq<BindingModel>,
    n: Seq<char>,
    length: u64,
) -> bool {
    !has_qual(target_slot(inb, outb, n).qual, Qualifier::Loop) || {
        !loop_slot_conflicts(inb, skip_in_index(inb, n), length) && !loop_slot_conflicts(
            outb,
            skip_out_index(inb, outb, n),
            length,
        )
    }
}

/// The slot after a successful bind: the serialized bytes, flagged with the
/// usage derived from the slot's own qualifiers, and the element count.
pub open spec fn bound_slot(b: BindingModel, bytes: Seq<u8>, length: u64) -> BindingModel {
    BindingModel {
        binding_number: b.binding_number,
        name: b.name,
        data: Option::Some(BufferModel { bytes, usage: usage_of(b.qual) }),
        length: Option::Some(length),
        gtype: b.gtype,
        qual: b.qual,
    }
}

/// Success condition of a bind: the name is present, the slot's declared
/// type is acceptable for the value's shape, and loop lengths agree.
pub open spec fn bind_ok(
    inb: Seq<BindingModel>,
    outb: Seq<BindingModel>,
    n: Seq<char>,
    acceptable: Seq<GLSLType>,
    length: u64,
) -> bool {
    &&& target_found(inb, outb, n)
    &&& acceptable.contains(target_slot(inb, outb, n).gtype)
    &&& bind_loop_ok(inb, outb, n, length)
}

/// True iff `t` occurs in `acceptable`.
fn contains_type(acceptable: &Vec<GLSLType>, t: GLSLType) -> (r: bool)
    ensures
        r == acceptable@.contains(t),
{
    let mut i: usize = 0;
    while i < acceptable.len()
        invariant
            i <= acceptable@.len(),
            forall|j: int| 0 <= j < i ==> acceptable@[j] != t,
        decreases acceptable@.len() - i,
    {
        if acceptable[i] == t {
            assert(acceptable@[i as int] == t);
            return true;
        }
        i += 1;
    }
    false
}

/// Scans for a bound `Loop` slot, other than the one at `skip`, whose length
/// differs from `length`; reports the offending length.
fn find_loop_conflict(v: &Vec<DefaultBinding>, skip: Option<usize>, length: u64) -> (r: Option<
    u64,
>)
    ensures
        ({
            let sk: int = match skip {
                Some(s) => s as int,
                None => -1,
            };
            &&& (r is Some <==> loop_slot_conflicts(slots_model(v@), sk, length))
            &&& (r matches Some(l) ==> l != length && loop_slot_with_length(
                slots_model(v@),
                sk,
                l,
            ))
        }),
{
    let ghost sk: int = match skip {
        Some(s) => s as int,
        None => -1,
    };
    let mut i: usize = 0;
    while i < v.len()
        invariant
            i <= v@.len(),
            sk == (match skip {
                Some(s) => s as int,
                None => -1,
            }),
            forall|j: int|
                0 <= j < i && j != sk ==> !(has_qual(
                    (#[trigger] slots_model(v@)[j]).qual,
                    Qualifier::Loop,
                ) && slots_model(v@)[j].length is Some && slots_model(v@)[j].length
                    != Option::Some(length)),
        decreases v@.len() - i,
    {
        let is_skip = match skip {
            Some(s) => s == i,
            None => false,
        };
        proof {
            assert(slots_model(v@)[i as int] == v@[i as int]@);
        }
        if !is_skip {
            if contains_qual(&v[i].qual, Qualifier::Loop) {
                match v[i].length {
                    Some(l) => {
                        if l != length {
                            proof {
                                assert(slots_model(v@)[i as int].length == Option::Some(l));
                                assert(loop_slot_with_length(slots_model(v@), sk, l));
                                assert(loop_slot_conflicts(slots_model(v@), sk, length));
                            }
                            return Some(l);
                        }
                    },
                    None => {},
                }
            }
        }
        i += 1;
    }
    proof {
        assert(!loop_slot_conflicts(slots_model(v@), sk, length));
    }
    None
}

/// Overwrites the slot at `idx` with the serialized bytes and element count
/// of a successful bind, deriving the buffer usage from the slot's own
/// qualifiers.
fn set_slot(v: &mut Vec<DefaultBinding>, idx: usize, data: Vec<u8>, length: u64)
    requires
        idx < old(v)@.len(),
    ensures
        slots_model(final(v)@) == slots_model(old(v)@).update(
            idx as int,
            bound_slot(old(v)@[idx as int]@, data@, length),
        ),
{
    let usage = derive_usage(&v[idx].qual);
    let slot = DefaultBinding {
        binding_number: v[idx].binding_number,
        name: v[idx].name.clone(),
        data: Some(BufferData { bytes: data, usage }),
        length: Some(length),
        gtype: v[idx].gtype,
        qual: clone_quals(&v[idx].qual),
    };
    v[idx] = slot;
    proof {
        assert(slots_model(v@) =~= slots_model(old(v)@).update(
            idx as int,
            bound_slot(old(v)@[idx as int]@, data@, length),
        ));
    }
}

/// Locates the slot named `name` (caller-supplied table first), type-checks
/// the already-serialized value against it, checks loop-length consistency,
/// and materializes the bytes into the slot with the derived usage flags.
/// On any failure both tables are untouched.
fn bind_helper(
    bindings: &mut ProgramBindings,
    out_bindings: &mut OutProgramBindings,
    data: Vec<u8>,
    length: u64,
    acceptable: &Vec<GLSLType>,
    kind: ValueKind,
    name: &String,
) -> (r: Result<(), PipelineError>)
    ensures
        r is Ok <==> bind_ok(old(bindings)@, old(out_bindings)@, name@, acceptable@, length),
        r is Ok ==> (if table_has_name(old(bindings)@, name@) {
            final(bindings)@ == old(bindings)@.update(
                first_slot(old(bindings)@, name@),
                bound_slot(
                    old(bindings)@[first_slot(old(bindings)@, name@)],
                    data@,
                    length,
                ),
            ) && final(out_bindings)@ == old(out_bindings)@
        } else {
            final(bindings)@ == old(bindings)@ && final(out_bindings)@ == old(
                out_bindings,
            )@.update(
                first_slot(old(out_bindings)@, name@),
                bound_slot(
                    old(out_bindings)@[first_slot(old(out_bindings)@, name@)],
                    data@,
                    length,
                ),
            )
        }),
        r is Err ==> final(bindings)@ == old(bindings)@ && final(out_bindings)@ == old(
            out_bindings,
        )@,
        !target_found(old(bindings)@, old(out_bindings)@, name@) ==> (r matches Err(e)
            && e matches PipelineError::UnknownBindingName { name: en } && en@ == name@),
        target_found(old(bindings)@, old(out_bindings)@, name@) && !acceptable@.contains(
            target_slot(old(bindings)@, old(out_bindings)@, name@).gtype,
        ) ==> (r matches Err(e) && e matches PipelineError::TypeMismatch { expected, got }
            && expected == target_slot(old(bindings)@, old(out_bindings)@, name@).gtype
            && got == kind),
        target_found(old(bindings)@, old(out_bindings)@, name@) && acceptable@.contains(
            target_slot(old(bindings)@, old(out_bindings)@, name@).gtype,
        ) && !bind_loop_ok(old(bindings)@, old(out_bindings)@, name@, length) ==> (r matches Err(
            e,
        ) && e matches PipelineError::LoopLengthMismatch { expected_length, got_length }
            && got_length == length && expected_length != length && (loop_slot_with_length(
            old(bindings)@,
            skip_in_index(old(bindings)@, name@),
            expected_length,
        ) || loop_slot_with_length(
            old(out_bindings)@,
            skip_out_index(old(bindings)@, old(out_bindings)@, name@),
            expected_length,
        ))),
{
    let found_in = find_binding(&bindings.bindings, name);
    let (in_table, idx) = match found_in {
        Some(i) => (true, i),
        None => {
            match find_binding(&out_bindings.bindings, name) {
                Some(i) => (false, i),
                None => {
                    return Err(PipelineError::UnknownBindingName { name: name.clone() });
                },
            }
        },
    };
    proof {
        if in_table {
            assert(target_slot(bindings@, out_bindings@, name@) == bindings@[idx as int]);
        } else {
            assert(target_slot(bindings@, out_bindings@, name@) == out_bindings@[idx as int]);
        }
    }
    let slot_gtype = if in_table {
        bindings.bindings[idx].gtype
    } else {
        out_bindings.bindings[idx].gtype
    };
    proof {
        if in_table {
            assert(slots_model(bindings.bindings@)[idx as int] == bindings.bindings@[
                idx as int]@);
        } else {
            assert(slots_model(out_bindings.bindings@)[idx as int] == out_bindings.bindings@[
                idx as int]@);
        }
    }
    if !contains_type(acceptable, slot_gtype) {
        return Err(PipelineError::TypeMismatch { expected: slot_gtype, got: kind });
    }
    let slot_is_loop = if in_table {
        contains_qual(&bindings.bindings[idx].qual, Qualifier::Loop)
    } else {
        contains_qual(&out_bindings.bindings[idx].qual, Qualifier::Loop)
    };
    if slot_is_loop {
        let skip_in: Option<usize> = if in_table {
            Some(idx)
        } else {
            None
        };
        let skip_out: Option<usize> = if in_table {
            None
        } else {
            Some(idx)
        };
        proof {
            assert(skip_in_index(bindings@, name@) == (match skip_in {
                Some(s) => s as int,
                None => -1,
            }));
            assert(skip_out_index(bindings@, out_bindings@, name@) == (match skip_out {
                Some(s) => s as int,
                None => -1,
            }));
        }
        match find_loop_conflict(&bindings.bindings, skip_in, length) {
            Some(l) => {
                return Err(PipelineError::LoopLengthMismatch {
                    expected_length: l,
                    got_length: length,
                });
            },
            None => {},
        }
        match find_loop_conflict(&out_bindings.bindings, skip_out, length) {
            Some(l) => {
                return Err(PipelineError::LoopLengthMismatch {
                    expected_length: l,
                    got_length: length,
                });
            },
            None => {},
        }
    }
    if in_table {
        set_slot(&mut bindings.bindings, idx, data, length);
    } else {
        set_slot(&mut out_bindings.bindings, idx, data, length);
    }
    Ok(())
}

/// The 32-bit words of a sequence of three-wide vectors, flattened in order.
pub open spec fn flat_of_vec3s(s: Seq<[u32; 3]>) -> Seq<u32>
    decreases s.len(),
{
    if s.len() == 0 {
        Seq::empty()
    } else {
        flat_of_vec3s(s.drop_last()) + s.last()@
    }
}

/// Flattens three-wide vectors into one vector of words.
fn flatten_vec3s(v: &Vec<[u32; 3]>) -> (r: Vec<u32>)
    ensures
        r@ == flat_of_vec3s(v@),
{
    let mut r: Vec<u32> = Vec::new();
    let mut i: usize = 0;
    while i < v.len()
        invariant
            i <= v@.len(),
            r@ == flat_of_vec3s(v@.subrange(0, i as int)),
        decreases v@.len() - i,
    {
        let t = &v[i];
        r.push(t[0]);
        r.push(t[1]);
        r.push(t[2]);
        proof {
            assert(v@.subrange(0, i + 1).drop_last() =~= v@.subrange(0, i as int));
            assert(v@.subrange(0, i + 1).last() == v@[i as int]);
            assert(r@ =~= flat_of_vec3s(v@.subrange(0, i as int)) + v@[i as int]@);
        }
        i += 1;
    }
    assert(v@.subrange(0, v@.len() as int) =~= v@);
    r
}

/// A candidate value for the bind operation: one closed variant per
/// supported value shape.  Values that are floating point on the GPU are
/// carried as the IEEE-754 bit patterns of their 32-bit components, so the
/// serialized bytes are exactly the bytes uploaded.
pub enum Bindable {
    /// A vector of unsigned 32-bit integers.
    UintVec(Vec<u32>),
    /// A vector of 32-bit floats, each given by its bit pattern.
    FloatVec(Vec<u32>),
    /// A vector of three-wide float vectors, components given by their bit
    /// patterns.
    Vec3Vec(Vec<[u32; 3]>),
}

impl Bindable {
    /// The shape reported in type-mismatch errors.
    pub open spec fn kind(&self) -> ValueKind {
        match self {
            Bindable::UintVec(_) => ValueKind::UintVec,
            Bindable::FloatVec(_) => ValueKind::FloatVec,
            Bindable::Vec3Vec(_) => ValueKind::Vec3Vec,
        }
    }

    /// The element count recorded as the slot's length.
    pub open spec fn count(&self) -> nat {
        match self {
            Bindable::UintVec(v) => v@.len(),
            Bindable::FloatVec(v) => v@.len(),
            Bindable::Vec3Vec(v) => v@.len(),
        }
    }

    /// The serialized little-endian bytes of the value.
    pub open spec fn bytes_model(&self) -> Seq<u8> {
        match self {
            Bindable::UintVec(v) => bytes_of_u32s(v@),
            Bindable::FloatVec(v) => bytes_of_u32s(v@),
            Bindable::Vec3Vec(v) => bytes_of_u32s(flat_of_vec3s(v@)),
        }
    }

    /// The fixed compatibility table: which declared slot types accept this
    /// value's shape.  Types are compatible only when the shapes agree
    /// exactly.
    pub open spec fn accepts(&self, t: GLSLType) -> bool {
        match self {
            Bindable::UintVec(_) => t == GLSLType::ArrayInt || t == GLSLType::ArrayUint,
            Bindable::FloatVec(_) => t == GLSLType::Float || t == GLSLType::ArrayFloat,
            Bindable::Vec3Vec(_) => t == GLSLType::Vec3 || t == GLSLType::ArrayVec3,
        }
    }

    /// Success condition of binding this value to the slot named `n`.
    pub open spec fn bind_ok_for(
        &self,
        inb: Seq<BindingModel>,
        outb: Seq<BindingModel>,
        n: Seq<char>,
    ) -> bool {
        &&& target_found(inb, outb, n)
        &&& self.accepts(target_slot(inb, outb, n).gtype)
        &&& bind_loop_ok(inb, outb, n, self.count() as u64)
    }

    /// Binds this value to the slot named `name`: locates the slot
    /// (caller-supplied table first), type-checks the value against the
    /// slot's declared type, serializes it, derives the buffer usage from
    /// the slot's qualifiers, and stores bytes and element count into the
    /// slot.  Binding a name twice overwrites the previous buffer.  On any
    /// failure both tables are untouched.
    pub fn bind(
        &self,
        bindings: &mut ProgramBindings,
        out_bindings: &mut OutProgramBindings,
        name: &String,
    ) -> (r: Result<(), PipelineError>)
        ensures
            r is Ok <==> self.bind_ok_for(old(bindings)@, old(out_bindings)@, name@),
            r is Ok ==> (if table_has_name(old(bindings)@, name@) {
                final(bindings)@ == old(bindings)@.update(
                    first_slot(old(bindings)@, name@),
                    bound_slot(
                        old(bindings)@[first_slot(old(bindings)@, name@)],
                        self.bytes_model(),
                        self.count() as u64,
                    ),
                ) && final(out_bindings)@ == old(out_bindings)@
            } else {
                final(bindings)@ == old(bindings)@ && final(out_bindings)@ == old(
                    out_bindings,
                )@.update(
                    first_slot(old(out_bindings)@, name@),
                    bound_slot(
                        old(out_bindings)@[first_slot(old(out_bindings)@, name@)],
                        self.bytes_model(),
                        self.count() as u64,
                    ),
                )
            }),
            r is Err ==> final(bindings)@ == old(bindings)@ && final(out_bindings)@ == old(
                out_bindings,
            )@,
            !target_found(old(bindings)@, old(out_bindings)@, name@) ==> (r matches Err(e)
                && e matches PipelineError::UnknownBindingName { name: en } && en@ == name@),
            target_found(old(bindings)@, old(out_bindings)@, name@) && !self.accepts(
                target_slot(old(bindings)@, old(out_bindings)@, name@).gtype,
            ) ==> (r matches Err(e) && e matches PipelineError::TypeMismatch { expected, got }
                && expected == target_slot(old(bindings)@, old(out_bindings)@, name@).gtype
                && got == self.kind()),
            target_found(old(bindings)@, old(out_bindings)@, name@) && self.accepts(
                target_slot(old(bindings)@, old(out_bindings)@, name@).gtype,
            ) && !bind_loop_ok(
                old(bindings)@,
                old(out_bindings)@,
                name@,
                self.count() as u64,
            ) ==> (r matches Err(e) && e matches PipelineError::LoopLengthMismatch {
                expected_length,
                got_length,
            } && got_length == self.count() as u64 && expected_length != self.count() as u64 && (
            loop_slot_with_length(
                old(bindings)@,
                skip_in_index(old(bindings)@, name@),
                expected_length,
            ) || loop_slot_with_length(
                old(out_bindings)@,
                skip_out_index(old(bindings)@, old(out_bindings)@, name@),
                expected_length,
            ))),
            table_wf(old(bindings)@) && table_wf(old(out_bindings)@) ==> table_wf(
                final(bindings)@,
            ) && table_wf(final(out_bindings)@),
    {
        let (data, length, kind) = match self {
            Bindable::UintVec(v) => (serialize_u32s(v), v.len() as u64, ValueKind::UintVec),
            Bindable::FloatVec(v) => (serialize_u32s(v), v.len() as u64, ValueKind::FloatVec),
            Bindable::Vec3Vec(v) => {
                let flat = flatten_vec3s(v);
                (serialize_u32s(&flat), v.len() as u64, ValueKind::Vec3Vec)
            },
        };
        let mut acceptable: Vec<GLSLType> = Vec::new();
        match self {
            Bindable::UintVec(_) => {
                acceptable.push(GLSLType::ArrayInt);
                acceptable.push(GLSLType::ArrayUint);
            },
            Bindable::FloatVec(_) => {
                acceptable.push(GLSLType::Float);
                acceptable.push(GLSLType::ArrayFloat);
            },
            Bindable::Vec3Vec(_) => {
                acceptable.push(GLSLType::Vec3);
                acceptable.push(GLSLType::ArrayVec3);
            },
        }
        proof {
            assert(data@ == self.bytes_model());
            assert(length == self.count() as u64);
            assert(kind == self.kind());
            assert(acceptable@.len() == 2);
            assert forall|t: GLSLType| acceptable@.contains(t) <==> self.accepts(t) by {
                if acceptable@.contains(t) {
                    let i = choose|i: int| 0 <= i < acceptable@.len() && acceptable@[i] == t;
                    assert(i == 0 || i == 1);
                }
                if self.accepts(t) {
                    assert(acceptable@[0] == t || acceptable@[1] == t);
                    assert(acceptable@.contains(t));
                }
            };
        }
        let r = bind_helper(bindings, out_bindings, data, length, &acceptable, kind, name);
        proof {
            if r is Ok && table_wf(old(bindings)@) && table_wf(old(out_bindings)@) {
                if table_has_name(old(bindings)@, name@) {
                    let k = first_slot(old(bindings)@, name@);
                    lemma_first_slot_in_range(old(bindings)@, name@);
                    assert forall|i: int| 0 <= i < bindings@.len() implies slot_wf(
                        #[trigger] bindings@[i],
                    ) by {
                        if i != k {
                            assert(bindings@[i] == old(bindings)@[i]);
                            assert(slot_wf(old(bindings)@[i]));
                        }
                    }
                    assert(table_wf(out_bindings@));
                } else {
                    let k = first_slot(old(out_bindings)@, name@);
                    lemma_first_slot_in_range(old(out_bindings)@, name@);
                    assert forall|i: int| 0 <= i < out_bindings@.len() implies slot_wf(
                        #[trigger] out_bindings@[i],
                    ) by {
                        if i != k {
                            assert(out_bindings@[i] == old(out_bindings)@[i]);
                            assert(slot_wf(old(out_bindings)@[i]));
                        }
                    }
                    assert(table_wf(bindings@));
                }
            }
        }
        r
    }
}

/// The parameter's slot goes to the callee-produced table exactly when it is
/// an output that the caller never supplies.
pub open spec fn goes_out(p: ParameterModel) -> bool {
    has_qual(p.qual, Qualifier::Out) && !has_qual(p.qual, Qualifier::In)
}

/// An empty slot for parameter `p` at declared index `idx`.
pub open spec fn fresh_slot(p: ParameterModel, idx: int) -> BindingModel {
    BindingModel {
        binding_number: idx as u32,
        name: p.name,
        data: Option::None,
        length: Option::None,
        gtype: p.gtype,
        qual: p.qual,
    }
}

/// The caller-supplied table owed to a parameter list: one slot per
/// parameter not [`goes_out`], numbered by declared index, in declared
/// order.
pub open spec fn in_table_model(params: Seq<ParameterModel>) -> Seq<BindingModel>
    decreases params.len(),
{
    if params.len() == 0 {
        Seq::empty()
    } else {
        let rest = in_table_model(params.drop_last());
        if goes_out(params.last()) {
            rest
        } else {
            rest.push(fresh_slot(params.last(), params.len() - 1))
        }
    }
}

/// The callee-produced table owed to a parameter list: one slot per
/// [`goes_out`] parameter, numbered by declared index, in declared order.
pub open spec fn out_table_model(params: Seq<ParameterModel>) -> Seq<BindingModel>
    decreases params.len(),
{
    if params.len() == 0 {
        Seq::empty()
    } else {
        let rest = out_table_model(params.drop_last());
        if goes_out(params.last()) {
            rest.push(fresh_slot(params.last(), params.len() - 1))
        } else {
            rest
        }
    }
}

proof fn lemma_fresh_tables_wf(params: Seq<ParameterModel>)
    ensures
        table_wf(in_table_model(params)),
        table_wf(out_table_model(params)),
    decreases params.len(),
{
    if params.len() == 0 {
    } else {
        lemma_fresh_tables_wf(params.drop_last());
        let rest_in = in_table_model(params.drop_last());
        let rest_out = out_table_model(params.drop_last());
        let slot = fresh_slot(params.last(), params.len() - 1);
        assert(slot_wf(slot));
        assert forall|i: int| 0 <= i < in_table_model(params).len() implies slot_wf(
            #[trigger] in_table_model(params)[i],
        ) by {
            if !goes_out(params.last()) && i < rest_in.len() {
                assert(in_table_model(params)[i] == rest_in[i]);
            }
        }
        assert forall|i: int| 0 <= i < out_table_model(params).len() implies slot_wf(
            #[trigger] out_table_model(params)[i],
        ) by {
            if goes_out(params.last()) && i < rest_out.len() {
                assert(out_table_model(params)[i] == rest_out[i]);
            }
        }
    }
}

/// Builds the two empty binding tables of a compiled program from its
/// descriptor: a parameter that is an output and not an input gets a
/// callee-produced slot, every other parameter a caller-supplied slot; the
/// binding number is the parameter's declared index, which matches the
/// external pipeline layout.
pub fn make_tables(d: &crate::descriptor::ShaderDescriptor) -> (r: (
    ProgramBindings,
    OutProgramBindings,
))
    requires
        d@.params.len() <= u32::MAX,
    ensures
        r.0@ == in_table_model(d@.params),
        r.1@ == out_table_model(d@.params),
        table_wf(r.0@),
        table_wf(r.1@),
{
    proof {
        lemma_fresh_tables_wf(d@.params);
    }
    let mut ins: Vec<DefaultBinding> = Vec::new();
    let mut outs: Vec<DefaultBinding> = Vec::new();
    let mut i: usize = 0;
    while i < d.params.len()
        invariant
            i <= d.params@.len(),
            d@.params.len() <= u32::MAX,
            d@.params == d.params@.map_values(|p: crate::model::Parameter| p@),
            slots_model(ins@) == in_table_model(d@.params.subrange(0, i as int)),
            slots_model(outs@) == out_table_model(d@.params.subrange(0, i as int)),
        decreases d.params@.len() - i,
    {
        let p = &d.params[i];
        proof {
            assert(d@.params[i as int] == p@);
        }
        let slot = DefaultBinding {
            binding_number: i as u32,
            name: p.name.clone(),
            data: Option::None,
            length: Option::None,
            gtype: p.gtype,
            qual: clone_quals(&p.qual),
        };
        let ghost sm = slot@;
        proof {
            assert(sm == fresh_slot(d@.params[i as int], i as int));
            assert(d@.params.subrange(0, i + 1).drop_last() =~= d@.params.subrange(0, i as int));
            assert(d@.params.subrange(0, i + 1).last() == d@.params[i as int]);
        }
        if contains_qual(&p.qual, Qualifier::Out) && !contains_qual(&p.qual, Qualifier::In) {
            let ghost old_outs = outs@;
            outs.push(slot);
            proof {
                assert(goes_out(d@.params[i as int]));
                assert(slots_model(outs@) =~= slots_model(old_outs).push(sm));
                assert(slots_model(outs@) =~= out_table_model(d@.params.subrange(0, i + 1)));
                assert(slots_model(ins@) =~= in_table_model(d@.params.subrange(0, i + 1)));
            }
        } else {
            let ghost old_ins = ins@;
            ins.push(slot);
            proof {
                assert(!goes_out(d@.params[i as int]));
                assert(slots_model(ins@) =~= slots_model(old_ins).push(sm));
                assert(slots_model(ins@) =~= in_table_model(d@.params.subrange(0, i + 1)));
                assert(slots_model(outs@) =~= out_table_model(d@.params.subrange(0, i + 1)));
            }
        }
        i += 1;
    }
    proof {
        assert(d@.params.subrange(0, d@.params.len() as int) =~= d@.params);
    }
    (ProgramBindings { bindings: ins }, OutProgramBindings { bindings: outs })
}

proof fn lemma_table_push_name(s: Seq<BindingModel>, b: BindingModel, n: Seq<char>)
    ensures
        table_has_name(s.push(b), n) <==> (table_has_name(s, n) || b.name == n),
{
    if table_has_name(s.push(b), n) {
        let i = choose|i: int| 0 <= i < s.push(b).len() && (#[trigger] s.push(b)[i]).name == n;
        if i < s.len() {
            assert(s[i].name == n);
        }
    }
    if table_has_name(s, n) {
        let i = choose|i: int| 0 <= i < s.len() && (#[trigger] s[i]).name == n;
        assert(s.push(b)[i].name == n);
    }
    if b.name == n {
        assert(s.push(b)[s.len() as int].name == n);
    }
}

/// A name is found in the caller-supplied table exactly when some parameter
/// that does not [`goes_out`] declares it.
pub proof fn lemma_in_table_names(params: Seq<ParameterModel>, n: Seq<char>)
    ensures
        table_has_name(in_table_model(params), n) <==> (exists|i: int|
            0 <= i < params.len() && (#[trigger] params[i]).name == n && !goes_out(params[i])),
    decreases params.len(),
{
    if params.len() == 0 {
    } else {
        lemma_in_table_names(params.drop_last(), n);
        let rest = in_table_model(params.drop_last());
        let last = params.last();
        if !goes_out(last) {
            lemma_table_push_name(rest, fresh_slot(last, params.len() - 1), n);
        }
        if exists|i: int|
            0 <= i < params.drop_last().len() && (#[trigger] params.drop_last()[i]).name == n
                && !goes_out(params.drop_last()[i]) {
            let i = choose|i: int|
                0 <= i < params.drop_last().len() && (#[trigger] params.drop_last()[i]).name == n
                    && !goes_out(params.drop_last()[i]);
            assert(params[i].name == n && !goes_out(params[i]));
        }
        if exists|i: int|
            0 <= i < params.len() && (#[trigger] params[i]).name == n && !goes_out(params[i]) {
            let i = choose|i: int|
                0 <= i < params.len() && (#[trigger] params[i]).name == n && !goes_out(
                    params[i],
                );
            if i < params.len() - 1 {
                assert(params.drop_last()[i].name == n && !goes_out(params.drop_last()[i]));
            }
        }
    }
}

/// A name is found in the callee-produced table exactly when some parameter
/// that [`goes_out`] declares it.
pub proof fn lemma_out_table_names(params: Seq<ParameterModel>, n: Seq<char>)
    ensures
        table_has_name(out_table_model(params), n) <==> (exists|i: int|
            0 <= i < params.len() && (#[trigger] params[i]).name == n && goes_out(params[i])),
    decreases params.len(),
{
    if params.len() == 0 {
    } else {
        lemma_out_table_names(params.drop_last(), n);
        let rest = out_table_model(params.drop_last());
        let last = params.last();
        if goes_out(last) {
            lemma_table_push_name(rest, fresh_slot(last, params.len() - 1), n);
        }
        if exists|i: int|
            0 <= i < params.drop_last().len() && (#[trigger] params.drop_last()[i]).name == n
                && goes_out(params.drop_last()[i]) {
            let i = choose|i: int|
                0 <= i < params.drop_last().len() && (#[trigger] params.drop_last()[i]).name == n
                    && goes_out(params.drop_last()[i]);
            assert(params[i].name == n && goes_out(params[i]));
        }
        if exists|i: int|
            0 <= i < params.len() && (#[trigger] params[i]).name == n && goes_out(params[i]) {
            let i = choose|i: int|
                0 <= i < params.len() && (#[trigger] params[i]).name == n && goes_out(params[i]);
            if i < params.len() - 1 {
                assert(params.drop_last()[i].name == n && goes_out(params.drop_last()[i]));
            }
        }
    }
}

/// Law: with unique parameter names, every declared name's slot stands in
/// exactly one of the two tables, and no undeclared name in either.
pub proof fn lemma_name_in_exactly_one_table(params: Seq<ParameterModel>, n: Seq<char>)
    requires
        crate::descriptor::unique_names(params),
    ensures
        (table_has_name(in_table_model(params), n) || table_has_name(
            out_table_model(params),
            n,
        )) <==> (exists|i: int| 0 <= i < params.len() && (#[trigger] params[i]).name == n),
        !(table_has_name(in_table_model(params), n) && table_has_name(
            out_table_model(params),
            n,
        )),
{
    lemma_in_table_names(params, n);
    lemma_out_table_names(params, n);
    if table_has_name(in_table_model(params), n) && table_has_name(out_table_model(params), n) {
        let i = choose|i: int|
            0 <= i < params.len() && (#[trigger] params[i]).name == n && !goes_out(params[i]);
        let j = choose|j: int|
            0 <= j < params.len() && (#[trigger] params[j]).name == n && goes_out(params[j]);
        assert(i != j);
        assert(false);
    }
}

proof fn lemma_scan_params_required_source(
    ctx: ContextModel,
    params: Seq<ParameterModel>,
    n: Seq<char>,
)
    requires
        scan_params(ctx, params).required.contains(n),
    ensures
        ctx.required.contains(n) || (exists|i: int|
            0 <= i < params.len() && (#[trigger] params[i]).name == n && has_qual(
                params[i].qual,
                Qualifier::In,
            )),
    decreases params.len(),
{
    if params.len() == 0 {
    } else {
        let prev = scan_params(ctx, params.drop_last());
        let last = params.last();
        assert(scan_params(ctx, params) == scan_param(prev, last));
        let from_last = has_qual(last.qual, Qualifier::In) && !prev.produced.contains(last.name)
            && n == last.name;
        if from_last {
            assert(params[params.len() - 1].name == n && has_qual(
                params[params.len() - 1].qual,
                Qualifier::In,
            ));
        } else {
            assert(prev.required.contains(n));
            lemma_scan_params_required_source(ctx, params.drop_last(), n);
            if exists|i: int|
                0 <= i < params.drop_last().len() && (#[trigger] params.drop_last()[i]).name == n
                    && has_qual(params.drop_last()[i].qual, Qualifier::In) {
                let i = choose|i: int|
                    0 <= i < params.drop_last().len() && (#[trigger] params.drop_last()[
                        i]).name == n && has_qual(params.drop_last()[i].qual, Qualifier::In);
                assert(params[i].name == n && has_qual(params[i].qual, Qualifier::In));
            }
        }
    }
}

/// Law: every name a descriptor's initial context requires is declared by an
/// `In` parameter, and such a parameter always gets a caller-supplied slot —
/// so the binds that must cover the required set can always find their
/// targets.
pub proof fn lemma_required_names_have_slots(params: Seq<ParameterModel>, n: Seq<char>)
    requires
        scan_params(empty_context(), params).required.contains(n),
    ensures
        table_has_name(in_table_model(params), n),
{
    lemma_scan_params_required_source(empty_context(), params, n);
    assert(!empty_context().required.contains(n));
    let i = choose|i: int|
        0 <= i < params.len() && (#[trigger] params[i]).name == n && has_qual(
            params[i].qual,
            Qualifier::In,
        );
    assert(!goes_out(params[i]));
    lemma_in_table_names(params, n);
}

/// Reads the current contents of the slot named `name` (caller-supplied
/// table first, as the bind operation locates slots).  Fails with
/// `UnassignedOutput` iff the slot exists but has never been bound.
pub fn read_output(
    bindings: &ProgramBindings,
    out_bindings: &OutProgramBindings,
    name: &String,
) -> (r: Result<Vec<u8>, PipelineError>)
    ensures
        !target_found(bindings@, out_bindings@, name@) ==> (r matches Err(e)
            && e matches PipelineError::UnknownBindingName { name: en } && en@ == name@),
        target_found(bindings@, out_bindings@, name@) ==> (match r {
            Ok(bytes) => target_slot(bindings@, out_bindings@, name@).data matches Some(b)
                && bytes@ == b.bytes,
            Err(e) => e matches PipelineError::UnassignedOutput { name: en } && en@ == name@
                && target_slot(bindings@, out_bindings@, name@).data is None,
        }),
{
    let found_in = find_binding(&bindings.bindings, name);
    let (in_table, idx) = match found_in {
        Some(i) => (true, i),
        None => {
            match find_binding(&out_bindings.bindings, name) {
                Some(i) => (false, i),
                None => {
                    return Err(PipelineError::UnknownBindingName { name: name.clone() });
                },
            }
        },
    };
    let slot = if in_table {
        &bindings.bindings[idx]
    } else {
        &out_bindings.bindings[idx]
    };
    proof {
        if in_table {
            assert(slots_model(bindings.bindings@)[idx as int] == bindings.bindings@[
                idx as int]@);
            assert(target_slot(bindings@, out_bindings@, name@) == slot@);
        } else {
            assert(slots_model(out_bindings.bindings@)[idx as int] == out_bindings.bindings@[
                idx as int]@);
            assert(target_slot(bindings@, out_bindings@, name@) == slot@);
        }
    }
    match &slot.data {
        Option::Some(d) => Ok(copy_bytes(&d.bytes)),
        Option::None => Err(PipelineError::UnassignedOutput { name: name.clone() }),
    }
}

/// The slot as it stands once a dispatch has run: a slot tagged both `Loop`
/// and `Out` is one-shot and must be rebound, every other slot keeps its
/// value.
pub open spec fn expired_slot(b: BindingModel) -> BindingModel {
    if has_qual(b.qual, Qualifier::Loop) && has_qual(b.qual, Qualifier::Out) {
        cleared_slot(b)
    } else {
        b
    }
}

fn clear_loop_out_slots(v: &mut Vec<DefaultBinding>)
    ensures
        slots_model(final(v)@) == slots_model(old(v)@).map_values(
            |b: BindingModel| expired_slot(b),
        ),
{
    let n = v.len();
    let mut i: usize = 0;
    while i < n
        invariant
            i <= n,
            n == v@.len(),
            forall|j: int|
                0 <= j < i ==> (#[trigger] v@[j])@ == expired_slot(old(v)@[j]@),
            forall|j: int| i <= j < n ==> (#[trigger] v@[j])@ == old(v)@[j]@,
        decreases n - i,
    {
        let is_one_shot = contains_qual(&v[i].qual, Qualifier::Loop) && contains_qual(
            &v[i].qual,
            Qualifier::Out,
        );
        if is_one_shot {
            let slot = DefaultBinding {
                binding_number: v[i].binding_number,
                name: v[i].name.clone(),
                data: Option::None,
                length: Option::None,
                gtype: v[i].gtype,
                qual: clone_quals(&v[i].qual),
            };
            v[i] = slot;
        }
        i += 1;
    }
    proof {
        assert(slots_model(v@) =~= slots_model(old(v)@).map_values(
            |b: BindingModel| expired_slot(b),
        ));
    }
}

/// The one-shot contract of outputs: after a compute dispatch, every slot
/// tagged both `Loop` and `Out`, in either table, is cleared and must be
/// rebound before the next dispatch that reuses the table.
pub fn after_dispatch(bindings: &mut ProgramBindings, out_bindings: &mut OutProgramBindings)
    ensures
        final(bindings)@ == old(bindings)@.map_values(|b: BindingModel| expired_slot(b)),
        final(out_bindings)@ == old(out_bindings)@.map_values(
            |b: BindingModel| expired_slot(b),
        ),
        table_wf(old(bindings)@) ==> table_wf(final(bindings)@),
        table_wf(old(out_bindings)@) ==> table_wf(final(out_bindings)@),
{
    clear_loop_out_slots(&mut bindings.bindings);
    clear_loop_out_slots(&mut out_bindings.bindings);
    proof {
        if table_wf(old(bindings)@) {
            assert forall|i: int| 0 <= i < bindings@.len() implies slot_wf(
                #[trigger] bindings@[i],
            ) by {
                assert(bindings@[i] == expired_slot(old(bindings)@[i]));
                assert(slot_wf(old(bindings)@[i]));
            }
        }
        if table_wf(old(out_bindings)@) {
            assert forall|i: int| 0 <= i < out_bindings@.len() implies slot_wf(
                #[trigger] out_bindings@[i],
            ) by {
                assert(out_bindings@[i] == expired_slot(old(out_bindings)@[i]));
                assert(slot_wf(old(out_bindings)@[i]));
            }
        }
    }
}

} // verus!
