//! The qualifier and type model: the closed set of declarable GLSL-style
//! types, the parameter qualifiers, and the derivation of GPU buffer usage
//! flags from a qualifier set.

use vstd::prelude::*;

verus! {

/// The closed set of GLSL-style value types a shader parameter can declare.
/// Two types are compatible only if they are identical; there is no implicit
/// widening.
#[derive(Clone, Copy, Debug, PartialEq, Eq, Structural)]
pub enum GLSLType {
    Float,
    Int,
    Uint,
    Vec3,
    Mat4,
    ArrayFloat,
    ArrayInt,
    ArrayUint,
    ArrayVec3,
}

/// Set-valued tag on a shader parameter.  A parameter may carry several
/// qualifiers at once (for example `Buffer`, `Loop`, `In` and `Out` on an
/// in-place accumulator).
#[derive(Clone, Copy, Debug, PartialEq, Eq, Structural)]
pub enum Qualifier {
    /// The parameter is a vertex attribute.
    VertexInput,
    /// The parameter is a uniform.
    Uniform,
    /// The parameter is a storage buffer.
    Buffer,
    /// The length of the bound value determines the invocation count of a
    /// compute dispatch; all `Loop` parameters bound for one dispatch must
    /// agree on length.
    Loop,
    /// The parameter must be bound before the stage runs.
    In,
    /// The parameter is produced by the stage and may feed a later stage.
    Out,
}

/// The shape of a candidate value handed to the bind operation; reported in
/// type-mismatch errors.
#[derive(Clone, Copy, Debug, PartialEq, Eq, Structural)]
pub enum ValueKind {
    UintVec,
    FloatVec,
    Vec3Vec,
}

/// GPU buffer usage classification, derived from a slot's qualifier set.
#[derive(Clone, Copy, Debug, PartialEq, Eq, Structural)]
pub struct BufferUsage {
    pub vertex_attribute: bool,
    pub uniform: bool,
    pub storage: bool,
    pub map_read: bool,
    pub copy_dst: bool,
    pub copy_src: bool,
}

/// True iff the qualifier `q` occurs in `quals`.
pub open spec fn has_qual(quals: Seq<Qualifier>, q: Qualifier) -> bool {
    exists|i: int| 0 <= i < quals.len() && quals[i] == q
}

/// Usage flags for a vertex-attribute slot.
pub open spec fn vertex_usage() -> BufferUsage {
    BufferUsage {
        vertex_attribute: true,
        uniform: false,
        storage: false,
        map_read: false,
        copy_dst: true,
        copy_src: false,
    }
}

/// Usage flags for a uniform slot.
pub open spec fn uniform_usage() -> BufferUsage {
    BufferUsage {
        vertex_attribute: false,
        uniform: true,
        storage: false,
        map_read: false,
        copy_dst: true,
        copy_src: false,
    }
}

/// Usage flags for the storage/buffer default.
pub open spec fn storage_usage() -> BufferUsage {
    BufferUsage {
        vertex_attribute: true,
        uniform: false,
        storage: true,
        map_read: true,
        copy_dst: true,
        copy_src: true,
    }
}

/// The usage classification owed to a slot with the given qualifiers: a pure
/// function of the qualifier set alone.  `VertexInput` is checked first, then
/// `Uniform`, then the permissive storage default; a slot is not meant to
/// carry both `VertexInput` and `Uniform`, and if it does, `VertexInput`
/// wins.
pub open spec fn usage_of(quals: Seq<Qualifier>) -> BufferUsage {
    if has_qual(quals, Qualifier::VertexInput) {
        vertex_usage()
    } else if has_qual(quals, Qualifier::Uniform) {
        uniform_usage()
    } else {
        storage_usage()
    }
}

/// True iff `q` occurs in `quals`.
pub fn contains_qual(quals: &Vec<Qualifier>, q: Qualifier) -> (r: bool)
    ensures
        r == has_qual(quals@, q),
{
    let mut i: usize = 0;
    while i < quals.len()
        invariant
            i <= quals@.len(),
            forall|j: int| 0 <= j < i ==> quals@[j] != q,
        decreases quals@.len() - i,
    {
        if quals[i] == q {
            return true;
        }
        i += 1;
    }
    false
}

/// Derives the GPU buffer usage flags owed to a slot with the given
/// qualifiers.  Depends on the qualifier set alone, never on the slot's type
/// or name.
pub fn derive_usage(quals: &Vec<Qualifier>) -> (r: BufferUsage)
    ensures
        r == usage_of(quals@),
{
    if contains_qual(quals, Qualifier::VertexInput) {
        BufferUsage {
            vertex_attribute: true,
            uniform: false,
            storage: false,
            map_read: false,
            copy_dst: true,
            copy_src: false,
        }
    } else if contains_qual(quals, Qualifier::Uniform) {
        BufferUsage {
            vertex_attribute: false,
            uniform: true,
            storage: false,
            map_read: false,
            copy_dst: true,
            copy_src: false,
        }
    } else {
        BufferUsage {
            vertex_attribute: true,
            uniform: false,
            storage: true,
            map_read: true,
            copy_dst: true,
            copy_src: true,
        }
    }
}

/// One declared shader parameter: a name (unique within one descriptor), a
/// declared type, and a qualifier set.
pub struct Parameter {
    pub name: String,
    pub gtype: GLSLType,
    pub qual: Vec<Qualifier>,
}

/// Mathematical model of a [`Parameter`].
#[verifier::ext_equal]
pub ghost struct ParameterModel {
    pub name: Seq<char>,
    pub gtype: GLSLType,
    pub qual: Seq<Qualifier>,
}

impl View for Parameter {
    type V = ParameterModel;

    open spec fn view(&self) -> ParameterModel {
        ParameterModel { name: self.name@, gtype: self.gtype, qual: self.qual@ }
    }
}

/// Copies a qualifier list.
pub fn clone_quals(quals: &Vec<Qualifier>) -> (r: Vec<Qualifier>)
    ensures
        r@ == quals@,
{
    let mut r: Vec<Qualifier> = Vec::new();
    let mut i: usize = 0;
    while i < quals.len()
        invariant
            i <= quals@.len(),
            r@ == quals@.subrange(0, i as int),
        decreases quals@.len() - i,
    {
        r.push(quals[i]);
        assert(r@ =~= quals@.subrange(0, i + 1));
        i += 1;
    }
    assert(r@ =~= quals@);
    r
}

} // verus!
