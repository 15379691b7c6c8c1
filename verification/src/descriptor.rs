//! Shader descriptors: an ordered list of named, qualified, typed parameters
//! plus opaque shader body text, produced once when a shader is declared.

use vstd::prelude::*;

use crate::error::PipelineError;
use crate::model::{Parameter, ParameterModel};

verus! {

/// An immutable shader stage declaration.  Parameter order is significant:
/// it defines the binding-slot index used to match the external pipeline
/// layout.  The body is opaque text handed verbatim to the GPU backend.
pub struct ShaderDescriptor {
    pub params: Vec<Parameter>,
    pub body: String,
}

/// Mathematical model of a [`ShaderDescriptor`].
#[verifier::ext_equal]
pub ghost struct DescriptorModel {
    pub params: Seq<ParameterModel>,
    pub body: Seq<char>,
}

impl View for ShaderDescriptor {
    type V = DescriptorModel;

    open spec fn view(&self) -> DescriptorModel {
        DescriptorModel {
            params: self.params@.map_values(|p: Parameter| p@),
            body: self.body@,
        }
    }
}

/// True iff no two parameters share a name.
pub open spec fn unique_names(params: Seq<ParameterModel>) -> bool {
    forall|i: int, j: int|
        0 <= i < j < params.len() ==> (#[trigger] params[i]).name != (#[trigger] params[j]).name
}

impl ShaderDescriptor {
    /// Builds a descriptor from ordered parameter declarations and body
    /// text.  Fails with `DuplicateParameterName` iff a name repeats within
    /// the list.
    pub fn new(params: Vec<Parameter>, body: String) -> (r: Result<
        ShaderDescriptor,
        PipelineError,
    >)
        ensures
            r is Ok <==> unique_names(params@.map_values(|p: Parameter| p@)),
            r matches Ok(d) ==> d@.params == params@.map_values(|p: Parameter| p@)
                && d@.body == body@,
            r matches Err(e) ==> (e matches PipelineError::DuplicateParameterName { name }
                && (exists|i: int, j: int|
                    0 <= i < j < params@.len() && (#[trigger] params@[i])@.name == name@
                        && (#[trigger] params@[j])@.name == name@)),
    {
        let n = params.len();
        let mut i: usize = 0;
        while i < n
            invariant
                n == params@.len(),
                i <= n,
                forall|a: int, b: int|
                    0 <= a < b < params@.len() && a < i ==> (#[trigger] params@[a])@.name != (
                    #[trigger] params@[b])@.name,
            decreases n - i,
        {
            let mut j: usize = i + 1;
            while j < n
                invariant
                    n == params@.len(),
                    i < n,
                    i + 1 <= j <= n,
                    forall|b: int| i < b < j ==> params@[i as int]@.name != (
                    #[trigger] params@[b])@.name,
                decreases n - j,
            {
                if params[i].name.eq(&params[j].name) {
                    let name = params[i].name.clone();
                    proof {
                        let m = params@.map_values(|p: Parameter| p@);
                        assert(m[i as int] == params@[i as int]@);
                        assert(m[j as int] == params@[j as int]@);
                        assert(m[i as int].name == name@);
                        assert(m[j as int].name == name@);
                        assert(!unique_names(m));
                    }
                    return Err(PipelineError::DuplicateParameterName { name });
                }
                j += 1;
            }
            i += 1;
        }
        proof {
            assert(unique_names(params@.map_values(|p: Parameter| p@)));
        }
        Ok(ShaderDescriptor { params, body })
    }
}

} // verus!
