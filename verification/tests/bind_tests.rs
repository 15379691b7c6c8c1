use pipeline::bind::{
    after_dispatch, make_tables, new_bindings, read_output, Bindable, Bindings,
    OutProgramBindings, ProgramBindings,
};
use pipeline::descriptor::ShaderDescriptor;
use pipeline::error::PipelineError;
use pipeline::model::{derive_usage, BufferUsage, GLSLType, Parameter, Qualifier, ValueKind};

fn param(name: &str, gtype: GLSLType, quals: &[Qualifier]) -> Parameter {
    Parameter {
        name: name.to_string(),
        gtype,
        qual: quals.to_vec(),
    }
}

fn descriptor(params: Vec<Parameter>, body: &str) -> ShaderDescriptor {
    ShaderDescriptor::new(params, body.to_string()).unwrap()
}

fn compute_descriptor() -> ShaderDescriptor {
    descriptor(
        vec![
            param(
                "indices",
                GLSLType::ArrayUint,
                &[Qualifier::Buffer, Qualifier::Loop, Qualifier::In, Qualifier::Out],
            ),
            param("indices2", GLSLType::ArrayUint, &[Qualifier::Buffer, Qualifier::In]),
        ],
        "void main() { indices[i] = indices[i] + indices2[i]; }",
    )
}

fn read_u32s(
    bindings: &ProgramBindings,
    out_bindings: &OutProgramBindings,
    name: &str,
) -> Vec<u32> {
    let bytes = read_output(bindings, out_bindings, &name.to_string()).unwrap();
    pipeline::bytes::deserialize_u32s(&bytes).unwrap()
}

const VERTEX_USAGE: BufferUsage = BufferUsage {
    vertex_attribute: true,
    uniform: false,
    storage: false,
    map_read: false,
    copy_dst: true,
    copy_src: false,
};

const UNIFORM_USAGE: BufferUsage = BufferUsage {
    vertex_attribute: false,
    uniform: true,
    storage: false,
    map_read: false,
    copy_dst: true,
    copy_src: false,
};

const STORAGE_USAGE: BufferUsage = BufferUsage {
    vertex_attribute: true,
    uniform: false,
    storage: true,
    map_read: true,
    copy_dst: true,
    copy_src: true,
};

#[test]
fn usage_derivation_covers_every_reachable_qualifier_set() {
    // The classification depends on the qualifier set alone; vertex wins
    // over uniform, and anything without either gets the storage default.
    let cases: Vec<(Vec<Qualifier>, BufferUsage)> = vec![
        (vec![Qualifier::VertexInput], VERTEX_USAGE),
        (vec![Qualifier::VertexInput, Qualifier::In], VERTEX_USAGE),
        (vec![Qualifier::VertexInput, Qualifier::Uniform], VERTEX_USAGE),
        (vec![Qualifier::Uniform], UNIFORM_USAGE),
        (vec![Qualifier::Uniform, Qualifier::In], UNIFORM_USAGE),
        (vec![], STORAGE_USAGE),
        (vec![Qualifier::Buffer], STORAGE_USAGE),
        (
            vec![Qualifier::Buffer, Qualifier::Loop, Qualifier::In, Qualifier::Out],
            STORAGE_USAGE,
        ),
        (vec![Qualifier::In, Qualifier::Out], STORAGE_USAGE),
    ];
    for (quals, expected) in cases {
        assert_eq!(derive_usage(&quals), expected);
    }
}

#[test]
fn make_tables_splits_slots_and_numbers_them_by_declared_index() {
    let d = descriptor(
        vec![
            param("a", GLSLType::Vec3, &[Qualifier::VertexInput, Qualifier::In]),
            param("b", GLSLType::Vec3, &[Qualifier::Out]),
            param("c", GLSLType::Float, &[Qualifier::Uniform]),
            param("d", GLSLType::ArrayUint, &[Qualifier::In, Qualifier::Out]),
        ],
        "void main() {}",
    );
    let (bindings, out_bindings) = make_tables(&d);
    // Only `b` is an output the caller never supplies.
    let in_names: Vec<&str> = bindings.bindings.iter().map(|s| s.name.as_str()).collect();
    let out_names: Vec<&str> = out_bindings.bindings.iter().map(|s| s.name.as_str()).collect();
    assert_eq!(in_names, vec!["a", "c", "d"]);
    assert_eq!(out_names, vec!["b"]);
    let in_numbers: Vec<u32> = bindings.bindings.iter().map(|s| s.binding_number).collect();
    assert_eq!(in_numbers, vec![0, 2, 3]);
    assert_eq!(out_bindings.bindings[0].binding_number, 1);
    assert!(bindings.bindings.iter().all(|s| s.data.is_none() && s.length.is_none()));
}

#[test]
fn bind_serializes_little_endian_and_stores_usage_and_length() {
    let d = descriptor(
        vec![param("xs", GLSLType::ArrayUint, &[Qualifier::Buffer, Qualifier::In])],
        "void main() {}",
    );
    let (mut bindings, mut out_bindings) = make_tables(&d);
    Bindable::UintVec(vec![1, 0x01020304])
        .bind(&mut bindings, &mut out_bindings, &"xs".to_string())
        .unwrap();
    let slot = &bindings.bindings[0];
    let buffer = slot.data.as_ref().unwrap();
    assert_eq!(buffer.bytes, vec![1, 0, 0, 0, 0x04, 0x03, 0x02, 0x01]);
    assert_eq!(buffer.usage, STORAGE_USAGE);
    assert_eq!(slot.length, Some(2));
}

#[test]
fn bind_float_values_serializes_their_bit_patterns() {
    let d = descriptor(
        vec![param("ws", GLSLType::ArrayFloat, &[Qualifier::Buffer, Qualifier::In])],
        "void main() {}",
    );
    let (mut bindings, mut out_bindings) = make_tables(&d);
    let values: Vec<f32> = vec![1.0, -2.5];
    let bits: Vec<u32> = values.iter().map(|v| v.to_bits()).collect();
    Bindable::FloatVec(bits)
        .bind(&mut bindings, &mut out_bindings, &"ws".to_string())
        .unwrap();
    let buffer = bindings.bindings[0].data.as_ref().unwrap();
    let mut expected: Vec<u8> = Vec::new();
    for v in &values {
        expected.extend_from_slice(&v.to_le_bytes());
    }
    assert_eq!(buffer.bytes, expected);
    assert_eq!(bindings.bindings[0].length, Some(2));
}

#[test]
fn bind_vec3_values_flattens_components_in_order() {
    let d = descriptor(
        vec![param("vs", GLSLType::ArrayVec3, &[Qualifier::VertexInput, Qualifier::In])],
        "void main() {}",
    );
    let (mut bindings, mut out_bindings) = make_tables(&d);
    let values: Vec<[f32; 3]> = vec![[1.0, 2.0, 3.0], [4.0, 5.0, 6.0]];
    let bits: Vec<[u32; 3]> = values
        .iter()
        .map(|v| [v[0].to_bits(), v[1].to_bits(), v[2].to_bits()])
        .collect();
    Bindable::Vec3Vec(bits)
        .bind(&mut bindings, &mut out_bindings, &"vs".to_string())
        .unwrap();
    let buffer = bindings.bindings[0].data.as_ref().unwrap();
    let mut expected: Vec<u8> = Vec::new();
    for v in &values {
        for c in v {
            expected.extend_from_slice(&c.to_le_bytes());
        }
    }
    assert_eq!(buffer.bytes, expected);
    // Two vec3 elements, not six floats.
    assert_eq!(bindings.bindings[0].length, Some(2));
    assert_eq!(buffer.usage, VERTEX_USAGE);
}

#[test]
fn bind_unknown_name_is_rejected() {
    let d = compute_descriptor();
    let (mut bindings, mut out_bindings) = make_tables(&d);
    let r = Bindable::UintVec(vec![1]).bind(&mut bindings, &mut out_bindings, &"nope".to_string());
    match r {
        Err(PipelineError::UnknownBindingName { name }) => assert_eq!(name, "nope"),
        _ => panic!("expected UnknownBindingName"),
    }
}

#[test]
fn bind_type_mismatch_reports_expected_and_got() {
    let d = compute_descriptor();
    let (mut bindings, mut out_bindings) = make_tables(&d);
    let r = Bindable::FloatVec(vec![0x3f800000])
        .bind(&mut bindings, &mut out_bindings, &"indices".to_string());
    match r {
        Err(PipelineError::TypeMismatch { expected, got }) => {
            assert_eq!(expected, GLSLType::ArrayUint);
            assert_eq!(got, ValueKind::FloatVec);
        }
        _ => panic!("expected TypeMismatch"),
    }
    // A failed bind leaves the slot untouched.
    assert!(bindings.bindings[0].data.is_none());
}

#[test]
fn loop_length_mismatch_is_rejected() {
    let d = descriptor(
        vec![
            param(
                "xs",
                GLSLType::ArrayUint,
                &[Qualifier::Buffer, Qualifier::Loop, Qualifier::In],
            ),
            param(
                "ys",
                GLSLType::ArrayUint,
                &[Qualifier::Buffer, Qualifier::Loop, Qualifier::In],
            ),
        ],
        "void main() {}",
    );
    let (mut bindings, mut out_bindings) = make_tables(&d);
    Bindable::UintVec(vec![1, 2, 3])
        .bind(&mut bindings, &mut out_bindings, &"xs".to_string())
        .unwrap();
    let r = Bindable::UintVec(vec![1, 2])
        .bind(&mut bindings, &mut out_bindings, &"ys".to_string());
    match r {
        Err(PipelineError::LoopLengthMismatch {
            expected_length,
            got_length,
        }) => {
            assert_eq!(expected_length, 3);
            assert_eq!(got_length, 2);
        }
        _ => panic!("expected LoopLengthMismatch"),
    }
    // Rebinding the same loop parameter with a new length is allowed: the
    // conflict check skips the slot being overwritten.
    Bindable::UintVec(vec![7])
        .bind(&mut bindings, &mut out_bindings, &"xs".to_string())
        .unwrap();
    // A non-loop parameter of any length is also fine.
    let d2 = descriptor(
        vec![
            param(
                "xs",
                GLSLType::ArrayUint,
                &[Qualifier::Buffer, Qualifier::Loop, Qualifier::In],
            ),
            param("zs", GLSLType::ArrayUint, &[Qualifier::Buffer, Qualifier::In]),
        ],
        "void main() {}",
    );
    let (mut b2, mut o2) = make_tables(&d2);
    Bindable::UintVec(vec![1, 2, 3])
        .bind(&mut b2, &mut o2, &"xs".to_string())
        .unwrap();
    Bindable::UintVec(vec![9])
        .bind(&mut b2, &mut o2, &"zs".to_string())
        .unwrap();
}

#[test]
fn reading_an_unbound_output_is_rejected() {
    let d = compute_descriptor();
    let (bindings, out_bindings) = make_tables(&d);
    match read_output(&bindings, &out_bindings, &"indices".to_string()) {
        Err(PipelineError::UnassignedOutput { name }) => assert_eq!(name, "indices"),
        _ => panic!("expected UnassignedOutput"),
    }
    match read_output(&bindings, &out_bindings, &"ghost_name".to_string()) {
        Err(PipelineError::UnknownBindingName { name }) => assert_eq!(name, "ghost_name"),
        _ => panic!("expected UnknownBindingName"),
    }
}

#[test]
fn new_bindings_resets_values_and_keeps_static_fields() {
    let d = compute_descriptor();
    let (mut bindings, mut out_bindings) = make_tables(&d);
    Bindable::UintVec(vec![1, 2])
        .bind(&mut bindings, &mut out_bindings, &"indices".to_string())
        .unwrap();
    let fresh = new_bindings(&bindings.bindings);
    assert_eq!(fresh.len(), bindings.bindings.len());
    for (orig, copy) in bindings.bindings.iter().zip(fresh.iter()) {
        assert_eq!(copy.name, orig.name);
        assert_eq!(copy.binding_number, orig.binding_number);
        assert_eq!(copy.gtype, orig.gtype);
        assert_eq!(copy.qual, orig.qual);
        assert!(copy.data.is_none());
        assert!(copy.length.is_none());
    }
    assert!(bindings.bindings[0].data.is_some());
}

#[test]
fn cloned_tables_are_independent() {
    let d = compute_descriptor();
    let (mut bindings, mut out_bindings) = make_tables(&d);
    let mut other = Bindings::clone(&bindings);
    let mut other_out = Bindings::clone(&out_bindings);
    Bindable::UintVec(vec![1, 2])
        .bind(&mut bindings, &mut out_bindings, &"indices".to_string())
        .unwrap();
    assert!(other.bindings[0].data.is_none());
    Bindable::UintVec(vec![3, 4])
        .bind(&mut other, &mut other_out, &"indices".to_string())
        .unwrap();
    assert_eq!(
        read_u32s(&bindings, &out_bindings, "indices"),
        vec![1, 2]
    );
    assert_eq!(read_u32s(&other, &other_out, "indices"), vec![3, 4]);
}

#[test]
fn compute_add_and_rebind() {
    // A dispatch computing `indices[i] += indices2[i]`: the GPU backend is
    // an external collaborator, so the test plays its role on the bound
    // buffers.
    let d = compute_descriptor();
    let ctx = pipeline::context::derive(&vec![compute_descriptor()]);
    let (mut bindings, mut out_bindings) = make_tables(&d);

    let ctx = ctx.consume(&"indices2".to_string());
    Bindable::UintVec(vec![4, 3, 2, 1])
        .bind(&mut bindings, &mut out_bindings, &"indices2".to_string())
        .unwrap();
    assert!(ctx.ready_to_run().is_err());
    let ctx = ctx.consume(&"indices".to_string());
    Bindable::UintVec(vec![1, 2, 3, 4])
        .bind(&mut bindings, &mut out_bindings, &"indices".to_string())
        .unwrap();
    ctx.ready_to_run().unwrap();

    // The dispatch reads both buffers and writes the sum back to `indices`.
    let a = read_u32s(&bindings, &out_bindings, "indices");
    let b = read_u32s(&bindings, &out_bindings, "indices2");
    let sum: Vec<u32> = a.iter().zip(b.iter()).map(|(x, y)| x + y).collect();
    assert_eq!(sum, vec![5, 5, 5, 5]);

    // `indices` is tagged both `Loop` and `Out`: one read or rebind per
    // dispatch, then it must be supplied anew.
    after_dispatch(&mut bindings, &mut out_bindings);
    assert!(matches!(
        read_output(&bindings, &out_bindings, &"indices".to_string()),
        Err(PipelineError::UnassignedOutput { .. })
    ));
    // `indices2` is not one-shot and survives the dispatch.
    assert_eq!(read_u32s(&bindings, &out_bindings, "indices2"), vec![4, 3, 2, 1]);

    // Second run: rebind `indices = [2, 2, 2, 2]`, keep `indices2`.
    Bindable::UintVec(vec![2, 2, 2, 2])
        .bind(&mut bindings, &mut out_bindings, &"indices".to_string())
        .unwrap();
    let a2 = read_u32s(&bindings, &out_bindings, "indices");
    let b2 = read_u32s(&bindings, &out_bindings, "indices2");
    let sum2: Vec<u32> = a2.iter().zip(b2.iter()).map(|(x, y)| x + y).collect();
    assert_eq!(sum2, vec![6, 5, 4, 3]);
}

#[test]
fn rebinding_a_name_overwrites_the_previous_buffer() {
    let d = compute_descriptor();
    let (mut bindings, mut out_bindings) = make_tables(&d);
    Bindable::UintVec(vec![1, 2])
        .bind(&mut bindings, &mut out_bindings, &"indices".to_string())
        .unwrap();
    Bindable::UintVec(vec![8, 9])
        .bind(&mut bindings, &mut out_bindings, &"indices".to_string())
        .unwrap();
    assert_eq!(read_u32s(&bindings, &out_bindings, "indices"), vec![8, 9]);
}

#[test]
fn deserialize_rejects_ragged_byte_lengths() {
    assert_eq!(pipeline::bytes::deserialize_u32s(&vec![1, 2, 3]), None);
    assert_eq!(pipeline::bytes::deserialize_u32s(&Vec::new()), Some(Vec::new()));
    let round = pipeline::bytes::deserialize_u32s(&pipeline::bytes::serialize_u32s(&vec![
        7, 0xdeadbeef,
    ]));
    assert_eq!(round, Some(vec![7, 0xdeadbeef]));
}

#[test]
fn binding_an_empty_vector_is_allowed() {
    let d = compute_descriptor();
    let (mut bindings, mut out_bindings) = make_tables(&d);
    Bindable::UintVec(Vec::new())
        .bind(&mut bindings, &mut out_bindings, &"indices".to_string())
        .unwrap();
    assert_eq!(bindings.bindings[0].length, Some(0));
    assert_eq!(read_u32s(&bindings, &out_bindings, "indices"), Vec::<u32>::new());
}
