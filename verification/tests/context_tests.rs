use pipeline::context::{can_pipe, initial_context, BindingContext};
use pipeline::descriptor::ShaderDescriptor;
use pipeline::error::PipelineError;
use pipeline::model::{GLSLType, Parameter, Qualifier};

fn param(name: &str, gtype: GLSLType, quals: &[Qualifier]) -> Parameter {
    Parameter {
        name: name.to_string(),
        gtype,
        qual: quals.to_vec(),
    }
}

fn descriptor(params: Vec<Parameter>, body: &str) -> ShaderDescriptor {
    ShaderDescriptor::new(params, body.to_string()).unwrap()
}

fn sorted(v: &[String]) -> Vec<String> {
    let mut s = v.to_vec();
    s.sort();
    s
}

#[test]
fn duplicate_parameter_name_is_rejected() {
    let r = ShaderDescriptor::new(
        vec![
            param("x", GLSLType::Float, &[Qualifier::In]),
            param("y", GLSLType::Float, &[Qualifier::In]),
            param("x", GLSLType::Uint, &[Qualifier::Out]),
        ],
        "void main() {}".to_string(),
    );
    match r {
        Err(PipelineError::DuplicateParameterName { name }) => assert_eq!(name, "x"),
        _ => panic!("expected DuplicateParameterName"),
    }
}

#[test]
fn derive_collects_required_and_produced() {
    let d = descriptor(
        vec![
            param("a", GLSLType::Vec3, &[Qualifier::VertexInput, Qualifier::In]),
            param("b", GLSLType::Mat4, &[Qualifier::Uniform, Qualifier::In]),
            param("c", GLSLType::Vec3, &[Qualifier::Out]),
            param("d", GLSLType::Float, &[Qualifier::Buffer]),
        ],
        "void main() {}",
    );
    let ctx = pipeline::context::derive(&vec![d]);
    assert_eq!(sorted(&ctx.required), vec!["a".to_string(), "b".to_string()]);
    assert_eq!(ctx.produced, vec!["c".to_string()]);
}

#[test]
fn derive_spends_earlier_output_on_later_input() {
    let stage_a = descriptor(
        vec![param("v", GLSLType::Vec3, &[Qualifier::Out])],
        "void main() {}",
    );
    let stage_b = descriptor(
        vec![param("v", GLSLType::Vec3, &[Qualifier::In])],
        "void main() {}",
    );
    let ctx = pipeline::context::derive(&vec![stage_a, stage_b]);
    // Stage A's output satisfies stage B's input: `v` is neither required
    // from the caller nor still available downstream.
    assert!(ctx.required.is_empty());
    assert!(ctx.produced.is_empty());
}

#[test]
fn derive_treats_in_and_out_parameter_as_input() {
    // The fold checks `In` first: a parameter carrying both `In` and `Out`
    // becomes required and produces nothing.
    let d = descriptor(
        vec![param("acc", GLSLType::ArrayUint, &[Qualifier::In, Qualifier::Out])],
        "void main() {}",
    );
    let ctx = pipeline::context::derive(&vec![d]);
    assert_eq!(ctx.required, vec!["acc".to_string()]);
    assert!(ctx.produced.is_empty());
}

#[test]
fn derive_of_empty_chain_is_empty() {
    let ctx = pipeline::context::derive(&Vec::new());
    assert!(ctx.required.is_empty());
    assert!(ctx.produced.is_empty());
}

#[test]
fn initial_context_matches_single_descriptor_derive() {
    let mk = || {
        descriptor(
            vec![
                param("p", GLSLType::Float, &[Qualifier::In]),
                param("q", GLSLType::Float, &[Qualifier::Out]),
            ],
            "void main() {}",
        )
    };
    let from_derive = pipeline::context::derive(&vec![mk()]);
    let direct = initial_context(&mk());
    assert_eq!(direct.required, from_derive.required);
    assert_eq!(direct.produced, from_derive.produced);
}

#[test]
fn covering_all_required_names_reaches_ready_in_any_order() {
    let d = descriptor(
        vec![
            param("a", GLSLType::Float, &[Qualifier::In]),
            param("b", GLSLType::Float, &[Qualifier::In]),
            param("c", GLSLType::Float, &[Qualifier::In]),
        ],
        "void main() {}",
    );
    let ctx = pipeline::context::derive(&vec![d]);
    assert!(ctx.ready_to_run().is_err());
    let orders: Vec<Vec<&str>> = vec![
        vec!["a", "b", "c"],
        vec!["a", "c", "b"],
        vec!["b", "a", "c"],
        vec!["b", "c", "a"],
        vec!["c", "a", "b"],
        vec!["c", "b", "a"],
    ];
    for order in orders {
        let mut cur = BindingContext {
            required: ctx.required.clone(),
            produced: ctx.produced.clone(),
        };
        for name in order {
            cur = cur.consume(&name.to_string());
        }
        assert!(cur.is_ready());
        assert!(cur.ready_to_run().is_ok());
    }
}

#[test]
fn omitting_one_required_name_reports_exactly_that_name() {
    let d = descriptor(
        vec![
            param("a", GLSLType::Float, &[Qualifier::In]),
            param("b", GLSLType::Float, &[Qualifier::In]),
            param("c", GLSLType::Float, &[Qualifier::In]),
        ],
        "void main() {}",
    );
    for omitted in ["a", "b", "c"] {
        let mut cur = pipeline::context::derive(&vec![descriptor(
            vec![
                param("a", GLSLType::Float, &[Qualifier::In]),
                param("b", GLSLType::Float, &[Qualifier::In]),
                param("c", GLSLType::Float, &[Qualifier::In]),
            ],
            "void main() {}",
        )]);
        for name in ["a", "b", "c"] {
            if name != omitted {
                cur = cur.consume(&name.to_string());
            }
        }
        match cur.ready_to_run() {
            Err(PipelineError::MissingBindings { names }) => {
                assert_eq!(names, vec![omitted.to_string()]);
            }
            _ => panic!("expected MissingBindings"),
        }
    }
    let _ = d;
}

#[test]
fn consume_commutes_for_distinct_names() {
    let ctx = BindingContext {
        required: vec!["a".to_string(), "b".to_string(), "c".to_string()],
        produced: vec!["z".to_string()],
    };
    let ab = ctx.consume(&"a".to_string()).consume(&"b".to_string());
    let ba = ctx.consume(&"b".to_string()).consume(&"a".to_string());
    assert_eq!(ab.required, ba.required);
    assert_eq!(ab.produced, ba.produced);
}

#[test]
fn consume_is_idempotent_on_absence() {
    let ctx = BindingContext {
        required: vec!["a".to_string()],
        produced: Vec::new(),
    };
    let same = ctx.consume(&"nowhere".to_string());
    assert_eq!(same.required, vec!["a".to_string()]);
    assert!(same.produced.is_empty());
}

#[test]
fn can_pipe_succeeds_iff_required_subset_of_produced() {
    let producer = BindingContext {
        required: Vec::new(),
        produced: vec!["x".to_string(), "y".to_string(), "z".to_string()],
    };
    let consumer_ok = BindingContext {
        required: vec!["y".to_string(), "x".to_string()],
        produced: Vec::new(),
    };
    assert!(can_pipe(&producer, &consumer_ok).is_ok());

    let consumer_bad = BindingContext {
        required: vec!["x".to_string(), "w".to_string(), "q".to_string()],
        produced: Vec::new(),
    };
    match can_pipe(&producer, &consumer_bad) {
        Err(PipelineError::IncompatibleStages { missing }) => {
            assert_eq!(sorted(&missing), vec!["q".to_string(), "w".to_string()]);
        }
        _ => panic!("expected IncompatibleStages"),
    }
}

#[test]
fn can_pipe_with_empty_required_always_succeeds() {
    let producer = BindingContext {
        required: Vec::new(),
        produced: Vec::new(),
    };
    let consumer = BindingContext {
        required: Vec::new(),
        produced: Vec::new(),
    };
    assert!(can_pipe(&producer, &consumer).is_ok());
}

#[test]
fn chained_stages_pipe_compatibility() {
    let stage_a = descriptor(
        vec![
            param("position", GLSLType::Vec3, &[Qualifier::VertexInput, Qualifier::In]),
            param("fragmentColor", GLSLType::Vec3, &[Qualifier::Out]),
        ],
        "void main() { fragmentColor = vertexColor; }",
    );
    let stage_b = descriptor(
        vec![param("fragmentColor", GLSLType::Vec3, &[Qualifier::In])],
        "void main() { color = vec4(fragmentColor, 1.0); }",
    );
    let ctx_a = pipeline::context::derive(&vec![stage_a]);
    let ctx_b = pipeline::context::derive(&vec![stage_b]);
    assert!(can_pipe(&ctx_a, &ctx_b).is_ok());

    // Remove the `out` qualifier from stage A: piping now fails and reports
    // the missing name.
    let stage_a_without_out = descriptor(
        vec![
            param("position", GLSLType::Vec3, &[Qualifier::VertexInput, Qualifier::In]),
            param("fragmentColor", GLSLType::Vec3, &[]),
        ],
        "void main() { fragmentColor = vertexColor; }",
    );
    let ctx_b2 = pipeline::context::derive(&vec![descriptor(
        vec![param("fragmentColor", GLSLType::Vec3, &[Qualifier::In])],
        "void main() { color = vec4(fragmentColor, 1.0); }",
    )]);
    match can_pipe(&pipeline::context::derive(&vec![stage_a_without_out]), &ctx_b2) {
        Err(PipelineError::IncompatibleStages { missing }) => {
            assert_eq!(missing, vec!["fragmentColor".to_string()]);
        }
        _ => panic!("expected IncompatibleStages"),
    }
}
