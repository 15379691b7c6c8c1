//! The binding context: which parameter names a pipeline still requires from
//! its caller before it may execute, and which names it produces for a
//! downstream stage.
//!
//! A context is derived once per pipeline assembly by scanning the chained
//! shader descriptors in declared order; every bind step then threads a new
//! immutable context value through `consume`, and the execution gate
//! (`ready_to_run`) checks that nothing is left before work is issued.

use vstd::prelude::*;

use crate::descriptor::{DescriptorModel, ShaderDescriptor};
use crate::error::PipelineError;
use crate::model::{contains_qual, has_qual, ParameterModel, Qualifier};

verus! {

/// True iff some entry of `v` spells the name `n`.
pub open spec fn seq_has_name(v: Seq<String>, n: Seq<char>) -> bool {
    exists|i: int| 0 <= i < v.len() && v[i]@ == n
}

/// The set of names spelled by the entries of `v`.
pub open spec fn names_of(v: Seq<String>) -> Set<Seq<char>> {
    Set::new(|n: Seq<char>| seq_has_name(v, n))
}

/// Mathematical model of a [`BindingContext`]: the required and produced
/// name sets.
#[verifier::ext_equal]
pub ghost struct ContextModel {
    pub required: Set<Seq<char>>,
    pub produced: Set<Seq<char>>,
}

/// The set of names that must still be bound before execution (`required`)
/// and the set of names the pipeline as a whole makes available to a
/// downstream stage (`produced`).
pub struct BindingContext {
    pub required: Vec<String>,
    pub produced: Vec<String>,
}

impl View for BindingContext {
    type V = ContextModel;

    open spec fn view(&self) -> ContextModel {
        ContextModel { required: names_of(self.required@), produced: names_of(self.produced@) }
    }
}

/// The context before any descriptor has been scanned.
pub open spec fn empty_context() -> ContextModel {
    ContextModel { required: Set::empty(), produced: Set::empty() }
}

/// One step of the derivation fold.  A parameter tagged `In` is required
/// unless its name is already produced by an earlier parameter, in which case
/// that production is consumed instead; otherwise a parameter tagged `Out` is
/// recorded as produced.  `In` is checked first: a parameter carrying both
/// counts as an input here.
pub open spec fn scan_param(ctx: ContextModel, p: ParameterModel) -> ContextModel {
    if has_qual(p.qual, Qualifier::In) {
        if ctx.produced.contains(p.name) {
            ContextModel { required: ctx.required, produced: ctx.produced.remove(p.name) }
        } else {
            ContextModel { required: ctx.required.insert(p.name), produced: ctx.produced }
        }
    } else if has_qual(p.qual, Qualifier::Out) {
        ContextModel { required: ctx.required, produced: ctx.produced.insert(p.name) }
    } else {
        ctx
    }
}

/// Folds [`scan_param`] left to right over a parameter list.
pub open spec fn scan_params(ctx: ContextModel, params: Seq<ParameterModel>) -> ContextModel
    decreases params.len(),
{
    if params.len() == 0 {
        ctx
    } else {
        scan_param(scan_params(ctx, params.drop_last()), params.last())
    }
}

/// Folds the parameter lists of a descriptor chain, left to right.
pub open spec fn scan_descriptors(ctx: ContextModel, ds: Seq<DescriptorModel>) -> ContextModel
    decreases ds.len(),
{
    if ds.len() == 0 {
        ctx
    } else {
        scan_params(scan_descriptors(ctx, ds.drop_last()), ds.last().params)
    }
}

/// The binding context owed to a chain of shader descriptors.
pub open spec fn derive_model(ds: Seq<DescriptorModel>) -> ContextModel {
    scan_descriptors(empty_context(), ds)
}

/// `consume` at the model level: the name leaves the required set (a no-op
/// when absent); the produced set is untouched.
pub open spec fn consume_model(ctx: ContextModel, name: Seq<char>) -> ContextModel {
    ContextModel { required: ctx.required.remove(name), produced: ctx.produced }
}

pub proof fn lemma_names_of_push(v: Seq<String>, s: String)
    ensures
        names_of(v.push(s)) == names_of(v).insert(s@),
{
    let a = names_of(v.push(s));
    let b = names_of(v).insert(s@);
    assert forall|n: Seq<char>| a.contains(n) implies b.contains(n) by {
        assert(seq_has_name(v.push(s), n));
        let i = choose|i: int| 0 <= i < v.push(s).len() && v.push(s)[i]@ == n;
        if i < v.len() {
            assert(v[i]@ == n);
            assert(seq_has_name(v, n));
            assert(names_of(v).contains(n));
        } else {
            assert(n == s@);
        }
    };
    assert forall|n: Seq<char>| b.contains(n) implies a.contains(n) by {
        if names_of(v).contains(n) {
            assert(seq_has_name(v, n));
            let i = choose|i: int| 0 <= i < v.len() && v[i]@ == n;
            assert(v.push(s)[i]@ == n);
            assert(seq_has_name(v.push(s), n));
        } else {
            assert(n == s@);
            assert(v.push(s)[v.len() as int]@ == n);
            assert(seq_has_name(v.push(s), n));
        }
    };
    assert(a =~= b);
}

pub proof fn lemma_names_of_prefix_step(v: Seq<String>, i: int)
    requires
        0 <= i < v.len(),
    ensures
        names_of(v.subrange(0, i + 1)) == names_of(v.subrange(0, i)).insert(v[i]@),
{
    assert(v.subrange(0, i + 1) =~= v.subrange(0, i).push(v[i]));
    lemma_names_of_push(v.subrange(0, i), v[i]);
}

/// True iff `name` occurs in `v`.
pub fn contains_name(v: &Vec<String>, name: &String) -> (r: bool)
    ensures
        r == names_of(v@).contains(name@),
{
    let mut i: usize = 0;
    while i < v.len()
        invariant
            i <= v@.len(),
            forall|j: int| 0 <= j < i ==> v@[j]@ != name@,
        decreases v@.len() - i,
    {
        if v[i].eq(name) {
            assert(v@[i as int]@ == name@);
            assert(seq_has_name(v@, name@));
            return true;
        }
        i += 1;
    }
    assert(!seq_has_name(v@, name@));
    false
}

/// Copies a list of names, every occurrence of `name` left out.
fn remove_name(v: &Vec<String>, name: &String) -> (r: Vec<String>)
    ensures
        names_of(r@) == names_of(v@).remove(name@),
{
    let mut r: Vec<String> = Vec::new();
    let mut i: usize = 0;
    while i < v.len()
        invariant
            i <= v@.len(),
            names_of(r@) == names_of(v@.subrange(0, i as int)).remove(name@),
        decreases v@.len() - i,
    {
        proof {
            lemma_names_of_prefix_step(v@, i as int);
        }
        if !v[i].eq(name) {
            let ghost old_r = r@;
            r.push(v[i].clone());
            proof {
                lemma_names_of_push(old_r, r@[r@.len() - 1]);
                assert(r@[r@.len() - 1]@ == v@[i as int]@);
                assert(names_of(r@) =~= names_of(v@.subrange(0, i + 1)).remove(name@));
            }
        } else {
            proof {
                assert(names_of(r@) =~= names_of(v@.subrange(0, i + 1)).remove(name@));
            }
        }
        i += 1;
    }
    proof {
        assert(v@.subrange(0, v@.len() as int) =~= v@);
    }
    r
}

/// Copies a list of names.
pub fn clone_strings(v: &Vec<String>) -> (r: Vec<String>)
    ensures
        r@ == v@,
{
    let mut r: Vec<String> = Vec::new();
    let mut i: usize = 0;
    while i < v.len()
        invariant
            i <= v@.len(),
            r@ == v@.subrange(0, i as int),
        decreases v@.len() - i,
    {
        r.push(v[i].clone());
        assert(r@ =~= v@.subrange(0, i + 1));
        i += 1;
    }
    assert(r@ =~= v@);
    r
}

/// Applies one descriptor's parameter list to the context held in
/// `required` / `produced`.
fn apply_descriptor(required: &mut Vec<String>, produced: &mut Vec<String>, d: &ShaderDescriptor)
    ensures
        (ContextModel {
            required: names_of(final(required)@),
            produced: names_of(final(produced)@),
        }) == scan_params(
            ContextModel {
                required: names_of(old(required)@),
                produced: names_of(old(produced)@),
            },
            d@.params,
        ),
{
    let ghost ctx0 = ContextModel {
        required: names_of(required@),
        produced: names_of(produced@),
    };
    let mut pi: usize = 0;
    while pi < d.params.len()
        invariant
            pi <= d.params@.len(),
            (ContextModel { required: names_of(required@), produced: names_of(produced@) })
                == scan_params(ctx0, d@.params.subrange(0, pi as int)),
        decreases d.params@.len() - pi,
    {
        let ghost pre = ContextModel {
            required: names_of(required@),
            produced: names_of(produced@),
        };
        let p = &d.params[pi];
        proof {
            assert(d@.params[pi as int] == p@);
        }
        if contains_qual(&p.qual, Qualifier::In) {
            if contains_name(produced, &p.name) {
                let removed = remove_name(produced, &p.name);
                *produced = removed;
            } else {
                if !contains_name(required, &p.name) {
                    let ghost old_req = required@;
                    required.push(p.name.clone());
                    proof {
                        lemma_names_of_push(old_req, required@[required@.len() - 1]);
                        assert(names_of(required@) =~= pre.required.insert(p@.name));
                    }
                } else {
                    proof {
                        assert(pre.required.insert(p@.name) =~= pre.required);
                    }
                }
            }
        } else if contains_qual(&p.qual, Qualifier::Out) {
            if !contains_name(produced, &p.name) {
                let ghost old_prod = produced@;
                produced.push(p.name.clone());
                proof {
                    lemma_names_of_push(old_prod, produced@[produced@.len() - 1]);
                    assert(names_of(produced@) =~= pre.produced.insert(p@.name));
                }
            } else {
                proof {
                    assert(pre.produced.insert(p@.name) =~= pre.produced);
                }
            }
        }
        proof {
            assert(d@.params.subrange(0, pi + 1).drop_last() =~= d@.params.subrange(0, pi as int));
            assert(d@.params.subrange(0, pi + 1).last() == d@.params[pi as int]);
            assert((ContextModel { required: names_of(required@), produced: names_of(produced@) })
                =~= scan_param(pre, d@.params[pi as int]));
            assert((ContextModel { required: names_of(required@), produced: names_of(produced@) })
                == scan_params(ctx0, d@.params.subrange(0, pi + 1)));
        }
        pi += 1;
    }
    proof {
        assert(d@.params.subrange(0, d@.params.len() as int) =~= d@.params);
    }
}

/// Derives the binding context of a descriptor chain by scanning the
/// descriptors in declared sequence: each `In` parameter becomes required
/// unless an earlier stage produced its name (that production is then spent),
/// and each `Out` parameter becomes produced.
pub fn derive(descriptors: &Vec<ShaderDescriptor>) -> (r: BindingContext)
    ensures
        r@ == derive_model(descriptors@.map_values(|d: ShaderDescriptor| d@)),
{
    let ghost dsm = descriptors@.map_values(|d: ShaderDescriptor| d@);
    let mut required: Vec<String> = Vec::new();
    let mut produced: Vec<String> = Vec::new();
    proof {
        assert(names_of(required@) =~= Set::<Seq<char>>::empty());
        assert(names_of(produced@) =~= Set::<Seq<char>>::empty());
    }
    let mut di: usize = 0;
    while di < descriptors.len()
        invariant
            di <= descriptors@.len(),
            dsm == descriptors@.map_values(|d: ShaderDescriptor| d@),
            (ContextModel { required: names_of(required@), produced: names_of(produced@) })
                == scan_descriptors(empty_context(), dsm.subrange(0, di as int)),
        decreases descriptors@.len() - di,
    {
        apply_descriptor(&mut required, &mut produced, &descriptors[di]);
        proof {
            assert(dsm.subrange(0, di + 1).drop_last() =~= dsm.subrange(0, di as int));
            assert(dsm.subrange(0, di + 1).last() == dsm[di as int]);
            assert(dsm[di as int] == descriptors@[di as int]@);
        }
        di += 1;
    }
    proof {
        assert(dsm.subrange(0, dsm.len() as int) =~= dsm);
    }
    BindingContext { required, produced }
}

/// The initial context of a single descriptor, the side artifact of
/// declaring a shader.
pub fn initial_context(d: &ShaderDescriptor) -> (r: BindingContext)
    ensures
        r@ == scan_params(empty_context(), d@.params),
        r@ == derive_model(seq![d@]),
{
    let mut required: Vec<String> = Vec::new();
    let mut produced: Vec<String> = Vec::new();
    proof {
        assert(names_of(required@) =~= Set::<Seq<char>>::empty());
        assert(names_of(produced@) =~= Set::<Seq<char>>::empty());
    }
    apply_descriptor(&mut required, &mut produced, d);
    proof {
        reveal_with_fuel(scan_descriptors, 2);
        assert(seq![d@].drop_last() =~= Seq::<DescriptorModel>::empty());
        assert(seq![d@].last() == d@);
    }
    BindingContext { required, produced }
}

impl BindingContext {
    /// A pure transition: the context with `name` no longer required.
    /// Idempotent on absence: consuming a name that is not required changes
    /// nothing.  The receiver is left untouched; every bind step yields a new
    /// context value.
    pub fn consume(&self, name: &String) -> (r: BindingContext)
        ensures
            r@ == consume_model(self@, name@),
    {
        let required = remove_name(&self.required, name);
        let produced = clone_strings(&self.produced);
        let r = BindingContext { required, produced };
        proof {
            assert(r@ =~= consume_model(self@, name@));
        }
        r
    }

    /// True iff no name is still required.
    pub fn is_ready(&self) -> (r: bool)
        ensures
            r <==> self@.required == Set::<Seq<char>>::empty(),
    {
        let r = self.required.len() == 0;
        proof {
            if self.required@.len() == 0 {
                assert(names_of(self.required@) =~= Set::<Seq<char>>::empty());
            } else {
                assert(self.required@[0]@ == self.required@[0]@);
                assert(seq_has_name(self.required@, self.required@[0]@));
                assert(names_of(self.required@).contains(self.required@[0]@));
            }
        }
        r
    }

    /// The execution gate's checkpoint: succeeds, with no side effect, iff
    /// every required name has been consumed; otherwise reports the forgotten
    /// names.
    pub fn ready_to_run(&self) -> (r: Result<(), PipelineError>)
        ensures
            r is Ok <==> self@.required == Set::<Seq<char>>::empty(),
            r matches Err(e) ==> (e matches PipelineError::MissingBindings { names }
                && names@ == self.required@ && names_of(names@) == self@.required),
    {
        if self.is_ready() {
            Ok(())
        } else {
            Err(PipelineError::MissingBindings { names: clone_strings(&self.required) })
        }
    }
}

/// Validates stage chaining: succeeds iff every name the consumer requires is
/// produced by the producer; otherwise reports exactly the missing names.
/// Meant to run at composition time, before any GPU work is issued.
pub fn can_pipe(producer: &BindingContext, consumer: &BindingContext) -> (r: Result<
    (),
    PipelineError,
>)
    ensures
        r is Ok <==> consumer@.required.subset_of(producer@.produced),
        r matches Err(e) ==> (e matches PipelineError::IncompatibleStages { missing }
            && names_of(missing@) == consumer@.required.difference(producer@.produced)),
{
    let mut missing: Vec<String> = Vec::new();
    let mut i: usize = 0;
    while i < consumer.required.len()
        invariant
            i <= consumer.required@.len(),
            names_of(missing@) == names_of(consumer.required@.subrange(0, i as int)).difference(
                names_of(producer.produced@),
            ),
        decreases consumer.required@.len() - i,
    {
        proof {
            lemma_names_of_prefix_step(consumer.required@, i as int);
        }
        let name = &consumer.required[i];
        if !contains_name(&producer.produced, name) {
            if !contains_name(&missing, name) {
                let ghost old_missing = missing@;
                missing.push(name.clone());
                proof {
                    lemma_names_of_push(old_missing, missing@[missing@.len() - 1]);
                }
            }
        }
        proof {
            assert(names_of(missing@) =~= names_of(consumer.required@.subrange(0, i + 1))
                .difference(names_of(producer.produced@)));
        }
        i += 1;
    }
    proof {
        assert(consumer.required@.subrange(0, consumer.required@.len() as int)
            =~= consumer.required@);
    }
    if missing.len() == 0 {
        proof {
            assert(names_of(missing@) =~= Set::<Seq<char>>::empty());
            assert forall|n: Seq<char>| consumer@.required.contains(n)
                implies producer@.produced.contains(n) by {
                assert(!names_of(missing@).contains(n));
            };
        }
        Ok(())
    } else {
        proof {
            assert(seq_has_name(missing@, missing@[0]@));
            assert(names_of(missing@).contains(missing@[0]@));
            assert(!consumer@.required.subset_of(producer@.produced));
        }
        Err(PipelineError::IncompatibleStages { missing })
    }
}

/// Folds [`consume_model`] over a sequence of names, the way repeated binds
/// thread the context.
pub open spec fn consume_all(ctx: ContextModel, names: Seq<Seq<char>>) -> ContextModel
    decreases names.len(),
{
    if names.len() == 0 {
        ctx
    } else {
        consume_all(consume_model(ctx, names.first()), names.drop_first())
    }
}

/// Law: consuming any sequence of names leaves exactly the required names not
/// among them, in whatever order the names are consumed; the produced set is
/// never touched.
pub proof fn lemma_consume_all_difference(ctx: ContextModel, names: Seq<Seq<char>>)
    ensures
        consume_all(ctx, names).required == ctx.required.difference(names.to_set()),
        consume_all(ctx, names).produced == ctx.produced,
    decreases names.len(),
{
    if names.len() == 0 {
        assert(ctx.required.difference(names.to_set()) =~= ctx.required);
    } else {
        lemma_consume_all_difference(consume_model(ctx, names.first()), names.drop_first());
        assert forall|x: Seq<char>| names.to_set().contains(x)
            <==> (x == names.first() || names.drop_first().to_set().contains(x)) by {
            if names.to_set().contains(x) {
                let i = choose|i: int| 0 <= i < names.len() && names[i] == x;
                if i > 0 {
                    assert(names.drop_first()[i - 1] == x);
                    assert(names.drop_first().contains(x));
                }
            }
            if names.drop_first().to_set().contains(x) {
                let i = choose|i: int| 0 <= i < names.drop_first().len()
                    && names.drop_first()[i] == x;
                assert(names[i + 1] == x);
                assert(names.contains(x));
            }
            if x == names.first() {
                assert(names[0] == x);
                assert(names.contains(x));
            }
        };
        assert(ctx.required.remove(names.first()).difference(names.drop_first().to_set())
            =~= ctx.required.difference(names.to_set()));
    }
}

/// Law (covering): binding calls that consume exactly the required names, in
/// any order, leave the context ready to run.
pub proof fn lemma_cover_is_ready(ctx: ContextModel, names: Seq<Seq<char>>)
    requires
        names.to_set() == ctx.required,
    ensures
        consume_all(ctx, names).required == Set::<Seq<char>>::empty(),
{
    lemma_consume_all_difference(ctx, names);
    assert(ctx.required.difference(ctx.required) =~= Set::<Seq<char>>::empty());
}

/// Law (omission): consuming every required name but one leaves exactly the
/// omitted name required, so `ready_to_run` reports exactly that name.
pub proof fn lemma_omit_one_missing(ctx: ContextModel, names: Seq<Seq<char>>, omitted: Seq<char>)
    requires
        ctx.required.contains(omitted),
        names.to_set() == ctx.required.remove(omitted),
    ensures
        consume_all(ctx, names).required == Set::<Seq<char>>::empty().insert(omitted),
{
    lemma_consume_all_difference(ctx, names);
    assert(ctx.required.difference(ctx.required.remove(omitted))
        =~= Set::<Seq<char>>::empty().insert(omitted));
}

/// Law: `consume` commutes for distinct names.
pub proof fn lemma_consume_commutes(ctx: ContextModel, a: Seq<char>, b: Seq<char>)
    requires
        a != b,
    ensures
        consume_model(consume_model(ctx, a), b) == consume_model(consume_model(ctx, b), a),
{
    assert(ctx.required.remove(a).remove(b) =~= ctx.required.remove(b).remove(a));
    assert(consume_model(consume_model(ctx, a), b) =~= consume_model(consume_model(ctx, b), a));
}

} // verus!
