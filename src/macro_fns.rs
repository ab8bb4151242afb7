use vstd::prelude::*;
use crate::database::{Database, EngineError};
use crate::ids::{DerivedNodeId, NodeKind, ParamId};
use crate::node::DidRecalculate;
use crate::params::{interned, ParamValue};
use tinyvec::ArrayVec;

verus! {

#[verifier::external_type_specification]
#[verifier::external_body]
#[verifier::reject_recursive_types(A)]
pub struct ExArrayVec<A>(ArrayVec<A>);

/// A list of argument ids held inline, with room for eight.
pub type ParamVec = ArrayVec<[ParamId; 8]>;

/// The ids held in a param list, in order.
pub uninterp spec fn param_vec_items(v: ParamVec) -> Seq<ParamId>;

/// How many ids a param list has room for.
pub uninterp spec fn param_vec_capacity(v: ParamVec) -> nat;

/// Relies on tinyvec's `ArrayVec::default`: a list with no items, whose
/// capacity is the length of its backing array of eight ids.
#[verifier::external_body]
pub fn init_param_vec() -> (r: ParamVec)
    ensures
        param_vec_items(r).len() == 0,
        param_vec_capacity(r) == 8,
{
    ArrayVec::default()
}

/// Interns a borrowed argument value, copying it only when it is new.
pub fn intern_borrowed_param(db: &mut Database, param: &ParamValue) -> (r: ParamId)
    requires
        old(db).wf(),
        old(db).params_spec().len() < usize::MAX,
    ensures
        final(db).wf(),
        final(db).params_spec() == interned(old(db).params_spec(), *param),
        (r.index as int) < final(db).params_spec().len(),
        final(db).params_spec()[r.index as int] == *param,
        final(db).sources_spec() == old(db).sources_spec(),
        final(db).functions_spec() == old(db).functions_spec(),
        final(db).derived_spec() == old(db).derived_spec(),
        final(db).epoch_spec() == old(db).epoch_spec(),
{
    db.intern(*param)
}

/// Interns an owned argument value, moving it in only when it is new.
pub fn intern_owned_param(db: &mut Database, param: ParamValue) -> (r: ParamId)
    requires
        old(db).wf(),
        old(db).params_spec().len() < usize::MAX,
    ensures
        final(db).wf(),
        final(db).params_spec() == interned(old(db).params_spec(), param),
        (r.index as int) < final(db).params_spec().len(),
        final(db).params_spec()[r.index as int] == param,
        final(db).sources_spec() == old(db).sources_spec(),
        final(db).functions_spec() == old(db).functions_spec(),
        final(db).derived_spec() == old(db).derived_spec(),
        final(db).epoch_spec() == old(db).epoch_spec(),
{
    db.intern(param)
}

/// The argument value interned under `param_id`, if any.
pub fn get_param(db: &Database, param_id: ParamId) -> (r: Option<ParamValue>)
    ensures
        r == (if (param_id.index as int) < db.params_spec().len() {
            Some(db.params_spec()[param_id.index as int])
        } else {
            None::<ParamValue>
        }),
{
    db.get_param(param_id)
}

/// Brings the memoized node `derived_node_id` up to date and reports whether
/// its value changed.
pub fn execute_memoized_function(db: &mut Database, derived_node_id: DerivedNodeId) -> (r: Result<
    DidRecalculate,
    EngineError,
>)
    requires
        old(db).wf(),
    ensures
        r is Err <==> !old(db).is_registered(derived_node_id.key) || !old(db).param_interned(
            derived_node_id.param_id,
        ),
        !old(db).is_registered(derived_node_id.key) ==> r == Err::<DidRecalculate, EngineError>(
            EngineError::UnknownFunction,
        ),
        old(db).is_registered(derived_node_id.key) && !old(db).param_interned(derived_node_id.param_id)
            ==> r == Err::<DidRecalculate, EngineError>(EngineError::UnknownParam),
        r is Err ==> *final(db) == *old(db),
        r is Ok ==> old(db).resolved(
            final(db),
            derived_node_id,
            (old(db).value_from_scratch(NodeKind::Derived(derived_node_id)), r->Ok_0),
        ),
{
    match db.resolve(derived_node_id) {
        Ok((_, did)) => Ok(did),
        Err(e) => Err(e),
    }
}

} // verus!
