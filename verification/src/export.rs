//! The call-wrapper generator's decisions: which function signatures are
//! eligible for a boundary-exported entry point, and what the exported
//! signature looks like.
//!
//! The build-time facility splices types and bodies; what it decides is
//! captured here as a function from a signature's shape to either an export
//! plan or the reason the signature is refused. An eligible function is
//! public, not asynchronous, generic over lifetimes at most, not variadic,
//! and takes no receiver; its exported symbol is its own name unless an
//! external name is supplied, and its boundary parameters are named after
//! their positions.

use vstd::prelude::*;

use crate::numtext::{nat_text, u64_to_string};

verus! {

/// One generic parameter of a signature.
#[derive(Debug, PartialEq, Eq, Structural, Clone, Copy)]
pub enum GenericKind {
    Lifetime,
    Type,
    Const,
}

/// The shape of a native function's signature, as the generator reads it.
pub struct FnSig {
    pub is_public: bool,
    pub is_async: bool,
    pub is_variadic: bool,
    pub has_receiver: bool,
    pub generics: Vec<GenericKind>,
    pub name: String,
    pub arg_count: usize,
}

/// Why a signature is refused.
#[derive(Debug, PartialEq, Eq, Structural, Clone, Copy)]
pub enum GmFuncError {
    NotPublic,
    IsAsync,
    NonLifetimeGeneric,
    Variadic,
    HasReceiver,
}

/// The exported entry point's shape: its symbol and the names of its
/// boundary parameters, in order.
#[derive(Debug, PartialEq)]
pub struct ExportPlan {
    pub symbol: String,
    pub arg_names: Vec<String>,
}

/// The name of the boundary parameter at position `i`.
pub open spec fn arg_name(i: int) -> Seq<char> {
    seq!['a', 'r', 'g', '_'] + nat_text(i as nat)
}

/// Whether every generic parameter is a lifetime.
pub open spec fn only_lifetimes(gs: Seq<GenericKind>) -> bool {
    forall|i: int| 0 <= i < gs.len() ==> gs[i] == GenericKind::Lifetime
}

/// Decides whether a signature gets an exported entry point, and what it
/// looks like: the checks apply in order, and an accepted signature's plan
/// carries the external name or the function's own, and one positional
/// parameter name for each argument.
pub fn gm_func(sig: &FnSig, export_name: &Option<String>) -> (r: Result<ExportPlan, GmFuncError>)
    ensures
        !sig.is_public ==> r == Err::<ExportPlan, GmFuncError>(GmFuncError::NotPublic),
        sig.is_public && sig.is_async ==> r == Err::<ExportPlan, GmFuncError>(
            GmFuncError::IsAsync,
        ),
        sig.is_public && !sig.is_async && !only_lifetimes(sig.generics@) ==> r == Err::<
            ExportPlan,
            GmFuncError,
        >(GmFuncError::NonLifetimeGeneric),
        sig.is_public && !sig.is_async && only_lifetimes(sig.generics@) && sig.is_variadic ==> r
            == Err::<ExportPlan, GmFuncError>(GmFuncError::Variadic),
        sig.is_public && !sig.is_async && only_lifetimes(sig.generics@) && !sig.is_variadic
            && sig.has_receiver ==> r == Err::<ExportPlan, GmFuncError>(GmFuncError::HasReceiver),
        sig.is_public && !sig.is_async && only_lifetimes(sig.generics@) && !sig.is_variadic
            && !sig.has_receiver ==> (r matches Ok(p) && p.symbol@ == (match export_name {
            Some(n) => n@,
            None => sig.name@,
        }) && p.arg_names@.len() == sig.arg_count && (forall|i: int|
            0 <= i < sig.arg_count ==> (#[trigger] p.arg_names@[i])@ == arg_name(i))),
{
    if !sig.is_public {
        return Err(GmFuncError::NotPublic);
    }
    if sig.is_async {
        return Err(GmFuncError::IsAsync);
    }
    let mut g: usize = 0;
    while g < sig.generics.len()
        invariant
            g <= sig.generics@.len(),
            sig.is_public,
            !sig.is_async,
            forall|i: int| 0 <= i < g ==> sig.generics@[i] == GenericKind::Lifetime,
        decreases sig.generics@.len() - g,
    {
        let kind = sig.generics[g];
        match kind {
            GenericKind::Lifetime => {
            },
            _ => {
                proof {
                    assert(sig.generics@[g as int] != GenericKind::Lifetime);
                }
                return Err(GmFuncError::NonLifetimeGeneric);
            },
        }
        g = g + 1;
    }
    if sig.is_variadic {
        return Err(GmFuncError::Variadic);
    }
    if sig.has_receiver {
        return Err(GmFuncError::HasReceiver);
    }
    let symbol: String = match export_name {
        Some(n) => clone_string(n),
        None => clone_string(&sig.name),
    };
    let mut arg_names: Vec<String> = Vec::new();
    let mut i: usize = 0;
    proof {
        reveal_strlit("arg_");
    }
    while i < sig.arg_count
        invariant
            i <= sig.arg_count,
            sig.is_public,
            !sig.is_async,
            only_lifetimes(sig.generics@),
            !sig.is_variadic,
            !sig.has_receiver,
            arg_names@.len() == i,
            forall|j: int| 0 <= j < i ==> (#[trigger] arg_names@[j])@ == arg_name(j),
            "arg_"@ == seq!['a', 'r', 'g', '_'],
        decreases sig.arg_count - i,
    {
        let mut name = "arg_".to_owned();
        name.append(u64_to_string(i as u64).as_str());
        arg_names.push(name);
        i = i + 1;
    }
    Ok(ExportPlan { symbol, arg_names })
}

/// Copies a string.
fn clone_string(s: &String) -> (r: String)
    ensures
        r@ == s@,
{
    s.clone()
}

} // verus!
