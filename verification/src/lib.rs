//! kvasir — a fragment-gated, proof-emitting OWL refuter with an independent proof kernel.
//!
//! Refuse, don't approximate: admission rejects constructs outside the pinned fragment by name.
//! The engine is a sound refuter, never a certifier: every `Refuted` verdict ships a proof
//! that the kernel re-derives step by step.
use vstd::prelude::*;
use crate::fragment::{Axiom, OutOfFragment, doc_spec, parse_kfs, axioms_view};
use crate::saturate::{saturate, is_verdict_of};
use crate::verdict::Verdict;
use crate::kfsb::{FactStream, read, resolve_from, bins_view};
use crate::fragment::names_view;

pub mod text;
pub mod closure;
pub mod ddl;
pub mod fragment;
pub mod kernel;
pub mod kfsb;
pub mod manchester;
pub mod names;
pub mod saturate;
pub mod semantics;
pub mod shapes;
pub mod verdict;
pub mod verbalise;

verus! {

/// Admit and saturate in one call: the whole engine on a text document.
pub fn check(kfs_text: &str) -> (r: Result<(Vec<Axiom>, Verdict), OutOfFragment>)
    ensures
        match doc_spec(kfs_text@) {
            Ok((axs, _)) => r matches Ok((xs, v)) && axioms_view(xs@) == axs && is_verdict_of(axs, v),
            Err(e) => r matches Err(x) && x@ == e,
        },
{
    let axioms = match parse_kfs(kfs_text) {
        Ok(a) => a,
        Err(e) => return Err(e),
    };
    let verdict = saturate(axioms.as_slice());
    Ok((axioms, verdict))
}

/// Read and saturate in one call: the whole engine on a binary fact stream.
pub fn check_kfsb(fs: &FactStream) -> (r: Result<(Vec<Axiom>, Verdict), OutOfFragment>)
    ensures
        match resolve_from(names_view(fs.names@), bins_view(fs.axioms@), 0) {
            Ok(axs) => r matches Ok((xs, v)) && axioms_view(xs@) == axs && is_verdict_of(axs, v),
            Err(e) => r matches Err(x) && x@ == e,
        },
{
    let axioms = match read(fs) {
        Ok(a) => a,
        Err(e) => return Err(e),
    };
    let verdict = saturate(axioms.as_slice());
    Ok((axioms, verdict))
}

} // verus!
