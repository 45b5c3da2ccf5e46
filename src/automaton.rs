//! The transducer as this library sees it: `rustfst`'s `VectorFst` over the
//! tropical semiring, modelled as a sequence of states, each with a final
//! flag and its arcs in insertion order.

use rustfst::fst_impls::VectorFst;
use rustfst::fst_traits::{CoreFst, ExpandedFst, MutableFst};
use rustfst::semirings::{Semiring, TropicalWeight};
use rustfst::trs::Trs;
use rustfst::Tr;
use vstd::prelude::*;

verus! {

#[verifier::external_type_specification]
#[verifier::external_body]
pub struct ExAnyhowError(anyhow::Error);

/// The transducer built and queried by this library. Verus refuses a
/// declaration of the generic `VectorFst`, so it is held here, opaque, and
/// read only through the functions below.
#[verifier::external_body]
pub struct Transducer {
    pub fst: VectorFst<TropicalWeight>,
}

/// An arc as `(input label, output label, target state)`.
pub type ArcModel = (u32, u32, u32);

/// A state as `(is final, outgoing arcs in insertion order)`.
pub type StateModel = (bool, Seq<ArcModel>);

/// The states of a transducer, indexed by state id.
pub uninterp spec fn fst_states(f: Transducer) -> Seq<StateModel>;

/// The start state of a transducer, if one is set.
pub uninterp spec fn fst_start(f: Transducer) -> Option<u32>;

/// Relies on `VectorFst::new`: no states and no start state.
#[verifier::external_body]
pub(crate) fn fst_new() -> (r: Transducer)
    ensures
        fst_states(r) == Seq::<StateModel>::empty(),
        fst_start(r) == None::<u32>,
{
    Transducer { fst: VectorFst::new() }
}

/// Relies on `VectorFst::add_state`: appends a non-final state without arcs
/// and returns its index.
#[verifier::external_body]
pub(crate) fn fst_add_state(f: &mut Transducer) -> (r: u32)
    requires
        fst_states(*old(f)).len() < u32::MAX,
    ensures
        r == fst_states(*old(f)).len(),
        fst_states(*final(f)) == fst_states(*old(f)).push((false, Seq::<ArcModel>::empty())),
        fst_start(*final(f)) == fst_start(*old(f)),
{
    f.fst.add_state()
}

/// Relies on `VectorFst::set_start`: fails exactly when the state does not exist.
#[verifier::external_body]
pub(crate) fn fst_set_start(f: &mut Transducer, s: u32) -> (r: Result<(), anyhow::Error>)
    ensures
        fst_states(*final(f)) == fst_states(*old(f)),
        r is Ok <==> s < fst_states(*old(f)).len(),
        r is Ok ==> fst_start(*final(f)) == Some(s),
        r is Err ==> fst_start(*final(f)) == fst_start(*old(f)),
{
    f.fst.set_start(s)
}

/// Relies on `VectorFst::add_tr`: appends an arc with weight one (0.0 in the
/// tropical semiring) to the arcs of `from`; fails exactly when `from` does
/// not exist.
#[verifier::external_body]
pub(crate) fn fst_add_arc(f: &mut Transducer, from: u32, ilabel: u32, olabel: u32, to: u32) -> (r: Result<(), anyhow::Error>)
    ensures
        r is Ok <==> from < fst_states(*old(f)).len(),
        r is Ok ==> fst_states(*final(f)) == fst_states(*old(f)).update(
            from as int,
            (fst_states(*old(f))[from as int].0, fst_states(*old(f))[from as int].1.push((ilabel, olabel, to))),
        ),
        r is Err ==> fst_states(*final(f)) == fst_states(*old(f)),
        fst_start(*final(f)) == fst_start(*old(f)),
{
    f.fst.add_tr(from, Tr::new(ilabel, olabel, TropicalWeight::one(), to))
}

/// Relies on `VectorFst::set_final`: gives the state the final weight one
/// (0.0), which is not the semiring's zero, so the state becomes final;
/// fails exactly when the state does not exist.
#[verifier::external_body]
pub(crate) fn fst_set_final(f: &mut Transducer, s: u32) -> (r: Result<(), anyhow::Error>)
    ensures
        r is Ok <==> s < fst_states(*old(f)).len(),
        r is Ok ==> fst_states(*final(f)) == fst_states(*old(f)).update(
            s as int,
            (true, fst_states(*old(f))[s as int].1),
        ),
        r is Err ==> fst_states(*final(f)) == fst_states(*old(f)),
        fst_start(*final(f)) == fst_start(*old(f)),
{
    f.fst.set_final(s, TropicalWeight::one())
}

/// Relies on `VectorFst::start`.
#[verifier::external_body]
pub(crate) fn fst_start_state(f: &Transducer) -> (r: Option<u32>)
    ensures
        r == fst_start(*f),
{
    f.fst.start()
}

/// Relies on `VectorFst::num_states`.
#[verifier::external_body]
pub(crate) fn fst_num_states(f: &Transducer) -> (r: usize)
    ensures
        r == fst_states(*f).len(),
{
    f.fst.num_states()
}

/// Relies on `VectorFst::num_trs`: the number of arcs leaving a state;
/// fails exactly when the state does not exist.
#[verifier::external_body]
pub(crate) fn fst_num_arcs(f: &Transducer, s: u32) -> (r: Result<usize, anyhow::Error>)
    ensures
        r is Ok <==> s < fst_states(*f).len(),
        r is Ok ==> r->Ok_0 == fst_states(*f)[s as int].1.len(),
{
    f.fst.num_trs(s)
}

/// Relies on `VectorFst::get_trs`: the `i`-th arc leaving a state, in
/// insertion order; fails exactly when the state does not exist.
#[verifier::external_body]
pub(crate) fn fst_arc_at(f: &Transducer, s: u32, i: usize) -> (r: Result<ArcModel, anyhow::Error>)
    requires
        s < fst_states(*f).len() ==> i < fst_states(*f)[s as int].1.len(),
    ensures
        r is Ok <==> s < fst_states(*f).len(),
        r is Ok ==> r->Ok_0 == fst_states(*f)[s as int].1[i as int],
{
    f.fst.get_trs(s).map(|trs| {
        let t = &trs.trs()[i];
        (t.ilabel, t.olabel, t.nextstate)
    })
}

/// Relies on `Fst::is_final`: whether the state has a final weight other
/// than the semiring's zero; fails exactly when the state does not exist.
#[verifier::external_body]
pub(crate) fn fst_is_final(f: &Transducer, s: u32) -> (r: Result<bool, anyhow::Error>)
    ensures
        r is Ok <==> s < fst_states(*f).len(),
        r is Ok ==> r->Ok_0 == fst_states(*f)[s as int].0,
{
    f.fst.is_final(s)
}

} // verus!
