//! Trusted interface to the ASN.1 object-identifier representation.
//!
//! The surrounding protocol stack represents an OID as `rasn`'s
//! `ObjectIdentifier`: an ordered, non-empty sequence of 32-bit arcs.
//! Verified code treats that type as opaque and speaks of its contents
//! through the uninterpreted `oid_arcs` function; the two wrappers below
//! are the only places that touch the type directly.

use vstd::prelude::*;

verus! {

#[verifier::external_type_specification]
#[verifier::external_body]
pub struct ExObjectIdentifier(rasn::types::ObjectIdentifier);

/// The arcs that an `ObjectIdentifier` holds, in order.
pub uninterp spec fn oid_arcs(oid: rasn::types::ObjectIdentifier) -> Seq<u32>;

/// The arc sequences that `rasn` accepts when constructing an
/// `ObjectIdentifier`: non-empty, first arc at most 2, and, when the first
/// arc is 0 or 1, a second arc of at most 39 (larger values would alias
/// onto a different identifier under the X.690 octet packing).
pub open spec fn valid_oid_arcs(arcs: Seq<u32>) -> bool {
    &&& arcs.len() > 0
    &&& arcs[0] <= 2
    &&& (arcs[0] < 2 && arcs.len() >= 2 ==> arcs[1] <= 39)
}

/// Relies on the `Clone` that `rasn` derives for `ObjectIdentifier`: the
/// clone holds the same arcs.
pub assume_specification[ <rasn::types::ObjectIdentifier as Clone>::clone ](
    oid: &rasn::types::ObjectIdentifier,
) -> (r: rasn::types::ObjectIdentifier)
    ensures
        oid_arcs(r) == oid_arcs(*oid),
;

/// Relies on `rasn::types::ObjectIdentifier::new`: it returns `Some`
/// exactly when the arcs form a valid object identifier (non-empty, first
/// arc <= 2, second arc <= 39 when the first is below 2), and the value
/// built holds the given arcs unchanged.
#[verifier::external_body]
pub(crate) fn oid_new(arcs: Vec<u32>) -> (r: Option<rasn::types::ObjectIdentifier>)
    ensures
        r is Some <==> valid_oid_arcs(arcs@),
        r matches Some(oid) ==> oid_arcs(oid) == arcs@,
{
    rasn::types::ObjectIdentifier::new(arcs)
}

/// Relies on `rasn`'s `AsRef<[u32]>` for `ObjectIdentifier`: it exposes
/// exactly the arcs the identifier was built from, in order.
#[verifier::external_body]
pub(crate) fn oid_components(oid: &rasn::types::ObjectIdentifier) -> (r: Vec<u32>)
    ensures
        r@ == oid_arcs(*oid),
{
    oid.as_ref().to_vec()
}

} // verus!
