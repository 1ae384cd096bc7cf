//! The geo annotator's label, assembled from whatever the enrichment
//! lookup produced.
//!
//! The lookup itself — an HTTP request to a geolocation service and the
//! parsing of its answer — happens outside the library and is best effort:
//! it hands in either the three fields read from the answer, or nothing.
//! Any failure on the way collapses to the fallback label, never an error.

use vstd::prelude::*;
use crate::lines::append_bytes;
use crate::lines::clone_bytes;

verus! {

/// The fallback label, `unknown region`, as bytes.
pub open spec fn unknown_region_bytes() -> Seq<u8> {
    seq![117u8, 110, 107, 110, 111, 119, 110, 32, 114, 101, 103, 105, 111, 110]
}

/// The label for a winning IP: country code, country and city joined with
/// commas when the enrichment lookup succeeded, the fallback otherwise.
pub fn geo_label(info: Option<(Vec<u8>, Vec<u8>, Vec<u8>)>) -> (r: Vec<u8>)
    ensures
        info matches Some(t) ==> r@ == t.0@ + seq![44u8] + t.1@ + seq![44u8] + t.2@,
        info is None ==> r@ == unknown_region_bytes(),
{
    match info {
        Some(t) => {
            let mut out = clone_bytes(&t.0);
            out.push(44);
            append_bytes(&mut out, &t.1);
            out.push(44);
            append_bytes(&mut out, &t.2);
            proof {
                assert(out@ =~= t.0@ + seq![44u8] + t.1@ + seq![44u8] + t.2@);
            }
            out
        },
        None => {
            let r: Vec<u8> = vec![117u8, 110, 107, 110, 111, 119, 110, 32, 114, 101, 103, 105, 111, 110];
            proof {
                assert(r@ =~= unknown_region_bytes());
            }
            r
        },
    }
}

} // verus!
