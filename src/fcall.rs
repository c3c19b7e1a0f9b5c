//! Results of free-input calls that the guest program makes.

use vstd::prelude::*;

verus! {

/// Number of `u64` words in a secp256k1 base-field element.
pub const FP_WORDS: i64 = 4;

/// The value a field-inversion call returns to the guest, given the status of the
/// inversion routine: on success (status 0) the number of result words, otherwise
/// the status itself.
pub fn secp256k1_fp_inv_result(res_c_call: i32) -> (r: i64)
    ensures
        r == if res_c_call == 0 {
            FP_WORDS as int
        } else {
            res_c_call as int
        },
{
    if res_c_call == 0 {
        FP_WORDS
    } else {
        res_c_call as i64
    }
}

} // verus!
