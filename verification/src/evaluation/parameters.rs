//! The number of features of the value and policy evaluations, for each board size that
//! has them.
use vstd::prelude::*;

verus! {

pub const NUM_VALUE_FEATURES_4S: usize = 87;
pub const NUM_POLICY_FEATURES_4S: usize = 157;

pub const NUM_VALUE_FEATURES_5S: usize = 124;
pub const NUM_POLICY_FEATURES_5S: usize = 176;

pub const NUM_VALUE_FEATURES_6S: usize = 134;
pub const NUM_POLICY_FEATURES_6S: usize = 186;

/// The number of features of the value evaluation, for the sizes 4 to 6.
pub fn num_value_features<const S: usize>() -> (n: usize)
    requires
        4 <= S <= 6,
    ensures
        n == (if S == 4 {
            NUM_VALUE_FEATURES_4S
        } else if S == 5 {
            NUM_VALUE_FEATURES_5S
        } else {
            NUM_VALUE_FEATURES_6S
        }),
{
    if S == 4 {
        NUM_VALUE_FEATURES_4S
    } else if S == 5 {
        NUM_VALUE_FEATURES_5S
    } else {
        NUM_VALUE_FEATURES_6S
    }
}

/// The number of features of the policy evaluation, for the sizes 4 to 6.
pub fn num_policy_features<const S: usize>() -> (n: usize)
    requires
        4 <= S <= 6,
    ensures
        n == (if S == 4 {
            NUM_POLICY_FEATURES_4S
        } else if S == 5 {
            NUM_POLICY_FEATURES_5S
        } else {
            NUM_POLICY_FEATURES_6S
        }),
{
    if S == 4 {
        NUM_POLICY_FEATURES_4S
    } else if S == 5 {
        NUM_POLICY_FEATURES_5S
    } else {
        NUM_POLICY_FEATURES_6S
    }
}

} // verus!
