use vstd::prelude::*;
use vstd::std_specs::cmp::PartialOrdSpec;
use core::cmp::Ordering;

verus! {

/// Rectifier: values below `T::default()` (taken as zero) become `T::default()`, others
/// pass through.
pub fn relu_usize<T>(value: T) -> (r: T) where T: PartialOrd + Default
    ensures
        exists|zero: T, below: bool|
            #[trigger] call_ensures(T::default, (), zero) && #[trigger] call_ensures(
                <T as PartialOrd>::lt,
                (&value, &zero),
                below,
            ) && (below ==> call_ensures(T::default, (), r)) && (!below ==> r == value) && (
            T::obeys_partial_cmp_spec() ==> (below <==> value.partial_cmp_spec(&zero) == Some(
                Ordering::Less,
            ))),
{
    let zero = T::default();
    let below = value < zero;
    assert(call_ensures(<T as PartialOrd>::lt, (&value, &zero), below));
    if below {
        return T::default();
    }
    value
}

} // verus!
