//! Data carried by UI widgets.

use vstd::prelude::*;

verus! {

/// The state behind a slider widget: its range and the current value.
pub struct SliderData<T> {
    pub min: T,
    pub max: T,
    pub current: T,
}

impl<T> SliderData<T> {
    pub fn new(min: T, max: T, current: T) -> (r: SliderData<T>)
        ensures
            r.min == min,
            r.max == max,
            r.current == current,
    {
        SliderData { min, max, current }
    }
}

} // verus!
