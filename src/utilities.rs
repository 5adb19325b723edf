use vstd::prelude::*;

verus! {

/// The first of two options that holds a value.
pub fn select_first_some<V>(first_option: Option<V>, second_option: Option<V>) -> (r: Option<V>)
    ensures
        r == if first_option is Some {
            first_option
        } else {
            second_option
        },
{
    if let Some(first_some) = first_option {
        Some(first_some)
    } else if let Some(second_some) = second_option {
        Some(second_some)
    } else {
        None
    }
}

/// The first of three options that holds a value.
pub fn select_first_some_3<V>(
    first_option: Option<V>,
    second_option: Option<V>,
    third_option: Option<V>,
) -> (r: Option<V>)
    ensures
        r == if first_option is Some {
            first_option
        } else if second_option is Some {
            second_option
        } else {
            third_option
        },
{
    if let Some(first_some) = first_option {
        Some(first_some)
    } else if let Some(second_some) = second_option {
        Some(second_some)
    } else if let Some(third_some) = third_option {
        Some(third_some)
    } else {
        None
    }
}

} // verus!
