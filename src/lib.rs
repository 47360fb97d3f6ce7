//! Utility functions in the manner of lodash over dynamically typed JSON
//! values: coercions, `+`, path access, deep merge, and array and string
//! helpers, each with a verified contract over a mathematical model of JSON.

use vstd::prelude::*;

pub mod value;
pub mod text;
pub mod lang;
pub mod coerce;
pub mod math;
pub mod path;
pub mod object;
pub mod merge;
pub mod laws;
pub mod array;
pub mod search;
pub mod collect;
pub mod case;
pub mod util;

pub use value::{Json, Number, Value, copy_value, values_equal};
pub use lang::{to_safe_integer, to_safe_integer_x, to_string, to_string_x, x_to_string};
pub use coerce::{
    bool_to_number, number_nan, string_to_option_number, value_nan, value_null_to_number,
    value_infinity, value_to_option_number, value_undefined, vec_value_to_option_number,
};
pub use math::{add, ceil, x_add_x, x_ceil, x_ceil_x};
pub use path::{to_path, to_path_x, x_to_path, x_to_path_x};
pub use object::get;
pub use merge::merge;
pub use array::{
    chunk, compact, difference, drop, drop_right, fill, head, initial, last, nth,
};
pub use search::{
    find_index, find_last_index, index_of, intersection, intersection_x, last_index_of, pull,
    pull_all, pull_all_by, pull_all_with, pull_at,
};
pub use collect::{
    flatten, flatten_deep, flatten_depth, from_pairs, join, join_x, x_flatten_deep_x,
    x_flatten_depth_x, x_flatten_x,
};
pub use case::{
    capitalize, capitalize_x, to_lower, to_lower_x, x_capitalize, x_capitalize_x, x_to_lower,
    x_to_lower_x,
};
pub use util::{
    range, range_right, range_right_x, range_x, stub_array, stub_false, stub_object, stub_string,
    stub_true, times, unique_id, unique_id_x, x_range, x_range_right, x_range_right_x, x_range_x,
    x_times, x_unique_id, x_unique_id_x, IdCounter,
};
pub mod wf;

verus! {

/// `value` set at `path` in `object`; see [`object::set`].
pub fn set(object: Value, path: Value, value: Value) -> (r: Value)
    ensures
        r@ == object::set_json(object@, path@, value@),
{
    object::set(object, path, value)
}

/// The elements of `v` and then of `v2`; see [`array::concat`].
pub fn concat(v: Value, v2: Value) -> (r: Value)
    ensures
        r@ == Json::Arr(array::items_or_self(v@) + array::items_or_self(v2@)),
{
    array::concat(v, v2)
}

} // verus!
