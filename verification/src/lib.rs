use vstd::prelude::*;

pub mod digits;
pub mod big_uint;
pub mod big_int;
pub mod static_ref_default;
pub mod range_map;
pub mod big_float;
pub mod mem;
pub mod parser;
pub mod tokenizer;
pub mod serializer;

verus! {
}
