use vstd::prelude::*;

verus! {

/// Element types that can add an `i32` scalar to a value of `Item`.
#[allow(non_snake_case)]
pub trait AddWithScalar<Item> {
    fn AddWithScalar(item: Item, scalar: i32) -> Item;
}

/// Element types that can multiply a value of `Item` by an `i32` scalar.
#[allow(non_snake_case)]
pub trait MulWithScalar<Item> {
    fn MulWithScalar(item: Item, scalar: i32) -> Item;
}

} // verus!
