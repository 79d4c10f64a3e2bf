//! The values the host exchanges with Cyth code.
use vstd::prelude::*;
use crate::text::to_vec;

verus! {

/// A Cyth string: its length in bytes, then its bytes.
pub struct CyString {
    pub size: i32,
    pub data: Vec<u8>,
}

/// A Cyth array: its length, its capacity, then its items.
pub struct CyArray<T> {
    pub size: i32,
    pub capacity: i32,
    pub data: Vec<T>,
}

impl CyString {
    /// The size field agrees with the bytes held.
    pub open spec fn wf(&self) -> bool {
        self.size as int == self.data@.len()
    }
}

impl<T> CyArray<T> {
    /// The size and capacity fields agree with the items held.
    pub open spec fn wf(&self) -> bool {
        &&& self.size as int == self.data@.len()
        &&& self.size <= self.capacity
    }
}

/// A new Cyth string holding a copy of `string`; the size field is the length
/// in bytes, cut to 32 bits as a cast does.
pub fn cyth_new_string(string: &[u8]) -> (r: CyString)
    ensures
        r.data@ == string@,
        r.size == string@.len() as i32,
        string@.len() <= i32::MAX ==> r.wf(),
{
    CyString { size: string.len() as i32, data: to_vec(string) }
}

/// A new Cyth array holding `list`; size and capacity are its length, cut to
/// 32 bits as a cast does.
pub fn cyth_new_array<T>(list: Vec<T>) -> (r: CyArray<T>)
    ensures
        r.data@ == list@,
        r.size == list@.len() as i32,
        r.capacity == list@.len() as i32,
        list@.len() <= i32::MAX ==> r.wf(),
{
    let n = list.len();
    CyArray { size: n as i32, capacity: n as i32, data: list }
}

/// The bytes of a Cyth string.
pub fn cyth_string_to_str(cyth_string: &CyString) -> (r: &[u8])
    ensures
        r@ == cyth_string.data@,
{
    cyth_string.data.as_slice()
}

/// The items of a Cyth array of bytes.
pub fn cyth_char_array_to_slice(cyth_array: &CyArray<u8>) -> (r: &[u8])
    ensures
        r@ == cyth_array.data@,
{
    cyth_array.data.as_slice()
}

} // verus!
