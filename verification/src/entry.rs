//! A key/value pair, the unit of work handed to the queue.
use vstd::prelude::*;

verus! {

pub struct Entry<K, V> {
    pub key: K,
    pub value: V,
}

impl<K, V> Entry<K, V> {
    pub fn new(key: K, value: V) -> (r: Entry<K, V>)
        ensures
            r.key == key,
            r.value == value,
    {
        Self { key, value }
    }
}

} // verus!
