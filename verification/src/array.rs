use vstd::prelude::*;

verus! {

/// A growable array with an explicit capacity, grown by the doubling policy
/// of `array__grow`. Its contents are `contents`; its size is their length.
pub struct VoidArray<T> {
    pub contents: Vec<T>,
    pub capacity: u32,
}

impl<T> VoidArray<T> {
    /// The size fits in `u32` and never exceeds the capacity.
    pub open spec fn wf(&self) -> bool {
        self.contents.len() <= self.capacity
    }

    /// An empty array without storage.
    pub fn new() -> (a: Self)
        ensures
            a.contents@.len() == 0,
            a.capacity == 0,
            a.wf(),
    {
        VoidArray { contents: Vec::new(), capacity: 0 }
    }

    pub fn size(&self) -> (n: u32)
        requires
            self.wf(),
        ensures
            n == self.contents@.len(),
    {
        self.contents.len() as u32
    }
}

/// The capacity after growing an array of size `size` and capacity `capacity`
/// by `count` elements: doubled (in 32-bit arithmetic), at least 8, and at
/// least the new size.
pub open spec fn spec_grown_capacity(size: nat, capacity: u32, count: nat) -> nat {
    if size + count > capacity {
        let doubled: nat = ((capacity * 2) % 0x1_0000_0000) as nat;
        let at_least_eight: nat = if doubled < 8 { 8 } else { doubled };
        if at_least_eight < size + count { size + count } else { at_least_eight }
    } else {
        capacity as nat
    }
}

/// Releases the storage of an array: it becomes empty, without capacity.
pub fn array__delete<T>(self_0: &mut VoidArray<T>)
    ensures
        final(self_0).contents@.len() == 0,
        final(self_0).capacity == 0,
{
    self_0.contents = Vec::new();
    self_0.capacity = 0;
}

/// Ensures room for `new_capacity` elements; the contents are unchanged.
pub fn array__reserve<T>(self_0: &mut VoidArray<T>, new_capacity: u32)
    requires
        old(self_0).wf(),
    ensures
        final(self_0).contents@ == old(self_0).contents@,
        final(self_0).capacity == (if new_capacity > old(self_0).capacity {
            new_capacity
        } else {
            old(self_0).capacity
        }),
        final(self_0).wf(),
{
    if new_capacity > self_0.capacity {
        self_0.capacity = new_capacity;
    }
}

/// Ensures room for `count` more elements, doubling the capacity (at least to 8).
pub fn array__grow<T>(self_0: &mut VoidArray<T>, count: u32)
    requires
        old(self_0).wf(),
        old(self_0).contents@.len() + count <= u32::MAX,
    ensures
        final(self_0).contents@ == old(self_0).contents@,
        final(self_0).capacity as nat == spec_grown_capacity(
            old(self_0).contents@.len(),
            old(self_0).capacity,
            count as nat,
        ),
        final(self_0).wf(),
        final(self_0).contents@.len() + count <= final(self_0).capacity,
{
    let new_size: u64 = self_0.contents.len() as u64 + count as u64;
    if new_size > self_0.capacity as u64 {
        let mut new_capacity: u64 = self_0.capacity.wrapping_mul(2) as u64;
        if new_capacity < 8 {
            new_capacity = 8;
        }
        if new_capacity < new_size {
            new_capacity = new_size;
        }
        array__reserve(self_0, new_capacity as u32);
    }
}

/// Appends an element, growing the capacity as `array__grow` does.
pub fn array_push<T>(self_0: &mut VoidArray<T>, element: T)
    requires
        old(self_0).wf(),
        old(self_0).contents@.len() < u32::MAX,
    ensures
        final(self_0).contents@ == old(self_0).contents@.push(element),
        final(self_0).wf(),
{
    array__grow(self_0, 1);
    self_0.contents.push(element);
}

/// Replaces the `old_count` elements at `index` by `elements`.
pub fn array__splice<T: Copy>(self_0: &mut VoidArray<T>, index: u32, old_count: u32, elements: &[T])
    requires
        old(self_0).wf(),
        index + old_count <= old(self_0).contents@.len(),
        old(self_0).contents@.len() - old_count + elements@.len() <= u32::MAX,
    ensures
        final(self_0).contents@ == old(self_0).contents@.subrange(0, index as int) + elements@
            + old(self_0).contents@.subrange(index + old_count, old(self_0).contents@.len() as int),
        final(self_0).capacity == (if final(self_0).contents@.len() > old(self_0).capacity {
            final(self_0).contents@.len() as u32
        } else {
            old(self_0).capacity
        }),
        final(self_0).wf(),
{
    let ghost old_contents = self_0.contents@;
    let size: usize = self_0.contents.len();
    let new_size: usize = size - old_count as usize + elements.len();
    array__reserve(self_0, new_size as u32);
    let mut result: Vec<T> = Vec::new();
    let mut i: usize = 0;
    while i < index as usize
        invariant
            i <= index,
            index + old_count <= old_contents.len(),
            self_0.contents@ == old_contents,
            result@ == old_contents.subrange(0, i as int),
        decreases index - i,
    {
        result.push(self_0.contents[i]);
        i = i + 1;
    }
    let mut j: usize = 0;
    while j < elements.len()
        invariant
            j <= elements@.len(),
            result@ == old_contents.subrange(0, index as int) + elements@.subrange(0, j as int),
        decreases elements@.len() - j,
    {
        result.push(elements[j]);
        j = j + 1;
        assert(elements@.subrange(0, j as int) == elements@.subrange(0, j - 1) + seq![elements@[j - 1]]);
    }
    let mut k: usize = index as usize + old_count as usize;
    while k < size
        invariant
            index + old_count <= k <= size,
            size == old_contents.len(),
            self_0.contents@ == old_contents,
            result@ == old_contents.subrange(0, index as int) + elements@ + old_contents.subrange(
                index + old_count,
                k as int,
            ),
        decreases size - k,
    {
        result.push(self_0.contents[k]);
        k = k + 1;
    }
    assert(elements@.subrange(0, elements@.len() as int) == elements@);
    self_0.contents = result;
}

/// Removes the element at `index`, shifting the later ones down.
pub fn array__erase<T>(self_0: &mut VoidArray<T>, index: u32)
    requires
        old(self_0).wf(),
        index < old(self_0).contents@.len(),
    ensures
        final(self_0).contents@ == old(self_0).contents@.remove(index as int),
        final(self_0).capacity == old(self_0).capacity,
        final(self_0).wf(),
{
    self_0.contents.remove(index as usize);
}

} // verus!
