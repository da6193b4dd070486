use std::collections::HashMap;
use vstd::prelude::*;

use crate::graphics::handle::Indirect;

verus! {

broadcast use vstd::std_specs::hash::group_hash_axioms;

/// The bytes a growable buffer starts with.
pub const INITIAL_BUFFER_BYTES: usize = 250_000_000;

/// The size of a device buffer that is replaced by a larger one when more
/// room is asked for. The device buffer itself belongs to the renderer.
pub struct GrowableBuffer {
    pub bytes: usize,
}

/// The least power of two that is not below `n`; one for zero.
pub open spec fn power_of_two_above(n: nat) -> nat
    decreases n,
{
    if n <= 1 {
        1
    } else {
        2 * power_of_two_above((n + 1) / 2)
    }
}

/// The size a growable buffer of `bytes` bytes has after room for `size`
/// bytes was asked for: the larger of what it had and the least power of
/// two that holds `size`, as far as the machine can count; unchanged where
/// it cannot.
pub open spec fn grown(bytes: usize, size: usize) -> usize {
    let want = power_of_two_above(size as nat);
    if want > usize::MAX || want <= bytes {
        bytes
    } else {
        want as usize
    }
}

/// The least power of two that is not below `n`, if the machine can hold it.
pub fn next_power_of_two(n: usize) -> (r: Option<usize>)
    ensures
        match r {
            Some(p) => p == power_of_two_above(n as nat) && p >= n && p >= 1,
            None => power_of_two_above(n as nat) > usize::MAX,
        },
    decreases n,
{
    if n <= 1 {
        Some(1)
    } else {
        let half: usize = n / 2 + n % 2;
        assert(half == (n + 1) / 2);
        match next_power_of_two(half) {
            Some(p) => {
                if p > usize::MAX / 2 {
                    None
                } else {
                    Some(2 * p)
                }
            },
            None => None,
        }
    }
}

impl GrowableBuffer {
    pub fn new() -> (r: GrowableBuffer)
        ensures
            r.bytes == INITIAL_BUFFER_BYTES,
    {
        GrowableBuffer { bytes: INITIAL_BUFFER_BYTES }
    }

    pub fn size(&self) -> (r: usize)
        ensures
            r == self.bytes,
    {
        self.bytes
    }

    /// Makes room for `size` bytes and says whether the buffer grew, in
    /// which case the device buffer is to be replaced.
    pub fn grow_to_atleast(&mut self, size: usize) -> (grew: bool)
        ensures
            final(self).bytes == grown(old(self).bytes, size),
            grew == (final(self).bytes != old(self).bytes),
            final(self).bytes >= old(self).bytes,
    {
        match next_power_of_two(size) {
            Some(want) => {
                if want > self.bytes {
                    self.bytes = want;
                    true
                } else {
                    false
                }
            },
            None => false,
        }
    }
}

/// What can be an entry of an indirect buffer.
pub trait IndirectProvider: Copy {

}

/// A dense array of draw entries that are reached through handles. An entry
/// that is removed gives its place to the last one, so the array has no
/// holes; the handles of the entries that remain stay valid.
pub struct IndirectBuffer<T: IndirectProvider> {
    pub growable_buffer: GrowableBuffer,
    /// Bytes that one entry takes on the device.
    pub stride: usize,
    pub data: Vec<T>,
    /// Place of each handle's entry.
    pub mapping: HashMap<usize, usize>,
    /// Handle of the entry at each place.
    pub rev_mapping: HashMap<usize, usize>,
    /// Entries to be written to the device, with their places.
    pub uploads: Vec<(usize, T)>,
    /// The number that the next handle gets.
    pub counter: usize,
    pub dirty: bool,
}

impl<T: IndirectProvider> IndirectBuffer<T> {
    /// Every place of the array has a handle, the handle leads back to the
    /// place, and no handle in use is one that is still to be given out.
    pub open spec fn wf(&self) -> bool {
        forall|i: usize|
            i < self.data@.len() ==> #[trigger] self.rev_mapping@.contains_key(i)
                && self.mapping@.contains_key(self.rev_mapping@[i])
                && self.mapping@[self.rev_mapping@[i]] == i && self.rev_mapping@[i] < self.counter
    }

    /// Whether the handle leads to an entry of the array.
    pub open spec fn live(&self, indirect: Indirect) -> bool {
        &&& self.mapping@.contains_key(indirect.0)
        &&& self.mapping@[indirect.0] < self.data@.len()
        &&& self.rev_mapping@.contains_key(self.mapping@[indirect.0])
        &&& self.rev_mapping@[self.mapping@[indirect.0]] == indirect.0
    }

    /// The entry that the handle leads to.
    pub open spec fn entry(&self, indirect: Indirect) -> T {
        self.data@[self.mapping@[indirect.0] as int]
    }

    /// An empty buffer for entries of `stride` bytes.
    pub fn new(stride: usize) -> (r: IndirectBuffer<T>)
        ensures
            r.wf(),
            r.data@.len() == 0,
            r.uploads@.len() == 0,
            r.counter == 0,
            r.stride == stride,
            !r.dirty,
            r.growable_buffer.bytes == INITIAL_BUFFER_BYTES,
    {
        IndirectBuffer {
            growable_buffer: GrowableBuffer::new(),
            stride,
            data: Vec::new(),
            uploads: Vec::new(),
            mapping: HashMap::new(),
            rev_mapping: HashMap::new(),
            counter: 0,
            dirty: false,
        }
    }

    /// Notes that the entry at `idx` is to be written to the device.
    fn upload(&mut self, idx: usize, upload: T)
        ensures
            final(self).uploads@ == old(self).uploads@.push((idx, upload)),
            final(self).dirty,
            final(self).data == old(self).data,
            final(self).mapping == old(self).mapping,
            final(self).rev_mapping == old(self).rev_mapping,
            final(self).counter == old(self).counter,
            final(self).stride == old(self).stride,
            final(self).growable_buffer == old(self).growable_buffer,
    {
        self.dirty = true;
        self.uploads.push((idx, upload));
    }

    /// Appends an entry and hands back its handle. The device buffer is made
    /// to hold as many entries as handles were given out.
    pub fn add(&mut self, data: T) -> (indirect: Indirect)
        requires
            old(self).wf(),
            old(self).counter < usize::MAX,
            (old(self).counter + 1) * old(self).stride <= usize::MAX,
        ensures
            final(self).wf(),
            indirect.0 == old(self).counter,
            final(self).counter == old(self).counter + 1,
            final(self).data@ == old(self).data@.push(data),
            final(self).live(indirect),
            final(self).entry(indirect) == data,
            forall|h: Indirect|
                old(self).live(h) ==> #[trigger] final(self).live(h)
                    && final(self).entry(h) == old(self).entry(h),
            final(self).uploads@ == old(self).uploads@.push((old(self).data@.len() as usize, data)),
            final(self).dirty,
            final(self).growable_buffer.bytes == grown(
                old(self).growable_buffer.bytes,
                ((old(self).counter + 1) * old(self).stride) as usize,
            ),
    {
        let indirect: Indirect = Indirect(self.counter);
        self.counter = self.counter + 1;
        self.growable_buffer.grow_to_atleast((indirect.0 + 1) * self.stride);
        let idx: usize = self.data.len();
        self.mapping.insert(indirect.0, idx);
        self.rev_mapping.insert(idx, indirect.0);
        self.upload(idx, data);
        self.data.push(data);
        proof {
            assert forall|i: usize| i < self.data@.len() implies #[trigger] self.rev_mapping@.contains_key(
                i,
            ) && self.mapping@.contains_key(self.rev_mapping@[i])
                && self.mapping@[self.rev_mapping@[i]] == i && self.rev_mapping@[i]
                < self.counter by {
                if i < idx {
                    assert(old(self).rev_mapping@.contains_key(i));
                }
            }
            assert forall|h: Indirect| old(self).live(h) implies #[trigger] self.live(h)
                && self.entry(h) == old(self).entry(h) by {
                let at = old(self).mapping@[h.0];
                assert(old(self).rev_mapping@.contains_key(at));
                assert(h.0 != indirect.0);
            }
        }
        indirect
    }

    /// Takes out the entry that the handle leads to. The last entry takes
    /// its place, keeps its own handle and is noted for the device.
    pub fn remove(&mut self, indirect: Indirect)
        requires
            old(self).wf(),
            old(self).live(indirect),
        ensures
            final(self).wf(),
            final(self).counter == old(self).counter,
            final(self).data@.len() == old(self).data@.len() - 1,
            forall|h: Indirect|
                old(self).live(h) && h != indirect ==> #[trigger] final(self).live(h)
                    && final(self).entry(h) == old(self).entry(h),
            final(self).growable_buffer == old(self).growable_buffer,
            final(self).stride == old(self).stride,
            final(self).data@ == old(self).data@.update(
                old(self).mapping@[indirect.0] as int,
                old(self).data@.last(),
            ).drop_last(),
            final(self).uploads@ == (if old(self).mapping@[indirect.0] + 1 < old(self).data@.len() {
                old(self).uploads@.push((old(self).mapping@[indirect.0], old(self).data@.last()))
            } else {
                old(self).uploads@
            }),
    {
        let idx: usize = match self.mapping.get(&indirect.0) {
            Some(i) => *i,
            None => 0,
        };
        let last_place: usize = self.data.len() - 1;
        proof {
            assert(old(self).rev_mapping@.contains_key(last_place));
        }
        let last: usize = match self.rev_mapping.remove(&last_place) {
            Some(h) => h,
            None => 0,
        };
        self.rev_mapping.insert(idx, last);
        self.mapping.insert(last, idx);
        self.data.swap_remove(idx);
        assert(self.data@ =~= old(self).data@.update(idx as int,
            old(self).data@.last()).drop_last());
        if idx < self.data.len() {
            let moved: T = self.data[idx];
            self.upload(idx, moved);
        }
        proof {
            assert forall|i: usize| i < self.data@.len() implies #[trigger] self.rev_mapping@.contains_key(
                i,
            ) && self.mapping@.contains_key(self.rev_mapping@[i])
                && self.mapping@[self.rev_mapping@[i]] == i && self.rev_mapping@[i]
                < self.counter by {
                assert(old(self).rev_mapping@.contains_key(i));
                if i != idx {
                    assert(old(self).rev_mapping@[i] != last);
                }
            }
            assert forall|h: Indirect| old(self).live(h)
                && h != indirect implies #[trigger] self.live(
                h,
            ) && self.entry(h) == old(self).entry(h) by {
                let at = old(self).mapping@[h.0];
                assert(old(self).rev_mapping@.contains_key(at));
                assert(at != idx);
                if h.0 == last {
                    assert(at == last_place);
                } else {
                    assert(at != last_place);
                }
            }
        }
    }

    /// How many entries the buffer holds.
    pub fn count(&self) -> (r: usize)
        ensures
            r == self.data@.len(),
    {
        self.data.len()
    }

    /// The bytes of the device buffer.
    pub fn size(&self) -> (r: usize)
        ensures
            r == self.growable_buffer.bytes,
    {
        self.growable_buffer.size()
    }

    /// The entry that the handle leads to.
    pub fn get(&self, indirect: Indirect) -> (r: T)
        requires
            self.live(indirect),
        ensures
            r == self.entry(indirect),
    {
        let idx: usize = match self.mapping.get(&indirect.0) {
            Some(i) => *i,
            None => 0,
        };
        self.data[idx]
    }

    /// Replaces the entry that the handle leads to and notes it for the
    /// device.
    pub fn set(&mut self, indirect: Indirect, data: T)
        requires
            old(self).wf(),
            old(self).live(indirect),
        ensures
            final(self).wf(),
            final(self).data@ == old(self).data@.update(
                old(self).mapping@[indirect.0] as int,
                data,
            ),
            final(self).mapping == old(self).mapping,
            final(self).rev_mapping == old(self).rev_mapping,
            final(self).counter == old(self).counter,
            final(self).uploads@ == old(self).uploads@.push((old(self).mapping@[indirect.0], data)),
            final(self).dirty,
    {
        let idx: usize = match self.mapping.get(&indirect.0) {
            Some(i) => *i,
            None => 0,
        };
        self.upload(idx, data);
        self.data[idx] = data;
    }
}

} // verus!
