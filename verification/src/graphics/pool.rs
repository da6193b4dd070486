use std::collections::HashMap;
use vstd::prelude::*;

use crate::graphics::buffer::GrowableBuffer;
use crate::graphics::handle::Bucket;

verus! {

broadcast use vstd::std_specs::hash::group_hash_axioms;

/// What the device is told to draw one section of a pool.
#[derive(Clone, Copy, Debug, PartialEq, Eq, Structural)]
pub struct DrawIndirectCommand {
    pub vertex_count: u32,
    pub instance_count: u32,
    pub first_vertex: u32,
    pub first_instance: u32,
}

/// A buffer that is given out in sections of a fixed number of items.
/// Sections that were given back are used again before new ones are made.
pub struct Pool<T: Copy> {
    pub growable_buffer: GrowableBuffer,
    /// Bytes that one item takes on the device.
    pub stride: usize,
    /// Sections that were given back.
    pub free: Vec<Bucket>,
    /// The number that the next new section gets.
    pub counter: usize,
    pub max_count_per_bucket: usize,
    /// Items to be written to the device, with the byte at which each piece
    /// starts.
    pub uploads: Vec<(usize, Vec<T>)>,
    /// How many items each section in use holds.
    pub active: HashMap<usize, usize>,
}

/// How many sections `len` items take when a section holds `max` of them.
pub open spec fn sections_for(len: nat, max: nat) -> nat {
    if max == 0 {
        0
    } else {
        ((len + max - 1) / (max as int)) as nat
    }
}

/// How many items the `k`-th section of `len` items holds.
pub open spec fn section_count(len: nat, max: nat, k: nat) -> nat {
    if len - k * max < max {
        (len - k * max) as nat
    } else {
        max
    }
}

impl<T: Copy> Pool<T> {
    /// The section that takes the `k`-th piece: the sections that were given
    /// back, last one first, then new ones.
    pub open spec fn section_for(&self, k: nat) -> Bucket {
        if k < self.free@.len() {
            self.free@[self.free@.len() - 1 - k]
        } else {
            Bucket((self.counter + (k - self.free@.len())) as usize)
        }
    }

    /// The bytes of one section.
    pub open spec fn span(&self) -> nat {
        (self.stride * self.max_count_per_bucket) as nat
    }

    /// Whether the pool can take `len` items: a section holds at least one
    /// item, and the machine can count the bytes up to the end of every
    /// section that the items would take.
    pub open spec fn can_section(&self, len: nat) -> bool {
        &&& self.max_count_per_bucket > 0
        &&& forall|k: nat|
            k < sections_for(len, self.max_count_per_bucket as nat)
                ==> (#[trigger] self.section_for(
                k,
            )).0 < usize::MAX && (self.section_for(k).0 + 1) * self.span() <= usize::MAX
        &&& self.counter + sections_for(len, self.max_count_per_bucket as nat) <= usize::MAX
    }

    /// An empty pool whose sections hold `max_count_per_bucket` items of
    /// `stride` bytes.
    pub fn new(stride: usize, max_count_per_bucket: usize) -> (r: Pool<T>)
        ensures
            r.stride == stride,
            r.max_count_per_bucket == max_count_per_bucket,
            r.counter == 0,
            r.free@.len() == 0,
            r.uploads@.len() == 0,
            r.active@ == Map::<usize, usize>::empty(),
    {
        Pool {
            growable_buffer: GrowableBuffer::new(),
            stride,
            free: Vec::new(),
            counter: 0,
            max_count_per_bucket,
            uploads: Vec::new(),
            active: HashMap::new(),
        }
    }

    pub fn max_count_per_bucket(&self) -> (r: usize)
        ensures
            r == self.max_count_per_bucket,
    {
        self.max_count_per_bucket
    }

    /// How many sections are in use.
    pub fn count(&self) -> (r: usize)
        ensures
            r == self.active@.len(),
    {
        self.active.len()
    }

    /// The bytes of the device buffer.
    pub fn size(&self) -> (r: usize)
        ensures
            r == self.growable_buffer.bytes,
    {
        self.growable_buffer.size()
    }

    /// How the device draws the section.
    pub fn cmd(&self, bucket: Bucket) -> (r: DrawIndirectCommand)
        requires
            self.active@.contains_key(bucket.0),
            self.active@[bucket.0] <= u32::MAX,
            bucket.0 * self.max_count_per_bucket <= u32::MAX,
        ensures
            r == (DrawIndirectCommand {
                vertex_count: self.active@[bucket.0] as u32,
                instance_count: 1,
                first_vertex: (bucket.0 * self.max_count_per_bucket) as u32,
                first_instance: 0,
            }),
    {
        let count: usize = match self.active.get(&bucket.0) {
            Some(c) => *c,
            None => 0,
        };
        DrawIndirectCommand {
            vertex_count: count as u32,
            instance_count: 1,
            first_vertex: (bucket.0 * self.max_count_per_bucket) as u32,
            first_instance: 0,
        }
    }

    /// Gives a section back.
    pub fn unsection(&mut self, bucket: Bucket)
        ensures
            final(self).free@ == old(self).free@.push(bucket),
            final(self).counter == old(self).counter,
            final(self).active == old(self).active,
            final(self).uploads == old(self).uploads,
            final(self).growable_buffer == old(self).growable_buffer,
            final(self).stride == old(self).stride,
            final(self).max_count_per_bucket == old(self).max_count_per_bucket,
    {
        self.free.push(bucket);
    }

    /// Puts `data` into sections, piece by piece, and hands back the
    /// sections in the order of the pieces. Every piece but the last fills
    /// its section; each is noted for the device at the first byte of its
    /// section.
    pub fn section(&mut self, data: &[T]) -> (buckets: Vec<Bucket>)
        requires
            old(self).can_section(data@.len()),
        ensures
            buckets@.len() == sections_for(data@.len(), old(self).max_count_per_bucket as nat),
            forall|k: int|
                0 <= k < buckets@.len()
                    ==> #[trigger] buckets@[k] == old(self).section_for(k as nat),
            forall|k: int|
                0 <= k < buckets@.len() ==> final(self).active@.contains_key(
                    (#[trigger] buckets@[k]).0,
                ),
            forall|k: int|
                0 <= k < buckets@.len() && (forall|j: int|
                    k < j < buckets@.len() ==> buckets@[j] != buckets@[k])
                    ==> final(self).active@[(#[trigger] buckets@[k]).0] == section_count(
                    data@.len(),
                    old(self).max_count_per_bucket as nat,
                    k as nat,
                ),
            final(self).uploads@.len() == old(self).uploads@.len() + buckets@.len(),
            forall|k: int|
                0 <= k < buckets@.len() ==> {
                    let piece = #[trigger] final(self).uploads@[old(self).uploads@.len() + k];
                    &&& piece.0 == buckets@[k].0 * old(self).span()
                    &&& piece.1@ == data@.subrange(
                        k * old(self).max_count_per_bucket,
                        k * old(self).max_count_per_bucket + section_count(
                            data@.len(),
                            old(self).max_count_per_bucket as nat,
                            k as nat,
                        ),
                    )
                },
            final(self).free@.len() == (if buckets@.len() < old(self).free@.len() {
                old(self).free@.len() - buckets@.len()
            } else {
                0
            }),
            final(self).counter == (if buckets@.len() < old(self).free@.len() {
                old(self).counter as int
            } else {
                old(self).counter + buckets@.len() - old(self).free@.len()
            }),
            final(self).stride == old(self).stride,
            final(self).max_count_per_bucket == old(self).max_count_per_bucket,
            final(self).growable_buffer.bytes >= old(self).growable_buffer.bytes,
    {
        let max: usize = self.max_count_per_bucket;
        let whole: usize = data.len() / max;
        proof {
            let len = data@.len() as int;
            let rest = len % (max as int);
            vstd::arithmetic::div_mod::lemma_fundamental_div_mod(len, max as int);
            vstd::arithmetic::div_mod::lemma_mod_bound(len, max as int);
            assert(rest != 0 ==> whole < len) by (nonlinear_arith)
                requires
                    len == max * whole + rest,
                    max >= 1,
                    whole >= 0,
                    rest >= 0,
            ;
        }
        let total: usize = if data.len() % max == 0 {
            whole
        } else {
            whole + 1
        };
        proof {
            lemma_section_total(data@.len(), max as nat);
            assert(self.stride * max >= 0) by (nonlinear_arith);
        }
        let mut buckets: Vec<Bucket> = Vec::new();
        let mut k: usize = 0;
        while k < total
            invariant
                k <= total,
                max >= 1,
                data@.len() <= usize::MAX,
                max == old(self).max_count_per_bucket,
                self.max_count_per_bucket == max,
                self.stride == old(self).stride,
                old(self).can_section(data@.len()),
                total == sections_for(data@.len(), max as nat),
                buckets@.len() == k,
                forall|j: int|
                    0 <= j < k ==> #[trigger] buckets@[j] == old(self).section_for(j as nat),
                forall|j: int|
                    0 <= j < k ==> self.active@.contains_key((#[trigger] buckets@[j]).0),
                forall|j: int|
                    0 <= j < k && (forall|i: int| j < i < k ==> buckets@[i] != buckets@[j])
                        ==> self.active@[(#[trigger] buckets@[j]).0] == section_count(
                        data@.len(),
                        max as nat,
                        j as nat,
                    ),
                self.uploads@.len() == old(self).uploads@.len() + k,
                forall|j: int|
                    0 <= j < k ==> {
                        let piece = #[trigger] self.uploads@[old(self).uploads@.len() + j];
                        &&& piece.0 == buckets@[j].0 * old(self).span()
                        &&& piece.1@ == data@.subrange(
                            j * max,
                            j * max + section_count(data@.len(), max as nat, j as nat),
                        )
                    },
                self.free@.len() == (if k < old(self).free@.len() {
                    old(self).free@.len() - k
                } else {
                    0
                }),
                self.free@ == old(self).free@.take(self.free@.len() as int),
                self.counter == (if k < old(self).free@.len() {
                    old(self).counter as int
                } else {
                    old(self).counter + k - old(self).free@.len()
                }),
                self.growable_buffer.bytes >= old(self).growable_buffer.bytes,
            decreases total - k,
        {
            let ghost uploads_before = self.uploads@;
            let ghost active_before = self.active@;
            let ghost before = buckets@;
            proof {
                lemma_sections(data@.len(), max as nat, k as nat);
                assert(k * max < data@.len());
            }
            let bucket: Bucket = match self.free.pop() {
                Some(b) => b,
                None => {
                    let b: Bucket = Bucket(self.counter);
                    self.counter = self.counter + 1;
                    b
                },
            };
            assert(bucket == old(self).section_for(k as nat));
            assert((bucket.0 + 1) * old(self).span() <= usize::MAX);
            assert(self.stride * max <= (bucket.0 + 1) * (self.stride * max)) by (nonlinear_arith)
                requires
                    bucket.0 >= 0,
                    self.stride * max >= 0,
            ;
            let span: usize = self.stride * max;
            assert(bucket.0 * span <= (bucket.0 + 1) * span) by (nonlinear_arith)
                requires
                    span >= 0,
            ;
            self.growable_buffer.grow_to_atleast((bucket.0 + 1) * span);
            let cursor: usize = k * max;
            let left: usize = data.len() - cursor;
            let count_in_bucket: usize = if left < max {
                left
            } else {
                max
            };
            self.active.insert(bucket.0, count_in_bucket);
            let mut piece: Vec<T> = Vec::new();
            let mut i: usize = 0;
            while i < count_in_bucket
                invariant
                    i <= count_in_bucket,
                    data@.len() <= usize::MAX,
                    cursor + count_in_bucket <= data@.len(),
                    piece@ == data@.subrange(cursor as int, cursor + i),
                decreases count_in_bucket - i,
            {
                piece.push(data[cursor + i]);
                assert(piece@ =~= data@.subrange(cursor as int, cursor + i + 1));
                i = i + 1;
            }
            self.uploads.push((bucket.0 * span, piece));
            buckets.push(bucket);
            proof {
                assert(count_in_bucket == section_count(data@.len(), max as nat, k as nat));
                assert forall|j: int| 0 <= j < k + 1 implies self.active@.contains_key(
                    (#[trigger] buckets@[j]).0,
                ) by {
                    if j < k {
                        assert(active_before.contains_key(buckets@[j].0));
                    }
                }
                assert forall|j: int| 0 <= j < k + 1 implies ({
                    let piece = #[trigger] self.uploads@[old(self).uploads@.len() + j];
                    &&& piece.0 == buckets@[j].0 * old(self).span()
                    &&& piece.1@ == data@.subrange(
                        j * max,
                        j * max + section_count(data@.len(), max as nat, j as nat),
                    )
                }) by {
                    if j < k {
                        assert(self.uploads@[old(self).uploads@.len() + j]
                            == uploads_before[old(self).uploads@.len() + j]);
                    }
                }
                assert(self.free@ =~= old(self).free@.take(self.free@.len() as int));
                assert forall|j: int|
                    0 <= j < k + 1 && (forall|i: int| j < i < k + 1 ==> buckets@[i] != buckets@[j])
                        implies self.active@[(#[trigger] buckets@[j]).0] == section_count(
                    data@.len(),
                    max as nat,
                    j as nat,
                ) by {
                    if j < k {
                        assert(buckets@[k as int] != buckets@[j]);
                        assert(before[j] == buckets@[j]);
                        assert forall|i: int| j < i < k implies before[i] != before[j] by {
                            assert(buckets@[i] != buckets@[j]);
                        }
                        assert(active_before[before[j].0] == section_count(
                            data@.len(),
                            max as nat,
                            j as nat,
                        ));
                    }
                }
            }
            k = k + 1;
        }
        buckets
    }
}

/// The number of sections is the number of whole sections and one more if
/// items are left over.
proof fn lemma_section_total(len: nat, max: nat)
    requires
        max >= 1,
    ensures
        sections_for(len, max) == len / max + (if len % max == 0 {
            0nat
        } else {
            1nat
        }),
{
    let q = (len as int) / (max as int);
    let r = (len as int) % (max as int);
    vstd::arithmetic::div_mod::lemma_fundamental_div_mod(len as int, max as int);
    vstd::arithmetic::div_mod::lemma_mod_bound(len as int, max as int);
    if r == 0 {
        assert(len + max - 1 == q * max + (max - 1)) by (nonlinear_arith)
            requires
                len == max * q + r,
                r == 0,
        ;
        vstd::arithmetic::div_mod::lemma_fundamental_div_mod_converse(
            (len + max - 1) as int,
            max as int,
            q,
            (max - 1) as int,
        );
    } else {
        assert(len + max - 1 == (q + 1) * max + (r - 1)) by (nonlinear_arith)
            requires
                len == max * q + r,
        ;
        vstd::arithmetic::div_mod::lemma_fundamental_div_mod_converse(
            (len + max - 1) as int,
            max as int,
            q + 1,
            r - 1,
        );
    }
}

/// Before each of its sections `len` items have items left: the `k`-th
/// piece starts inside the items.
proof fn lemma_sections(len: nat, max: nat, k: nat)
    requires
        max >= 1,
        k < sections_for(len, max),
    ensures
        k * max < len,
        k * max + section_count(len, max, k) <= len,
        section_count(len, max, k) >= 1,
{
    let total = sections_for(len, max);
    vstd::arithmetic::div_mod::lemma_fundamental_div_mod((len + max - 1) as int, max as int);
    vstd::arithmetic::div_mod::lemma_mod_bound((len + max - 1) as int, max as int);
    let r = ((len + max - 1) as int) % (max as int);
    assert(len + max - 1 == max * total + r);
    assert(k * max < len) by (nonlinear_arith)
        requires
            len + max - 1 == max * total + r,
            0 <= r,
            k + 1 <= total,
            max >= 1,
    ;
}

} // verus!
