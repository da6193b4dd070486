use vstd::prelude::*;

verus! {

/// The bytes of the staging buffer.
pub const STAGING_BYTES: usize = 1_000_000_000;

/// Bytes that wait to be copied to the device, and where they go. The
/// device's buffers and images are known by their handles.
#[derive(Debug, PartialEq, Eq)]
pub enum Upload {
    Buffer { buffer: u64, dst: usize, data: Vec<u8> },
    Image { image: u64, dst: (usize, usize, usize), size: (usize, usize, usize), data: Vec<u8> },
}

/// A ring of bytes through which everything passes on its way to the
/// device, and the list of what waits.
pub struct StagingBuffer {
    /// Where the next block of the ring starts.
    pub offset: usize,
    pub size: usize,
    pub uploads: Vec<Upload>,
}

/// Whether the upload goes to a buffer.
pub open spec fn to_buffer(u: Upload) -> bool {
    u is Buffer
}

/// Whether the upload goes to an image.
pub open spec fn to_image(u: Upload) -> bool {
    u is Image
}

impl StagingBuffer {
    pub fn new() -> (r: StagingBuffer)
        ensures
            r.offset == 0,
            r.size == STAGING_BYTES,
            r.uploads@.len() == 0,
    {
        StagingBuffer { offset: 0, size: STAGING_BYTES, uploads: Vec::new() }
    }

    /// Notes bytes for the buffer `buffer`, to be written from the byte
    /// `dst` on.
    pub fn upload_buffer(&mut self, buffer: u64, dst: usize, data: Vec<u8>)
        ensures
            final(self).uploads@ == old(self).uploads@.push(Upload::Buffer { buffer, dst, data }),
            final(self).offset == old(self).offset,
            final(self).size == old(self).size,
    {
        self.uploads.push(Upload::Buffer { buffer, dst, data });
    }

    /// Notes bytes for the image `image`, to be written into the box of
    /// extent `size` at `dst`.
    pub fn upload_image(&mut self, image: u64, dst: (usize, usize, usize), size: (usize, usize,
        usize), data: Vec<u8>)
        ensures
            final(self).uploads@ == old(self).uploads@.push(
                Upload::Image { image, dst, size, data },
            ),
            final(self).offset == old(self).offset,
            final(self).size == old(self).size,
    {
        self.uploads.push(Upload::Image { image, dst, size, data });
    }

    /// Takes a block of `size` bytes from the ring and hands back where it
    /// starts. A block that would reach the end of the ring makes the ring
    /// start over, and starts at its beginning.
    pub fn staging_offset_block(&mut self, size: usize) -> (r: usize)
        ensures
            final(self).size == old(self).size,
            final(self).uploads == old(self).uploads,
            old(self).offset + size >= old(self).size ==> r == 0 && final(self).offset == 0,
            old(self).offset + size < old(self).size ==> r == old(self).offset
                && final(self).offset == old(self).offset + size,
    {
        let fits: bool = match self.offset.checked_add(size) {
            Some(end) => end < self.size,
            None => false,
        };
        if fits {
            let start: usize = self.offset;
            self.offset = start + size;
            start
        } else {
            self.offset = 0;
            0
        }
    }

    /// Keeps the uploads for which `keep_buffers` asks: those to buffers,
    /// or those to images.
    fn keep(&mut self, keep_buffers: bool)
        ensures
            final(self).offset == old(self).offset,
            final(self).size == old(self).size,
            keep_buffers
                ==> final(self).uploads@ == old(self).uploads@.filter(|u: Upload| to_buffer(u)),
            !keep_buffers ==> final(self).uploads@ == old(self).uploads@.filter(
                |u: Upload| to_image(u),
            ),
    {
        let mut waiting: Vec<Upload> = Vec::new();
        std::mem::swap(&mut self.uploads, &mut waiting);
        let ghost all = waiting@;
        let ghost buffers = |u: Upload| to_buffer(u);
        let ghost images = |u: Upload| to_image(u);
        let count: usize = waiting.len();
        let mut k: usize = 0;
        proof {
            reveal(Seq::filter);
            assert(all.take(0).filter(buffers) =~= Seq::<Upload>::empty());
            assert(all.take(0).filter(images) =~= Seq::<Upload>::empty());
            assert(all.skip(0) =~= all);
        }
        while waiting.len() > 0
            invariant
                k + waiting@.len() == count,
                count == all.len(),
                all == old(self).uploads@,
                buffers == (|u: Upload| to_buffer(u)),
                images == (|u: Upload| to_image(u)),
                waiting@ == all.skip(k as int),
                keep_buffers ==> self.uploads@ == all.take(k as int).filter(buffers),
                !keep_buffers ==> self.uploads@ == all.take(k as int).filter(images),
                self.offset == old(self).offset,
                self.size == old(self).size,
            decreases waiting@.len(),
        {
            let entry: Upload = waiting.remove(0);
            proof {
                assert(entry == all[k as int]);
                assert(waiting@ =~= all.skip(k + 1));
                assert(all.take(k + 1).drop_last() =~= all.take(k as int));
                assert(all.take(k + 1).last() == entry);
                reveal(Seq::filter);
            }
            let is_buffer: bool = match &entry {
                Upload::Buffer { .. } => true,
                Upload::Image { .. } => false,
            };
            if is_buffer == keep_buffers {
                self.uploads.push(entry);
            }
            k = k + 1;
        }
        proof {
            assert(all.take(count as int) =~= all);
        }
    }

    /// Forgets the uploads to buffers; those to images stay, in their order.
    pub fn clear_buffer_uploads(&mut self)
        ensures
            final(self).offset == old(self).offset,
            final(self).size == old(self).size,
            final(self).uploads@ == old(self).uploads@.filter(|u: Upload| to_image(u)),
    {
        self.keep(false);
    }

    /// Forgets the uploads to images; those to buffers stay, in their order.
    pub fn clear_image_uploads(&mut self)
        ensures
            final(self).offset == old(self).offset,
            final(self).size == old(self).size,
            final(self).uploads@ == old(self).uploads@.filter(|u: Upload| to_buffer(u)),
    {
        self.keep(true);
    }
}

} // verus!
