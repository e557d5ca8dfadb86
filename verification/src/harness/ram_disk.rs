//! A disk image in memory, read and written byte by byte.
use vstd::prelude::*;

verus! {

/// The image.
pub struct RamDisk {
    data: Vec<u8>,
}

impl RamDisk {
    /// The image's bytes.
    pub closed spec fn view(&self) -> Seq<u8> {
        self.data@
    }

    /// A disk with the image `bytes`.
    pub fn load_bytes(bytes: &[u8]) -> (r: RamDisk)
        ensures
            r@ == bytes@,
    {
        let mut data: Vec<u8> = Vec::new();
        let mut i: usize = 0;
        while i < bytes.len()
            invariant
                i <= bytes@.len(),
                data@ == bytes@.take(i as int),
            decreases bytes@.len() - i,
        {
            data.push(bytes[i]);
            i = i + 1;
            assert(data@ =~= bytes@.take(i as int));
        }
        assert(data@ =~= bytes@);
        RamDisk { data }
    }

    /// A copy of the image.
    pub fn snapshot(&self) -> (r: Vec<u8>)
        ensures
            r@ == self@,
    {
        let mut r: Vec<u8> = Vec::new();
        let mut i: usize = 0;
        while i < self.data.len()
            invariant
                i <= self@.len(),
                r@ == self@.take(i as int),
            decreases self@.len() - i,
        {
            r.push(self.data[i]);
            i = i + 1;
            assert(r@ =~= self@.take(i as int));
        }
        assert(r@ =~= self@);
        r
    }

    /// Reads from `pos` on into `buf`, and gives the number of bytes read: as many as there
    /// is room for and as there are. The rest of `buf` is left as it is.
    pub fn read_at(&self, pos: u64, buf: &mut [u8]) -> (n: usize)
        ensures
            n == readable(self@, pos as int, old(buf)@.len() as int),
            final(buf)@.len() == old(buf)@.len(),
            forall|i: int| 0 <= i < n ==> #[trigger] final(buf)@[i] == self@[pos + i],
            forall|i: int| n <= i < old(buf)@.len() ==> #[trigger] final(buf)@[i] == old(buf)@[i],
    {
        if pos >= self.data.len() as u64 {
            return 0;
        }
        let from: usize = pos as usize;
        let left: usize = self.data.len() - from;
        let n: usize = if buf.len() < left {
            buf.len()
        } else {
            left
        };
        let mut i: usize = 0;
        while i < n
            invariant
                i <= n,
                n <= buf@.len(),
                from + n <= self.data@.len(),
                from == pos,
                buf@.len() == old(buf)@.len(),
                forall|j: int| 0 <= j < i ==> #[trigger] buf@[j] == self@[pos + j],
                forall|j: int| i <= j < buf@.len() ==> #[trigger] buf@[j] == old(buf)@[j],
            decreases n - i,
        {
            assert(from + i < self.data.len());
            buf[i] = self.data[from + i];
            i = i + 1;
        }
        n
    }

    /// Writes `buf` at `pos`. An image that is too short grows, with zeros up to `pos`.
    pub fn write_at(&mut self, pos: u64, buf: &[u8])
        requires
            pos + buf@.len() <= usize::MAX,
        ensures
            final(self)@ == written(old(self)@, pos as int, buf@),
    {
        let from: usize = pos as usize;
        let end: usize = from + buf.len();
        let ghost d = self.data@;
        while self.data.len() < end
            invariant
                d.len() <= self.data@.len(),
                self.data@.len() <= d.len() || self.data@.len() <= end,
                forall|j: int| 0 <= j < d.len() ==> #[trigger] self.data@[j] == d[j],
                forall|j: int| d.len() <= j < self.data@.len() ==> #[trigger] self.data@[j] == 0,
            decreases end - self.data@.len(),
        {
            self.data.push(0);
        }
        let ghost grown = self.data@;
        let mut i: usize = 0;
        while i < buf.len()
            invariant
                i <= buf@.len(),
                end == from + buf@.len(),
                end <= grown.len(),
                self.data@.len() == grown.len(),
                forall|j: int|
                    0 <= j < grown.len() ==> #[trigger] self.data@[j] == (if from <= j < from + i {
                        buf@[j - from]
                    } else {
                        grown[j]
                    }),
            decreases buf@.len() - i,
        {
            self.data.set(from + i, buf[i]);
            i = i + 1;
        }
        assert(self.data@ =~= written(d, pos as int, buf@));
    }

    /// The image's size in bytes.
    pub fn len(&self) -> (r: u64)
        ensures
            r == self@.len(),
    {
        self.data.len() as u64
    }
}

/// How many bytes can be read from `pos` on into `room` bytes.
pub open spec fn readable(image: Seq<u8>, pos: int, room: int) -> int {
    if pos >= image.len() {
        0
    } else if room < image.len() - pos {
        room
    } else {
        image.len() - pos
    }
}

/// The image after `buf` was written at `pos`.
pub open spec fn written(image: Seq<u8>, pos: int, buf: Seq<u8>) -> Seq<u8> {
    let end = pos + buf.len();
    Seq::new(
        if end > image.len() {
            end as nat
        } else {
            image.len()
        },
        |i: int|
            if pos <= i < end {
                buf[i - pos]
            } else if i < image.len() {
                image[i]
            } else {
                0
            },
    )
}

/// What was written is read back, and the rest of the image is as it was.
pub proof fn write_reads_back(image: Seq<u8>, pos: int, buf: Seq<u8>, i: int)
    requires
        0 <= pos,
        0 <= i < written(image, pos, buf).len(),
    ensures
        readable(written(image, pos, buf), pos, buf.len() as int) == buf.len(),
        pos <= i < pos + buf.len() ==> written(image, pos, buf)[i] == buf[i - pos],
        !(pos <= i < pos + buf.len()) && i < image.len() ==> written(image, pos, buf)[i]
            == image[i],
        written(image, pos, buf).len() >= image.len(),
{
}

/// A read gives all that fits and is there: it stops at the end of the image or of the buffer,
/// whichever comes first. A write makes the image just long enough, and what was not there
/// before, and is not written, is 0.
pub proof fn images_grow_with_zeros(image: Seq<u8>, pos: int, buf: Seq<u8>, room: int, i: int)
    requires
        0 <= pos,
        0 <= room,
    ensures
        ({
            let n = readable(image, pos, room);
            &&& 0 <= n <= room
            &&& pos <= image.len() ==> pos + n <= image.len()
            &&& n == room || pos + n >= image.len()
            &&& pos >= image.len() ==> n == 0
        }),
        written(image, pos, buf).len() == pos + buf.len() || written(image, pos, buf).len()
            == image.len(),
        written(image, pos, buf).len() >= pos + buf.len(),
        image.len() <= i < pos && i < written(image, pos, buf).len() ==> written(
            image,
            pos,
            buf,
        )[i] == 0,
{
}

} // verus!
