//! The buffer ledger: which pixel buffers exist, how large they are and who
//! may write to them.

use vstd::prelude::*;

verus! {

/// Names one buffer of a [`BufferPool`]: its position in the ledger.
#[derive(Clone, Copy, Debug, PartialEq, Eq, Hash, Structural)]
pub struct BufferId(pub usize);

/// Pixel encodings a buffer can have.
#[derive(Clone, Copy, Debug, PartialEq, Eq, Hash, Structural)]
pub enum PixelFormat {
    /// Packed 32 bits per pixel: alpha, red, green, blue, little-endian.
    Argb8888,
}

impl PixelFormat {
    /// Bytes taken by one pixel.
    pub open spec fn pixel_bytes(self) -> nat {
        4
    }

    /// Bytes taken by one pixel.
    pub fn bytes_per_pixel(&self) -> (bytes: u64)
        ensures
            bytes == self.pixel_bytes(),
    {
        4
    }
}

/// Who may touch a buffer's memory right now.
#[derive(Clone, Copy, Debug, PartialEq, Eq, Hash, Structural)]
pub enum BufferStatus {
    /// Writable: the server holds no reference.
    Free,
    /// Attached and committed; the server owns the contents until it
    /// signals release.
    InFlight,
    /// Given back to the pool; the buffer no longer exists.
    Reclaimed,
}

/// One entry of the ledger.
#[derive(Clone, Copy, Debug, PartialEq, Eq, Hash, Structural)]
pub struct BufferRecord {
    pub width: u32,
    pub height: u32,
    /// Bytes from the start of one row to the start of the next.
    pub stride: u64,
    pub format: PixelFormat,
    pub status: BufferStatus,
}

impl BufferRecord {
    /// Size of the buffer's memory in bytes.
    pub open spec fn byte_len(self) -> nat {
        (self.height * self.stride) as nat
    }

    /// A buffer of the given shape that nobody has attached yet.
    pub open spec fn fresh(width: u32, height: u32, stride: u64, format: PixelFormat) -> BufferRecord {
        BufferRecord { width, height, stride, format, status: BufferStatus::Free }
    }
}

/// A writable view over the bytes of one buffer.
#[derive(Clone, Copy, Debug, PartialEq, Eq, Hash, Structural)]
pub struct Canvas {
    pub buffer: BufferId,
    pub width: u32,
    pub height: u32,
    pub stride: u64,
}

impl Canvas {
    /// Number of bytes the view spans.
    pub open spec fn byte_len(self) -> nat {
        (self.height * self.stride) as nat
    }

    /// Number of bytes the view spans: one stride for each row.
    pub fn size(&self) -> (bytes: u128)
        ensures
            bytes == self.byte_len(),
            bytes == self.height * self.stride,
    {
        let rows: u128 = self.height as u128;
        let stride: u128 = self.stride as u128;
        assert(rows * stride <= 0xffff_ffff * 0xffff_ffff_ffff_ffff) by (nonlinear_arith)
            requires
                0 <= rows <= 0xffff_ffff,
                0 <= stride <= 0xffff_ffff_ffff_ffff,
        ;
        rows * stride
    }
}

/// Row stride of a surface `width` pixels wide, four bytes per pixel.
pub open spec fn stride_of(width: u32) -> u64 {
    (width * 4) as u64
}

/// Row stride of a surface `width` pixels wide, four bytes per pixel.
pub fn row_stride(width: u32) -> (stride: u64)
    ensures
        stride == stride_of(width),
        stride == width * 4,
{
    let wide: u64 = width as u64;
    wide * 4
}

/// Whether `buffer` names an entry of `buffers`.
pub open spec fn known(buffers: Seq<BufferRecord>, buffer: BufferId) -> bool {
    buffer.0 < buffers.len()
}

/// Whether `buffer` is known and has the given status.
pub open spec fn has_status(buffers: Seq<BufferRecord>, buffer: BufferId, status: BufferStatus) -> bool {
    known(buffers, buffer) && buffers[buffer.0 as int].status == status
}

/// The ledger with the status of one known entry replaced.
pub open spec fn with_status(buffers: Seq<BufferRecord>, buffer: BufferId, status: BufferStatus) -> Seq<BufferRecord> {
    buffers.update(buffer.0 as int, BufferRecord { status, ..buffers[buffer.0 as int] })
}

/// The view handed out for `buffer`: present exactly when the buffer is free.
pub open spec fn canvas_in(buffers: Seq<BufferRecord>, buffer: BufferId) -> Option<Canvas> {
    if has_status(buffers, buffer, BufferStatus::Free) {
        let record = buffers[buffer.0 as int];
        Some(Canvas { buffer, width: record.width, height: record.height, stride: record.stride })
    } else {
        None
    }
}

/// The ledger after `buffer` was attached and committed: a free buffer goes
/// in flight, anything else leaves the ledger as it was.
pub open spec fn attached(buffers: Seq<BufferRecord>, buffer: BufferId) -> Seq<BufferRecord> {
    if has_status(buffers, buffer, BufferStatus::Free) {
        with_status(buffers, buffer, BufferStatus::InFlight)
    } else {
        buffers
    }
}

/// The ledger after the server released `buffer`: a buffer in flight becomes
/// free, anything else leaves the ledger as it was.
pub open spec fn released(buffers: Seq<BufferRecord>, buffer: BufferId) -> Seq<BufferRecord> {
    if has_status(buffers, buffer, BufferStatus::InFlight) {
        with_status(buffers, buffer, BufferStatus::Free)
    } else {
        buffers
    }
}

/// The ledger after the owner let go of `buffer`: a free buffer is reclaimed
/// at once; one in flight stays untouched until the server releases it.
pub open spec fn discarded(buffers: Seq<BufferRecord>, buffer: BufferId) -> Seq<BufferRecord> {
    if has_status(buffers, buffer, BufferStatus::Free) {
        with_status(buffers, buffer, BufferStatus::Reclaimed)
    } else {
        buffers
    }
}

/// The ledger of all buffers ever allocated, oldest first.
///
/// An entry is never removed: a reclaimed buffer keeps its place, so that a
/// name never comes to stand for another buffer.
#[derive(Debug)]
pub struct BufferPool {
    records: Vec<BufferRecord>,
}

impl View for BufferPool {
    type V = Seq<BufferRecord>;

    closed spec fn view(&self) -> Seq<BufferRecord> {
        self.records@
    }
}

impl BufferPool {
    /// An empty ledger.
    pub fn new() -> (pool: BufferPool)
        ensures
            pool@ == Seq::<BufferRecord>::empty(),
    {
        BufferPool { records: Vec::new() }
    }

    /// The ledger never outgrows what an index can name.
    pub proof fn lemma_len_bounded(&self)
        ensures
            self@.len() <= usize::MAX,
    {
        assert(self.records.len() == self.records@.len());
    }

    /// Number of buffers ever allocated.
    pub fn len(&self) -> (n: usize)
        ensures
            n == self@.len(),
    {
        self.records.len()
    }

    /// The entry of `buffer`, if the ledger has one.
    pub fn get(&self, buffer: BufferId) -> (record: Option<BufferRecord>)
        ensures
            record == (if known(self@, buffer) {
                Some(self@[buffer.0 as int])
            } else {
                None
            }),
    {
        if buffer.0 < self.records.len() {
            Some(self.records[buffer.0])
        } else {
            None
        }
    }

    /// Records a new free buffer of the given shape at the end of the ledger
    /// and returns its name.
    pub fn allocate(&mut self, width: u32, height: u32, stride: u64, format: PixelFormat) -> (buffer: BufferId)
        ensures
            final(self)@ == old(self)@.push(BufferRecord::fresh(width, height, stride, format)),
            buffer.0 == old(self)@.len(),
            final(self)@[buffer.0 as int].byte_len() == height * stride,
            canvas_in(final(self)@, buffer) == Some(Canvas { buffer, width, height, stride }),
    {
        let index: usize = self.records.len();
        self.records.push(BufferRecord { width, height, stride, format, status: BufferStatus::Free });
        BufferId(index)
    }

    /// The writable view of `buffer`, or nothing while the server holds it.
    pub fn canvas_of(&self, buffer: BufferId) -> (canvas: Option<Canvas>)
        ensures
            canvas == canvas_in(self@, buffer),
    {
        if buffer.0 < self.records.len() {
            let record: BufferRecord = self.records[buffer.0];
            match record.status {
                BufferStatus::Free => Some(
                    Canvas { buffer, width: record.width, height: record.height, stride: record.stride },
                ),
                _ => None,
            }
        } else {
            None
        }
    }

    /// Marks `buffer` as attached and committed.  Returns whether it was
    /// free to be attached.
    pub fn attach(&mut self, buffer: BufferId) -> (done: bool)
        ensures
            done == has_status(old(self)@, buffer, BufferStatus::Free),
            final(self)@ == attached(old(self)@, buffer),
    {
        self.change(buffer, BufferStatus::Free, BufferStatus::InFlight)
    }

    /// Takes note that the server released `buffer`.  Returns whether it was
    /// in flight.
    pub fn release(&mut self, buffer: BufferId) -> (done: bool)
        ensures
            done == has_status(old(self)@, buffer, BufferStatus::InFlight),
            final(self)@ == released(old(self)@, buffer),
    {
        self.change(buffer, BufferStatus::InFlight, BufferStatus::Free)
    }

    /// Gives `buffer` back to the pool.  Returns whether it could be
    /// reclaimed at once, which is the case exactly when it was free.
    pub fn discard(&mut self, buffer: BufferId) -> (done: bool)
        ensures
            done == has_status(old(self)@, buffer, BufferStatus::Free),
            final(self)@ == discarded(old(self)@, buffer),
    {
        self.change(buffer, BufferStatus::Free, BufferStatus::Reclaimed)
    }

    /// Moves `buffer` from status `from` to status `to` if it is known and
    /// has status `from`.
    fn change(&mut self, buffer: BufferId, from: BufferStatus, to: BufferStatus) -> (done: bool)
        ensures
            done == has_status(old(self)@, buffer, from),
            done ==> final(self)@ == with_status(old(self)@, buffer, to),
            !done ==> final(self)@ == old(self)@,
    {
        if buffer.0 < self.records.len() {
            let record: BufferRecord = self.records[buffer.0];
            if record.status == from {
                self.records.set(buffer.0, BufferRecord { status: to, ..record });
                return true;
            }
        }
        false
    }
}

} // verus!
