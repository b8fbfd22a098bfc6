//! Byte-level work behind an open file of the Python sandbox. The file
//! system is path-addressed and whole-file, so a positional write is a
//! splice into the file image, a read copies out of it from an offset, and
//! a seek only moves a cursor.
use vstd::prelude::*;

verus! {

/// The byte strings of `bufs`.
pub open spec fn byte_seqs(bufs: Seq<Vec<u8>>) -> Seq<Seq<u8>> {
    bufs.map_values(|b: Vec<u8>| b@)
}

/// The bytes of `bufs`, one buffer after another.
pub open spec fn concat(bufs: Seq<Seq<u8>>) -> Seq<u8>
    decreases bufs.len(),
{
    if bufs.len() == 0 {
        seq![]
    } else {
        concat(bufs.drop_last()) + bufs.last()
    }
}

/// Whether `end` respects an optional size cap.
pub open spec fn within_cap(end: int, max_file_size: Option<u64>) -> bool {
    match max_file_size {
        Some(cap) => end <= cap,
        None => true,
    }
}

/// The file image after writing `data` at `offset` into `content`: bytes
/// past the old end that the write skips over read as zero. A write made
/// of no buffer at all leaves the image as it is; any buffer, even an
/// empty one, extends the image to the write's end.
pub open spec fn spliced(content: Seq<u8>, offset: int, data: Seq<u8>, any_buffer: bool) -> Seq<u8> {
    let end = offset + data.len();
    let len = if !any_buffer || end <= content.len() {
        content.len() as int
    } else {
        end
    };
    Seq::new(
        len as nat,
        |i: int|
            if offset <= i < end {
                data[i - offset]
            } else if i < content.len() {
                content[i]
            } else {
                0u8
            },
    )
}

/// Where a write of `bufs` at `offset` ends: `None` when that end is past
/// `u64::MAX` or past the cap, which refuses the write before the file is
/// read.
pub fn write_end(offset: u64, bufs: &Vec<Vec<u8>>, max_file_size: Option<u64>) -> (r: Option<u64>)
    ensures
        r == (if offset + concat(byte_seqs(bufs@)).len() <= u64::MAX && within_cap(
            offset + concat(byte_seqs(bufs@)).len(),
            max_file_size,
        ) {
            Some((offset + concat(byte_seqs(bufs@)).len()) as u64)
        } else {
            None::<u64>
        }),
{
    let mut end: u64 = offset;
    let mut j: usize = 0;
    while j < bufs.len()
        invariant
            j <= bufs.len(),
            end == offset + concat(byte_seqs(bufs@).take(j as int)).len(),
        decreases bufs.len() - j,
    {
        proof {
            assert(byte_seqs(bufs@).take(j as int + 1).drop_last() == byte_seqs(bufs@).take(
                j as int,
            ));
        }
        let n: usize = bufs[j].len();
        if n as u64 > u64::MAX - end {
            proof {
                lemma_concat_prefix_len(byte_seqs(bufs@), j as int + 1);
            }
            return None;
        }
        end = end + n as u64;
        j = j + 1;
    }
    proof {
        assert(byte_seqs(bufs@).take(bufs.len() as int) == byte_seqs(bufs@));
    }
    match max_file_size {
        Some(cap) => {
            if end > cap {
                return None;
            }
        },
        None => {},
    }
    Some(end)
}

/// A prefix of the buffers holds no more bytes than all of them.
proof fn lemma_concat_prefix_len(bufs: Seq<Seq<u8>>, k: int)
    requires
        0 <= k <= bufs.len(),
    ensures
        concat(bufs.take(k)).len() <= concat(bufs).len(),
    decreases bufs.len(),
{
    if k < bufs.len() {
        assert(bufs.drop_last().take(k) == bufs.take(k));
        lemma_concat_prefix_len(bufs.drop_last(), k);
    } else {
        assert(bufs.take(k) == bufs);
    }
}

/// Writes `bufs` at `offset` into the file image `content`, extending it
/// with zeros where the offset lies past its end; also returns the number
/// of bytes written.
pub fn splice_bytes(content: Vec<u8>, offset: u64, bufs: &Vec<Vec<u8>>) -> (r: (Vec<u8>, u64))
    requires
        offset + concat(byte_seqs(bufs@)).len() <= usize::MAX,
    ensures
        r.0@ == spliced(content@, offset as int, concat(byte_seqs(bufs@)), bufs.len() > 0),
        r.1 == concat(byte_seqs(bufs@)).len(),
{
    let ghost orig = content@;
    let ghost all = byte_seqs(bufs@);
    let mut content = content;
    let mut pos: usize = offset as usize;
    let mut j: usize = 0;
    proof {
        assert(all.take(0) =~= seq![]);
        assert(spliced(orig, offset as int, seq![], false) =~= orig);
    }
    while j < bufs.len()
        invariant
            j <= bufs.len(),
            all == byte_seqs(bufs@),
            offset + concat(all).len() <= usize::MAX,
            pos == offset + concat(all.take(j as int)).len(),
            content@ == spliced(orig, offset as int, concat(all.take(j as int)), j > 0),
        decreases bufs.len() - j,
    {
        let ghost before = content@;
        let ghost done = concat(all.take(j as int));
        proof {
            assert(all.take(j as int + 1).drop_last() == all.take(j as int));
            assert(all.take(j as int + 1).last() == bufs@[j as int]@);
            lemma_concat_prefix_len(all, j as int + 1);
        }
        let buf = &bufs[j];
        let buf_end: usize = pos + buf.len();
        if buf_end > content.len() {
            content.resize(buf_end, 0u8);
        }
        let ghost grown = content@;
        let mut k: usize = 0;
        while k < buf.len()
            invariant
                k <= buf.len(),
                buf_end == pos + buf.len(),
                buf_end <= content.len(),
                content.len() == grown.len(),
                forall|i: int| 0 <= i < content.len() && !(pos <= i < pos + k) ==> content@[i] == grown[i],
                forall|i: int| pos <= i < pos + k ==> content@[i] == buf@[i - pos],
            decreases buf.len() - k,
        {
            content.set(pos + k, buf[k]);
            k = k + 1;
        }
        proof {
            let next = concat(all.take(j as int + 1));
            assert(next == done + buf@);
            let target = spliced(orig, offset as int, next, true);
            assert(grown.len() == target.len());
            assert forall|i: int| 0 <= i < target.len() implies content@[i] == target[i] by {
                if pos <= i < buf_end {
                    assert(next[i - offset] == buf@[i - pos]);
                } else {
                    assert(content@[i] == grown[i]);
                    if i < before.len() {
                        assert(grown[i] == before[i]);
                        if offset <= i < pos {
                            assert(next[i - offset] == done[i - offset]);
                        }
                    } else {
                        assert(grown[i] == 0u8);
                        assert(!(offset <= i < pos)) by {
                            if j == 0 {
                                assert(pos == offset);
                            }
                        }
                    }
                }
            }
            assert(content@ =~= target);
        }
        pos = buf_end;
        j = j + 1;
    }
    proof {
        assert(all.take(bufs.len() as int) == all);
    }
    let written: u64 = (pos - offset as usize) as u64;
    (content, written)
}

/// What a read of up to `capacity` bytes at `offset` finds in `src`.
pub open spec fn window(src: Seq<u8>, offset: int, capacity: int) -> Seq<u8> {
    if offset >= src.len() {
        Seq::<u8>::empty()
    } else if offset + capacity <= src.len() {
        src.subrange(offset, offset + capacity)
    } else {
        src.subrange(offset, src.len() as int)
    }
}

/// A read at the offset of a write, as long as the write, gives back the
/// bytes written; bytes of the old image outside the written range stay
/// as they were.
pub proof fn lemma_read_back_write(content: Seq<u8>, offset: int, bufs: Seq<Seq<u8>>)
    requires
        offset >= 0,
    ensures
        window(spliced(content, offset, concat(bufs), bufs.len() > 0), offset, concat(bufs).len() as int)
            == concat(bufs),
        forall|i: int|
            0 <= i < content.len() && !(offset <= i < offset + concat(bufs).len()) ==> spliced(
                content,
                offset,
                concat(bufs),
                bufs.len() > 0,
            )[i] == #[trigger] content[i],
{
    let data = concat(bufs);
    let image = spliced(content, offset, data, bufs.len() > 0);
    if bufs.len() == 0 {
        assert(data =~= seq![]);
    }
    if data.len() > 0 {
        assert(image.subrange(offset, offset + data.len()) =~= data);
    } else {
        assert(window(image, offset, 0) =~= data);
    }
}

/// The bytes a read at `offset` delivers into buffers that can take
/// `capacity` bytes in all: what the file holds from `offset` on, cut to
/// the capacity; nothing when `offset` is at or past the end.
pub fn read_window(src: &Vec<u8>, offset: u64, capacity: u64) -> (r: Vec<u8>)
    ensures
        r@ == window(src@, offset as int, capacity as int),
{
    let mut out: Vec<u8> = Vec::new();
    if offset >= src.len() as u64 {
        return out;
    }
    let start: usize = offset as usize;
    let stop: usize = if capacity >= (src.len() - start) as u64 {
        src.len()
    } else {
        start + capacity as usize
    };
    let mut i: usize = start;
    while i < stop
        invariant
            start <= i <= stop <= src.len(),
            out@ == src@.subrange(start as int, i as int),
        decreases stop - i,
    {
        out.push(src[i]);
        i = i + 1;
    }
    out
}

/// The origin and distance of a seek.
#[derive(Debug, Clone, Copy, PartialEq, Eq, Structural)]
pub enum SeekOrigin {
    Start(u64),
    Current(i64),
    End(i64),
}

/// The offset a seek asks for, before it is checked.
pub open spec fn seek_request(cursor: u64, pos: SeekOrigin, size: u64) -> int {
    match pos {
        SeekOrigin::Start(n) => n as int,
        SeekOrigin::Current(d) => cursor + d,
        SeekOrigin::End(d) => size + d,
    }
}

/// The new cursor of a seek from `cursor`, where `size` is the file's size
/// (read only for a seek from the end): `None` when the offset would be
/// negative or past `i64::MAX`.
pub fn seek_target(cursor: u64, pos: SeekOrigin, size: u64) -> (r: Option<u64>)
    ensures
        r == (if 0 <= seek_request(cursor, pos, size) <= i64::MAX {
            Some(seek_request(cursor, pos, size) as u64)
        } else {
            None::<u64>
        }),
{
    let new: i128 = match pos {
        SeekOrigin::Start(n) => n as i128,
        SeekOrigin::Current(d) => cursor as i128 + d as i128,
        SeekOrigin::End(d) => size as i128 + d as i128,
    };
    if new < 0 || new > i64::MAX as i128 {
        None
    } else {
        Some(new as u64)
    }
}

/// Why a truncation of an open file is refused before the file is read.
#[derive(Debug, Clone, Copy, PartialEq, Eq, Structural)]
pub enum TruncateFault {
    /// The file was not opened for writing.
    NotWritable,
    /// The new size is past the run's file size cap.
    TooLarge,
}

/// Whether a file opened with `writable` may be set to `size` bytes under
/// the cap; a handle that cannot write is refused first.
pub fn truncate_check(writable: bool, size: u64, max_file_size: Option<u64>) -> (r: Result<(), TruncateFault>)
    ensures
        r == (if !writable {
            Err::<(), TruncateFault>(TruncateFault::NotWritable)
        } else if !within_cap(size as int, max_file_size) {
            Err(TruncateFault::TooLarge)
        } else {
            Ok(())
        }),
{
    if !writable {
        return Err(TruncateFault::NotWritable);
    }
    match max_file_size {
        Some(cap) => {
            if size > cap {
                return Err(TruncateFault::TooLarge);
            }
        },
        None => {},
    }
    Ok(())
}

} // verus!
