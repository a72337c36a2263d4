use vstd::prelude::*;

use crate::header::{
    decode, decode_error, default_header, encode, holds_fields, le16_bytes, lemma_round_trip,
    lemma_round_trip_succeeds, signature, zeros,
    FileHeader, FormatError, HEADER_LEN, RESERVED_LEN,
};

verus! {

/// Why a page could not be read or written.
#[derive(Clone, Copy, Debug, PartialEq, Eq, Structural)]
pub enum IoError {
    /// No file at the given path.
    NotFound,
    /// The file system refused access.
    PermissionDenied,
    /// A file already stands at the given path.
    AlreadyExists,
    /// The page lies, in whole or in part, past the end of the file.
    OutOfRange,
    /// The file handed back fewer bytes than a page.
    ShortRead,
    /// The file took fewer bytes than a page.
    ShortWrite,
    /// The data to write is not exactly one page long.
    InvalidArgument,
    /// Any other failure of the file system.
    Other,
}

/// Why the header could not be read.
#[derive(Clone, Copy, Debug, PartialEq, Eq, Structural)]
pub enum HeaderError {
    Io(IoError),
    Format(FormatError),
}

/// Byte offset of page `index`.
pub open spec fn page_start(index: u32, page_size: u16) -> nat {
    (index as nat) * (page_size as nat)
}

/// Byte offset just past page `index`.
pub open spec fn page_end(index: u32, page_size: u16) -> nat {
    (index as nat + 1) * (page_size as nat)
}

/// Byte offset of page `index`: `index * page_size`.
pub fn page_offset(index: u32, page_size: u16) -> (r: u64)
    ensures
        r == page_start(index, page_size),
{
    assert((index as nat) * (page_size as nat) <= 0xffff_ffffnat * 0xffffnat) by (nonlinear_arith);
    (index as u64) * (page_size as u64)
}

/// Checks that page `index` lies wholly within a file of `file_len` bytes,
/// and gives its offset.
pub fn read_range(index: u32, page_size: u16, file_len: u64) -> (r: Result<u64, IoError>)
    ensures
        page_end(index, page_size) <= file_len <==> r is Ok,
        r is Ok ==> r == Ok::<u64, IoError>(page_start(index, page_size) as u64),
        r is Err ==> r == Err::<u64, IoError>(IoError::OutOfRange),
{
    let start = page_offset(index, page_size);
    assert(page_end(index, page_size) == page_start(index, page_size) + page_size) by (nonlinear_arith);
    if start > file_len || file_len - start < page_size as u64 {
        Err(IoError::OutOfRange)
    } else {
        Ok(start)
    }
}

/// Accepts a page read only when the whole page came back.
pub fn finish_read(buf: Vec<u8>, bytes_read: usize, page_size: u16) -> (r: Result<Vec<u8>, IoError>)
    ensures
        (bytes_read == page_size && buf@.len() == page_size) <==> r is Ok,
        r is Ok ==> r == Ok::<Vec<u8>, IoError>(buf),
        r is Err ==> r == Err::<Vec<u8>, IoError>(IoError::ShortRead),
{
    if bytes_read != page_size as usize || buf.len() != page_size as usize {
        Err(IoError::ShortRead)
    } else {
        Ok(buf)
    }
}

/// Checks that `data` is exactly one page, and gives the offset of page
/// `index`.
pub fn write_range(index: u32, page_size: u16, data: &[u8]) -> (r: Result<u64, IoError>)
    ensures
        data@.len() == page_size <==> r is Ok,
        r is Ok ==> r == Ok::<u64, IoError>(page_start(index, page_size) as u64),
        r is Err ==> r == Err::<u64, IoError>(IoError::InvalidArgument),
{
    if data.len() != page_size as usize {
        Err(IoError::InvalidArgument)
    } else {
        Ok(page_offset(index, page_size))
    }
}

/// Accepts a page write only when the whole page was taken.
pub fn finish_write(written: usize, page_size: u16) -> (r: Result<(), IoError>)
    ensures
        written == page_size <==> r is Ok,
        r is Err ==> r == Err::<(), IoError>(IoError::ShortWrite),
{
    if written != page_size as usize {
        Err(IoError::ShortWrite)
    } else {
        Ok(())
    }
}

/// The bytes that a new file holds at offset 0: the canonical header for
/// `page_size`, encoded.
pub fn header_page(page_size: u16) -> (r: Vec<u8>)
    requires
        page_size >= HEADER_LEN,
    ensures
        r@ == signature() + le16_bytes(page_size) + zeros(RESERVED_LEN as nat) + zeros(
            (page_size - HEADER_LEN) as nat,
        ),
        r@.len() == page_size,
        decode_error(r@, page_size) is None,
        forall|d: FileHeader|
            holds_fields(r@, d) ==> {
                &&& d.type_id@ == signature()
                &&& d.page_size == page_size
                &&& d.future_space@ == zeros(RESERVED_LEN as nat)
            },
{
    let h = default_header(page_size);
    let r = encode(&h);
    proof {
        assert forall|d: FileHeader| holds_fields(r@, d) implies d == h by {
            lemma_round_trip(h, d);
        }
        lemma_round_trip_succeeds(h);
    }
    r
}

/// Reads the header out of page 0, as handed back by a page read.
pub fn header_from_page(page: Result<Vec<u8>, IoError>, page_size: u16) -> (r: Result<
    FileHeader,
    HeaderError,
>)
    ensures
        match page {
            Err(e) => r == Err::<FileHeader, HeaderError>(HeaderError::Io(e)),
            Ok(b) => match r {
                Ok(h) => decode_error(b@, page_size) is None && holds_fields(b@, h),
                Err(e) => exists|f: FormatError|
                    decode_error(b@, page_size) == Some(f) && e == HeaderError::Format(f),
            },
        },
{
    match page {
        Err(e) => Err(HeaderError::Io(e)),
        Ok(b) => match decode(b.as_slice(), page_size) {
            Ok(h) => Ok(h),
            Err(f) => Err(HeaderError::Format(f)),
        },
    }
}

/// A file's contents after `data` is written at byte `off`: the file grows
/// where the write passes its end, and bytes skipped over read as zero.
pub open spec fn write_at(file: Seq<u8>, off: nat, data: Seq<u8>) -> Seq<u8> {
    let len = if off + data.len() > file.len() { off + data.len() } else { file.len() as nat };
    Seq::new(
        len,
        |i: int|
            if off <= i < off + data.len() {
                data[i - off]
            } else if i < file.len() {
                file[i]
            } else {
                0u8
            },
    )
}

/// Page `index` of `file` after `data` is written there.
pub open spec fn write_page(file: Seq<u8>, index: u32, page_size: u16, data: Seq<u8>) -> Seq<u8> {
    write_at(file, page_start(index, page_size), data)
}

/// The bytes of page `index` of `file`.
pub open spec fn read_page(file: Seq<u8>, index: u32, page_size: u16) -> Seq<u8> {
    file.subrange(page_start(index, page_size) as int, page_end(index, page_size) as int)
}

/// Distinct pages cover disjoint byte ranges.
pub proof fn lemma_pages_disjoint(i: u32, j: u32, page_size: u16)
    requires
        i < j,
    ensures
        page_end(i, page_size) <= page_start(j, page_size),
{
    assert((i as nat + 1) * (page_size as nat) <= (j as nat) * (page_size as nat))
        by (nonlinear_arith)
        requires
            i < j,
    ;
}

/// Reading a page back right after writing a whole page there gives the
/// bytes written, and every page up to it then lies within the file.
pub proof fn lemma_read_after_write(file: Seq<u8>, index: u32, page_size: u16, data: Seq<u8>, k: u32)
    requires
        data.len() == page_size,
        k <= index,
    ensures
        read_page(write_page(file, index, page_size, data), index, page_size) == data,
        page_end(k, page_size) <= write_page(file, index, page_size, data).len(),
{
    assert(page_end(index, page_size) == page_start(index, page_size) + page_size)
        by (nonlinear_arith);
    assert(page_end(k, page_size) <= page_end(index, page_size)) by (nonlinear_arith)
        requires
            k <= index,
    ;
    assert(read_page(write_page(file, index, page_size, data), index, page_size) =~= data);
}

/// Writing whole pages to two distinct pages, then reading the first, gives
/// exactly what was written to it, whatever went to the second.
pub proof fn lemma_page_addressing(
    file: Seq<u8>,
    i: u32,
    a: Seq<u8>,
    j: u32,
    b: Seq<u8>,
    page_size: u16,
)
    requires
        i != j,
        a.len() == page_size,
        b.len() == page_size,
    ensures
        read_page(write_page(write_page(file, i, page_size, a), j, page_size, b), i, page_size)
            == a,
{
    let f1 = write_page(file, i, page_size, a);
    let f2 = write_page(f1, j, page_size, b);
    lemma_read_after_write(file, i, page_size, a, i);
    if i < j {
        lemma_pages_disjoint(i, j, page_size);
    } else {
        lemma_pages_disjoint(j, i, page_size);
    }
    assert(page_end(i, page_size) == page_start(i, page_size) + page_size)
        by (nonlinear_arith);
    assert(page_end(j, page_size) == page_start(j, page_size) + page_size)
        by (nonlinear_arith);
    assert(read_page(f2, i, page_size) =~= read_page(f1, i, page_size));
}

} // verus!
