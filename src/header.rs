use vstd::prelude::*;

verus! {

/// Bytes of the header proper: signature, page size and reserved space.
pub const HEADER_LEN: usize = 512;

/// Bytes of the signature that opens every file of this format.
pub const TYPE_ID_LEN: usize = 10;

/// Bytes reserved for later revisions of the format.
pub const RESERVED_LEN: usize = 500;

/// The page size with which new files are created.
pub const DEFAULT_PAGE_SIZE: u16 = 512;

/// The signature "JsonDb v01" as bytes.
pub open spec fn signature() -> Seq<u8> {
    seq![74u8, 115u8, 111u8, 110u8, 68u8, 98u8, 32u8, 118u8, 48u8, 49u8]
}

/// A 16-bit value as two bytes, least significant first.
pub open spec fn le16_bytes(v: u16) -> Seq<u8> {
    seq![(v % 256) as u8, (v / 256) as u8]
}

/// The 16-bit value held by two bytes, least significant first.
pub open spec fn le16_value(lo: u8, hi: u8) -> u16 {
    (lo as int + 256 * hi as int) as u16
}

/// `n` zero bytes.
pub open spec fn zeros(n: nat) -> Seq<u8> {
    Seq::new(n, |i: int| 0u8)
}

/// The metadata record stored in page 0 of every file.
#[derive(Debug, PartialEq, Eq)]
pub struct FileHeader {
    pub type_id: [u8; 10],
    pub page_size: u16,
    pub future_space: [u8; 500],
}

/// Why a buffer is not a header of this format.
#[derive(Clone, Copy, Debug, PartialEq, Eq, Structural)]
pub enum FormatError {
    /// The buffer is shorter than a page, or than the header itself.
    TooShort,
    /// The buffer does not open with the signature.
    BadSignature,
}

impl FileHeader {
    /// A header that can be written: it carries the signature, and its page
    /// is large enough to hold it.
    pub open spec fn wf(&self) -> bool {
        &&& self.type_id@ == signature()
        &&& self.page_size >= HEADER_LEN
    }
}

/// The page that holds header `h`: signature, page size (little-endian),
/// reserved bytes, then zeros up to the page size.
pub open spec fn encoded(h: FileHeader) -> Seq<u8> {
    h.type_id@ + le16_bytes(h.page_size) + h.future_space@ + zeros(
        (h.page_size - HEADER_LEN) as nat,
    )
}

/// Whether `b` is too short to be decoded as a header of a `page_size` page.
pub open spec fn too_short(b: Seq<u8>, page_size: u16) -> bool {
    b.len() < page_size || b.len() < HEADER_LEN
}

/// The error, if any, with which decoding `b` fails.
pub open spec fn decode_error(b: Seq<u8>, page_size: u16) -> Option<FormatError> {
    if too_short(b, page_size) {
        Some(FormatError::TooShort)
    } else if b.subrange(0, TYPE_ID_LEN as int) != signature() {
        Some(FormatError::BadSignature)
    } else {
        None
    }
}

/// The header whose fields are read from the fixed offsets of `b`.
pub open spec fn holds_fields(b: Seq<u8>, h: FileHeader) -> bool {
    &&& h.type_id@ == b.subrange(0, 10)
    &&& h.page_size == le16_value(b[10], b[11])
    &&& h.future_space@ == b.subrange(12, 512)
}

/// Relies on std's `TryFrom<Vec<T>> for [T; N]`: the array takes the vector's
/// items when there are exactly `N`, and the vector comes back otherwise.
#[verifier::external_body]
fn vec_into_array<T, const N: usize>(v: Vec<T>) -> (r: Result<[T; N], Vec<T>>)
    ensures
        match r {
            Ok(a) => v@.len() == N && a@ == v@,
            Err(w) => v@.len() != N && w@ == v@,
        },
{
    <[T; N]>::try_from(v)
}

/// Moves the items of a vector of length `N` into an array.
pub fn vec_to_array<T, const N: usize>(v: Vec<T>) -> (r: [T; N])
    requires
        v@.len() == N,
    ensures
        r@ == v@,
    decreases 0nat,
{
    match vec_into_array::<T, N>(v) {
        Ok(a) => a,
        // Never taken: the length is `N`, so the conversion succeeds.
        Err(w) => vec_to_array(w),
    }
}

/// The signature as an array.
fn signature_bytes() -> (r: [u8; 10])
    ensures
        r@ == signature(),
{
    let r: [u8; 10] = [74, 115, 111, 110, 68, 98, 32, 118, 48, 49];
    assert(r@ =~= signature());
    r
}

/// Appends the items of `src` to `out`.
fn append_bytes<const N: usize>(out: &mut Vec<u8>, src: &[u8; N])
    ensures
        final(out)@ == old(out)@ + src@,
{
    let mut i: usize = 0;
    while i < N
        invariant
            i <= N,
            src@.len() == N,
            out@ == old(out)@ + src@.subrange(0, i as int),
        decreases N - i,
    {
        out.push(src[i]);
        i = i + 1;
        assert(src@.subrange(0, i as int) =~= src@.subrange(0, i - 1) + seq![src@[i - 1]]);
    }
    assert(src@.subrange(0, N as int) =~= src@);
}

/// Copies `b[start .. start + N]` into an array.
fn copy_range<const N: usize>(b: &[u8], start: usize) -> (r: [u8; N])
    requires
        start + N <= b@.len(),
    ensures
        r@ == b@.subrange(start as int, start + N),
{
    let len = b.len();
    let mut v: Vec<u8> = Vec::new();
    let mut i: usize = 0;
    while i < N
        invariant
            i <= N,
            len == b@.len(),
            start + N <= b@.len(),
            v@ == b@.subrange(start as int, start + i),
        decreases N - i,
    {
        v.push(b[start + i]);
        i = i + 1;
        assert(v@ =~= b@.subrange(start as int, start + i));
    }
    vec_to_array(v)
}

/// The canonical header of a new file: the signature, `page_size`, and a
/// reserved region of zeros.
pub fn default_header(page_size: u16) -> (h: FileHeader)
    ensures
        h.type_id@ == signature(),
        h.page_size == page_size,
        h.future_space@ == zeros(RESERVED_LEN as nat),
{
    let mut v: Vec<u8> = Vec::new();
    let mut i: usize = 0;
    while i < RESERVED_LEN
        invariant
            i <= RESERVED_LEN,
            v@ == zeros(i as nat),
        decreases RESERVED_LEN - i,
    {
        v.push(0);
        i = i + 1;
        assert(v@ =~= zeros(i as nat));
    }
    FileHeader { type_id: signature_bytes(), page_size, future_space: vec_to_array(v) }
}

/// Encodes `h` as the page that holds it, exactly `h.page_size` bytes long.
pub fn encode(h: &FileHeader) -> (r: Vec<u8>)
    requires
        h.page_size >= HEADER_LEN,
    ensures
        r@ == encoded(*h),
        r@.len() == h.page_size,
{
    let mut out: Vec<u8> = Vec::new();
    append_bytes(&mut out, &h.type_id);
    out.push((h.page_size % 256) as u8);
    out.push((h.page_size / 256) as u8);
    append_bytes(&mut out, &h.future_space);
    assert(out@ =~= h.type_id@ + le16_bytes(h.page_size) + h.future_space@);
    let ghost prefix = out@;
    let size = h.page_size as usize;
    while out.len() < size
        invariant
            prefix.len() == HEADER_LEN,
            size == h.page_size,
            HEADER_LEN <= out@.len() <= size,
            out@ == prefix + zeros((out@.len() - HEADER_LEN) as nat),
        decreases size - out@.len(),
    {
        out.push(0);
        assert(out@ =~= prefix + zeros((out@.len() - HEADER_LEN) as nat));
    }
    out
}

/// Decodes a header from the first page of a file, read field by field from
/// fixed offsets.
pub fn decode(bytes: &[u8], page_size: u16) -> (r: Result<FileHeader, FormatError>)
    ensures
        match r {
            Ok(h) => decode_error(bytes@, page_size) is None && holds_fields(bytes@, h),
            Err(e) => decode_error(bytes@, page_size) == Some(e),
        },
{
    if bytes.len() < page_size as usize || bytes.len() < HEADER_LEN {
        return Err(FormatError::TooShort);
    }
    let sig = signature_bytes();
    let mut i: usize = 0;
    while i < TYPE_ID_LEN
        invariant
            i <= TYPE_ID_LEN,
            !too_short(bytes@, page_size),
            sig@ == signature(),
            bytes@.subrange(0, i as int) == signature().subrange(0, i as int),
        decreases TYPE_ID_LEN - i,
    {
        if bytes[i] != sig[i] {
            assert(sig[i as int] == signature()[i as int]);
            assert(bytes@.subrange(0, TYPE_ID_LEN as int)[i as int] == bytes@[i as int]);
            assert(bytes@.subrange(0, TYPE_ID_LEN as int) != signature());
            return Err(FormatError::BadSignature);
        }
        i = i + 1;
        assert(bytes@.subrange(0, i as int) =~= signature().subrange(0, i as int));
    }
    assert(signature().subrange(0, 10) =~= signature());
    let type_id: [u8; 10] = copy_range(bytes, 0);
    let page_size_field = bytes[10] as u16 + 256 * (bytes[11] as u16);
    let future_space: [u8; 500] = copy_range(bytes, 12);
    Ok(FileHeader { type_id, page_size: page_size_field, future_space })
}

/// Two bytes written by `le16_bytes` read back as the same value.
pub proof fn lemma_le16_round_trip(v: u16)
    ensures
        le16_value(le16_bytes(v)[0], le16_bytes(v)[1]) == v,
{
    assert((v % 256) + 256 * (v / 256) == v) by (nonlinear_arith);
}

/// Encoding a well-formed header fills exactly one page.
pub proof fn lemma_fixed_width(h: FileHeader)
    requires
        h.wf(),
    ensures
        encoded(h).len() == h.page_size,
{
}

/// Decoding the page that encodes a well-formed header does not fail.
pub proof fn lemma_round_trip_succeeds(h: FileHeader)
    requires
        h.wf(),
    ensures
        decode_error(encoded(h), h.page_size) is None,
{
    assert(encoded(h).subrange(0, 10) =~= h.type_id@);
}

/// Decoding the page that encodes a well-formed header succeeds, and the
/// header it reads is the one that was encoded.
pub proof fn lemma_round_trip(h: FileHeader, d: FileHeader)
    requires
        h.wf(),
        holds_fields(encoded(h), d),
    ensures
        decode_error(encoded(h), h.page_size) is None,
        d == h,
{
    let b = encoded(h);
    lemma_le16_round_trip(h.page_size);
    assert(b.subrange(0, 10) =~= h.type_id@);
    assert(b[10] == le16_bytes(h.page_size)[0]);
    assert(b[11] == le16_bytes(h.page_size)[1]);
    assert(b.subrange(12, 512) =~= h.future_space@);
    assert(d.type_id =~= h.type_id);
    assert(d.future_space =~= h.future_space);
}

/// A buffer long enough to be decoded, whose first ten bytes are not the
/// signature, fails with `BadSignature` whatever its other bytes hold.
pub proof fn lemma_bad_signature(b: Seq<u8>, page_size: u16)
    requires
        !too_short(b, page_size),
        b.subrange(0, TYPE_ID_LEN as int) != signature(),
    ensures
        decode_error(b, page_size) == Some(FormatError::BadSignature),
{
}

/// A buffer shorter than a page always fails with `TooShort`.
pub proof fn lemma_truncated(b: Seq<u8>, page_size: u16)
    requires
        b.len() < page_size,
    ensures
        decode_error(b, page_size) == Some(FormatError::TooShort),
{
}

} // verus!
