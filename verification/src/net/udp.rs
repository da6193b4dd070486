use core::hash::Hasher;
use std::collections::hash_map::DefaultHasher;
use std::io::Write;
use vstd::prelude::*;
use vstd::std_specs::hash::DefaultHasherAdditionalSpecFns;

verus! {

/// The number that tells the packets of one socket apart.
pub type PacketId = usize;

/// Bytes that the checksum takes in front of a frame's payload.
pub const CHECKSUM_BYTES: usize = 8;

/// Why a packet could not be turned into a frame or a frame into a packet.
#[derive(Clone, Copy, Debug, PartialEq, Eq, Structural)]
pub enum PacketError {
    Serialize,
    Compress,
    /// The frame is shorter than a checksum, or its checksum is not that of
    /// its payload.
    InvalidChecksum,
    Decompress,
    Deserialize,
}

/// Why a socket could not be set up or a connection not be made.
#[derive(Clone, Copy, Debug, PartialEq, Eq, Structural)]
pub enum SocketError {
    FailedToBind,
    FailedToConnect,
    Nonblocking,
    /// No answer came within the time allowed.
    Timeout,
}

#[derive(Clone, Copy, Debug, PartialEq, Eq, Structural)]
pub struct Header {
    pub id: PacketId,
}

/// A message under the header that the transport gave it.
pub struct Packet<M> {
    pub header: Header,
    pub message: M,
}

/// What `DeflateEncoder::finish` of flate2 hands back after the bytes were
/// written to an encoder made with the best compression level, or `None`
/// where the writing or the finishing fails.
pub uninterp spec fn deflated(bytes: Seq<u8>) -> Option<Seq<u8>>;

/// What `DeflateDecoder::finish` of flate2 hands back after the bytes were
/// written to a decoder, or `None` where the writing or the finishing fails.
pub uninterp spec fn inflated(bytes: Seq<u8>) -> Option<Seq<u8>>;

/// The checksum of a payload: what the standard library's default hasher,
/// freshly made, gives after the bytes of the payload were written to it in
/// one piece. The bytes alone are written: the length of the payload is not
/// put in front of them, as hashing a slice would.
pub open spec fn checksum_of(payload: Seq<u8>) -> u64 {
    DefaultHasher::spec_finish(seq![payload])
}

/// The eight bytes of `h`, the most significant first.
pub open spec fn be_bytes(h: u64) -> Seq<u8> {
    let hi = h / 0x1_0000_0000;
    let lo = h % 0x1_0000_0000;
    seq![
        (hi / 0x100_0000) as u8,
        ((hi / 0x1_0000) % 0x100) as u8,
        ((hi / 0x100) % 0x100) as u8,
        (hi % 0x100) as u8,
        (lo / 0x100_0000) as u8,
        ((lo / 0x1_0000) % 0x100) as u8,
        ((lo / 0x100) % 0x100) as u8,
        (lo % 0x100) as u8,
    ]
}

/// The number that eight bytes spell, the most significant first.
pub open spec fn from_be_bytes(b: Seq<u8>) -> int {
    (b[0] as int) * 0x100_0000_0000_0000 + (b[1] as int) * 0x1_0000_0000_0000 + (b[2] as int)
        * 0x100_0000_0000 + (b[3] as int) * 0x1_0000_0000 + (b[4] as int) * 0x100_0000 + (
    b[5] as int) * 0x1_0000 + (b[6] as int) * 0x100 + (b[7] as int)
}

/// The eight bytes of a number spell the number, so different numbers have
/// different bytes.
pub proof fn lemma_be_bytes(h: u64)
    ensures
        be_bytes(h).len() == 8,
        from_be_bytes(be_bytes(h)) == h,
{
    let hi = (h / 0x1_0000_0000) as int;
    let lo = (h % 0x1_0000_0000) as int;
    lemma_four_bytes(hi);
    lemma_four_bytes(lo);
    let b = be_bytes(h);
    assert(b[0] == hi / 0x100_0000 && b[1] == (hi / 0x1_0000) % 0x100
        && b[2] == (hi / 0x100) % 0x100
        && b[3] == hi % 0x100);
    assert(b[4] == lo / 0x100_0000 && b[5] == (lo / 0x1_0000) % 0x100
        && b[6] == (lo / 0x100) % 0x100
        && b[7] == lo % 0x100);
    assert(h == hi * 0x1_0000_0000 + lo);
}

/// A number below two to the thirty-second is spelt by its four bytes.
proof fn lemma_four_bytes(x: int)
    requires
        0 <= x < 0x1_0000_0000,
    ensures
        x == (x / 0x100_0000) * 0x100_0000 + ((x / 0x1_0000) % 0x100) * 0x1_0000 + ((x / 0x100)
            % 0x100) * 0x100 + x % 0x100,
        0 <= x / 0x100_0000 < 0x100,
{
}

/// A frame: the checksum of the payload, then the payload.
pub open spec fn framed(payload: Seq<u8>) -> Seq<u8> {
    be_bytes(checksum_of(payload)) + payload
}

/// Whether `data` is long enough to hold a checksum and starts with the
/// checksum of the rest.
pub open spec fn checksum_ok(data: Seq<u8>) -> bool {
    data.len() >= 8 && data.take(8) == be_bytes(checksum_of(data.skip(8)))
}

/// Every frame passes the check of its checksum and gives its payload back.
pub proof fn lemma_framed_ok(payload: Seq<u8>)
    ensures
        checksum_ok(framed(payload)),
        framed(payload).skip(8) == payload,
        framed(payload).len() == payload.len() + 8,
{
    lemma_be_bytes(checksum_of(payload));
    assert(framed(payload).skip(8) =~= payload);
    assert(framed(payload).take(8) =~= be_bytes(checksum_of(payload)));
}

/// A frame with one byte changed fails the check of its checksum, whether
/// the byte lies in the checksum or in the payload, unless the changed
/// payload happens to have the checksum of the payload as it was.
pub proof fn lemma_corruption_rejected(payload: Seq<u8>, i: int, byte: u8)
    requires
        0 <= i < framed(payload).len(),
        byte != framed(payload)[i],
    ensures
        i < 8 ==> !checksum_ok(framed(payload).update(i, byte)),
        i >= 8 && checksum_of(payload.update(i - 8, byte)) != checksum_of(payload)
            ==> !checksum_ok(framed(payload).update(i, byte)),
{
    let good = framed(payload);
    let bad = good.update(i, byte);
    lemma_framed_ok(payload);
    if i < 8 {
        assert(bad.skip(8) =~= payload);
        assert(bad.take(8)[i] == byte);
        assert(good.take(8)[i] == good[i]);
    } else {
        assert(bad.skip(8) =~= payload.update(i - 8, byte));
        assert(bad.take(8) =~= good.take(8));
        lemma_be_bytes(checksum_of(payload));
        lemma_be_bytes(checksum_of(payload.update(i - 8, byte)));
    }
}

/// The checksum of a payload.
pub fn checksum(payload: &[u8]) -> (h: u64)
    ensures
        h == checksum_of(payload@),
{
    let mut hasher: DefaultHasher = DefaultHasher::new();
    hasher.write(payload);
    assert(hasher@ =~= seq![payload@]);
    hasher.finish()
}

/// The checksum of a payload as the eight bytes that go in front of it.
pub fn checksum_hash(data: &[u8]) -> (r: [u8; 8])
    ensures
        r@ == be_bytes(checksum_of(data@)),
{
    let h: u64 = checksum(data);
    let hi: u64 = h / 0x1_0000_0000;
    let lo: u64 = h % 0x1_0000_0000;
    let r: [u8; 8] = [
        (hi / 0x100_0000) as u8,
        ((hi / 0x1_0000) % 0x100) as u8,
        ((hi / 0x100) % 0x100) as u8,
        (hi % 0x100) as u8,
        (lo / 0x100_0000) as u8,
        ((lo / 0x1_0000) % 0x100) as u8,
        ((lo / 0x100) % 0x100) as u8,
        (lo % 0x100) as u8,
    ];
    assert(r@ =~= be_bytes(checksum_of(data@)));
    r
}

/// Compresses bytes with flate2's `DeflateEncoder` at the best level: the
/// bytes are written to an encoder over an empty vector and the encoder is
/// finished. The contract names what comes back, an error of the encoder
/// being the name's `None` and reported as `Compress`; it promises nothing
/// else.
#[verifier::external_body]
fn deflate(bytes: &[u8]) -> (r: Result<Vec<u8>, PacketError>)
    ensures
        match r {
            Ok(out) => deflated(bytes@) == Some(out@),
            Err(e) => e == PacketError::Compress && deflated(bytes@).is_none(),
        },
{
    let mut compressor = flate2::write::DeflateEncoder::new(Vec::new(),
        flate2::Compression::best());
    match compressor.write_all(bytes) {
        Ok(()) => compressor.finish().map_err(|_| PacketError::Compress),
        Err(_) => Err(PacketError::Compress),
    }
}

/// Expands bytes with flate2's `DeflateDecoder`: the bytes are written to a
/// decoder over an empty vector and the decoder is finished. The contract
/// names what comes back, an error of the decoder being the name's `None`
/// and reported as `Decompress`; it promises nothing else.
#[verifier::external_body]
fn inflate(bytes: &[u8]) -> (r: Result<Vec<u8>, PacketError>)
    ensures
        match r {
            Ok(out) => inflated(bytes@) == Some(out@),
            Err(e) => e == PacketError::Decompress && inflated(bytes@).is_none(),
        },
{
    let mut decompressor = flate2::write::DeflateDecoder::new(Vec::new());
    match decompressor.write_all(bytes) {
        Ok(()) => decompressor.finish().map_err(|_| PacketError::Decompress),
        Err(_) => Err(PacketError::Decompress),
    }
}

/// Puts the checksum of a payload in front of it.
pub fn frame(payload: &[u8]) -> (data: Vec<u8>)
    ensures
        data@ == framed(payload@),
        checksum_ok(data@),
{
    let sum: [u8; 8] = checksum_hash(payload);
    let mut data: Vec<u8> = Vec::new();
    let mut i: usize = 0;
    while i < 8
        invariant
            i <= 8,
            data@ == sum@.take(i as int),
        decreases 8 - i,
    {
        data.push(sum[i]);
        assert(data@ =~= sum@.take(i + 1));
        i = i + 1;
    }
    assert(sum@.take(8) =~= sum@);
    let mut k: usize = 0;
    while k < payload.len()
        invariant
            k <= payload@.len(),
            data@ == sum@ + payload@.take(k as int),
        decreases payload@.len() - k,
    {
        data.push(payload[k]);
        assert(data@ =~= sum@ + payload@.take(k + 1));
        k = k + 1;
    }
    proof {
        assert(payload@.take(payload@.len() as int) =~= payload@);
        lemma_framed_ok(payload@);
    }
    data
}

/// Checks the checksum of a frame and hands back the payload. A frame that
/// is too short to hold a checksum, or whose checksum is not that of its
/// payload, is rejected.
pub fn unframe(data: &[u8]) -> (r: Result<Vec<u8>, PacketError>)
    ensures
        match r {
            Ok(payload) => checksum_ok(data@) && payload@ == data@.skip(8),
            Err(e) => e == PacketError::InvalidChecksum && !checksum_ok(data@),
        },
{
    if data.len() < CHECKSUM_BYTES {
        return Err(PacketError::InvalidChecksum);
    }
    let mut payload: Vec<u8> = Vec::new();
    let mut k: usize = CHECKSUM_BYTES;
    while k < data.len()
        invariant
            8 <= k <= data@.len(),
            payload@ == data@.subrange(8, k as int),
        decreases data@.len() - k,
    {
        payload.push(data[k]);
        assert(payload@ =~= data@.subrange(8, k + 1));
        k = k + 1;
    }
    assert(payload@ =~= data@.skip(8));
    let sum: [u8; 8] = checksum_hash(payload.as_slice());
    let mut i: usize = 0;
    while i < 8
        invariant
            i <= 8,
            data@.len() >= 8,
            payload@ == data@.skip(8),
            sum@ == be_bytes(checksum_of(payload@)),
            forall|j: int| 0 <= j < i ==> data@[j] == sum@[j],
        decreases 8 - i,
    {
        if data[i] != sum[i] {
            proof {
                assert(data@.take(8)[i as int] == data@[i as int]);
            }
            return Err(PacketError::InvalidChecksum);
        }
        i = i + 1;
    }
    assert(data@.take(8) =~= sum@);
    Ok(payload)
}

/// Turns the bytes of a serialized packet into a frame: the bytes are
/// compressed and the checksum of the result is put in front of it. It
/// succeeds exactly where the compression does.
pub fn encode(bytecode: &[u8]) -> (r: Result<Vec<u8>, PacketError>)
    ensures
        match r {
            Ok(data) => deflated(bytecode@).is_some() && data@ == framed(
                deflated(bytecode@).unwrap(),
            ) && checksum_ok(data@),
            Err(e) => e == PacketError::Compress && deflated(bytecode@).is_none(),
        },
{
    match deflate(bytecode) {
        Ok(payload) => Ok(frame(payload.as_slice())),
        Err(e) => Err(e),
    }
}

/// Turns a frame back into the bytes of a serialized packet: the checksum
/// is checked and the payload expanded. A frame that fails the check is
/// rejected with `InvalidChecksum` before anything is expanded.
pub fn decode(data: &[u8]) -> (r: Result<Vec<u8>, PacketError>)
    ensures
        match r {
            Ok(bytecode) => checksum_ok(data@) && inflated(data@.skip(8)) == Some(bytecode@),
            Err(e) => if checksum_ok(data@) {
                e == PacketError::Decompress && inflated(data@.skip(8)).is_none()
            } else {
                e == PacketError::InvalidChecksum
            },
        },
{
    match unframe(data) {
        Ok(payload) => inflate(payload.as_slice()),
        Err(e) => Err(e),
    }
}

} // verus!
