use vstd::prelude::*;

verus! {

/// The value that a little-endian byte sequence denotes, built up from the
/// most significant byte; each byte `i` contributes its value shifted left
/// by `8 * i` bits. Meaningful for sequences of at most 8 bytes.
pub open spec fn le_suffix_u64(bytes: Seq<u8>) -> u64
    recommends
        bytes.len() <= 8,
    decreases bytes.len(),
{
    if bytes.len() == 0 {
        0u64
    } else {
        le_suffix_u64(bytes.drop_last()) | ((bytes.last() as u64) << ((8 * (bytes.len() - 1)) as u64))
    }
}

/// The bit pattern common to all addresses of a chunk, as read from its header.
pub open spec fn header_common(h: Seq<u8>) -> u64 {
    vstd::bytes::spec_u64_from_le_bytes(h.subrange(0, 8))
}

/// The number of leading address bytes omitted from the payload, as read
/// from a chunk header.
pub open spec fn header_prefix_len(h: Seq<u8>) -> u64 {
    vstd::bytes::spec_u64_from_le_bytes(h.subrange(8, 16))
}

/// The number of addresses in a chunk, as read from its header.
pub open spec fn header_n(h: Seq<u8>) -> u64 {
    vstd::bytes::spec_u64_from_le_bytes(h.subrange(16, 24))
}

/// The addresses encoded by one chunk: `n` addresses, the `j`-th formed by
/// OR-ing the common bits with the `j`-th little-endian suffix of the payload.
pub open spec fn chunk_addrs(common: u64, suffix_len: nat, n: nat, payload: Seq<u8>) -> Seq<u64> {
    Seq::new(
        n,
        |j: int| common | le_suffix_u64(payload.subrange(j * suffix_len, j * suffix_len + suffix_len)),
    )
}

/// A header and payload that form one well-formed, non-terminal chunk.
pub open spec fn valid_chunk(h: Seq<u8>, p: Seq<u8>) -> bool {
    &&& h.len() == 24
    &&& 0 < header_n(h)
    &&& header_prefix_len(h) <= 8
    &&& p.len() == header_n(h) * (8 - header_prefix_len(h))
}

/// The batch of addresses that a well-formed chunk encodes.
pub open spec fn chunk_of(h: Seq<u8>, p: Seq<u8>) -> Seq<u64> {
    chunk_addrs(
        header_common(h),
        (8 - header_prefix_len(h)) as nat,
        header_n(h) as nat,
        p,
    )
}

/// The `k` low bytes of an address, least significant first: the per-address
/// payload that an encoder emits when the `8 - k` high bytes are factored out.
pub open spec fn low_le_bytes(a: u64, k: nat) -> Seq<u8> {
    Seq::new(k, |i: int| ((a >> ((8 * i) as u64)) & 0xff) as u8)
}

/// The shared bit pattern an encoder stores in a chunk header for address
/// `a` when the `prefix_len` high bytes are common: `a` with its low
/// `8 - prefix_len` bytes zeroed.
pub open spec fn common_of(a: u64, prefix_len: u64) -> u64
    recommends
        prefix_len <= 8,
{
    if prefix_len == 0 {
        0u64
    } else {
        (a >> ((8 * (8 - prefix_len)) as u64)) << ((8 * (8 - prefix_len)) as u64)
    }
}

/// The mask selecting the low `sh` bits of a 64-bit value.
pub open spec fn low_mask(sh: u64) -> u64
    recommends
        sh < 64,
{
    !(0xffff_ffff_ffff_ffffu64 << sh)
}

/// The little-endian value of the `k` low bytes of `a` is exactly the low
/// `8 * k` bits of `a`.
proof fn lemma_le_suffix_low(a: u64, k: u64)
    requires
        k <= 8,
    ensures
        k < 8 ==> le_suffix_u64(low_le_bytes(a, k as nat)) == (a & low_mask((8 * k) as u64)),
        k == 8 ==> le_suffix_u64(low_le_bytes(a, k as nat)) == a,
    decreases k,
{
    if k == 0 {
        assert(low_le_bytes(a, 0).len() == 0);
        assert(a & !(0xffff_ffff_ffff_ffffu64 << 0) == 0) by (bit_vector);
    } else {
        let s = low_le_bytes(a, k as nat);
        let prev = low_le_bytes(a, (k - 1) as nat);
        assert(s.drop_last() =~= prev);
        let sh: u64 = ((8 * (k - 1)) as u64);
        assert(s.last() == ((a >> sh) & 0xff) as u8);
        lemma_le_suffix_low(a, (k - 1) as u64);
        assert(((((a >> sh) & 0xff) as u8) as u64) == ((a >> sh) & 0xff)) by (bit_vector);
        if k < 8 {
            assert((a & !(0xffff_ffff_ffff_ffffu64 << sh)) | (((a >> sh) & 0xff) << sh) == (a
                & !(0xffff_ffff_ffff_ffffu64 << (sh + 8)))) by (bit_vector)
                requires
                    sh <= 48,
            ;
        } else {
            assert((a & !(0xffff_ffff_ffff_ffffu64 << 56)) | (((a >> 56) & 0xff) << 56) == a)
                by (bit_vector);
        }
    }
}

/// Round trip: an address encoded as a single-address chunk — its high
/// `prefix_len` bytes factored into the common bits, its remaining low bytes
/// laid out little-endian in the payload — decodes back to exactly that
/// address, for every `prefix_len` from 0 to 8.
pub proof fn lemma_round_trip(a: u64, prefix_len: u64)
    requires
        prefix_len <= 8,
    ensures
        chunk_addrs(
            common_of(a, prefix_len),
            (8 - prefix_len) as nat,
            1,
            low_le_bytes(a, (8 - prefix_len) as nat),
        ) =~= seq![a],
{
    let k: u64 = ((8 - prefix_len) as u64);
    let p = low_le_bytes(a, k as nat);
    assert(p.subrange(0, k as int) =~= p);
    lemma_le_suffix_low(a, k);
    let addrs = chunk_addrs(common_of(a, prefix_len), k as nat, 1, p);
    if prefix_len == 0 {
        assert(0u64 | a == a) by (bit_vector);
        assert(addrs[0] == a);
    } else {
        let sh: u64 = ((8 * k) as u64);
        assert(((a >> sh) << sh) | (a & !(0xffff_ffff_ffff_ffffu64 << sh)) == a) by (bit_vector)
            requires
                sh <= 56,
        ;
        assert(addrs[0] == a);
    }
}

/// A structural fault in the stream: a chunk header announced an impossible
/// shape (more than 8 common prefix bytes).
#[derive(Clone, Copy, Debug, PartialEq, Eq, Structural)]
pub enum TraceError {
    BadPrefixLen,
}

/// The zlib decompression stream of the `flate2` crate, used as an opaque
/// byte source: the trace decoder only ever asks it for exact reads and for
/// its running count of decompressed bytes.
#[verifier::external_type_specification]
#[verifier::external_body]
#[verifier::reject_recursive_types(R)]
pub struct ExZlibDecoder<R>(flate2::read::ZlibDecoder<R>);

/// Relies on flate2's `ZlibDecoder::new`: wraps a byte source in a
/// decompressing reader.
#[verifier::external_body]
fn zlib_new<R: std::io::Read>(input: R) -> flate2::read::ZlibDecoder<R> {
    flate2::read::ZlibDecoder::new(input)
}

/// Relies on flate2's `ZlibDecoder::total_out`: the number of decompressed
/// bytes produced so far. Nothing further is assumed of the value.
#[verifier::external_body]
fn zlib_total_out<R>(decoder: &flate2::read::ZlibDecoder<R>) -> u64 {
    decoder.total_out()
}

/// Relies on `std::io::Read::read_exact` on flate2's `ZlibDecoder`: on
/// success the buffer is filled completely, so the returned vector has
/// exactly the requested length; a short or failed read returns `None`.
#[verifier::external_body]
fn zlib_read_exact<R: std::io::Read>(
    decoder: &mut flate2::read::ZlibDecoder<R>,
    count: usize,
) -> (r: Option<Vec<u8>>)
    ensures
        r matches Some(bytes) ==> bytes@.len() == count,
{
    let mut buf = vec![0u8; count];
    match std::io::Read::read_exact(decoder, &mut buf) {
        Ok(()) => Some(buf),
        Err(_) => None,
    }
}

/// Reads the three little-endian 64-bit header fields out of a 24-byte buffer.
pub fn parse_header(head: &Vec<u8>) -> (r: (u64, u64, u64))
    requires
        head@.len() == 24,
    ensures
        r.0 == header_common(head@),
        r.1 == header_prefix_len(head@),
        r.2 == header_n(head@),
{
    let s = head.as_slice();
    let common = vstd::bytes::u64_from_le_bytes(vstd::slice::slice_subrange(s, 0, 8));
    let prefix_len = vstd::bytes::u64_from_le_bytes(vstd::slice::slice_subrange(s, 8, 16));
    let n = vstd::bytes::u64_from_le_bytes(vstd::slice::slice_subrange(s, 16, 24));
    (common, prefix_len, n)
}

/// Assembles one address suffix from `len` payload bytes starting at `lo`.
fn decode_suffix(data: &Vec<u8>, lo: usize, len: usize) -> (r: u64)
    requires
        len <= 8,
        lo + len <= data@.len(),
    ensures
        r == le_suffix_u64(data@.subrange(lo as int, lo + len)),
{
    let dlen = data.len();
    let mut acc: u64 = 0;
    let mut i: usize = 0;
    while i < len
        invariant
            i <= len,
            len <= 8,
            lo + len <= dlen,
            dlen == data@.len(),
            acc == le_suffix_u64(data@.subrange(lo as int, lo + i)),
        decreases len - i,
    {
        let b = data[lo + i];
        let sh: u64 = 8 * (i as u64);
        proof {
            let prev = data@.subrange(lo as int, lo + i);
            let cur = data@.subrange(lo as int, lo + i + 1);
            assert(cur.drop_last() =~= prev);
            assert(cur.last() == data@[lo + i]);
        }
        acc = acc | ((b as u64) << sh);
        i = i + 1;
    }
    acc
}

/// Decodes a whole chunk payload into its `n` addresses.
pub fn decode_payload(common: u64, suffix_len: usize, n: usize, data: &Vec<u8>) -> (r: Vec<u64>)
    requires
        suffix_len <= 8,
        data@.len() == n * suffix_len,
    ensures
        r@ == chunk_addrs(common, suffix_len as nat, n as nat, data@),
{
    let dlen = data.len();
    let mut r: Vec<u64> = Vec::new();
    let mut lo: usize = 0;
    let mut j: usize = 0;
    while j < n
        invariant
            j <= n,
            suffix_len <= 8,
            dlen == data@.len(),
            data@.len() == n * suffix_len,
            lo == j * suffix_len,
            r@.len() == j,
            forall|i: int|
                0 <= i < j ==> r@[i] == (common | le_suffix_u64(
                    data@.subrange(i * suffix_len, i * suffix_len + suffix_len),
                )),
        decreases n - j,
    {
        proof {
            assert((j + 1) * suffix_len == j * suffix_len + suffix_len) by (nonlinear_arith);
            assert((j + 1) * suffix_len <= n * suffix_len) by (nonlinear_arith)
                requires
                    j + 1 <= n,
                    suffix_len >= 0,
            ;
        }
        let suffix = decode_suffix(data, lo, suffix_len);
        r.push(common | suffix);
        lo = lo + suffix_len;
        j = j + 1;
    }
    proof {
        assert(r@ =~= chunk_addrs(common, suffix_len as nat, n as nat, data@));
    }
    r
}

/// A raw trace: a pull-based decoder over the decompressed byte stream.
#[verifier::reject_recursive_types(R)]
pub struct Trace<R> {
    /// The raw compressed trace.
    decoder: flate2::read::ZlibDecoder<R>,

    /// Whether the stream is exhausted: no further chunk will be produced.
    done: bool,
}

impl<R> Trace<R> {
    /// Whether the decoder has reached its terminal state.
    pub closed spec fn is_done(&self) -> bool {
        self.done
    }

    pub fn new(input: R) -> (r: Self) where R: std::io::Read
        ensures
            !r.is_done(),
    {
        let decoder = zlib_new(input);
        Self { decoder, done: false }
    }

    /// The number of decompressed bytes consumed so far, for progress display.
    pub fn so_far(&self) -> u64 {
        zlib_total_out(&self.decoder)
    }

    /// Reads and decodes the next chunk of the trace.
    ///
    /// `Ok(None)` is the terminal outcome: the stream ended (cleanly, by the
    /// explicit `n == 0` sentinel, or by a short read, which are deliberately
    /// not distinguished), and every later call returns `Ok(None)` again.
    /// `Ok(Some((batch, so_far)))` carries one non-empty batch of addresses
    /// decoded from a well-formed chunk, paired with the cumulative
    /// decompressed byte count. `Err` reports a structurally impossible
    /// header (`prefix_len > 8`).
    pub fn next(&mut self) -> (r: Result<Option<(Vec<u64>, u64)>, TraceError>) where
        R: std::io::Read,

        ensures
            old(self).is_done() ==> (r matches Ok(b) && b is None),
            (r matches Ok(b) && b is None) ==> final(self).is_done(),
            r matches Ok(Some(pair)) ==> {
                &&& !final(self).is_done()
                &&& pair.0@.len() > 0
                &&& exists|h: Seq<u8>, p: Seq<u8>|
                    #![trigger valid_chunk(h, p)]
                    valid_chunk(h, p) && pair.0@ == chunk_of(h, p)
            },
            r matches Err(e) ==> {
                &&& e == TraceError::BadPrefixLen
                &&& final(self).is_done()
                &&& exists|h: Seq<u8>| h.len() == 24 && #[trigger] header_prefix_len(h) > 8
                    && header_n(h) > 0
            },
    {
        if self.done {
            return Ok(None);
        }
        let head = match zlib_read_exact(&mut self.decoder, 24) {
            Some(head) => head,
            None => {
                self.done = true;
                return Ok(None);
            },
        };
        let (common, prefix_len, n) = parse_header(&head);
        if n == 0 {
            self.done = true;
            return Ok(None);
        }
        if prefix_len > 8 {
            self.done = true;
            return Err(TraceError::BadPrefixLen);
        }
        let suffix_len = (8 - prefix_len) as usize;
        let payload: Vec<u8> = if suffix_len == 0 {
            Vec::new()
        } else {
            let payload_len = match n.checked_mul(suffix_len as u64) {
                Some(l) => l,
                None => {
                    // No stream can supply that many bytes; the read below
                    // would fail, so resolve to the terminal outcome now.
                    self.done = true;
                    return Ok(None);
                },
            };
            if payload_len > (usize::MAX as u64) {
                self.done = true;
                return Ok(None);
            }
            match zlib_read_exact(&mut self.decoder, payload_len as usize) {
                Some(payload) => payload,
                None => {
                    self.done = true;
                    return Ok(None);
                },
            }
        };
        if n > (usize::MAX as u64) {
            // More addresses than any in-memory batch can hold; the payload
            // read above must already have fallen short.
            self.done = true;
            return Ok(None);
        }
        proof {
            assert(payload@.len() == (n as nat) * (suffix_len as nat)) by (nonlinear_arith)
                requires
                    suffix_len == 0 ==> payload@.len() == 0,
                    suffix_len > 0 ==> payload@.len() == (n as nat) * (suffix_len as nat),
            ;
        }
        let batch = decode_payload(common, suffix_len, n as usize, &payload);
        proof {
            assert(valid_chunk(head@, payload@));
            assert(batch@ == chunk_of(head@, payload@));
        }
        Ok(Some((batch, self.so_far())))
    }
}

} // verus!
