//! Perceptual fingerprint extraction and Hamming distance.
//!
//! A fingerprint is a fixed-length bit vector derived from decoded pixel
//! content (never from raw file bytes), so that visually similar images have
//! a small Hamming distance between their vectors. The reference method is
//! the 256-bit blockhash: the image is split into a 16x16 grid of blocks and
//! each block contributes one bit, in row-major block order.

use vstd::prelude::*;

verus! {

/// Number of bits in a fingerprint produced by the reference method.
pub const FINGERPRINT_BITS: usize = 256;

/// Number of bytes in the packed digest the reference method emits.
pub const FINGERPRINT_BYTES: usize = 32;

/// Largest pixel count (width times height) the extractor accepts; keeps the
/// digest computation's intermediate sums inside `u64`.
pub const MAX_PIXEL_COUNT: u64 = 0x1000_0000_0000;

/// A decoded image held as plain values: tightly packed RGBA samples in
/// row-major order, four bytes per pixel.
pub struct PixelBuffer {
    pub width: u32,
    pub height: u32,
    pub rgba: Vec<u8>,
}

impl PixelBuffer {
    /// The sample buffer covers exactly the stated dimensions.
    pub open spec fn wf(&self) -> bool {
        self.rgba@.len() == 4 * (self.width as int) * (self.height as int)
    }
}

/// The image the `image` crate decodes from the given file bytes, as RGBA
/// samples with width and height, or `None` when the bytes are not a
/// decodable image. Decoding is a function of the bytes alone.
pub uninterp spec fn decoded_image_of(bytes: Seq<u8>) -> Option<(Seq<u8>, int, int)>;

/// The 32-byte digest `blockhash::blockhash256` computes for an image with
/// the given RGBA samples and dimensions. A function of its arguments alone.
pub uninterp spec fn blockhash256_of(rgba: Seq<u8>, width: int, height: int) -> Seq<u8>;

/// Bit `j` of byte `b`, counting from the most significant bit.
pub open spec fn byte_bit(b: u8, j: int) -> bool {
    ((b as u32) >> ((7 - j) as u32)) & 1 == 1
}

/// The bytes unpacked into bits, most significant bit of each byte first.
pub open spec fn bits_of_bytes(bytes: Seq<u8>) -> Seq<bool> {
    Seq::new(bytes.len() * 8, |i: int| byte_bit(bytes[i / 8], i % 8))
}

/// The fingerprint the reference method derives from decoded pixel content.
/// Bit `i` corresponds to grid block `i` in row-major order.
pub open spec fn fingerprint_of_pixels(rgba: Seq<u8>, width: int, height: int) -> Seq<bool> {
    bits_of_bytes(blockhash256_of(rgba, width, height))
}

/// A fixed-length perceptual fingerprint. Immutable once computed; a pure
/// function of decoded pixel content, so container or format changes that
/// keep the pixels do not change it.
pub struct Fingerprint {
    bits: Vec<bool>,
}

impl View for Fingerprint {
    type V = Seq<bool>;

    closed spec fn view(&self) -> Seq<bool> {
        self.bits@
    }
}

/// Count of positions below `n` where the two bit vectors differ.
pub open spec fn hamming_upto(a: Seq<bool>, b: Seq<bool>, n: int) -> int
    decreases n,
{
    if n <= 0 {
        0
    } else {
        hamming_upto(a, b, n - 1) + if a[n - 1] != b[n - 1] {
            1int
        } else {
            0int
        }
    }
}

/// Hamming distance: the count of differing bits between two equal-length
/// bit vectors.
pub open spec fn hamming(a: Seq<bool>, b: Seq<bool>) -> int
    recommends
        a.len() == b.len(),
{
    hamming_upto(a, b, a.len() as int)
}

proof fn lemma_hamming_upto_symmetric(a: Seq<bool>, b: Seq<bool>, n: int)
    ensures
        hamming_upto(a, b, n) == hamming_upto(b, a, n),
    decreases n,
{
    if n > 0 {
        lemma_hamming_upto_symmetric(a, b, n - 1);
    }
}

proof fn lemma_hamming_upto_bounds(a: Seq<bool>, b: Seq<bool>, n: int)
    ensures
        0 <= hamming_upto(a, b, n),
        hamming_upto(a, b, n) <= if n <= 0 { 0int } else { n },
    decreases n,
{
    if n > 0 {
        lemma_hamming_upto_bounds(a, b, n - 1);
    }
}

/// Symmetry: the distance from `a` to `b` equals the distance from `b` to
/// `a`, for all bit vectors of equal length.
pub proof fn lemma_hamming_symmetric(a: Seq<bool>, b: Seq<bool>)
    requires
        a.len() == b.len(),
    ensures
        hamming(a, b) == hamming(b, a),
{
    lemma_hamming_upto_symmetric(a, b, a.len() as int);
}

proof fn lemma_hamming_upto_self(a: Seq<bool>, n: int)
    ensures
        hamming_upto(a, a, n) == 0,
    decreases n,
{
    if n > 0 {
        lemma_hamming_upto_self(a, n - 1);
    }
}

/// Identity: the distance from a bit vector to itself is zero.
pub proof fn lemma_hamming_self_zero(a: Seq<bool>)
    ensures
        hamming(a, a) == 0,
{
    lemma_hamming_upto_self(a, a.len() as int);
}

/// The distance never exceeds the vectors' length.
pub proof fn lemma_hamming_bounds(a: Seq<bool>, b: Seq<bool>)
    ensures
        0 <= hamming(a, b) <= a.len(),
{
    lemma_hamming_upto_bounds(a, b, a.len() as int);
}

/// Determinism: fingerprint extraction is a pure function of decoded pixel
/// content, so identical decoded pixels yield an identical fingerprint on
/// every run.
pub proof fn lemma_fingerprint_deterministic(p1: PixelBuffer, p2: PixelBuffer)
    requires
        p1.width == p2.width,
        p1.height == p2.height,
        p1.rgba@ == p2.rgba@,
    ensures
        fingerprint_of_pixels(p1.rgba@, p1.width as int, p1.height as int)
            == fingerprint_of_pixels(p2.rgba@, p2.width as int, p2.height as int),
{
}

impl Fingerprint {
    /// A fingerprint holds exactly the fixed number of bits of the method.
    pub open spec fn valid(&self) -> bool {
        self@.len() == FINGERPRINT_BITS
    }

    /// Builds a fingerprint directly from a bit vector; `None` when the
    /// length is not the fixed fingerprint length.
    pub fn from_bits(bits: Vec<bool>) -> (r: Option<Fingerprint>)
        ensures
            match r {
                Some(fp) => fp.valid() && fp@ == bits@,
                None => bits@.len() != FINGERPRINT_BITS,
            },
    {
        if bits.len() == FINGERPRINT_BITS {
            Some(Fingerprint { bits })
        } else {
            None
        }
    }

    /// The bits of the fingerprint, block by block in row-major order.
    pub fn bits(&self) -> (r: &Vec<bool>)
        ensures
            r@ == self@,
    {
        &self.bits
    }

    /// Hamming distance between two fingerprints of the same method.
    pub fn distance(&self, other: &Fingerprint) -> (d: u32)
        requires
            self.valid(),
            other.valid(),
        ensures
            d == hamming(self@, other@),
    {
        let n = self.bits.len();
        let mut d: u32 = 0;
        let mut i: usize = 0;
        while i < n
            invariant
                n == self@.len() == other@.len(),
                n == FINGERPRINT_BITS,
                i <= n,
                d <= i,
                d == hamming_upto(self@, other@, i as int),
            decreases n - i,
        {
            if self.bits[i] != other.bits[i] {
                d = d + 1;
            }
            i = i + 1;
        }
        d
    }
}

/// Relies on `image::load_from_memory`: guesses the actual format from the
/// byte content (independent of any file extension) and decodes; the decoded
/// image is converted to tightly packed RGBA samples, four bytes per pixel.
#[verifier::external_body]
fn decode_bytes(bytes: &Vec<u8>) -> (r: Option<PixelBuffer>)
    ensures
        match r {
            Some(p) => p.wf() && decoded_image_of(bytes@) == Some(
                (p.rgba@, p.width as int, p.height as int),
            ),
            None => decoded_image_of(bytes@) is None,
        },
{
    match image::load_from_memory(bytes) {
        Ok(img) => {
            let rgba = img.to_rgba8();
            let (width, height) = rgba.dimensions();
            Some(PixelBuffer { width, height, rgba: rgba.into_raw() })
        },
        Err(_) => None,
    }
}

/// Relies on `blockhash::blockhash256`: a deterministic function of the
/// pixel samples and dimensions; the digest is 32 bytes, one bit per grid
/// block, packed most significant bit first.
#[verifier::external_body]
fn blockhash_bytes(rgba: &Vec<u8>, width: u32, height: u32) -> (r: Vec<u8>)
    requires
        rgba@.len() == 4 * (width as int) * (height as int),
        width as int * height as int <= MAX_PIXEL_COUNT as int,
    ensures
        r@ == blockhash256_of(rgba@, width as int, height as int),
        r@.len() == FINGERPRINT_BYTES,
{
    let img = image::RgbaImage::from_raw(width, height, rgba.clone()).unwrap();
    let digest: [u8; 32] = blockhash::blockhash256(&img).into();
    digest.to_vec()
}

/// Unpacks a digest into its bits, most significant bit of each byte first.
fn bytes_to_bits(bytes: &Vec<u8>) -> (r: Vec<bool>)
    requires
        bytes@.len() * 8 <= usize::MAX,
    ensures
        r@ == bits_of_bytes(bytes@),
{
    let n = bytes.len();
    let mut bits: Vec<bool> = Vec::new();
    let mut i: usize = 0;
    while i < n
        invariant
            n == bytes@.len(),
            n * 8 <= usize::MAX,
            i <= n,
            bits@.len() == i * 8,
            forall|k: int| 0 <= k < i * 8 ==> bits@[k] == byte_bit(bytes@[k / 8], k % 8),
        decreases n - i,
    {
        let b = bytes[i];
        let mut j: usize = 0;
        while j < 8
            invariant
                n == bytes@.len(),
                i < n,
                b == bytes@[i as int],
                j <= 8,
                bits@.len() == i * 8 + j,
                forall|k: int| 0 <= k < i * 8 + j ==> bits@[k] == byte_bit(bytes@[k / 8], k % 8),
            decreases 8 - j,
        {
            let bit = ((b as u32) >> ((7 - j) as u32)) & 1 == 1;
            proof {
                let k = i * 8 + j;
                assert(k / 8 == i && k % 8 == j) by (nonlinear_arith)
                    requires
                        k == i * 8 + j,
                        0 <= j < 8,
                        i >= 0,
                ;
            }
            bits.push(bit);
            j = j + 1;
        }
        i = i + 1;
    }
    assert(bits@ =~= bits_of_bytes(bytes@));
    bits
}

/// Extracts the perceptual fingerprint of a decoded image. Returns `None`
/// only for pixel counts beyond [`MAX_PIXEL_COUNT`] (such an image cannot be
/// held in memory in practice).
pub fn extract_fingerprint(px: &PixelBuffer) -> (r: Option<Fingerprint>)
    requires
        px.wf(),
    ensures
        match r {
            Some(fp) => px.width as int * px.height as int <= MAX_PIXEL_COUNT as int && fp.valid()
                && fp@ == fingerprint_of_pixels(px.rgba@, px.width as int, px.height as int),
            None => px.width as int * px.height as int > MAX_PIXEL_COUNT as int,
        },
{
    let pixel_count = match (px.width as u64).checked_mul(px.height as u64) {
        Some(c) => c,
        None => {
            return None;
        },
    };
    if pixel_count > MAX_PIXEL_COUNT {
        return None;
    }
    let digest = blockhash_bytes(&px.rgba, px.width, px.height);
    let bits = bytes_to_bits(&digest);
    Some(Fingerprint { bits })
}

/// Decodes file bytes and extracts the fingerprint of the decoded image;
/// `None` when the bytes are not a decodable image (or, in theory, when the
/// decoded image is beyond [`MAX_PIXEL_COUNT`] pixels).
pub open spec fn fingerprint_of_bytes(bytes: Seq<u8>) -> Option<Seq<bool>> {
    match decoded_image_of(bytes) {
        Some((rgba, width, height)) => if width * height <= MAX_PIXEL_COUNT as int {
            Some(fingerprint_of_pixels(rgba, width, height))
        } else {
            None
        },
        None => None,
    }
}

/// Decodes file bytes into a fingerprint: the whole per-item extraction
/// step. `None` routes the item into the deprecated bucket.
pub fn fingerprint_from_bytes(bytes: &Vec<u8>) -> (r: Option<Fingerprint>)
    ensures
        match r {
            Some(fp) => fp.valid() && fingerprint_of_bytes(bytes@) == Some(fp@),
            None => fingerprint_of_bytes(bytes@) is None,
        },
{
    match decode_bytes(bytes) {
        Some(px) => match extract_fingerprint(&px) {
            Some(fp) => Some(fp),
            None => None,
        },
        None => None,
    }
}

} // verus!
