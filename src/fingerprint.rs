use vstd::prelude::*;

use crate::config::{HashConfig, PixelGrid};

verus! {

#[verifier::external_type_specification]
#[verifier::external_body]
#[verifier::reject_recursive_types(B)]
pub struct ExHasher<B>(img_hash::Hasher<B>);

/// The bytes of img_hash's gradient hash of an RGBA grid, under a hasher of
/// `side` by `side` bits with or without the cosine transform.
pub uninterp spec fn gradient_hash_bytes(
    side: u32,
    transform: bool,
    width: u32,
    height: u32,
    rgba: Seq<u8>,
) -> Seq<u8>;

/// Relies on img_hash's `HasherConfig::new().hash_size(side, side)
/// .to_hasher()`: a gradient hasher of `side * side` bits over spatial
/// luminance, which panics only when that product overflows a `u32`.
#[verifier::external_body]
fn spatial_hasher(side: u32) -> (r: img_hash::Hasher)
    requires
        1 <= side <= crate::config::MAX_SIDE,
{
    img_hash::HasherConfig::new().hash_size(side, side).to_hasher()
}

/// Relies on img_hash's `HasherConfig::new().hash_size(side, side)
/// .preproc_dct().to_hasher()`: the same hasher, over the low-frequency
/// cosine coefficients of the luminance.
#[verifier::external_body]
fn transform_hasher(side: u32) -> (r: img_hash::Hasher)
    requires
        1 <= side <= crate::config::MAX_SIDE,
{
    img_hash::HasherConfig::new().hash_size(side, side).preproc_dct().to_hasher()
}

/// Relies on image's `ImageBuffer::from_raw`, which accepts a buffer of four
/// bytes per pixel, and on img_hash's `Hasher::hash_image` on that buffer:
/// the hash depends on the hasher's settings and the pixels alone, and holds
/// `side * side` bits, packed eight to a byte from the lowest bit up. The
/// hasher of a `Fingerprinter` is the one `Fingerprinter::new` built for
/// its configuration, and no other code sets it.
#[verifier::external_body]
fn hash_grid(fingerprinter: &Fingerprinter, grid: &PixelGrid) -> (r: Vec<u8>)
    requires
        fingerprinter.config.wf(),
        grid.wf(),
    ensures
        r@ == gradient_hash_bytes(
            fingerprinter.config.side,
            fingerprinter.config.use_frequency_transform,
            grid.width,
            grid.height,
            grid.rgba@,
        ),
        r@.len() == (fingerprinter.config.bit_len() + 7) / 8,
{
    let image = image::RgbaImage::from_raw(grid.width, grid.height, grid.rgba.clone()).unwrap();
    fingerprinter.hasher.hash_image(&image).as_bytes().to_vec()
}

/// Bit `i` of a byte string, counting from the lowest bit of the first byte.
pub open spec fn bit_at(bytes: Seq<u8>, i: int) -> bool {
    (bytes[i / 8] >> ((i % 8) as u8)) & 1u8 == 1u8
}

/// The first `n` bits of a byte string, lowest bit of each byte first.
pub open spec fn unpack_bits(bytes: Seq<u8>, n: nat) -> Seq<bool> {
    Seq::new(n, |i: int| bit_at(bytes, i))
}

/// The fingerprint of a grid under a configuration, as a bit sequence in
/// row-major order.
pub open spec fn fingerprint_of(config: HashConfig, grid: PixelGrid) -> Seq<bool> {
    unpack_bits(
        gradient_hash_bytes(
            config.side,
            config.use_frequency_transform,
            grid.width,
            grid.height,
            grid.rgba@,
        ),
        config.bit_len(),
    )
}

/// A perceptual fingerprint: a fixed-length bit sequence, compared and
/// ordered bit by bit.
#[derive(Clone, Debug, PartialEq, Eq, PartialOrd, Ord, Hash)]
pub struct Fingerprint {
    bits: Vec<bool>,
}

impl View for Fingerprint {
    type V = Seq<bool>;

    closed spec fn view(&self) -> Seq<bool> {
        self.bits@
    }
}

impl Fingerprint {
    /// A fingerprint holding the given bits.
    pub fn from_bits(bits: Vec<bool>) -> (r: Fingerprint)
        ensures
            r@ == bits@,
    {
        Fingerprint { bits }
    }

    pub fn bits(&self) -> (r: &Vec<bool>)
        ensures
            r@ == self@,
    {
        &self.bits
    }

    pub fn len(&self) -> (r: usize)
        ensures
            r == self@.len(),
    {
        self.bits.len()
    }

    /// A copy of the bits, for use as a lookup key.
    pub fn to_key(&self) -> (r: Vec<bool>)
        ensures
            r@ == self@,
    {
        let r = self.bits.clone();
        assert(r@ =~= self.bits@);
        r
    }
}

/// A hasher built once for a configuration and reused across images.
pub struct Fingerprinter {
    config: HashConfig,
    hasher: img_hash::Hasher,
}

impl Fingerprinter {
    pub closed spec fn config(&self) -> HashConfig {
        self.config
    }

    /// Builds the hasher for a configuration.
    pub fn new(config: HashConfig) -> (r: Fingerprinter)
        requires
            config.wf(),
        ensures
            r.config() == config,
    {
        let hasher = if config.use_frequency_transform {
            transform_hasher(config.side)
        } else {
            spatial_hasher(config.side)
        };
        Fingerprinter { config, hasher }
    }

    /// The configuration this hasher was built for.
    pub fn hash_config(&self) -> (r: HashConfig)
        ensures
            r == self.config(),
    {
        self.config
    }

    /// The fingerprint of a grid: `side * side` bits, fixed by the grid and
    /// the configuration alone.
    pub fn fingerprint(&self, grid: &PixelGrid) -> (r: Fingerprint)
        requires
            self.config().wf(),
            grid.wf(),
        ensures
            r@ == fingerprint_of(self.config(), *grid),
            r@.len() == self.config().bit_len(),
    {
        let bytes = hash_grid(self, grid);
        let side: usize = self.config.side as usize;
        assert(side * side <= 65535 * 65535) by (nonlinear_arith)
            requires
                side <= 65535,
        ;
        let n: usize = side * side;
        let mut bits: Vec<bool> = Vec::new();
        let mut i: usize = 0;
        while i < n
            invariant
                n == self.config.bit_len(),
                bytes@.len() == (n + 7) / 8,
                i <= n,
                bits@.len() == i,
                forall|j: int| 0 <= j < i ==> bits@[j] == bit_at(bytes@, j),
            decreases n - i,
        {
            let byte: u8 = bytes[i / 8];
            let shift: u8 = (i % 8) as u8;
            bits.push((byte >> shift) & 1u8 == 1u8);
            i = i + 1;
        }
        let ghost want = fingerprint_of(self.config, *grid);
        assert(bits@ =~= want);
        Fingerprint { bits }
    }
}

/// Fingerprints are a function of the grid and the configuration: two
/// hashers built for one configuration agree on every grid.
pub proof fn lemma_fingerprint_deterministic(
    a: Fingerprinter,
    b: Fingerprinter,
    grid: PixelGrid,
    fa: Seq<bool>,
    fb: Seq<bool>,
)
    requires
        a.config() == b.config(),
        fa == fingerprint_of(a.config(), grid),
        fb == fingerprint_of(b.config(), grid),
    ensures
        fa == fb,
{
}

/// Configurations of different sides never give equal fingerprints, so
/// images that collide under one side need not collide under another.
pub proof fn lemma_side_separates(c1: HashConfig, c2: HashConfig, g1: PixelGrid, g2: PixelGrid)
    requires
        c1.wf(),
        c2.wf(),
        c1.side != c2.side,
    ensures
        fingerprint_of(c1, g1) != fingerprint_of(c2, g2),
        fingerprint_of(c1, g1).len() != fingerprint_of(c2, g2).len(),
{
    let a = c1.side as int;
    let b = c2.side as int;
    assert(a * a != b * b) by (nonlinear_arith)
        requires
            a >= 1,
            b >= 1,
            a != b,
    {
        if a < b {
            assert(a * a < b * b) by (nonlinear_arith)
                requires
                    1 <= a < b,
            ;
        } else {
            assert(b * b < a * a) by (nonlinear_arith)
                requires
                    1 <= b < a,
            ;
        }
    }
    assert(fingerprint_of(c1, g1).len() != fingerprint_of(c2, g2).len());
}

/// Every fingerprint made under a configuration has `side * side` bits.
pub proof fn lemma_fingerprint_length(config: HashConfig, grid: PixelGrid)
    ensures
        fingerprint_of(config, grid).len() == config.side * config.side,
{
}

} // verus!
