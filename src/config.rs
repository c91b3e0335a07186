use vstd::prelude::*;

verus! {

/// Edge length of the fingerprint's bit grid when none is chosen.
pub const DEFAULT_SIDE: u32 = 10;

/// Largest edge length accepted: `side * side` bits must fit in a `u32`.
pub const MAX_SIDE: u32 = 65535;

/// How fingerprints are computed: the edge of the square bit grid, and
/// whether a low-frequency (cosine) transform precedes the bit reduction.
#[derive(Clone, Copy, Debug, PartialEq, Eq)]
pub struct HashConfig {
    pub side: u32,
    pub use_frequency_transform: bool,
}

impl HashConfig {
    pub open spec fn wf(&self) -> bool {
        1 <= self.side <= MAX_SIDE
    }

    /// Number of bits in every fingerprint made under this configuration.
    pub open spec fn bit_len(&self) -> nat {
        (self.side * self.side) as nat
    }

    /// A configuration with the given edge, or `None` when the edge is
    /// zero or larger than `MAX_SIDE`.
    pub fn new(side: u32, use_frequency_transform: bool) -> (r: Option<HashConfig>)
        ensures
            r is Some <==> 1 <= side <= MAX_SIDE,
            r matches Some(c) ==> c.side == side && c.use_frequency_transform
                == use_frequency_transform && c.wf(),
    {
        if 1 <= side && side <= MAX_SIDE {
            Some(HashConfig { side, use_frequency_transform })
        } else {
            None
        }
    }

    /// The default configuration: a 10 by 10 grid, with the transform on.
    pub fn default_config() -> (r: HashConfig)
        ensures
            r.side == DEFAULT_SIDE,
            r.use_frequency_transform,
            r.wf(),
    {
        HashConfig { side: DEFAULT_SIDE, use_frequency_transform: true }
    }

    /// The configuration chosen by an edge override and a transform switch:
    /// the edge defaults to `DEFAULT_SIDE`, and `None` comes back when the
    /// chosen edge is out of range.
    pub fn from_options(side: Option<u32>, no_transform: bool) -> (r: Option<HashConfig>)
        ensures
            ({
                let s = match side {
                    Some(v) => v,
                    None => DEFAULT_SIDE,
                };
                &&& r is Some <==> 1 <= s <= MAX_SIDE
                &&& r matches Some(c) ==> c.side == s && c.use_frequency_transform == !no_transform
                    && c.wf()
            }),
    {
        let s: u32 = match side {
            Some(v) => v,
            None => DEFAULT_SIDE,
        };
        HashConfig::new(s, !no_transform)
    }
}

/// A decoded image: `width * height` pixels in row-major order, four bytes
/// (red, green, blue, alpha) each.
#[derive(Clone, Debug)]
pub struct PixelGrid {
    pub width: u32,
    pub height: u32,
    pub rgba: Vec<u8>,
}

impl PixelGrid {
    /// At least one pixel, and exactly four bytes per pixel.
    pub open spec fn wf(&self) -> bool {
        &&& self.width >= 1
        &&& self.height >= 1
        &&& self.rgba@.len() == 4 * (self.width as int) * (self.height as int)
    }

    /// A grid of the given size over the given bytes, or `None` when a side
    /// is zero or the byte count is not four per pixel.
    pub fn new(width: u32, height: u32, rgba: Vec<u8>) -> (r: Option<PixelGrid>)
        ensures
            r is Some <==> (width >= 1 && height >= 1 && rgba@.len() == 4 * (width as int)
                * (height as int)),
            r matches Some(g) ==> g.width == width && g.height == height && g.rgba@ == rgba@
                && g.wf(),
    {
        if width == 0 || height == 0 {
            return None;
        }
        let w: u128 = width as u128;
        let h: u128 = height as u128;
        assert(w * h <= 0xffff_ffffu128 * 0xffff_ffffu128) by (nonlinear_arith)
            requires
                w <= 0xffff_ffffu128,
                h <= 0xffff_ffffu128,
        ;
        let n: u128 = 4u128 * (w * h);
        assert(n == 4 * (width as int) * (height as int)) by (nonlinear_arith)
            requires
                n == 4 * (w * h),
                w == width,
                h == height,
        ;
        if rgba.len() as u128 == n {
            Some(PixelGrid { width, height, rgba })
        } else {
            None
        }
    }
}

} // verus!
