//! Sizing rules for render resources: how a texture resolution or a buffer
//! element count is derived from the surface size.

use vstd::prelude::*;

verus! {

/// A texture resolution relative to the render surface, or a custom size.
#[derive(Debug)]
pub enum TextureRes {
    FullRes,
    HalfRes,
    QuarterRes,
    EightRes,
    SixteenthRes,
    ThirtySecondRes,
    Custom(u32, u32, u32),
}

/// A buffer's element count relative to the render surface, or a custom one.
#[derive(Debug)]
pub enum BufferSize {
    FullRes,
    HalfRes,
    QuarterRes,
    EightRes,
    SixteenthRes,
    ThirtySecondRes,
    Custom(u64),
}

/// The concrete (width, height, depth) of a texture for a surface of
/// `width` by `height` pixels: the surface size scaled down by the chosen
/// power of two, depth always 1; a custom resolution is taken as given.
pub fn match_resolution(width: u32, height: u32, texture_resolution: &TextureRes) -> (r: (
    u32,
    u32,
    u32,
))
    ensures
        r == match texture_resolution {
            TextureRes::FullRes => (width, height, 1u32),
            TextureRes::HalfRes => (width / 2, height / 2, 1u32),
            TextureRes::QuarterRes => (width / 4, height / 4, 1u32),
            TextureRes::EightRes => (width / 8, height / 8, 1u32),
            TextureRes::SixteenthRes => (width / 16, height / 16, 1u32),
            TextureRes::ThirtySecondRes => (width / 32, height / 32, 1u32),
            TextureRes::Custom(x, y, z) => (*x, *y, *z),
        },
{
    match texture_resolution {
        TextureRes::FullRes => (width, height, 1),
        TextureRes::HalfRes => (width / 2, height / 2, 1),
        TextureRes::QuarterRes => (width / 4, height / 4, 1),
        TextureRes::EightRes => (width / 8, height / 8, 1),
        TextureRes::SixteenthRes => (width / 16, height / 16, 1),
        TextureRes::ThirtySecondRes => (width / 32, height / 32, 1),
        TextureRes::Custom(x, y, z) => (*x, *y, *z),
    }
}

/// The byte size of a buffer for a surface of `width` by `height` pixels:
/// one element per surface pixel scaled down by the chosen power of two, or
/// a custom element count, times the element size.
pub fn match_buffer_size(width: u32, height: u32, elements: &BufferSize, element_size: u32) -> (r:
    u64)
    requires
        ({
            let px = width as int * height as int * element_size as int;
            match elements {
                BufferSize::Custom(x) => *x as int * element_size as int <= u64::MAX,
                _ => px <= u64::MAX,
            }
        }),
    ensures
        r as int == match elements {
            BufferSize::FullRes => width as int * height as int * element_size as int,
            BufferSize::HalfRes => width as int * height as int * element_size as int / 2,
            BufferSize::QuarterRes => width as int * height as int * element_size as int / 4,
            BufferSize::EightRes => width as int * height as int * element_size as int / 8,
            BufferSize::SixteenthRes => width as int * height as int * element_size as int / 16,
            BufferSize::ThirtySecondRes => width as int * height as int * element_size as int / 32,
            BufferSize::Custom(x) => *x as int * element_size as int,
        },
{
    let w = width as u64;
    let h = height as u64;
    proof {
        crate::geom::lemma_mul_bound(w as int, h as int, 0xffff_ffff, 0xffff_ffff);
        assert(forall|a: int, b: int| a >= 0 && b >= 0 ==> #[trigger] (a * b) >= 0)
            by (nonlinear_arith);
    }
    match elements {
        BufferSize::FullRes => w * h * element_size as u64,
        BufferSize::HalfRes => w * h * element_size as u64 / 2,
        BufferSize::QuarterRes => w * h * element_size as u64 / 4,
        BufferSize::EightRes => w * h * element_size as u64 / 8,
        BufferSize::SixteenthRes => w * h * element_size as u64 / 16,
        BufferSize::ThirtySecondRes => w * h * element_size as u64 / 32,
        BufferSize::Custom(x) => *x * element_size as u64,
    }
}

/// Workgroup count for a dispatch over `val` items in groups of `div`: the
/// quotient plus the remainder (an over-count whenever the remainder
/// exceeds one group, never an under-count).
pub fn div_ceil(val: u32, div: u32) -> (r: u32)
    requires
        div != 0,
    ensures
        r as int == val as int / div as int + val as int % div as int,
{
    proof {
        assert(val as int / div as int + val as int % div as int <= val as int)
            by (nonlinear_arith)
            requires
                div as int >= 1,
                val as int >= 0;
    }
    (val / div) + (val % div)
}

} // verus!
