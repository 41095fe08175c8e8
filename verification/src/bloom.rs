//! Bloom: the sizes and the passes of the halo around bright strokes.
//!
//! Two textures of a quarter of the size take turns. The first pass draws the
//! bright parts of the picture into one of them, the second blurs along rows into
//! the other, and the third blurs along columns back into the first.
use vstd::arithmetic::power2::*;
use vstd::prelude::*;

use crate::binary32;
use crate::binary32::Binary32;
use crate::buffers;
use crate::order;

verus! {

/// The textures that the passes read and write.
#[derive(Clone, Copy, Debug, PartialEq, Eq, Structural)]
pub enum Texture {
    /// The picture with its full range of brightness.
    Hdr,
    A,
    B,
}

/// What a pass does.
#[derive(Clone, Copy, Debug, PartialEq, Eq, Structural)]
pub enum Stage {
    Downsample,
    Blur,
}

/// What the shader of a pass reads: the size of a texel of its source, and the axis
/// of the blur.
#[derive(Clone, Copy, Debug, PartialEq, Eq, Structural)]
pub struct BloomUniforms {
    pub texel_x: Binary32,
    pub texel_y: Binary32,
    pub direction_x: Binary32,
    pub direction_y: Binary32,
}

impl BloomUniforms {
    /// The numbers of the block in their order.
    pub open spec fn block(self) -> Seq<Binary32> {
        seq![self.texel_x, self.texel_y, self.direction_x, self.direction_y]
    }

    /// The bytes of the block.
    pub fn to_bytes(&self) -> (r: Vec<u8>)
        ensures
            ({
                let row = buffers::words(self.block());
                r@ == buffers::bytes(row, true) || r@ == buffers::bytes(row, false)
            }),
            r@.len() == 16,
    {
        let list: Vec<Binary32> = vec![
            self.texel_x,
            self.texel_y,
            self.direction_x,
            self.direction_y,
        ];
        proof {
            assert(list@ =~= self.block());
        }
        buffers::number_bytes(&list)
    }
}

/// One pass.
#[derive(Clone, Copy, Debug, PartialEq, Eq, Structural)]
pub struct Pass {
    pub stage: Stage,
    pub source: Texture,
    pub target: Texture,
    pub uniforms: BloomUniforms,
}

/// A quarter of a side, but one texel at least.
pub open spec fn quarter(side: u32) -> u32 {
    if side < 4 {
        1
    } else {
        side / 4
    }
}

/// The size of the two textures.
pub fn texture_size(width: u32, height: u32) -> (r: (u32, u32))
    ensures
        r == (quarter(width), quarter(height)),
{
    let w: u32 = if width < 4 {
        1
    } else {
        width / 4
    };
    let h: u32 = if height < 4 {
        1
    } else {
        height / 4
    };
    (w, h)
}

/// The uniforms of a pass that reads a texture of the given size.
pub open spec fn reading(width: u32, height: u32, x: nat, y: nat) -> BloomUniforms {
    BloomUniforms {
        texel_x: binary32::nearest(1, 1) / binary32::nearest(width as nat, 1),
        texel_y: binary32::nearest(1, 1) / binary32::nearest(height as nat, 1),
        direction_x: binary32::nearest(x, 1),
        direction_y: binary32::nearest(y, 1),
    }
}

fn uniforms(width: u32, height: u32, x: u32, y: u32) -> (r: BloomUniforms)
    ensures
        r == reading(width, height, x as nat, y as nat),
{
    let one: Binary32 = Binary32::ratio(1, 1);
    BloomUniforms {
        texel_x: one / Binary32::from_u64(width as u64),
        texel_y: one / Binary32::from_u64(height as u64),
        direction_x: Binary32::ratio(x, 1),
        direction_y: Binary32::ratio(y, 1),
    }
}

/// The three passes for a picture of the given size.
pub open spec fn chain(width: u32, height: u32) -> Seq<Pass> {
    let w = quarter(width);
    let h = quarter(height);
    seq![
        Pass {
            stage: Stage::Downsample,
            source: Texture::Hdr,
            target: Texture::A,
            uniforms: reading(width, height, 0, 0),
        },
        Pass {
            stage: Stage::Blur,
            source: Texture::A,
            target: Texture::B,
            uniforms: reading(w, h, 1, 0),
        },
        Pass {
            stage: Stage::Blur,
            source: Texture::B,
            target: Texture::A,
            uniforms: reading(w, h, 0, 1),
        },
    ]
}

/// The three passes for a picture of the given size.
pub fn passes(width: u32, height: u32) -> (r: Vec<Pass>)
    ensures
        r@ == chain(width, height),
{
    let (w, h): (u32, u32) = texture_size(width, height);
    let r: Vec<Pass> = vec![
        Pass {
            stage: Stage::Downsample,
            source: Texture::Hdr,
            target: Texture::A,
            uniforms: uniforms(width, height, 0, 0),
        },
        Pass {
            stage: Stage::Blur,
            source: Texture::A,
            target: Texture::B,
            uniforms: uniforms(w, h, 1, 0),
        },
        Pass {
            stage: Stage::Blur,
            source: Texture::B,
            target: Texture::A,
            uniforms: uniforms(w, h, 0, 1),
        },
    ];
    proof {
        assert(r@ =~= chain(width, height));
    }
    r
}

/// The texture that holds the halo in the end.
pub fn output() -> (r: Texture)
    ensures
        r == Texture::A,
{
    Texture::A
}

/// Every pass reads what the pass before it wrote, the first reads the picture, none
/// writes what it reads, and the last writes the halo.
pub proof fn law_passes_follow_on(width: u32, height: u32)
    ensures
        ({
            let list = chain(width, height);
            &&& list[0].source == Texture::Hdr
            &&& forall|i: int|
                0 < i < list.len() ==> (#[trigger] list[i]).source == list[i - 1].target
            &&& forall|i: int|
                0 <= i < list.len() ==> (#[trigger] list[i]).source != list[i].target
            &&& list.last().target == Texture::A
        }),
{
}

/// A texture of the halo has a quarter of the sides of the picture, rounded down, and one
/// texel at least.
pub proof fn law_halo_has_a_quarter_of_the_size(width: u32, height: u32, r: (u32, u32))
    requires
        call_ensures(texture_size, (width, height), r),
    ensures
        r.0 >= 1 && r.1 >= 1,
        width >= 4 ==> 4 * r.0 <= width < 4 * r.0 + 4,
        height >= 4 ==> 4 * r.1 <= height < 4 * r.1 + 4,
        width < 4 ==> r.0 == 1,
        height < 4 ==> r.1 == 1,
{
}

/// Three passes make the halo: one that takes what is bright out of the picture, one that
/// blurs along rows, and one that blurs along columns. Each steps over its source texel by
/// texel: the number of texels along a side times the size of one is one, within one part
/// in two to the power 21.
pub proof fn law_passes_blur_both_ways(width: u32, height: u32)
    requires
        width > 0,
        height > 0,
    ensures
        ({
            let list = chain(width, height);
            let one = pow2(149) as int;
            &&& list.len() == 3
            &&& list[0].stage == Stage::Downsample
            &&& list[1].stage == Stage::Blur
            &&& list[2].stage == Stage::Blur
            &&& list[0].uniforms.direction_x.value() == 0
            &&& list[0].uniforms.direction_y.value() == 0
            &&& list[1].uniforms.direction_x.value() == one
            &&& list[1].uniforms.direction_y.value() == 0
            &&& list[2].uniforms.direction_x.value() == 0
            &&& list[2].uniforms.direction_y.value() == one
            &&& covers(list[0].uniforms.texel_x, width)
            &&& covers(list[0].uniforms.texel_y, height)
            &&& covers(list[1].uniforms.texel_x, if width < 4 { 1 } else { width / 4 })
            &&& covers(list[1].uniforms.texel_y, if height < 4 { 1 } else { height / 4 })
            &&& covers(list[2].uniforms.texel_x, if width < 4 { 1 } else { width / 4 })
            &&& covers(list[2].uniforms.texel_y, if height < 4 { 1 } else { height / 4 })
        }),
{
    lemma_pow2_pos(149);
    order::lemma_whole_error(0);
    order::lemma_whole_error(1);
    order::law_ratio_error(1, width as nat);
    order::law_ratio_error(1, height as nat);
    order::law_ratio_error(1, quarter(width) as nat);
    order::law_ratio_error(1, quarter(height) as nat);
}

/// Whether `n` texels of a size make up a side of one, within one part in two to the power
/// 21.
pub open spec fn covers(texel: Binary32, n: u32) -> bool {
    &&& texel.finite()
    &&& 0x20_0000 * (texel.value() * n - pow2(149)) <= pow2(149)
    &&& 0x20_0000 * (pow2(149) - texel.value() * n) <= pow2(149)
}

/// The passes that are made are those of the halo, and it is read from where they leave it.
pub proof fn law_passes_lead_to_the_halo(width: u32, height: u32, r: Vec<Pass>, t: Texture)
    requires
        call_ensures(passes, (width, height), r),
        call_ensures(output, (), t),
    ensures
        r@.len() == 3,
        r@[0].stage == Stage::Downsample && r@[1].stage == Stage::Blur && r@[2].stage
            == Stage::Blur,
        r@[0].source == Texture::Hdr,
        r@[1].source == r@[0].target && r@[2].source == r@[1].target,
        r@[2].target == t,
        r@[1].target != t && r@[1].target != Texture::Hdr,
        r@ == chain(width, height),
{
}

/// The block of a pass holds the size of a texel and then the direction, and its bytes are
/// those of these four numbers.
pub proof fn law_pass_block_is_in_order(u: BloomUniforms, r: Vec<u8>)
    requires
        call_ensures(BloomUniforms::to_bytes, (&u,), r),
    ensures
        u.block() == seq![u.texel_x, u.texel_y, u.direction_x, u.direction_y],
        r@.len() == 16,
        ({
            let row = buffers::words(u.block());
            r@ == buffers::bytes(row, true) || r@ == buffers::bytes(row, false)
        }),
{
}

}
