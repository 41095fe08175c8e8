//! The bytes of what is handed to the graphics side: instances and uniforms are
//! records of 32-bit words, one after the other, without padding.
use vstd::prelude::*;

use crate::binary32::Binary32;
use crate::geometry;
use crate::geometry::{Segment, Stroke};

verus! {

/// The bytes of a word, the lowest first.
pub open spec fn low_first(w: u32) -> Seq<u8> {
    seq![
        (w % 0x100) as u8,
        (w / 0x100 % 0x100) as u8,
        (w / 0x1_0000 % 0x100) as u8,
        (w / 0x100_0000) as u8,
    ]
}

/// The bytes of a row of words, with the bytes of each word in one of the two
/// orders that machines have.
pub open spec fn bytes(words: Seq<u32>, lowest_first: bool) -> Seq<u8> {
    Seq::new(
        4 * words.len(),
        |i: int|
            low_first(words[i / 4])[if lowest_first {
                i % 4
            } else {
                3 - i % 4
            }],
    )
}

/// `bytemuck::cast_slice` from words to bytes: the bytes of the words as they lie
/// in memory. Their order in a word is that of the machine.
#[verifier::external_body]
fn cast_words(words: &[u32]) -> (r: Vec<u8>)
    ensures
        r@ == bytes(words@, true) || r@ == bytes(words@, false),
{
    bytemuck::cast_slice::<u32, u8>(words).to_vec()
}

/// The words of some numbers.
pub open spec fn words(list: Seq<Binary32>) -> Seq<u32> {
    list.map_values(|x: Binary32| x.bits)
}

/// The bytes of some numbers, one after the other.
pub fn number_bytes(list: &Vec<Binary32>) -> (r: Vec<u8>)
    ensures
        r@ == bytes(words(list@), true) || r@ == bytes(words(list@), false),
        r@.len() == 4 * list@.len(),
{
    let mut row: Vec<u32> = Vec::new();
    let mut i: usize = 0;
    while i < list.len()
        invariant
            i <= list@.len(),
            row@ == words(list@.take(i as int)),
        decreases list@.len() - i,
    {
        row.push(list[i].bits);
        i = i + 1;
        proof {
            assert(row@ =~= words(list@.take(i as int)));
        }
    }
    proof {
        assert(list@.take(i as int) =~= list@);
    }
    cast_words(row.as_slice())
}

/// The numbers of a list of strokes: for each its two ends and its colour.
pub open spec fn numbers(list: Seq<Stroke>) -> Seq<Binary32>
    decreases list.len(),
{
    if list.len() == 0 {
        Seq::empty()
    } else {
        let last = list.last();
        numbers(list.drop_last()) + last.p0 + last.p1 + last.color
    }
}

/// The bytes of one instance: nine numbers of four bytes.
pub const SEGMENT_BYTES: u64 = 36;

/// The bytes of the instance buffer for a list of segments.
pub fn instance_bytes(segments: &[Segment]) -> (r: Vec<u8>)
    ensures
        ({
            let row = words(numbers(geometry::strokes(segments@)));
            r@ == bytes(row, true) || r@ == bytes(row, false)
        }),
        r@.len() == SEGMENT_BYTES * segments@.len(),
{
    let mut list: Vec<Binary32> = Vec::new();
    let mut i: usize = 0;
    let ghost all = geometry::strokes(segments@);
    proof {
        assert(all.take(0) =~= Seq::<Stroke>::empty());
        assert(list@ =~= numbers(all.take(0)));
    }
    while i < segments.len()
        invariant
            i <= segments@.len(),
            all == geometry::strokes(segments@),
            list@ == numbers(all.take(i as int)),
            list@.len() == 9 * i,
        decreases segments@.len() - i,
    {
        let s: Segment = segments[i];
        let ghost before = list@;
        list.push(s.p0[0]);
        list.push(s.p0[1]);
        list.push(s.p0[2]);
        list.push(s.p1[0]);
        list.push(s.p1[1]);
        list.push(s.p1[2]);
        list.push(s.color[0]);
        list.push(s.color[1]);
        list.push(s.color[2]);
        proof {
            assert(all.take(i + 1).drop_last() =~= all.take(i as int));
            assert(all.take(i + 1).last() == s@);
            assert(list@ =~= before + s.p0@ + s.p1@ + s.color@);
        }
        i = i + 1;
    }
    proof {
        assert(all.take(i as int) =~= all);
    }
    number_bytes(&list)
}

/// What the shader of the beam reads besides the instances.
#[derive(Clone, Copy, Debug)]
pub struct BeamUniforms {
    /// The columns of the matrix that takes a point of the scene to the screen.
    pub mvp: [Binary32; 16],
    pub resolution: [Binary32; 2],
    pub base_width: Binary32,
    pub brightness: Binary32,
}

impl BeamUniforms {
    /// The numbers of the block in their order.
    pub open spec fn block(self) -> Seq<Binary32> {
        self.mvp@ + self.resolution@ + seq![self.base_width, self.brightness]
    }

    /// The bytes of the block.
    pub fn to_bytes(&self) -> (r: Vec<u8>)
        ensures
            r@ == bytes(words(self.block()), true) || r@ == bytes(words(self.block()), false),
            r@.len() == 80,
    {
        let mut list: Vec<Binary32> = Vec::new();
        let mut i: usize = 0;
        while i < 16
            invariant
                i <= 16,
                list@ == self.mvp@.take(i as int),
            decreases 16 - i,
        {
            list.push(self.mvp[i]);
            i = i + 1;
            proof {
                assert(list@ =~= self.mvp@.take(i as int));
            }
        }
        list.push(self.resolution[0]);
        list.push(self.resolution[1]);
        list.push(self.base_width);
        list.push(self.brightness);
        proof {
            assert(list@ =~= self.block());
        }
        number_bytes(&list)
    }
}

/// The bytes of a word make up the word again.
pub proof fn law_bytes_make_up_the_word(w: u32)
    ensures
        low_first(w).len() == 4,
        low_first(w)[0] + 0x100 * low_first(w)[1] + 0x1_0000 * low_first(w)[2] + 0x100_0000
            * low_first(w)[3] == w,
{
}

/// The bytes of words lie word by word, each in one of the two orders, which mirror each
/// other.
pub proof fn law_words_lie_one_after_the_other(words: Seq<u32>, i: int, j: int)
    requires
        0 <= i < words.len(),
        0 <= j < 4,
    ensures
        bytes(words, true).len() == 4 * words.len(),
        bytes(words, false).len() == 4 * words.len(),
        bytes(words, true)[4 * i + j] == low_first(words[i])[j],
        bytes(words, false)[4 * i + j] == low_first(words[i])[3 - j],
{
    assert((4 * i + j) / 4 == i && (4 * i + j) % 4 == j);
}

/// An instance is nine numbers: the first end, the second end and the colour, three each.
pub proof fn law_instances_are_nine_numbers(list: Seq<Stroke>, i: int, j: int)
    requires
        0 <= i < list.len(),
        0 <= j < 3,
        forall|k: int|
            0 <= k < list.len() ==> (#[trigger] list[k]).p0.len() == 3 && list[k].p1.len() == 3
                && list[k].color.len() == 3,
    ensures
        numbers(list).len() == 9 * list.len(),
        numbers(list)[9 * i + j] == list[i].p0[j],
        numbers(list)[9 * i + 3 + j] == list[i].p1[j],
        numbers(list)[9 * i + 6 + j] == list[i].color[j],
    decreases list.len(),
{
    let less = list.drop_last();
    let last = list.last();
    assert(last == list[list.len() - 1]);
    assert forall|k: int| 0 <= k < less.len() implies (#[trigger] less[k]).p0.len() == 3
        && less[k].p1.len() == 3 && less[k].color.len() == 3 by {
        assert(less[k] == list[k]);
    }
    if less.len() > 0 {
        law_instances_are_nine_numbers(less, if i < less.len() { i } else { 0 }, j);
    } else {
        assert(numbers(less).len() == 0);
    }
}

/// The block of the beam holds the matrix, then the two sides, then the width of strokes,
/// then their brightness.
pub proof fn law_beam_block_is_in_order(u: BeamUniforms, i: int)
    requires
        0 <= i < 16,
    ensures
        u.block().len() == 20,
        u.block()[i] == u.mvp@[i],
        u.block()[16] == u.resolution@[0],
        u.block()[17] == u.resolution@[1],
        u.block()[18] == u.base_width,
        u.block()[19] == u.brightness,
{
}

/// The bytes of segments are those of their numbers, 36 to a segment.
pub proof fn law_segments_are_36_bytes_each(segments: &[Segment], r: Vec<u8>)
    requires
        call_ensures(instance_bytes, (segments,), r),
    ensures
        r@.len() == 36 * segments@.len(),
        ({
            let row = words(numbers(geometry::strokes(segments@)));
            r@ == bytes(row, true) || r@ == bytes(row, false)
        }),
{
}

/// The bytes of the block of the beam are those of its twenty numbers.
pub proof fn law_beam_block_is_80_bytes(u: BeamUniforms, r: Vec<u8>)
    requires
        call_ensures(BeamUniforms::to_bytes, (&u,), r),
    ensures
        r@.len() == 80,
        r@ == bytes(words(u.block()), true) || r@ == bytes(words(u.block()), false),
{
}

}
