//! Colours of what a script draws.

use vstd::prelude::*;

verus! {

/// The value that a colour's channel has where none is given: 0 for red,
/// green and blue, 255 for alpha.
pub open spec fn channel_default(channel: int) -> i32 {
    if channel == 3 {
        255
    } else {
        0
    }
}

/// A colour of four channels, red, green, blue and alpha, each the value
/// given for it or else its default.
pub open spec fn color_of(channels: Seq<Option<i32>>) -> Seq<i32> {
    Seq::new(
        4,
        |k: int|
            if k < channels.len() && channels[k] is Some {
                channels[k]->0
            } else {
                channel_default(k)
            },
    )
}

/// The colour with the channels given in `channels`, in the order red,
/// green, blue, alpha. A channel that is missing has its default; what is
/// given beyond the fourth is left out.
pub fn color_from_channels(channels: &Vec<Option<i32>>) -> (color: Vec<i32>)
    ensures
        color@ == color_of(channels@),
{
    let mut color: Vec<i32> = Vec::new();
    let mut k: usize = 0;
    while k < 4
        invariant
            k <= 4,
            color.len() == k,
            forall|j: int| 0 <= j < k ==> #[trigger] color[j] == color_of(channels@)[j],
        decreases 4 - k,
    {
        let fallback: i32 = if k == 3 {
            255
        } else {
            0
        };
        let value = if k < channels.len() {
            match channels[k] {
                Some(v) => v,
                None => fallback,
            }
        } else {
            fallback
        };
        color.push(value);
        k = k + 1;
    }
    proof {
        assert(color@ =~= color_of(channels@));
    }
    color
}

} // verus!
