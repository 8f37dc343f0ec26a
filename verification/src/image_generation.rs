//! A fixed test pattern for image output.

use vstd::prelude::*;

verus! {

/// Byte `k` of the test pattern: 512 groups of six bytes, the group's number
/// modulo 256 at the even places, and at the odd places 12 in the first 256
/// groups and 13 in the rest.
pub open spec fn test_image_byte(k: int) -> u8 {
    if k % 2 == 0 {
        ((k / 6) % 256) as u8
    } else if k / 6 < 256 {
        12
    } else {
        13
    }
}

/// Appends one group of six bytes.
fn push_group(output: &mut Vec<u8>, value: u8, filler: u8)
    ensures
        final(output)@ == old(output)@ + seq![value, filler, value, filler, value, filler],
{
    let ghost before = output@;
    output.push(value);
    output.push(filler);
    output.push(value);
    output.push(filler);
    output.push(value);
    output.push(filler);
    assert(output@ =~= before + seq![value, filler, value, filler, value, filler]);
}

/// The test pattern, 3072 bytes.
pub fn generate_test_image() -> (output: Vec<u8>)
    ensures
        output@.len() == 3072,
        forall|k: int| 0 <= k < 3072 ==> #[trigger] output@[k] == test_image_byte(k),
{
    let mut output: Vec<u8> = Vec::new();
    let mut group: usize = 0;
    while group < 512
        invariant
            group <= 512,
            output@.len() == 6 * group,
            forall|k: int| 0 <= k < 6 * group ==> #[trigger] output@[k] == test_image_byte(k),
        decreases 512 - group,
    {
        let value: u8 = (group % 256) as u8;
        let filler: u8 = if group < 256 {
            12
        } else {
            13
        };
        let ghost before = output@;
        push_group(&mut output, value, filler);
        proof {
            assert forall|k: int| 0 <= k < 6 * (group + 1) implies #[trigger] output@[k]
                == test_image_byte(k) by {
                if k >= 6 * group {
                    let within = k - 6 * group;
                    assert(k / 6 == group as int);
                    assert(k % 2 == within % 2);
                    assert(output@[k] == seq![value, filler, value, filler, value, filler][within]);
                } else {
                    assert(output@[k] == before[k]);
                }
            }
        }
        group += 1;
    }
    output
}

} // verus!
