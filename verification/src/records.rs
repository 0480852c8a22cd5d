//! Flat buffers of fixed-length records, as uploaded for instanced drawing.

use vstd::prelude::*;

verus! {

/// Number of values in one order-line record.
pub const LINE_RECORD_LEN: usize = 6;

/// Position, in an order-line record, of the number of lines drawn.
pub const LINE_COUNT_FIELD: usize = 5;

/// Whether a buffer of `len` values, read as records of `stride` values,
/// has slot `field` in every record that starts in it.
pub open spec fn field_in_every_record(len: nat, stride: nat, field: nat) -> bool {
    len % stride == 0 || len % stride > field
}

/// Writes `value` into slot `field` of every record of `stride` values
/// that starts in `buf`, and leaves every other value as it was.
pub fn stamp_field<T: Copy>(buf: &mut Vec<T>, stride: usize, field: usize, value: T)
    requires
        0 < stride,
        field < stride,
        field_in_every_record(old(buf)@.len(), stride as nat, field as nat),
    ensures
        final(buf)@.len() == old(buf)@.len(),
        forall|j: int|
            0 <= j < old(buf)@.len() ==> #[trigger] final(buf)@[j] == if j % (stride as int)
                == field {
                value
            } else {
                old(buf)@[j]
            },
{
    let ghost start = buf@;
    let len = buf.len();
    let mut i: usize = 0;
    let ghost mut r: int = 0;
    while i < len
        invariant
            0 < stride,
            field < stride,
            len == start.len(),
            field_in_every_record(len as nat, stride as nat, field as nat),
            buf@.len() == len,
            0 <= r,
            i == r * stride || i == len,
            i <= len,
            forall|j: int|
                0 <= j < len ==> #[trigger] buf@[j] == if j < i && j % (stride as int) == field {
                    value
                } else {
                    start[j]
                },
        decreases len - i,
    {
        let ghost q = len / stride;
        let ghost rem = len % stride;
        assert(len == q * stride + rem && 0 <= rem < stride) by (nonlinear_arith)
            requires
                0 < stride,
                q == len / stride,
                rem == len % stride,
        ;
        assert(r < q || (r == q && rem > field)) by (nonlinear_arith)
            requires
                0 < stride,
                i == r * stride,
                i < len,
                len == q * stride + rem,
                0 <= rem < stride,
                rem == 0 || rem > field,
                0 <= r,
        ;
        assert(i + field < len) by (nonlinear_arith)
            requires
                0 < stride,
                field < stride,
                i == r * stride,
                len == q * stride + rem,
                r < q || (r == q && rem > field),
        ;
        buf.set(i + field, value);
        let ghost next = if len - i <= stride {
            len as int
        } else {
            i + stride
        };
        assert forall|j: int| 0 <= j < len implies #[trigger] buf@[j] == if j < next && j % (
        stride as int) == field {
            value
        } else {
            start[j]
        } by {
            if i <= j < i + stride {
                assert(j == r * stride + (j - i));
                vstd::arithmetic::div_mod::lemma_fundamental_div_mod_converse(
                    j,
                    stride as int,
                    r,
                    j - i,
                );
            }
        }
        if len - i <= stride {
            i = len;
        } else {
            i = i + stride;
            proof {
                r = r + 1;
                assert(i == r * stride) by (nonlinear_arith)
                    requires
                        i == (r - 1) * stride + stride,
                ;
            }
        }
    }
}

} // verus!
