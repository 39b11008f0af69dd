//! The buffer accumulator: owns the growing source text's arithmetic — the
//! size bound, newline counting, and the edit descriptor one append produces.

use vstd::prelude::*;

verus! {

/// One contiguous append described in bytes and (row, column) coordinates.
/// Boundary positions always report column 0 on the old and new row counts.
/// This approximation is part of the established behavior and must stay
/// put: the engine boundary's edit discipline is stated over exactly these
/// descriptors, so what the reuse bookkeeping is trusted for is what is
/// actually recorded.
#[derive(Clone, Copy, Debug, PartialEq, Eq)]
pub struct EditDescriptor {
    pub start_byte: usize,
    pub old_end_byte: usize,
    pub new_end_byte: usize,
    pub start_row: usize,
    pub start_col: usize,
    pub old_end_row: usize,
    pub old_end_col: usize,
    pub new_end_row: usize,
    pub new_end_col: usize,
}

/// An append that would exceed the bound, rejected before any state changed.
#[derive(Clone, Copy, Debug, PartialEq, Eq)]
pub struct BufferOverflow {
    pub current_size: usize,
    pub fragment_size: usize,
    pub max_size: usize,
}

/// Number of newline bytes in the text.
pub open spec fn count_newlines_spec(s: Seq<u8>) -> nat
    decreases s.len(),
{
    if s.len() == 0 {
        0
    } else {
        count_newlines_spec(s.drop_last()) + (if s.last() == 10u8 {
            1nat
        } else {
            0nat
        })
    }
}

pub fn count_newlines(s: &Vec<u8>) -> (r: usize)
    ensures
        r == count_newlines_spec(s@),
{
    let mut n: usize = 0;
    let mut i: usize = 0;
    while i < s.len()
        invariant
            i <= s@.len(),
            n <= i,
            n == count_newlines_spec(s@.take(i as int)),
        decreases s@.len() - i,
    {
        proof {
            assert(s@.take(i as int + 1).drop_last() =~= s@.take(i as int));
            assert(s@.take(i as int + 1).last() == s@[i as int]);
        }
        if s[i] == 10 {
            n += 1;
        }
        i += 1;
    }
    proof {
        assert(s@.take(s@.len() as int) =~= s@);
    }
    n
}

/// The descriptor for one append: the edit starts and ends (on the old side)
/// at the old buffer end, and reaches the new end after the append.
pub open spec fn append_edit_spec(old_buf: Seq<u8>, new_buf: Seq<u8>) -> EditDescriptor {
    EditDescriptor {
        start_byte: old_buf.len() as usize,
        old_end_byte: old_buf.len() as usize,
        new_end_byte: new_buf.len() as usize,
        start_row: count_newlines_spec(old_buf) as usize,
        start_col: 0,
        old_end_row: count_newlines_spec(old_buf) as usize,
        old_end_col: 0,
        new_end_row: count_newlines_spec(new_buf) as usize,
        new_end_col: 0,
    }
}

/// Append the fragment; the buffer then reads as the exact concatenation.
pub fn append_bytes(v: &mut Vec<u8>, s: &Vec<u8>)
    ensures
        final(v)@ == old(v)@ + s@,
{
    let mut i: usize = 0;
    while i < s.len()
        invariant
            i <= s@.len(),
            v@ == old(v)@ + s@.take(i as int),
        decreases s@.len() - i,
    {
        v.push(s[i]);
        proof {
            assert(old(v)@ + s@.take(i as int + 1) =~= (old(v)@ + s@.take(i as int)).push(
                s@[i as int],
            ));
        }
        i += 1;
    }
    proof {
        assert(old(v)@ + s@.take(s@.len() as int) =~= old(v)@ + s@);
    }
}

/// Append a fragment under a size bound. A fragment that would push the
/// buffer over the bound is rejected with the sizes involved and the buffer
/// untouched; otherwise the buffer grows by exactly the fragment and the
/// edit descriptor for the append comes back.
pub fn buffer_append(buf: &mut Vec<u8>, fragment: &Vec<u8>, max: usize) -> (r: Result<
    EditDescriptor,
    BufferOverflow,
>)
    requires
        old(buf)@.len() <= max,
    ensures
        (old(buf)@.len() + fragment@.len() > max) <==> r is Err,
        match r {
            Ok(ed) => final(buf)@ == old(buf)@ + fragment@ && final(buf)@.len() <= max && ed
                == append_edit_spec(old(buf)@, old(buf)@ + fragment@),
            Err(e) => final(buf)@ == old(buf)@ && e.current_size == old(buf)@.len()
                && e.fragment_size == fragment@.len() && e.max_size == max,
        },
{
    if fragment.len() > max || buf.len() > max - fragment.len() {
        return Err(BufferOverflow {
            current_size: buf.len(),
            fragment_size: fragment.len(),
            max_size: max,
        });
    }
    let old_len = buf.len();
    let old_rows = count_newlines(buf);
    append_bytes(buf, fragment);
    let new_rows = count_newlines(buf);
    Ok(EditDescriptor {
        start_byte: old_len,
        old_end_byte: old_len,
        new_end_byte: buf.len(),
        start_row: old_rows,
        start_col: 0,
        old_end_row: old_rows,
        old_end_col: 0,
        new_end_row: new_rows,
        new_end_col: 0,
    })
}

} // verus!
