use vstd::prelude::*;

verus! {

/// The clamped byte window `[offset, offset + count)` of a file image, as a
/// file-serving edge returns it: the bytes inside the file, and whether the
/// read reached the end of the file. Out-of-range offsets yield an empty
/// read at end-of-file rather than failing.
pub open spec fn window_bounds(len: nat, offset: u64, count: u32) -> (int, int) {
    let lo = if offset <= len {
        offset as int
    } else {
        len as int
    };
    let hi = if offset + count <= len {
        offset + count
    } else {
        len as int
    };
    (lo, hi)
}

/// Copies the clamped byte window of a file image and reports end-of-file.
pub fn read_window(content: &Vec<u8>, offset: u64, count: u32) -> (r: (Vec<u8>, bool))
    ensures
        r.0@ == content@.subrange(
            window_bounds(content@.len(), offset, count).0,
            window_bounds(content@.len(), offset, count).1,
        ),
        r.1 == (window_bounds(content@.len(), offset, count).1 == content@.len()),
{
    let len = content.len();
    let lo: usize = if offset <= len as u64 {
        offset as usize
    } else {
        len
    };
    let hi: usize = if count as u64 <= (len - lo) as u64 {
        lo + count as usize
    } else {
        len
    };
    let ghost bounds = window_bounds(content@.len(), offset, count);
    proof {
        assert(lo as int == bounds.0);
        assert(hi as int == bounds.1);
    }
    let mut out: Vec<u8> = Vec::new();
    let mut i: usize = lo;
    proof {
        assert(out@ =~= content@.subrange(lo as int, lo as int));
    }
    while i < hi
        invariant
            lo <= i <= hi,
            hi <= content@.len(),
            out@ == content@.subrange(lo as int, i as int),
        decreases hi - i,
    {
        out.push(content[i]);
        proof {
            assert(out@ =~= content@.subrange(lo as int, i + 1));
        }
        i = i + 1;
    }
    (out, hi == len)
}

} // verus!
