use vstd::prelude::*;

verus! {

/// Number of workers when none, or zero, is asked for.
pub const DEFAULT_WORKERS: usize = 4;

/// The number of workers for a request: the request itself unless it is zero,
/// which stands for the default.
pub open spec fn workers_for(requested: usize) -> usize {
    if requested == 0 {
        DEFAULT_WORKERS
    } else {
        requested
    }
}

/// The number of workers to use for a request.
pub fn effective_workers(requested: usize) -> (workers: usize)
    ensures
        workers == workers_for(requested),
        workers > 0,
{
    if requested == 0 {
        DEFAULT_WORKERS
    } else {
        requested
    }
}

/// Where chunk `index` begins when `len` lines are split among `workers`:
/// every chunk but the last has `len / workers` lines.
pub open spec fn chunk_start(len: int, workers: int, index: int) -> int {
    index * (len / workers)
}

/// Where chunk `index` ends: the last chunk takes all lines that are left.
pub open spec fn chunk_end(len: int, workers: int, index: int) -> int {
    if index + 1 == workers {
        len
    } else {
        (index + 1) * (len / workers)
    }
}

/// The chunks are contiguous, lie in order within the lines, and cover them.
pub proof fn lemma_chunks_cover(len: int, workers: int, index: int)
    requires
        0 <= len,
        0 <= index < workers,
    ensures
        chunk_start(len, workers, 0) == 0,
        chunk_end(len, workers, workers - 1) == len,
        0 <= chunk_start(len, workers, index) <= chunk_end(len, workers, index) <= len,
        index + 1 < workers ==> chunk_end(len, workers, index) == chunk_start(
            len,
            workers,
            index + 1,
        ),
        index + 1 < workers ==> chunk_end(len, workers, index) - chunk_start(len, workers, index)
            == len / workers,
{
    let size = len / workers;
    assert(0 <= size && size * workers <= len) by (nonlinear_arith)
        requires
            size == len / workers,
            0 <= len,
            0 < workers,
    ;
    assert(0 <= index * size && index * size <= (index + 1) * size && (index + 1) * size
        <= workers * size && (index + 1) * size - index * size == size) by (nonlinear_arith)
        requires
            0 <= index < workers,
            0 <= size,
    ;
    assert(workers * size == size * workers) by (nonlinear_arith);
}

/// The bounds of chunk `index` of `len` lines split among `workers`: the index
/// of its first line, and the index after its last.
pub fn chunk_bounds(len: usize, workers: usize, index: usize) -> (bounds: (usize, usize))
    requires
        index < workers,
    ensures
        bounds.0 == chunk_start(len as int, workers as int, index as int),
        bounds.1 == chunk_end(len as int, workers as int, index as int),
        bounds.0 <= bounds.1 <= len,
{
    proof {
        lemma_chunks_cover(len as int, workers as int, index as int);
    }
    let size: usize = len / workers;
    proof {
        assert(index * size <= (index + 1) * size && (index + 1) * size <= workers * size
            && workers * size <= len) by (nonlinear_arith)
            requires
                size == len / workers,
                0 <= index < workers,
                0 <= len,
        ;
    }
    let start: usize = index * size;
    let end: usize = if index + 1 == workers {
        len
    } else {
        (index + 1) * size
    };
    (start, end)
}

} // verus!
