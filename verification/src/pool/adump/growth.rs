//! How a pool grows: how many bytes its files hold, and how many files that
//! takes.

use vstd::prelude::*;
use crate::kind::Kind;
use super::cfile::ChunkFile;
use super::{grown_by, AdumpPool};

verus! {

/// The bytes that the files hold together.
pub open spec fn bytes_held(files: Seq<ChunkFile>) -> nat
    decreases files.len(),
{
    if files.len() == 0 {
        0
    } else {
        bytes_held(files.drop_last()) + files.last().spec_size() as nat
    }
}

/// Does none of the files hold more than `bound` bytes?
pub open spec fn each_within(files: Seq<ChunkFile>, bound: nat) -> bool {
    forall|i: int| 0 <= i < files.len() ==> (#[trigger] files[i]).spec_size() <= bound
}

/// A frame that the pool takes makes its files larger by the length of the
/// frame, all together.
pub proof fn lemma_bytes_grow(before: AdumpPool, after: AdumpPool, oid: Seq<u8>, kind: Kind, len: u32)
    requires
        grown_by(before, after, oid, kind, len),
    ensures
        bytes_held(after.files()) == bytes_held(before.files()) + len,
{
    if !before.rolls_over(len) {
        assert(before.files().len() > 0);
    }
}

/// No file grows beyond the limit of the pool but by the first frame that it
/// takes: where no frame is longer than `bound`, and the limit no larger, no
/// file gets larger than `bound`.
pub proof fn lemma_stays_within(
    before: AdumpPool,
    after: AdumpPool,
    oid: Seq<u8>,
    kind: Kind,
    len: u32,
    bound: nat,
)
    requires
        grown_by(before, after, oid, kind, len),
        each_within(before.files(), bound),
        before.spec_limit() <= bound,
        len <= bound,
    ensures
        each_within(after.files(), bound),
{
    let was = before.files();
    let now = after.files();
    assert forall|i: int| 0 <= i < now.len() implies (#[trigger] now[i]).spec_size() <= bound by {
        if i < now.len() - 1 {
            assert(now[i] == now.drop_last()[i]);
            if before.rolls_over(len) {
                assert(now[i] == was[i]);
            } else {
                assert(now[i] == was.drop_last()[i]);
                assert(now[i] == was[i]);
            }
        }
    }
}

/// Do the serial numbers of the files follow one another without a gap?
pub open spec fn contiguous(files: Seq<ChunkFile>) -> bool {
    forall|i: int| 0 <= i < files.len() ==> (#[trigger] files[i]).spec_serial() == files[0].spec_serial() + i
}

/// A file that a pool begins takes the serial number after the last: where
/// the serial numbers followed one another without a gap, they still do.
pub proof fn lemma_stays_contiguous(
    before: AdumpPool,
    after: AdumpPool,
    oid: Seq<u8>,
    kind: Kind,
    len: u32,
)
    requires
        before.wf(),
        grown_by(before, after, oid, kind, len),
        contiguous(before.files()),
    ensures
        contiguous(after.files()),
{
    before.lemma_wf();
    let was = before.files();
    let now = after.files();
    assert forall|i: int| 0 <= i < now.len() implies (#[trigger] now[i]).spec_serial() == now[0].spec_serial()
        + i by {
        if before.rolls_over(len) {
            if i < now.len() - 1 {
                assert(now[i] == now.drop_last()[i]);
                assert(now[0] == now.drop_last()[0]);
            } else if was.len() > 0 {
                assert(now[0] == now.drop_last()[0]);
                assert(was.last() == was[was.len() - 1]);
            }
        } else {
            assert(was.len() > 0);
            assert(was.last() == was[was.len() - 1]);
            if i < now.len() - 1 {
                assert(now[i] == now.drop_last()[i]);
                assert(now[i] == was.drop_last()[i]);
            }
            if 0 < now.len() - 1 {
                assert(now[0] == now.drop_last()[0]);
                assert(now[0] == was.drop_last()[0]);
            }
        }
    }
}

/// Files of no more than `bound` bytes each hold no more than `bound` bytes
/// for each file: so many bytes take at least so many files.
pub proof fn lemma_file_count(files: Seq<ChunkFile>, bound: nat)
    requires
        each_within(files, bound),
    ensures
        bytes_held(files) <= files.len() * bound,
    decreases files.len(),
{
    if files.len() > 0 {
        let init = files.drop_last();
        assert forall|i: int| 0 <= i < init.len() implies (#[trigger] init[i]).spec_size() <= bound by {
            assert(init[i] == files[i]);
        }
        lemma_file_count(init, bound);
        assert(files.last() == files[files.len() - 1]);
        assert(files.len() * bound == init.len() * bound + bound) by (nonlinear_arith)
            requires
                files.len() == init.len() + 1,
        ;
    }
}

} // verus!
