//! Download progress as the progress bar shows it.
use vstd::prelude::*;

verus! {

pub enum ProgressEvent {
    PieceCompleted,
}

/// The position after `k` completed pieces: each adds a piece length, and
/// the position stops at the total.
pub open spec fn progress_after(piece_length: int, total: int, k: nat) -> int
    decreases k,
{
    if k == 0 {
        0
    } else {
        let p = progress_after(piece_length, total, (k - 1) as nat) + piece_length;
        if p < total {
            p
        } else {
            total
        }
    }
}

/// After `k` completed pieces the bar stands at `min(k * piece length,
/// total)`: it never moves back and never passes the total.
pub proof fn law_progress_after_events(piece_length: int, total: int, k: nat)
    requires
        0 <= piece_length,
        0 <= total,
    ensures
        progress_after(piece_length, total, k) == if k * piece_length < total {
            k * piece_length
        } else {
            total
        },
        progress_after(piece_length, total, k) <= progress_after(piece_length, total, k + 1),
        progress_after(piece_length, total, k) <= total,
    decreases k,
{
    assert((k + 1) * piece_length == k * piece_length + piece_length) by (nonlinear_arith);
    assert(0 <= k * piece_length) by (nonlinear_arith)
        requires
            0 <= piece_length,
    ;
    if k > 0 {
        law_progress_after_events(piece_length, total, (k - 1) as nat);
        let j = (k - 1) as nat;
        assert(j * piece_length + piece_length == k * piece_length) by (nonlinear_arith)
            requires
                j == k - 1,
        ;
    } else {
        assert(k * piece_length == 0) by (nonlinear_arith)
            requires
                k == 0,
        ;
    }
}

/// How far the progress bar stands: a piece length more for each completed
/// piece, never past the torrent's length.
#[derive(Debug)]
pub struct ProgressDisplayer {
    downloaded: u64,
    piece_length: u64,
    total_length: u64,
}

impl ProgressDisplayer {
    pub closed spec fn spec_position(&self) -> u64 {
        self.downloaded
    }

    pub closed spec fn spec_piece_length(&self) -> u64 {
        self.piece_length
    }

    pub closed spec fn spec_total(&self) -> u64 {
        self.total_length
    }

    pub fn new(piece_length: u64, total_length: u64) -> (r: Self)
        ensures
            r.spec_position() == 0,
            r.spec_position() == progress_after(piece_length as int, total_length as int, 0),
            r.spec_piece_length() == piece_length,
            r.spec_total() == total_length,
    {
        Self { downloaded: 0, piece_length, total_length }
    }

    pub fn total_length(&self) -> (r: u64)
        ensures
            r == self.spec_total(),
    {
        self.total_length
    }

    /// Moves the bar for an event; gives the new position.
    pub fn on_event(&mut self, event: ProgressEvent) -> (r: u64)
        requires
            old(self).spec_position() + old(self).spec_piece_length() <= u64::MAX,
        ensures
            r == final(self).spec_position(),
            r == if old(self).spec_position() + old(self).spec_piece_length() < old(self).spec_total() {
                old(self).spec_position() + old(self).spec_piece_length()
            } else {
                old(self).spec_total() as int
            },
            final(self).spec_piece_length() == old(self).spec_piece_length(),
            final(self).spec_total() == old(self).spec_total(),
            forall|k: nat|
                old(self).spec_position() == progress_after(
                    old(self).spec_piece_length() as int,
                    old(self).spec_total() as int,
                    k,
                ) ==> final(self).spec_position() == #[trigger] progress_after(
                    old(self).spec_piece_length() as int,
                    old(self).spec_total() as int,
                    k + 1,
                ),
    {
        match event {
            ProgressEvent::PieceCompleted => {
                let next = self.downloaded + self.piece_length;
                let new = if next < self.total_length {
                    next
                } else {
                    self.total_length
                };
                self.downloaded = new;
                new
            },
        }
    }
}

} // verus!
