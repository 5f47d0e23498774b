//! Which pieces are missing, being downloaded, or done, and which to ask for next.
use vstd::prelude::*;
use crate::peer::BitField;

verus! {

#[derive(Debug, Clone, Copy, PartialEq, Eq, Structural)]
pub enum PieceState {
    Missing,
    InProgress,
    Completed,
}

#[derive(Debug, Clone, Copy, PartialEq, Eq, Structural)]
pub enum PieceEvent {
    Completed { piece_index: usize },
    HashMismatch { piece_index: usize },
    DownloadFailed { piece_index: usize },
}

/// The state of every piece of a torrent, with the number of completed ones.
#[derive(Debug)]
pub struct PiecePicker {
    states: Vec<PieceState>,
    completed: usize,
}

/// How many pieces are completed.
pub open spec fn count_completed(s: Seq<PieceState>) -> nat
    decreases s.len(),
{
    if s.len() == 0 {
        0
    } else {
        count_completed(s.drop_last()) + if s.last() == PieceState::Completed {
            1nat
        } else {
            0nat
        }
    }
}

pub open spec fn all_completed(s: Seq<PieceState>) -> bool {
    forall|i: int| 0 <= i < s.len() ==> s[i] == PieceState::Completed
}

/// The peer has piece `i` and nobody is fetching or has fetched it.
pub open spec fn claimable(s: Seq<PieceState>, bitfield: BitField, i: int) -> bool {
    bitfield.has(i) && s[i] == PieceState::Missing
}

/// The first piece from `i` on that the peer has and that is missing.
pub open spec fn first_claimable_from(s: Seq<PieceState>, bitfield: BitField, i: nat) -> Option<int>
    decreases s.len() - i,
{
    if i >= s.len() {
        None
    } else if claimable(s, bitfield, i as int) {
        Some(i as int)
    } else {
        first_claimable_from(s, bitfield, i + 1)
    }
}

/// The piece that a request with this bit field is answered with.
pub open spec fn claim_result(s: Seq<PieceState>, bitfield: BitField) -> Option<int> {
    first_claimable_from(s, bitfield, 0)
}

/// The states after a request: the piece handed out is in progress.
pub open spec fn after_claim(s: Seq<PieceState>, bitfield: BitField) -> Seq<PieceState> {
    match claim_result(s, bitfield) {
        Some(i) => s.update(i, PieceState::InProgress),
        None => s,
    }
}

/// The states after piece `i` was reported complete.
pub open spec fn after_completed(s: Seq<PieceState>, i: int) -> Seq<PieceState> {
    if 0 <= i < s.len() && s[i] == PieceState::InProgress {
        s.update(i, PieceState::Completed)
    } else {
        s
    }
}

/// The states after the download of piece `i` failed.
pub open spec fn after_failed(s: Seq<PieceState>, i: int) -> Seq<PieceState> {
    if 0 <= i < s.len() && s[i] == PieceState::InProgress {
        s.update(i, PieceState::Missing)
    } else {
        s
    }
}

pub open spec fn after_event(s: Seq<PieceState>, event: PieceEvent) -> Seq<PieceState> {
    match event {
        PieceEvent::Completed { piece_index } => after_completed(s, piece_index as int),
        PieceEvent::HashMismatch { piece_index } => after_failed(s, piece_index as int),
        PieceEvent::DownloadFailed { piece_index } => after_failed(s, piece_index as int),
    }
}

/// What reaches a picker: a peer's request for a piece, or news of a piece.
#[derive(Debug, Clone)]
pub enum PickerInput {
    Request(BitField),
    Event(PieceEvent),
}

pub open spec fn after_input(s: Seq<PieceState>, input: PickerInput) -> Seq<PieceState> {
    match input {
        PickerInput::Request(bitfield) => after_claim(s, bitfield),
        PickerInput::Event(event) => after_event(s, event),
    }
}

/// The states after the inputs, one after another.
pub open spec fn after_inputs(s: Seq<PieceState>, inputs: Seq<PickerInput>) -> Seq<PieceState>
    decreases inputs.len(),
{
    if inputs.len() == 0 {
        s
    } else {
        after_input(after_inputs(s, inputs.drop_last()), inputs.last())
    }
}

/// The input reports that the download of piece `i` failed.
pub open spec fn fails_piece(input: PickerInput, i: int) -> bool {
    match input {
        PickerInput::Event(PieceEvent::HashMismatch { piece_index }) => piece_index == i,
        PickerInput::Event(PieceEvent::DownloadFailed { piece_index }) => piece_index == i,
        _ => false,
    }
}

pub proof fn lemma_first_claimable(s: Seq<PieceState>, bitfield: BitField, i: nat)
    ensures
        match first_claimable_from(s, bitfield, i) {
            Some(k) => {
                &&& i <= k < s.len()
                &&& claimable(s, bitfield, k)
                &&& forall|j: int| i <= j < k ==> !claimable(s, bitfield, j)
            },
            None => forall|j: int| i <= j < s.len() ==> !claimable(s, bitfield, j),
        },
    decreases s.len() - i,
{
    if i < s.len() && !claimable(s, bitfield, i as int) {
        lemma_first_claimable(s, bitfield, i + 1);
    }
}

/// The answer to a request is the first piece that the peer has and that is
/// missing, `None` when there is none.
pub proof fn lemma_claim_result(s: Seq<PieceState>, bitfield: BitField)
    ensures
        match claim_result(s, bitfield) {
            Some(k) => {
                &&& 0 <= k < s.len()
                &&& claimable(s, bitfield, k)
                &&& forall|j: int| 0 <= j < k ==> !claimable(s, bitfield, j)
            },
            None => forall|j: int| 0 <= j < s.len() ==> !claimable(s, bitfield, j),
        },
        after_claim(s, bitfield).len() == s.len(),
{
    lemma_first_claimable(s, bitfield, 0);
}

pub proof fn lemma_count_update(s: Seq<PieceState>, i: int, x: PieceState)
    requires
        0 <= i < s.len(),
    ensures
        count_completed(s.update(i, x)) + (if s[i] == PieceState::Completed {
            1int
        } else {
            0int
        }) == count_completed(s) + (if x == PieceState::Completed {
            1int
        } else {
            0int
        }),
    decreases s.len(),
{
    let t = s.update(i, x);
    if i < s.len() - 1 {
        lemma_count_update(s.drop_last(), i, x);
        assert(t.drop_last() =~= s.drop_last().update(i, x));
    } else {
        assert(t.drop_last() =~= s.drop_last());
    }
}

/// The count is at most the length, and reaches it exactly when every piece
/// is completed.
pub proof fn lemma_count_all(s: Seq<PieceState>)
    ensures
        count_completed(s) <= s.len(),
        count_completed(s) == s.len() <==> all_completed(s),
    decreases s.len(),
{
    if s.len() > 0 {
        lemma_count_all(s.drop_last());
        if all_completed(s) {
            assert(all_completed(s.drop_last()));
        }
        if count_completed(s) == s.len() {
            assert forall|i: int| 0 <= i < s.len() implies s[i] == PieceState::Completed by {
                if i < s.len() - 1 {
                    assert(s.drop_last()[i] == s[i]);
                }
            }
        }
    }
}

impl PiecePicker {
    /// The counter agrees with the states.
    pub closed spec fn wf(&self) -> bool {
        self.completed == count_completed(self.states@)
    }

    pub closed spec fn states(&self) -> Seq<PieceState> {
        self.states@
    }

    pub closed spec fn completed_count(&self) -> nat {
        self.completed as nat
    }

    /// A picker for `num_pieces` pieces, all missing.
    pub fn new(num_pieces: usize) -> (r: Self)
        ensures
            r.wf(),
            r.states() == Seq::new(num_pieces as nat, |i: int| PieceState::Missing),
            r.completed_count() == 0,
    {
        let mut states = Vec::new();
        let mut i: usize = 0;
        while i < num_pieces
            invariant
                0 <= i <= num_pieces,
                states@ == Seq::new(i as nat, |k: int| PieceState::Missing),
                count_completed(states@) == 0,
            decreases num_pieces - i,
        {
            let ghost before = states@;
            states.push(PieceState::Missing);
            assert(states@.drop_last() =~= before);
            i = i + 1;
            assert(states@ =~= Seq::new(i as nat, |k: int| PieceState::Missing));
        }
        Self { states, completed: 0 }
    }

    /// The number of completed pieces.
    pub fn completed(&self) -> (r: usize)
        requires
            self.wf(),
        ensures
            r == self.completed_count(),
            r == count_completed(self.states()),
    {
        self.completed
    }

    /// The state of piece `index`.
    pub fn state(&self, index: usize) -> (r: PieceState)
        requires
            index < self.states().len(),
        ensures
            r == self.states()[index as int],
    {
        self.states[index]
    }

    pub fn num_pieces(&self) -> (r: usize)
        ensures
            r == self.states().len(),
    {
        self.states.len()
    }

    /// Claims the first missing piece that the peer has, marking it in
    /// progress; `None` when there is none.
    pub fn claim_piece(&mut self, bitfield: &BitField) -> (r: Option<usize>)
        requires
            old(self).wf(),
            forall|i: int|
                0 <= i < old(self).states().len() && (forall|j: int|
                    0 <= j < i ==> !#[trigger] claimable(old(self).states(), *bitfield, j))
                    ==> bitfield.readable(i),
        ensures
            final(self).wf(),
            final(self).completed_count() == old(self).completed_count(),
            final(self).states() == after_claim(old(self).states(), *bitfield),
            match r {
                Some(i) => claim_result(old(self).states(), *bitfield) == Some(i as int),
                None => claim_result(old(self).states(), *bitfield) is None,
            },
            match r {
                Some(i) => {
                    &&& 0 <= i < old(self).states().len()
                    &&& claimable(old(self).states(), *bitfield, i as int)
                    &&& forall|j: int| 0 <= j < i ==> !claimable(old(self).states(), *bitfield, j)
                    &&& final(self).states() == old(self).states().update(
                        i as int,
                        PieceState::InProgress,
                    )
                },
                None => {
                    &&& forall|j: int|
                        0 <= j < old(self).states().len() ==> !claimable(
                            old(self).states(),
                            *bitfield,
                            j,
                        )
                    &&& final(self).states() == old(self).states()
                },
            },
    {
        let ghost s = self.states@;
        proof {
            lemma_claim_result(s, *bitfield);
        }
        let mut i: usize = 0;
        while i < self.states.len()
            invariant
                0 <= i <= self.states.len(),
                self.states@ == s,
                old(self).states@ == s,
                self.completed == old(self).completed,
                self.completed == count_completed(s),
                forall|j: int| 0 <= j < i ==> !#[trigger] claimable(s, *bitfield, j),
                forall|k: int|
                    0 <= k < s.len() && (forall|j: int|
                        0 <= j < k ==> !#[trigger] claimable(s, *bitfield, j)) ==> bitfield.readable(
                        k,
                    ),
            decreases self.states.len() - i,
        {
            if bitfield.has_piece(i) && self.states[i] == PieceState::Missing {
                assert(bitfield.has(i as int));
                assert(s[i as int] == PieceState::Missing);
                assert(claimable(s, *bitfield, i as int));
                self.states.set(i, PieceState::InProgress);
                proof {
                    lemma_count_update(s, i as int, PieceState::InProgress);
                    lemma_claim_result(s, *bitfield);
                    let k = claim_result(s, *bitfield)->0;
                    assert(k == i) by {
                        if k < i {
                            assert(!claimable(s, *bitfield, k));
                        }
                        if i < k {
                            assert(!claimable(s, *bitfield, i as int));
                        }
                    }
                }
                return Some(i);
            }
            i = i + 1;
        }
        None
    }

    /// A piece in progress becomes completed; any other state stays.
    pub fn mark_as_completed(&mut self, index: usize)
        requires
            old(self).wf(),
            index < old(self).states().len(),
        ensures
            final(self).wf(),
            final(self).states() == after_completed(old(self).states(), index as int),
            old(self).states()[index as int] == PieceState::InProgress ==> final(self).states()
                == old(self).states().update(index as int, PieceState::Completed)
                && final(self).completed_count() == old(self).completed_count() + 1,
            old(self).states()[index as int] != PieceState::InProgress ==> final(self).states()
                == old(self).states() && final(self).completed_count() == old(
                self,
            ).completed_count(),
    {
        let n = self.states.len();
        if self.states[index] == PieceState::InProgress {
            proof {
                lemma_count_update(self.states@, index as int, PieceState::Completed);
                lemma_count_all(self.states@);
                lemma_count_all(self.states@.update(index as int, PieceState::Completed));
            }
            self.states.set(index, PieceState::Completed);
            self.completed = self.completed + 1;
        }
    }

    /// A piece in progress goes back to missing; any other state stays.
    pub fn mark_as_failed(&mut self, index: usize)
        requires
            old(self).wf(),
            index < old(self).states().len(),
        ensures
            final(self).wf(),
            final(self).completed_count() == old(self).completed_count(),
            final(self).states() == after_failed(old(self).states(), index as int),
            old(self).states()[index as int] == PieceState::InProgress ==> final(self).states()
                == old(self).states().update(index as int, PieceState::Missing),
            old(self).states()[index as int] != PieceState::InProgress ==> final(self).states()
                == old(self).states(),
    {
        if self.states[index] == PieceState::InProgress {
            proof {
                lemma_count_update(self.states@, index as int, PieceState::Missing);
            }
            self.states.set(index, PieceState::Missing);
        }
    }

    /// Whether every piece is completed.
    pub fn is_finished(&self) -> (r: bool)
        ensures
            r == all_completed(self.states()),
    {
        let mut i: usize = 0;
        while i < self.states.len()
            invariant
                0 <= i <= self.states.len(),
                forall|j: int| 0 <= j < i ==> self.states@[j] == PieceState::Completed,
            decreases self.states.len() - i,
        {
            if self.states[i] != PieceState::Completed {
                return false;
            }
            i = i + 1;
        }
        true
    }

    /// Applies an event about a piece: a completed piece is marked completed,
    /// a failed one missing again. Returns whether every piece is now completed
    /// after a completion, when the torrent is done.
    pub fn handle_event(&mut self, event: PieceEvent) -> (done: bool)
        requires
            old(self).wf(),
            match event {
                PieceEvent::Completed { piece_index } => piece_index < old(self).states().len(),
                PieceEvent::HashMismatch { piece_index } => piece_index < old(self).states().len(),
                PieceEvent::DownloadFailed { piece_index } => piece_index < old(self).states().len(),
            },
        ensures
            final(self).wf(),
            final(self).states().len() == old(self).states().len(),
            final(self).states() == after_event(old(self).states(), event),
            match event {
                PieceEvent::Completed { piece_index } => {
                    &&& old(self).states()[piece_index as int] == PieceState::InProgress
                        ==> final(self).states() == old(self).states().update(
                        piece_index as int,
                        PieceState::Completed,
                    )
                    &&& old(self).states()[piece_index as int] != PieceState::InProgress
                        ==> final(self).states() == old(self).states()
                    &&& done == all_completed(final(self).states())
                },
                PieceEvent::HashMismatch { piece_index } | PieceEvent::DownloadFailed {
                    piece_index,
                } => {
                    &&& old(self).states()[piece_index as int] == PieceState::InProgress
                        ==> final(self).states() == old(self).states().update(
                        piece_index as int,
                        PieceState::Missing,
                    )
                    &&& old(self).states()[piece_index as int] != PieceState::InProgress
                        ==> final(self).states() == old(self).states()
                    &&& !done
                },
            },
    {
        match event {
            PieceEvent::HashMismatch { piece_index } | PieceEvent::DownloadFailed {
                piece_index,
            } => {
                self.mark_as_failed(piece_index);
                false
            },
            PieceEvent::Completed { piece_index } => {
                self.mark_as_completed(piece_index);
                proof {
                    lemma_count_all(self.states@);
                }
                self.completed == self.states.len()
            },
        }
    }
}

/// One input leaves a piece that is not missing not missing, unless it reports
/// that piece failed; a request is then not answered with it.
proof fn lemma_input_keeps_claim(s: Seq<PieceState>, input: PickerInput, i: int)
    requires
        0 <= i < s.len(),
        s[i] != PieceState::Missing,
        !fails_piece(input, i),
    ensures
        after_input(s, input).len() == s.len(),
        after_input(s, input)[i] != PieceState::Missing,
        input matches PickerInput::Request(bitfield) ==> claim_result(s, bitfield) != Some(i),
{
    match input {
        PickerInput::Request(bitfield) => {
            lemma_claim_result(s, bitfield);
        },
        PickerInput::Event(event) => {},
    }
}

proof fn lemma_inputs_keep_claim(s: Seq<PieceState>, inputs: Seq<PickerInput>, i: int)
    requires
        0 <= i < s.len(),
        s[i] != PieceState::Missing,
        forall|k: int| 0 <= k < inputs.len() ==> !fails_piece(#[trigger] inputs[k], i),
    ensures
        after_inputs(s, inputs).len() == s.len(),
        after_inputs(s, inputs)[i] != PieceState::Missing,
    decreases inputs.len(),
{
    if inputs.len() > 0 {
        let prev = inputs.drop_last();
        assert forall|k: int| 0 <= k < prev.len() implies !fails_piece(#[trigger] prev[k], i) by {
            assert(prev[k] == inputs[k]);
        }
        lemma_inputs_keep_claim(s, prev, i);
        assert(!fails_piece(inputs[inputs.len() - 1], i));
        lemma_input_keeps_claim(after_inputs(s, prev), inputs.last(), i);
    }
}

/// A piece that a request was answered with is not handed out again until a
/// report says its download failed: over any inputs after that answer that
/// report no failure of the piece, no request is answered with it, and it
/// never goes back to missing.
pub proof fn law_claimed_not_reissued(
    s: Seq<PieceState>,
    first: BitField,
    inputs: Seq<PickerInput>,
    i: int,
)
    requires
        claim_result(s, first) == Some(i),
        forall|k: int| 0 <= k < inputs.len() ==> !fails_piece(#[trigger] inputs[k], i),
    ensures
        after_claim(s, first)[i] == PieceState::InProgress,
        after_inputs(after_claim(s, first), inputs)[i] != PieceState::Missing,
        forall|k: int|
            #![trigger inputs[k]]
            0 <= k < inputs.len() ==> (inputs[k] matches PickerInput::Request(bitfield)
                ==> claim_result(after_inputs(after_claim(s, first), inputs.take(k)), bitfield)
                != Some(i)),
{
    lemma_claim_result(s, first);
    let t = after_claim(s, first);
    lemma_inputs_keep_claim(t, inputs, i);
    assert forall|k: int|
        #![trigger inputs[k]]
        0 <= k < inputs.len() implies (inputs[k] matches PickerInput::Request(bitfield)
            ==> claim_result(after_inputs(t, inputs.take(k)), bitfield) != Some(i)) by {
        let before = inputs.take(k);
        assert forall|m: int| 0 <= m < before.len() implies !fails_piece(#[trigger] before[m], i) by {
            assert(before[m] == inputs[m]);
        }
        lemma_inputs_keep_claim(t, before, i);
        lemma_input_keeps_claim(after_inputs(t, before), inputs[k], i);
    }
}

/// Once every piece is completed the picker is done for good: no input
/// changes its states, and every request is answered `None`.
pub proof fn law_finished_stays(s: Seq<PieceState>, inputs: Seq<PickerInput>)
    requires
        all_completed(s),
    ensures
        after_inputs(s, inputs) == s,
        forall|k: int|
            #![trigger inputs[k]]
            0 <= k < inputs.len() ==> (inputs[k] matches PickerInput::Request(bitfield)
                ==> claim_result(after_inputs(s, inputs.take(k)), bitfield) is None),
    decreases inputs.len(),
{
    if inputs.len() > 0 {
        let prev = inputs.drop_last();
        law_finished_stays(s, prev);
        if let PickerInput::Request(bitfield) = inputs.last() {
            lemma_claim_result(s, bitfield);
        }
        assert forall|k: int|
            #![trigger inputs[k]]
            0 <= k < inputs.len() implies (inputs[k] matches PickerInput::Request(bitfield)
                ==> claim_result(after_inputs(s, inputs.take(k)), bitfield) is None) by {
            if k < inputs.len() - 1 {
                assert(prev[k] == inputs[k]);
                assert(inputs.take(k) =~= prev.take(k));
            } else {
                assert(inputs.take(k) =~= prev);
            }
        }
    }
}

/// The counter that the picker keeps is the number of completed pieces, and
/// it equals the number of pieces exactly when every piece is completed.
pub proof fn law_completed_counter(p: PiecePicker)
    requires
        p.wf(),
    ensures
        p.completed_count() == count_completed(p.states()),
        p.completed_count() <= p.states().len(),
        p.completed_count() == p.states().len() <==> all_completed(p.states()),
{
    lemma_count_all(p.states());
}

} // verus!
