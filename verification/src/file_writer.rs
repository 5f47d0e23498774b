//! Where the bytes of a verified piece go among the torrent's files.
use vstd::prelude::*;

verus! {

/// A file of the torrent: where it starts in the torrent's byte stream, and
/// its length.
#[derive(Debug, Clone, Copy, PartialEq, Eq, Structural)]
pub struct FileSpan {
    pub offset: u64,
    pub length: u64,
}

/// One write: `len` bytes of the piece from `data_start` go to file `file`
/// at `file_offset`.
#[derive(Debug, Clone, Copy, PartialEq, Eq, Structural)]
pub struct FileWrite {
    pub file: usize,
    pub file_offset: u64,
    pub data_start: usize,
    pub len: usize,
}

/// The writes from file `i` on, with the stream at `current`, `remaining`
/// bytes of the piece left, the next of them at `start`. Files that end at or
/// before `current` are passed over; the writes stop once no byte is left.
/// `None` where the writer overflows or meets a file that starts after `current`.
pub open spec fn writes_from(
    files: Seq<FileSpan>,
    i: int,
    current: int,
    remaining: int,
    start: int,
) -> Option<Seq<FileWrite>>
    decreases files.len() - i,
{
    if i < 0 || i >= files.len() {
        Some(Seq::empty())
    } else {
        let f = files[i];
        if f.offset + f.length > u64::MAX {
            None
        } else if current >= f.offset + f.length {
            writes_from(files, i + 1, current, remaining, start)
        } else if current < f.offset {
            None
        } else {
            let file_offset = current - f.offset;
            let space = ((f.length - file_offset) as u64) as usize;
            let w = if remaining < space {
                remaining
            } else {
                space as int
            };
            let op = FileWrite {
                file: i as usize,
                file_offset: file_offset as u64,
                data_start: start as usize,
                len: w as usize,
            };
            if remaining - w == 0 {
                Some(seq![op])
            } else {
                match writes_from(files, i + 1, current + w, remaining - w, start + w) {
                    None => None,
                    Some(rest) => Some(seq![op] + rest),
                }
            }
        }
    }
}

/// The writes that store piece `index` of `data_len` bytes.
pub open spec fn piece_writes(
    files: Seq<FileSpan>,
    index: int,
    piece_length: int,
    data_len: int,
) -> Option<Seq<FileWrite>> {
    if index * piece_length > u64::MAX {
        None
    } else {
        writes_from(files, 0, index * piece_length, data_len, 0)
    }
}

/// The writes that store piece `index`, of `data_len` bytes, among `files`;
/// `None` where the offsets overflow or the piece falls before a file's start.
pub fn plan_piece_writes(files: &[FileSpan], index: usize, piece_length: u64, data_len: usize) -> (r:
    Option<Vec<FileWrite>>)
    ensures
        match piece_writes(files@, index as int, piece_length as int, data_len as int) {
            Some(ops) => r matches Some(v) && v@ == ops,
            None => r is None,
        },
{
    let total_offset = match (index as u64).checked_mul(piece_length) {
        Some(t) => t,
        None => {
            assert(index * piece_length > u64::MAX);
            return None;
        },
    };
    let mut writes: Vec<FileWrite> = Vec::new();
    let mut remaining = data_len;
    let mut start: usize = 0;
    let mut current = total_offset;
    let mut i: usize = 0;
    while i < files.len()
        invariant
            0 <= i <= files.len(),
            start + remaining == data_len,
            piece_writes(files@, index as int, piece_length as int, data_len as int) == match writes_from(
                files@,
                i as int,
                current as int,
                remaining as int,
                start as int,
            ) {
                None => None,
                Some(rest) => Some(writes@ + rest),
            },
        decreases files.len() - i,
    {
        let f = files[i];
        let end = match f.offset.checked_add(f.length) {
            Some(e) => e,
            None => {
                return None;
            },
        };
        if current >= end {
            i = i + 1;
            continue;
        }
        if current < f.offset {
            return None;
        }
        let file_offset = current - f.offset;
        let space = (f.length - file_offset) as usize;
        let w = if remaining < space {
            remaining
        } else {
            space
        };
        let ghost before = writes@;
        writes.push(FileWrite { file: i, file_offset, data_start: start, len: w });
        remaining = remaining - w;
        start = start + w;
        current = current + w as u64;
        if remaining == 0 {
            assert(writes@ =~= before + seq![FileWrite { file: i, file_offset, data_start: (start - w) as usize, len: w }]);
            return Some(writes);
        }
        assert forall|rest: Seq<FileWrite>| #![auto] (before + (seq![writes@.last()] + rest)) =~= (writes@ + rest) by {}
        i = i + 1;
    }
    assert(writes@ + Seq::<FileWrite>::empty() =~= writes@);
    Some(writes)
}

/// Every planned write lies inside its file, the files come in increasing
/// order, and the writes take consecutive bytes of the piece from its start,
/// none past its end. Each byte goes where it stands in the torrent's byte
/// stream: byte `j` of the piece lands at stream position
/// `index * piece_length + j`. The writes cover the whole piece, unless every
/// later file ends before the rest of it.
pub proof fn law_piece_writes_in_bounds(
    files: Seq<FileSpan>,
    index: int,
    piece_length: int,
    data_len: int,
)
    requires
        0 <= data_len <= usize::MAX,
        files.len() <= usize::MAX,
        0 <= index,
        0 <= piece_length,
    ensures
        piece_writes(files, index, piece_length, data_len) matches Some(ops) ==> {
            &&& forall|k: int|
                0 <= k < ops.len() ==> {
                    &&& (#[trigger] ops[k]).file < files.len()
                    &&& ops[k].file_offset + ops[k].len <= files[ops[k].file as int].length
                }
            &&& forall|k: int| 0 < k < ops.len() ==> ops[k - 1].file < (#[trigger] ops[k]).file
            &&& ops.len() > 0 ==> ops[0].data_start == 0
            &&& forall|k: int|
                0 < k < ops.len() ==> (#[trigger] ops[k]).data_start == ops[k - 1].data_start
                    + ops[k - 1].len
            &&& ops.len() > 0 ==> ops.last().data_start + ops.last().len <= data_len
            &&& forall|k: int|
                0 <= k < ops.len() ==> files[(#[trigger] ops[k]).file as int].offset
                    + ops[k].file_offset == index * piece_length + ops[k].data_start
            &&& written_end(ops, 0) == data_len || forall|m: int|
                next_file(ops, 0) <= m < files.len() ==> #[trigger] files[m].offset + files[m].length
                    <= index * piece_length + written_end(ops, 0)
        },
{
    if index * piece_length <= u64::MAX {
        assert(index * piece_length >= 0) by (nonlinear_arith)
            requires
                0 <= index,
                0 <= piece_length,
        ;
        lemma_writes_from(files, 0, index * piece_length, data_len, 0);
    }
}

/// The files lie one after another from the start of the stream, none
/// reaching past `u64::MAX`, and each short enough for a write's length.
pub open spec fn files_contiguous(files: Seq<FileSpan>) -> bool {
    &&& files.len() > 0 ==> files[0].offset == 0
    &&& forall|k: int|
        0 <= k < files.len() - 1 ==> #[trigger] files[k + 1].offset == files[k].offset
            + files[k].length
    &&& forall|k: int|
        0 <= k < files.len() ==> #[trigger] files[k].offset + files[k].length <= u64::MAX
            && files[k].length <= usize::MAX
}

/// Over files that lie one after another from the start of the stream, a
/// piece always has writes, whatever its length (a last piece shorter than
/// the others included) and wherever it starts, as long as its start offset
/// can be computed.
pub proof fn law_piece_writes_total(
    files: Seq<FileSpan>,
    index: int,
    piece_length: int,
    data_len: int,
)
    requires
        files_contiguous(files),
        0 <= index,
        0 <= piece_length,
        index * piece_length <= u64::MAX,
        0 <= data_len,
    ensures
        piece_writes(files, index, piece_length, data_len) is Some,
{
    assert(index * piece_length >= 0) by (nonlinear_arith)
        requires
            0 <= index,
            0 <= piece_length,
    ;
    lemma_writes_total(files, 0, index * piece_length, data_len, 0);
}

proof fn lemma_writes_total(files: Seq<FileSpan>, i: int, current: int, remaining: int, start: int)
    requires
        files_contiguous(files),
        0 <= i,
        i < files.len() ==> files[i].offset <= current,
        0 <= remaining,
    ensures
        writes_from(files, i, current, remaining, start) is Some,
    decreases files.len() - i,
{
    if i < files.len() {
        let f = files[i];
        assert(f.offset + f.length <= u64::MAX && f.length <= usize::MAX);
        if i + 1 < files.len() {
            assert(files[i + 1].offset == files[i].offset + files[i].length);
        }
        if current >= f.offset + f.length {
            lemma_writes_total(files, i + 1, current, remaining, start);
        } else {
            let file_offset = current - f.offset;
            let x = (f.length - file_offset) as u64;
            assert(x == f.length - file_offset);
            assert(x as usize == x);
            let space = x as usize;
            let w = if remaining < space {
                remaining
            } else {
                space as int
            };
            if remaining - w != 0 {
                assert(current + w == f.offset + f.length);
                lemma_writes_total(files, i + 1, current + w, remaining - w, start + w);
            }
        }
    }
}

/// Where the writes end in the piece: after the last of them, or at `start`
/// when there is none.
pub open spec fn written_end(ops: Seq<FileWrite>, start: int) -> int {
    if ops.len() > 0 {
        ops.last().data_start + ops.last().len
    } else {
        start
    }
}

/// The first file after those the writes touch, or `i` when there is none.
pub open spec fn next_file(ops: Seq<FileWrite>, i: int) -> int {
    if ops.len() > 0 {
        ops.last().file + 1
    } else {
        i
    }
}

proof fn lemma_writes_from(files: Seq<FileSpan>, i: int, current: int, remaining: int, start: int)
    requires
        0 <= i,
        files.len() <= usize::MAX,
        0 <= current <= u64::MAX,
        0 <= remaining,
        0 <= start,
        start + remaining <= usize::MAX,
    ensures
        writes_from(files, i, current, remaining, start) matches Some(ops) ==> {
            &&& forall|k: int|
                0 <= k < ops.len() ==> {
                    &&& i <= (#[trigger] ops[k]).file < files.len()
                    &&& ops[k].file_offset + ops[k].len <= files[ops[k].file as int].length
                }
            &&& forall|k: int| 0 < k < ops.len() ==> ops[k - 1].file < (#[trigger] ops[k]).file
            &&& ops.len() > 0 ==> ops[0].data_start == start
            &&& forall|k: int|
                0 < k < ops.len() ==> (#[trigger] ops[k]).data_start == ops[k - 1].data_start
                    + ops[k - 1].len
            &&& ops.len() > 0 ==> ops.last().data_start + ops.last().len <= start + remaining
            &&& forall|k: int|
                0 <= k < ops.len() ==> files[(#[trigger] ops[k]).file as int].offset
                    + ops[k].file_offset == current + ops[k].data_start - start
            &&& written_end(ops, start) == start + remaining || forall|m: int|
                next_file(ops, i) <= m < files.len() ==> #[trigger] files[m].offset + files[m].length
                    <= current + written_end(ops, start) - start
        },
    decreases files.len() - i,
{
    if 0 <= i < files.len() {
        let f = files[i];
        if f.offset + f.length <= u64::MAX {
            if current >= f.offset + f.length {
                lemma_writes_from(files, i + 1, current, remaining, start);
            } else if current >= f.offset {
                let file_offset = current - f.offset;
                let x = (f.length - file_offset) as u64;
                let space = x as usize;
                assert(x as usize <= x) by (bit_vector);
                let w = if remaining < space {
                    remaining
                } else {
                    space as int
                };
                if remaining - w != 0 {
                    lemma_writes_from(files, i + 1, current + w, remaining - w, start + w);
                    if let Some(rest) = writes_from(files, i + 1, current + w, remaining - w, start + w) {
                        let op = FileWrite {
                            file: i as usize,
                            file_offset: file_offset as u64,
                            data_start: start as usize,
                            len: w as usize,
                        };
                        let ops = seq![op] + rest;
                        assert forall|k: int| 0 < k < ops.len() implies (#[trigger] ops[k]).data_start
                            == ops[k - 1].data_start + ops[k - 1].len by {
                            if k > 1 {
                                assert(ops[k] == rest[k - 1] && ops[k - 1] == rest[k - 2]);
                            }
                        }
                        assert forall|k: int| 0 < k < ops.len() implies ops[k - 1].file < (
                        #[trigger] ops[k]).file by {
                            if k > 1 {
                                assert(ops[k] == rest[k - 1] && ops[k - 1] == rest[k - 2]);
                            }
                        }
                        assert forall|k: int| 0 <= k < ops.len() implies {
                            &&& i <= (#[trigger] ops[k]).file < files.len()
                            &&& ops[k].file_offset + ops[k].len <= files[ops[k].file as int].length
                        } by {
                            if k > 0 {
                                assert(ops[k] == rest[k - 1]);
                            }
                        }
                        if rest.len() > 0 {
                            assert(ops.last() == rest.last());
                        }
                    }
                }
            }
        }
    }
}

} // verus!
