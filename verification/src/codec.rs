use crate::board::{crop_of, lemma_crop_wf, Board, BoardModel};
use vstd::bytes::{
    lemma_auto_spec_u64_to_from_le_bytes, spec_u64_from_le_bytes, spec_u64_to_le_bytes,
    u64_from_le_bytes, u64_to_le_bytes,
};
use vstd::prelude::*;
use vstd::slice::slice_subrange;

verus! {

/// Why a savestate byte stream was rejected.
#[derive(Clone, Copy, PartialEq, Eq, Structural, Debug)]
pub enum FormatError {
    /// Fewer bytes than the fixed-width header takes.
    TruncatedHeader,
    /// A run pair is incomplete, or a cell value byte is not 0 or 1.
    BadRunPair,
    /// A header field does not fit this machine's word size.
    HeaderOverflow,
    /// The expanded run lengths do not cover exactly `width * height`
    /// cells.
    LengthMismatch,
}

/// How many leading cells equal the first one.
pub open spec fn leading_run(cells: Seq<bool>) -> int
    decreases cells.len(),
{
    if cells.len() == 0 {
        0
    } else if cells.len() >= 2 && cells[1] == cells[0] {
        1 + leading_run(cells.drop_first())
    } else {
        1
    }
}

/// The first run never runs past the end of the sequence.
proof fn lemma_leading_run_bounds(cells: Seq<bool>)
    ensures
        cells.len() > 0 ==> 1 <= leading_run(cells) <= cells.len(),
    decreases cells.len(),
{
    if cells.len() >= 2 && cells[1] == cells[0] {
        lemma_leading_run_bounds(cells.drop_first());
    }
}

/// Every cell of the first run equals the first cell.
proof fn lemma_leading_run_prefix(cells: Seq<bool>)
    ensures
        forall|k: int| 0 <= k < leading_run(cells) ==> #[trigger] cells[k] == cells[0],
    decreases cells.len(),
{
    if cells.len() >= 2 && cells[1] == cells[0] {
        lemma_leading_run_prefix(cells.drop_first());
        lemma_leading_run_bounds(cells.drop_first());
        assert forall|k: int| 0 <= k < leading_run(cells) implies #[trigger] cells[k]
            == cells[0] by {
            if k >= 1 {
                assert(cells.drop_first()[k - 1] == cells.drop_first()[0]);
            }
        }
    }
}

/// A block of `m` equal cells followed by a different cell (or the
/// end) is exactly the first run.
proof fn lemma_leading_run_is(cells: Seq<bool>, m: int)
    requires
        1 <= m <= cells.len(),
        forall|k: int| 0 <= k < m ==> #[trigger] cells[k] == cells[0],
        m == cells.len() || cells[m] != cells[0],
    ensures
        leading_run(cells) == m,
    decreases m,
{
    if m == 1 {
        if cells.len() >= 2 {
            assert(cells[1] != cells[0]);
        }
    } else {
        assert(cells[1] == cells[0]);
        let rest = cells.drop_first();
        assert forall|k: int| 0 <= k < m - 1 implies #[trigger] rest[k] == rest[0] by {
            assert(rest[k] == cells[k + 1]);
        }
        if m - 1 < rest.len() {
            assert(rest[m - 1] == cells[m]);
        }
        lemma_leading_run_is(rest, m - 1);
    }
}

/// A block of `m` equal leading cells means the first run is at least
/// that long.
proof fn lemma_leading_run_at_least(cells: Seq<bool>, m: int)
    requires
        0 <= m <= cells.len(),
        forall|k: int| 0 <= k < m ==> #[trigger] cells[k] == cells[0],
    ensures
        leading_run(cells) >= m,
    decreases m,
{
    if m >= 2 {
        assert(cells[1] == cells[0]);
        let rest = cells.drop_first();
        assert forall|k: int| 0 <= k < m - 1 implies #[trigger] rest[k] == rest[0] by {
            assert(rest[k] == cells[k + 1]);
        }
        lemma_leading_run_at_least(rest, m - 1);
        assert(leading_run(cells) == 1 + leading_run(rest));
    } else {
        lemma_leading_run_bounds(cells);
    }
}

/// The length of the first emitted run: the leading run, split at 255.
pub open spec fn first_run(cells: Seq<bool>) -> int {
    if leading_run(cells) > 255 {
        255
    } else {
        leading_run(cells)
    }
}

#[via_fn]
proof fn rle_of_decreases(cells: Seq<bool>) {
    if cells.len() > 0 {
        lemma_leading_run_bounds(cells);
    }
}

/// The run-length pairs for a row-major cell sequence: maximal runs of
/// equal cells as `(length, value)` byte pairs, runs longer than 255
/// split into consecutive pairs.
pub open spec fn rle_of(cells: Seq<bool>) -> Seq<u8>
    decreases cells.len(),
        via rle_of_decreases
{
    if cells.len() == 0 {
        Seq::empty()
    } else {
        seq![
            first_run(cells) as u8,
            if cells[0] {
                1u8
            } else {
                0u8
            },
        ] + rle_of(cells.skip(first_run(cells)))
    }
}

/// The savestate bytes for a board: width, height and generation
/// counter as 8-byte little-endian values, then the run pairs of the
/// row-major cells.
pub open spec fn savestate_bytes(m: BoardModel) -> Seq<u8> {
    spec_u64_to_le_bytes(m.width as u64) + spec_u64_to_le_bytes(m.height as u64)
        + spec_u64_to_le_bytes(m.run_count as u64) + rle_of(m.cells)
}

/// The cells a run-pair byte stream expands to, or `None` when a pair
/// is incomplete or a value byte is not 0 or 1.
pub open spec fn expand_pairs(bytes: Seq<u8>) -> Option<Seq<bool>>
    decreases bytes.len(),
{
    if bytes.len() == 0 {
        Some(Seq::empty())
    } else if bytes.len() == 1 {
        None
    } else if bytes[1] != 0 && bytes[1] != 1 {
        None
    } else {
        match expand_pairs(bytes.skip(2)) {
            None => None,
            Some(rest) => Some(
                Seq::new(bytes[0] as nat, |k: int| bytes[1] == 1) + rest,
            ),
        }
    }
}

/// What decoding a savestate byte stream yields: the board it
/// describes, or the first reason it is rejected.
pub open spec fn decode_spec(bytes: Seq<u8>) -> Result<BoardModel, FormatError> {
    if bytes.len() < 24 {
        Err(FormatError::TruncatedHeader)
    } else {
        let w = spec_u64_from_le_bytes(bytes.subrange(0, 8));
        let h = spec_u64_from_le_bytes(bytes.subrange(8, 16));
        let rc = spec_u64_from_le_bytes(bytes.subrange(16, 24));
        match expand_pairs(bytes.skip(24)) {
            None => Err(FormatError::BadRunPair),
            Some(cells) => if w > usize::MAX || h > usize::MAX || rc > usize::MAX || w * h
                > usize::MAX {
                Err(FormatError::HeaderOverflow)
            } else if cells.len() != w * h {
                Err(FormatError::LengthMismatch)
            } else {
                Ok(
                    BoardModel {
                        width: w as int,
                        height: h as int,
                        cells,
                        run_count: rc as int,
                    },
                )
            },
        }
    }
}

/// Encodes a board: crops it to its live content, then emits the
/// header and the run pairs of the cropped grid.
pub fn encode(board: &Board) -> (r: Vec<u8>)
    requires
        board@.wf(),
    ensures
        r@ == savestate_bytes(crop_of(board@)),
{
    let mut b = board.clone();
    b.crop();

    let mut out = u64_to_le_bytes(b.width as u64);
    let mut hb = u64_to_le_bytes(b.height as u64);
    let mut cb = u64_to_le_bytes(b.run_count as u64);
    out.append(&mut hb);
    out.append(&mut cb);
    let ghost header = out@;

    let n = b.tiles.len();
    let mut i: usize = 0;
    proof {
        assert(b@.cells.skip(0) =~= b@.cells);
    }
    while i < n
        invariant
            b@ == crop_of(board@),
            n == b@.cells.len(),
            i <= n,
            header + rle_of(b@.cells) == savestate_bytes(crop_of(board@)),
            out@ + rle_of(b@.cells.skip(i as int)) == savestate_bytes(crop_of(board@)),
        decreases n - i,
    {
        let v = b.tiles[i];
        let mut j = i + 1;
        while j < n && j - i < 255 && b.tiles[j] == v
            invariant
                n == b@.cells.len(),
                i < j <= n,
                j - i <= 255,
                v == b@.cells[i as int],
                forall|k: int| i <= k < j ==> b@.cells[k] == b@.cells[i as int],
            decreases n - j,
        {
            j += 1;
        }
        let run = j - i;
        proof {
            let rest = b@.cells.skip(i as int);
            assert forall|k: int| 0 <= k < run implies #[trigger] rest[k] == rest[0] by {
                assert(rest[k] == b@.cells[i + k]);
            }
            if run < 255 {
                if j < n {
                    assert(rest[run as int] == b@.cells[j as int]);
                }
                lemma_leading_run_is(rest, run as int);
            } else {
                lemma_leading_run_at_least(rest, 255);
                lemma_leading_run_bounds(rest);
            }
            assert(first_run(rest) == run);
            assert(rest.skip(run as int) =~= b@.cells.skip(j as int));
            assert(rle_of(rest) == seq![
                run as u8,
                if rest[0] {
                    1u8
                } else {
                    0u8
                },
            ] + rle_of(b@.cells.skip(j as int)));
        }
        out.push(run as u8);
        out.push(if v {
            1
        } else {
            0
        });
        proof {
            assert(out@ + rle_of(b@.cells.skip(j as int)) =~= savestate_bytes(crop_of(board@)));
        }
        i = j;
    }
    proof {
        assert(b@.cells.skip(n as int) =~= Seq::<bool>::empty());
        assert(out@ =~= savestate_bytes(crop_of(board@)));
    }
    out
}

/// Decodes a savestate byte stream back into a board; rejects a
/// truncated header, a malformed run pair, header fields beyond this
/// machine, and a cell count that does not match the header.
pub fn decode(bytes: &[u8]) -> (r: Result<Board, FormatError>)
    ensures
        (match decode_spec(bytes@) {
            Ok(m) => r is Ok && r->Ok_0@ == m,
            Err(e) => r == Err::<Board, FormatError>(e),
        }),
{
    let len = bytes.len();
    if len < 24 {
        return Err(FormatError::TruncatedHeader);
    }

    let w = u64_from_le_bytes(slice_subrange(bytes, 0, 8));
    let h = u64_from_le_bytes(slice_subrange(bytes, 8, 16));
    let rc = u64_from_le_bytes(slice_subrange(bytes, 16, 24));

    let mut sum: u128 = 0;
    let mut k: usize = 24;
    while k < len
        invariant
            len == bytes@.len(),
            24 <= k <= len,
            sum as int <= 255 * (k as int),
            (expand_pairs(bytes@.skip(24)) is Some) == (expand_pairs(bytes@.skip(k as int))
                is Some),
            expand_pairs(bytes@.skip(k as int)) is Some ==> expand_pairs(
                bytes@.skip(24),
            )->Some_0.len() == sum + expand_pairs(bytes@.skip(k as int))->Some_0.len(),
        decreases len - k,
    {
        if k + 1 >= len {
            proof {
                assert(bytes@.skip(k as int).len() == 1);
            }
            return Err(FormatError::BadRunPair);
        }
        let val = bytes[k + 1];
        proof {
            assert(bytes@.skip(k as int)[0] == bytes@[k as int]);
            assert(bytes@.skip(k as int)[1] == bytes@[k as int + 1]);
            assert(bytes@.skip(k as int).skip(2) =~= bytes@.skip(k as int + 2));
        }
        if val != 0 && val != 1 {
            return Err(FormatError::BadRunPair);
        }
        sum = sum + bytes[k] as u128;
        k += 2;
    }
    proof {
        assert(bytes@.skip(len as int) =~= Seq::<u8>::empty());
    }

    if w > usize::MAX as u64 || h > usize::MAX as u64 || rc > usize::MAX as u64 {
        return Err(FormatError::HeaderOverflow);
    }

    proof {
        assert((w as u128) * (h as u128) <= u128::MAX) by (nonlinear_arith)
            requires
                w <= u64::MAX,
                h <= u64::MAX,
        ;
    }
    let need: u128 = (w as u128) * (h as u128);
    proof {
        assert(need as int == (w as int) * (h as int)) by (nonlinear_arith)
            requires
                need as int == (w as u128) as int * (h as u128) as int,
                (w as u128) as int == w as int,
                (h as u128) as int == h as int,
        ;
    }
    if need > usize::MAX as u128 {
        return Err(FormatError::HeaderOverflow);
    }
    if sum != need {
        return Err(FormatError::LengthMismatch);
    }

    let total = sum as usize;
    proof {
        assert(total as int == (w as int) * (h as int));
    }

    let mut tiles: Vec<bool> = Vec::new();
    let mut k2: usize = 24;
    while k2 < len
        invariant
            len == bytes@.len(),
            24 <= k2 <= len,
            expand_pairs(bytes@.skip(k2 as int)) is Some,
            expand_pairs(bytes@.skip(24)) is Some,
            tiles@ + expand_pairs(bytes@.skip(k2 as int))->Some_0 == expand_pairs(
                bytes@.skip(24),
            )->Some_0,
        decreases len - k2,
    {
        proof {
            assert(bytes@.skip(k2 as int)[0] == bytes@[k2 as int]);
            if k2 + 1 < len {
                assert(bytes@.skip(k2 as int)[1] == bytes@[k2 as int + 1]);
                assert(bytes@.skip(k2 as int).skip(2) =~= bytes@.skip(k2 as int + 2));
            }
        }
        let run = bytes[k2];
        let val = bytes[k2 + 1] == 1;
        let ghost before = tiles@;
        let mut c: u8 = 0;
        while c < run
            invariant
                c <= run,
                tiles@ == before + Seq::new(c as nat, |q: int| val),
            decreases run - c,
        {
            tiles.push(val);
            proof {
                assert(tiles@ =~= before + Seq::new(c as nat + 1, |q: int| val));
            }
            c += 1;
        }
        proof {
            assert(tiles@ + expand_pairs(bytes@.skip(k2 as int + 2))->Some_0 =~= expand_pairs(
                bytes@.skip(24),
            )->Some_0);
        }
        k2 += 2;
    }
    proof {
        assert(bytes@.skip(len as int) =~= Seq::<u8>::empty());
        assert(tiles@ =~= expand_pairs(bytes@.skip(24))->Some_0);
    }

    let board = Board {
        width: w as usize,
        height: h as usize,
        tiles,
        run_count: rc as usize,
    };
    Ok(board)
}

/// Expanding the emitted run pairs gives back exactly the encoded
/// cells.
proof fn lemma_expand_rle(cells: Seq<bool>)
    ensures
        expand_pairs(rle_of(cells)) == Some(cells),
    decreases cells.len(),
{
    if cells.len() == 0 {
        assert(rle_of(cells) =~= Seq::<u8>::empty());
        assert(expand_pairs(rle_of(cells)) == Some(Seq::<bool>::empty()));
        assert(cells =~= Seq::<bool>::empty());
    } else {
        lemma_leading_run_bounds(cells);
        lemma_leading_run_prefix(cells);
        let run = first_run(cells);
        let tail = cells.skip(run);
        lemma_expand_rle(tail);
        let bs = rle_of(cells);
        let pair = seq![
            run as u8,
            if cells[0] {
                1u8
            } else {
                0u8
            },
        ];
        assert(bs == pair + rle_of(tail));
        assert(bs[0] == run as u8);
        assert(bs[1] == pair[1]);
        assert(bs.len() >= 2);
        assert(bs.skip(2) =~= rle_of(tail));
        assert(Seq::new(bs[0] as nat, |k: int| bs[1] == 1) + tail =~= cells);
    }
}

/// Round trip: decoding what `encode` wrote gives back exactly the
/// cropped board, content, dimensions and generation counter alike.
pub proof fn lemma_codec_roundtrip(m: BoardModel)
    requires
        m.wf(),
        m.width <= usize::MAX,
        m.height <= usize::MAX,
        m.run_count <= usize::MAX,
        m.width * m.height <= usize::MAX,
    ensures
        decode_spec(savestate_bytes(m)) == Ok::<BoardModel, FormatError>(m),
{
    lemma_auto_spec_u64_to_from_le_bytes();
    let bs = savestate_bytes(m);
    let wb = spec_u64_to_le_bytes(m.width as u64);
    let hb = spec_u64_to_le_bytes(m.height as u64);
    let cb = spec_u64_to_le_bytes(m.run_count as u64);
    assert(bs.len() >= 24);
    assert(bs.subrange(0, 8) =~= wb);
    assert(bs.subrange(8, 16) =~= hb);
    assert(bs.subrange(16, 24) =~= cb);
    assert(bs.skip(24) =~= rle_of(m.cells));
    lemma_expand_rle(m.cells);
    assert(spec_u64_from_le_bytes(wb) == m.width as u64);
    assert(spec_u64_from_le_bytes(hb) == m.height as u64);
    assert(spec_u64_from_le_bytes(cb) == m.run_count as u64);
}

/// Round trip through the codec: what `encode` writes for a board,
/// `decode` reads back as exactly the cropped board.
pub proof fn lemma_encode_decode(m: BoardModel)
    requires
        m.wf(),
        m.width <= usize::MAX,
        m.height <= usize::MAX,
        m.run_count <= usize::MAX,
        m.width * m.height <= usize::MAX,
    ensures
        decode_spec(savestate_bytes(crop_of(m))) == Ok::<BoardModel, FormatError>(crop_of(m)),
{
    lemma_crop_wf(m);
    let c = crop_of(m);
    let cw = c.width;
    let ch = c.height;
    let mw = m.width;
    let mh = m.height;
    assert(cw * ch <= mw * mh) by (nonlinear_arith)
        requires
            0 <= cw <= mw,
            0 <= ch <= mh,
    ;
    lemma_codec_roundtrip(c);
}

} // verus!
