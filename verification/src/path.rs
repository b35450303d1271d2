//! The computing parts of listing the programs on `PATH`: splitting the
//! variable into directories and telling executable files by their mode.

use vstd::prelude::*;
use vstd::string::*;
use vstd::utf8::*;

use crate::lines::{
    first_byte, lemma_after_ascii_boundary, lemma_ascii_boundary, lemma_first_byte_bounds,
    lemma_first_byte_is,
};
use crate::text::{byte_len, byte_range};

verus! {

broadcast use vstd::utf8::group_utf8_lib;

/// The pieces of `b` between the bytes `c`, as `str::split` gives them:
/// an empty text is one empty piece, and a `c` at either end makes an empty
/// piece there.
pub open spec fn split_on(b: Seq<u8>, c: u8) -> Seq<Seq<u8>>
    decreases b.len(),
{
    let i = first_byte(b, c);
    proof {
        lemma_first_byte_bounds(b, c);
    }
    if i >= b.len() {
        seq![b]
    } else {
        seq![b.subrange(0, i)] + split_on(b.subrange(i + 1, b.len() as int), c)
    }
}

/// Pieces put back together with `c` between each two.
pub open spec fn joined_with(pieces: Seq<Seq<u8>>, c: u8) -> Seq<u8>
    decreases pieces.len(),
{
    if pieces.len() == 0 {
        seq![]
    } else if pieces.len() == 1 {
        pieces[0]
    } else {
        pieces[0] + seq![c] + joined_with(pieces.drop_first(), c)
    }
}

/// Splitting at every `c` and nowhere else: there is at least one piece,
/// no piece holds a `c`, and the pieces joined with `c` give back the text.
pub proof fn lemma_split_on(b: Seq<u8>, c: u8)
    ensures
        split_on(b, c).len() >= 1,
        forall|k: int, j: int|
            0 <= k < split_on(b, c).len() && 0 <= j < split_on(b, c)[k].len() ==> #[trigger] split_on(
                b,
                c,
            )[k][j] != c,
        joined_with(split_on(b, c), c) == b,
    decreases b.len(),
{
    let i = first_byte(b, c);
    lemma_first_byte_bounds(b, c);
    if i < b.len() {
        let rest = b.subrange(i + 1, b.len() as int);
        lemma_split_on(rest, c);
        let ps = split_on(b, c);
        assert(ps.drop_first() =~= split_on(rest, c));
        assert forall|k: int, j: int|
            0 <= k < ps.len() && 0 <= j < ps[k].len() implies #[trigger] ps[k][j] != c by {
            if k > 0 {
                assert(ps[k] == split_on(rest, c)[k - 1]);
            }
        }
        assert(b =~= b.subrange(0, i) + seq![c] + rest);
    }
}

/// The directories listed in a `PATH` value, separated by `:`.
pub fn path_dirs(path: &str) -> (dirs: Vec<String>)
    ensures
        dirs@.len() == split_on(path.spec_bytes(), 58).len(),
        forall|k: int|
            0 <= k < dirs@.len() ==> encode_utf8(#[trigger] dirs@[k]@) == split_on(
                path.spec_bytes(),
                58,
            )[k],
{
    let bytes = path.as_bytes();
    let ghost all = path.spec_bytes();
    let n = byte_len(path);
    let mut out: Vec<String> = Vec::new();
    let mut start: usize = 0;
    let mut i: usize = 0;
    assert(all.subrange(0, all.len() as int) =~= all);
    while i < n
        invariant
            bytes@ == all,
            all == path.spec_bytes(),
            n == all.len(),
            valid_utf8(all),
            start <= i <= n,
            start == 0 || all[start - 1] == 58,
            forall|k: int| start <= k < i ==> all[k] != 58,
            split_on(all, 58) == Seq::new(out@.len(), |k: int| encode_utf8(out@[k]@)) + split_on(
                all.subrange(start as int, n as int),
                58,
            ),
        decreases n - i,
    {
        if bytes[i] == 58 {
            let ghost rest = all.subrange(start as int, n as int);
            proof {
                lemma_first_byte_is(rest, 58, i - start);
                if start > 0 {
                    lemma_after_ascii_boundary(all, start - 1);
                }
                lemma_ascii_boundary(all, i as int);
                assert(rest.subrange(0, i - start) =~= all.subrange(start as int, i as int));
                assert(rest.subrange(i - start + 1, rest.len() as int) =~= all.subrange(
                    i + 1,
                    n as int,
                ));
            }
            let piece = byte_range(path, start, i);
            let ghost before = out@;
            out.push(piece.to_owned());
            proof {
                let done_before = Seq::new(before.len(), |k: int| encode_utf8(before[k]@));
                let done_after = Seq::new(out@.len(), |k: int| encode_utf8(out@[k]@));
                assert(done_after =~= done_before.push(all.subrange(start as int, i as int)));
                assert(done_before + split_on(rest, 58) =~= done_after + split_on(
                    all.subrange(i + 1, n as int),
                    58,
                ));
            }
            start = i + 1;
        }
        i = i + 1;
    }
    let ghost rest = all.subrange(start as int, n as int);
    proof {
        lemma_first_byte_is(rest, 58, n - start);
        if start > 0 {
            lemma_after_ascii_boundary(all, start - 1);
        }
        lemma_ascii_boundary(all, n as int);
    }
    let piece = byte_range(path, start, n);
    let ghost before = out@;
    out.push(piece.to_owned());
    proof {
        let done_before = Seq::new(before.len(), |k: int| encode_utf8(before[k]@));
        let done_after = Seq::new(out@.len(), |k: int| encode_utf8(out@[k]@));
        assert(done_after =~= done_before.push(rest));
        assert(split_on(rest, 58) == seq![rest]);
        assert(done_before + split_on(rest, 58) =~= done_after);
        assert forall|k: int| 0 <= k < out@.len() implies encode_utf8(#[trigger] out@[k]@)
            == split_on(all, 58)[k] by {
            assert(done_after[k] == encode_utf8(out@[k]@));
        }
    }
    out
}

/// A file mode lets someone run the file: the owner, group or other
/// execute bit is set.
pub fn is_executable(mode: u32) -> (b: bool)
    ensures
        b == (mode & 0o100 != 0 || mode & 0o010 != 0 || mode & 0o001 != 0),
{
    let b = mode & 0o111 != 0;
    assert(b == (mode & 0o100 != 0 || mode & 0o010 != 0 || mode & 0o001 != 0)) by (bit_vector)
        requires
            b == (mode & 0o111 != 0),
    ;
    b
}

} // verus!
