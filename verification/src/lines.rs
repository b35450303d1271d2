//! Splitting piped text into menu items, one per line.

use vstd::prelude::*;
use vstd::string::*;
use vstd::utf8::*;

use crate::input::{InputItem, InputItems, RawValue};
use crate::text::{byte_len, byte_range};

verus! {

broadcast use vstd::utf8::group_utf8_lib;

/// Offset of the first byte `c` in `b`, or the length of `b` when there is
/// none.
pub open spec fn first_byte(b: Seq<u8>, c: u8) -> int
    decreases b.len(),
{
    if b.len() == 0 {
        0
    } else if b[0] == c {
        0
    } else {
        1 + first_byte(b.drop_first(), c)
    }
}

/// A line without the carriage return that ends it, if any.
pub open spec fn strip_cr(line: Seq<u8>) -> Seq<u8> {
    if line.len() > 0 && line.last() == 13 {
        line.drop_last()
    } else {
        line
    }
}

/// The lines of a text as `str::lines` gives them: split after each line
/// feed, without the line feed and a carriage return just before it; a
/// final line ending adds no empty line, and a last line without one keeps
/// everything it holds.
pub open spec fn lines_of(b: Seq<u8>) -> Seq<Seq<u8>>
    decreases b.len(),
{
    if b.len() == 0 {
        seq![]
    } else {
        let i = first_byte(b, 10);
        proof {
            lemma_first_byte_bounds(b, 10);
        }
        if i >= b.len() {
            seq![b]
        } else {
            seq![strip_cr(b.subrange(0, i))] + lines_of(b.subrange(i + 1, b.len() as int))
        }
    }
}

/// Lines put back together: each line, then a carriage return where its
/// flag is set, then a line feed.
pub open spec fn rejoined_lines(lines: Seq<Seq<u8>>, crs: Seq<bool>) -> Seq<u8>
    decreases lines.len(),
{
    if lines.len() == 0 || crs.len() == 0 {
        seq![]
    } else {
        lines[0] + (if crs[0] {
            seq![13u8]
        } else {
            seq![]
        }) + seq![10u8] + rejoined_lines(lines.drop_first(), crs.drop_first())
    }
}

/// `lines` with carriage-return flags `crs` are the lines of `b`: put back
/// together they give `b`, or `b` with a line feed added when `b` ends
/// without one (its last line then kept whole, without a flag); and a line
/// ended by a line feed keeps no carriage return of its own just before it
/// (such a return belongs to the line ending).
pub open spec fn lines_rebuild(lines: Seq<Seq<u8>>, crs: Seq<bool>, b: Seq<u8>) -> bool {
    &&& crs.len() == lines.len()
    &&& rejoined_lines(lines, crs) == b || (b.len() > 0 && b.last() != 10 && rejoined_lines(
        lines,
        crs,
    ) == b.push(10) && !crs.last())
    &&& forall|k: int|
        0 <= k < lines.len() && !crs[k] && (k < lines.len() - 1 || rejoined_lines(lines, crs)
            == b) ==> !(#[trigger] lines[k].len() > 0 && lines[k].last() == 13)
}

/// The lines of a text are the pieces between its line feeds: no line
/// holds a line feed, and with their line endings (a line feed, or a
/// carriage return and a line feed) put back they give the text, the last
/// line without an ending where the text has none; only a carriage return
/// right before a line feed is taken off, every other byte stays.
pub proof fn lemma_lines_rebuild(b: Seq<u8>)
    ensures
        forall|k: int, j: int|
            0 <= k < lines_of(b).len() && 0 <= j < lines_of(b)[k].len() ==> #[trigger] lines_of(
                b,
            )[k][j] != 10,
        exists|crs: Seq<bool>| #[trigger] lines_rebuild(lines_of(b), crs, b),
    decreases b.len(),
{
    let ls = lines_of(b);
    if b.len() == 0 {
        assert(ls =~= Seq::<Seq<u8>>::empty());
        assert(b =~= Seq::<u8>::empty());
        assert(rejoined_lines(ls, seq![]) =~= b);
        assert(lines_rebuild(ls, seq![], b));
    } else {
        let i = first_byte(b, 10);
        lemma_first_byte_bounds(b, 10);
        if i >= b.len() {
            let crs = seq![false];
            assert(ls == seq![b]);
            assert(ls.drop_first() =~= Seq::<Seq<u8>>::empty());
            assert(crs.drop_first() =~= Seq::<bool>::empty());
            assert(rejoined_lines(ls.drop_first(), crs.drop_first()) =~= Seq::<u8>::empty());
            assert(rejoined_lines(ls, crs) == b + Seq::<u8>::empty() + seq![10u8] + Seq::<u8>::empty());
            assert(rejoined_lines(ls, crs) =~= b.push(10));
            assert(lines_rebuild(ls, crs, b));
        } else {
            let p = b.subrange(0, i);
            let rest = b.subrange(i + 1, b.len() as int);
            lemma_lines_rebuild(rest);
            let rs = lines_of(rest);
            let crs1 = choose|crs: Seq<bool>| #[trigger] lines_rebuild(rs, crs, rest);
            let cr = p.len() > 0 && p.last() == 13;
            let crs = seq![cr] + crs1;
            assert(ls == seq![strip_cr(p)] + rs);
            assert(ls.drop_first() =~= rs);
            assert(crs.drop_first() =~= crs1);
            let head = strip_cr(p) + (if cr {
                seq![13u8]
            } else {
                seq![]
            }) + seq![10u8];
            assert(strip_cr(p) + (if cr {
                seq![13u8]
            } else {
                seq![]
            }) =~= p);
            assert(rejoined_lines(ls, crs) == head + rejoined_lines(rs, crs1));
            assert(b =~= p + seq![10u8] + rest);
            if rejoined_lines(rs, crs1) == rest {
                assert(rejoined_lines(ls, crs) =~= b);
            } else {
                assert(rejoined_lines(ls, crs) =~= b.push(10));
                assert(b.last() == rest.last());
            }
            assert forall|k: int, j: int|
                0 <= k < ls.len() && 0 <= j < ls[k].len() implies #[trigger] ls[k][j] != 10 by {
                if k == 0 {
                    assert(ls[0][j] == b[j]);
                } else {
                    assert(ls[k] == rs[k - 1]);
                }
            }
            assert forall|k: int|
                0 <= k < ls.len() && !crs[k] && (k < ls.len() - 1 || rejoined_lines(ls, crs) == b)
                    implies !(#[trigger] ls[k].len() > 0 && ls[k].last() == 13) by {
                if k > 0 {
                    assert(ls[k] == rs[k - 1]);
                    assert(crs[k] == crs1[k - 1]);
                    if k == ls.len() - 1 && rejoined_lines(ls, crs) == b {
                        assert(rejoined_lines(rs, crs1) =~= rest) by {
                            assert(b.subrange(i + 1, b.len() as int) =~= rest);
                            assert((head + rejoined_lines(rs, crs1)).subrange(
                                head.len() as int,
                                (head + rejoined_lines(rs, crs1)).len() as int,
                            ) =~= rejoined_lines(rs, crs1));
                        }
                    }
                }
            }
            assert(lines_rebuild(ls, crs, b));
        }
    }
}

/// The first `c` lies within the text, and no earlier byte is one.
pub proof fn lemma_first_byte_bounds(b: Seq<u8>, c: u8)
    ensures
        0 <= first_byte(b, c) <= b.len(),
        first_byte(b, c) < b.len() ==> b[first_byte(b, c)] == c,
        forall|k: int| 0 <= k < first_byte(b, c) ==> b[k] != c,
    decreases b.len(),
{
    if b.len() > 0 && b[0] != c {
        lemma_first_byte_bounds(b.drop_first(), c);
        assert forall|k: int| 0 <= k < first_byte(b, c) implies b[k] != c by {
            if k > 0 {
                assert(b.drop_first()[k - 1] == b[k]);
            }
        }
    }
}

/// An offset before which no byte is `c` and at which `c` or the end
/// stands is the first `c`.
pub proof fn lemma_first_byte_is(b: Seq<u8>, c: u8, i: int)
    requires
        0 <= i <= b.len(),
        forall|k: int| 0 <= k < i ==> b[k] != c,
        i < b.len() ==> b[i] == c,
    ensures
        first_byte(b, c) == i,
    decreases b.len(),
{
    if b.len() > 0 && b[0] != c {
        lemma_first_byte_is(b.drop_first(), c, i - 1);
    }
}

/// An ASCII byte in valid UTF-8 is a character boundary.
pub proof fn lemma_ascii_boundary(b: Seq<u8>, i: int)
    requires
        valid_utf8(b),
        0 <= i <= b.len(),
        i < b.len() ==> b[i] < 128,
    ensures
        is_char_boundary(b, i),
{
    if i < b.len() {
        assert(!is_continuation_byte(b[i]));
    }
}

/// The item hands back the text it shows.
pub open spec fn returns_its_text(item: InputItem) -> bool {
    item.raw_value() matches RawValue::Text(s) && s@ == item.display_text()
}

/// The byte after an ASCII byte of valid UTF-8 starts a character.
pub proof fn lemma_after_ascii_boundary(b: Seq<u8>, j: int)
    requires
        valid_utf8(b),
        0 <= j < b.len(),
        b[j] < 128,
    ensures
        is_char_boundary(b, j + 1),
    decreases b.len(),
{
    let l = length_of_first_scalar(b);
    if j >= l {
        lemma_after_ascii_boundary(pop_first_scalar(b), j - l);
        assert(pop_first_scalar(b)[j - l] == b[j]);
    } else if j == 0 {
        assert(pop_first_scalar(b) =~= b.subrange(1, b.len() as int));
        assert(is_char_boundary(pop_first_scalar(b), 0));
    } else {
        assert(is_continuation_byte(b[j]));
    }
}

impl InputItems {
    /// One item per line of the text, shown as the line and handing back
    /// the line.
    pub fn from_lines(text: &str) -> (items: InputItems)
        ensures
            items.0@.len() == lines_of(text.spec_bytes()).len(),
            forall|k: int|
                0 <= k < items.0@.len() ==> {
                    &&& encode_utf8(#[trigger] items.0@[k].display_text()) == lines_of(
                        text.spec_bytes(),
                    )[k]
                    &&& returns_its_text(items.0@[k])
                },
    {
        let bytes = text.as_bytes();
        let ghost all = text.spec_bytes();
        let n = byte_len(text);
        let mut out: Vec<InputItem> = Vec::new();
        let mut start: usize = 0;
        let mut i: usize = 0;
        assert(all.subrange(0, all.len() as int) =~= all);
        while i < n
            invariant
                bytes@ == all,
                all == text.spec_bytes(),
                n == all.len(),
                valid_utf8(all),
                start <= i <= n,
                start == 0 || all[start - 1] == 10,
                forall|k: int| start <= k < i ==> all[k] != 10,
                lines_of(all) == {
                    let done = Seq::new(
                        out@.len(),
                        |k: int| encode_utf8(out@[k].display_text()),
                    );
                    done + lines_of(all.subrange(start as int, n as int))
                },
                forall|k: int| 0 <= k < out@.len() ==> returns_its_text(#[trigger] out@[k]),
            decreases n - i,
        {
            if bytes[i] == 10 {
                let end = if i > start && bytes[i - 1] == 13 {
                    i - 1
                } else {
                    i
                };
                let ghost rest = all.subrange(start as int, n as int);
                proof {
                    lemma_first_byte_is(rest, 10, i - start);
                    if start > 0 {
                        lemma_after_ascii_boundary(all, start - 1);
                    }
                    lemma_ascii_boundary(all, end as int);
                    assert(rest.subrange(0, i - start) =~= all.subrange(start as int, i as int));
                    assert(rest.subrange(i - start + 1, rest.len() as int) =~= all.subrange(
                        i + 1,
                        n as int,
                    ));
                    assert(strip_cr(all.subrange(start as int, i as int)) =~= all.subrange(
                        start as int,
                        end as int,
                    ));
                }
                let line = byte_range(text, start, end);
                let item = InputItem::new(line.to_owned(), RawValue::Text(line.to_owned()));
                let ghost before = out@;
                out.push(item);
                proof {
                    assert(encode_utf8(item.display_text()) == all.subrange(start as int, end as int));
                    let done_before = Seq::new(
                        before.len(),
                        |k: int| encode_utf8(before[k].display_text()),
                    );
                    let done_after = Seq::new(
                        out@.len(),
                        |k: int| encode_utf8(out@[k].display_text()),
                    );
                    assert(done_after =~= done_before.push(all.subrange(start as int, end as int)));
                    assert(lines_of(rest) == seq![strip_cr(rest.subrange(0, i - start))] + lines_of(
                        all.subrange(i + 1, n as int),
                    ));
                    assert(done_before + lines_of(rest) =~= done_after + lines_of(
                        all.subrange(i + 1, n as int),
                    ));
                }
                start = i + 1;
            }
            i = i + 1;
        }
        if start < n {
            let ghost rest = all.subrange(start as int, n as int);
            proof {
                lemma_first_byte_is(rest, 10, n - start);
                if start > 0 {
                    lemma_after_ascii_boundary(all, start - 1);
                }
                lemma_ascii_boundary(all, n as int);
            }
            let line = byte_range(text, start, n);
            let item = InputItem::new(line.to_owned(), RawValue::Text(line.to_owned()));
            let ghost before = out@;
            out.push(item);
            proof {
                let done_before = Seq::new(
                    before.len(),
                    |k: int| encode_utf8(before[k].display_text()),
                );
                let done_after = Seq::new(out@.len(), |k: int| encode_utf8(out@[k].display_text()));
                assert(done_after =~= done_before.push(rest));
                assert(lines_of(rest) == seq![rest]);
                assert(done_before + lines_of(rest) =~= done_after);
            }
        } else {
            proof {
                assert(all.subrange(start as int, n as int).len() == 0);
                let done = Seq::new(out@.len(), |k: int| encode_utf8(out@[k].display_text()));
                assert(done + lines_of(all.subrange(start as int, n as int)) =~= done);
            }
        }
        let ghost done = Seq::new(out@.len(), |k: int| encode_utf8(out@[k].display_text()));
        assert(lines_of(all) == done);
        assert forall|k: int| 0 <= k < out@.len() implies encode_utf8(
            #[trigger] out@[k].display_text(),
        ) == lines_of(all)[k] by {
            assert(done[k] == encode_utf8(out@[k].display_text()));
        }
        InputItems(out)
    }
}

} // verus!
