//! Where the parts of the bar go after the typed text: the start arrow, the
//! items that fit from the selection on, and the end arrow. Widths are
//! measured by the caller; every sum is a `u32`, and a sum that overflows
//! or a difference that falls below zero leaves the layout undefined.

use vstd::prelude::*;

verus! {

/// The widths that the layout needs, in pixels.
#[derive(Debug, Clone, Copy)]
pub struct BarMetrics {
    /// Width of the bar.
    pub width: u32,
    /// Space after the typed text before the start arrow.
    pub bin_start_margin: u32,
    /// The least position of the start arrow.
    pub default_bin_start: u32,
    /// Start arrow plus its margin, when the first item is selected.
    pub start_arrow_size: u32,
    /// Start arrow plus its margin, when a later item is selected.
    pub start_arrow_more_size: u32,
    /// Space after an item that is not the last one.
    pub text_margin: u32,
    /// Space after the last item.
    pub arrow_margin: u32,
    /// End arrow plus the end margin, when every item fits.
    pub end_arrow_size: u32,
    /// End arrow plus the end margin, when more items follow.
    pub end_arrow_more_size: u32,
}

/// Where the parts go.
#[derive(Debug)]
pub struct BarLayout {
    /// The start arrow shows that earlier items are hidden.
    pub start_arrow_more: bool,
    pub start_arrow_x: u32,
    /// Positions of the items from the selected one on, as many as fit.
    pub item_xs: Vec<u32>,
    /// Every item from the selected one on fits.
    pub all_shown: bool,
    /// The end arrow shows `all_shown`: right after the last item when all
    /// fit, at the right edge otherwise.
    pub end_arrow_x: u32,
}

/// Places the items `i..` of `widths` from `index` on: each takes its width
/// and a margin (the arrow margin for the last item, the text margin for
/// the others) and must end no later than the width of the bar less room
/// for the end arrow. The first item that does not fit, and all after it,
/// are left out. Gives the positions, whether all fit, and where the next
/// part starts; `None` where a sum overflows or the room for the arrow is
/// wider than the bar.
pub open spec fn place_items_from(widths: Seq<u32>, i: int, index: int, m: BarMetrics) -> Option<
    (Seq<u32>, bool, int),
>
    decreases widths.len() - i,
{
    if i < 0 || i >= widths.len() {
        Some((seq![], true, index))
    } else {
        let last = i == widths.len() - 1;
        let size = widths[i] + if last {
            m.arrow_margin
        } else {
            m.text_margin
        };
        let reserve = if last {
            m.end_arrow_size
        } else {
            m.end_arrow_more_size
        };
        if size > u32::MAX || index + size > u32::MAX || reserve > m.width {
            None
        } else if index + size > m.width - reserve {
            Some((seq![], false, index))
        } else {
            match place_items_from(widths, i + 1, index + size, m) {
                Some((xs, all, next)) => Some((seq![index as u32] + xs, all, next)),
                None => None,
            }
        }
    }
}

/// The room item `k` takes: its width and the margin after it (the arrow
/// margin for the last item, the text margin for the others).
pub open spec fn item_room(widths: Seq<u32>, k: int, m: BarMetrics) -> int {
    widths[k] + if k == widths.len() - 1 {
        m.arrow_margin
    } else {
        m.text_margin
    }
}

/// The room kept free for the end arrow after item `k`.
pub open spec fn arrow_room(widths: Seq<u32>, k: int, m: BarMetrics) -> int {
    if k == widths.len() - 1 {
        m.end_arrow_size as int
    } else {
        m.end_arrow_more_size as int
    }
}

/// Where item `k` starts when the items from `i` on are laid side by side
/// from `index`: `index` plus the room of the items `i..k`.
pub open spec fn running_end(widths: Seq<u32>, i: int, k: int, index: int, m: BarMetrics) -> int
    decreases k - i,
{
    if k <= i {
        index
    } else {
        running_end(widths, i + 1, k, index + item_room(widths, i, m), m)
    }
}

/// Item `k`, starting at `start`, ends before the room for the end arrow.
pub open spec fn item_fits(widths: Seq<u32>, k: int, start: int, m: BarMetrics) -> bool {
    start + item_room(widths, k, m) <= m.width - arrow_room(widths, k, m)
}

/// Where the layout is defined, the placed items are the items from `i`
/// on, each at the running sum of the room of those before it, and each
/// fitting; every item is placed exactly when the list of positions reaches
/// the end, and otherwise the first item left out does not fit; the next
/// part starts where the placed items end.
pub proof fn lemma_placement(widths: Seq<u32>, i: int, index: int, m: BarMetrics)
    requires
        0 <= i,
        0 <= index,
        place_items_from(widths, i, index, m) is Some,
    ensures
        ({
            let (xs, all, next) = place_items_from(widths, i, index, m).unwrap();
            &&& i >= widths.len() ==> xs.len() == 0 && all
            &&& i < widths.len() ==> i + xs.len() <= widths.len()
            &&& forall|p: int|
                0 <= p < xs.len() ==> #[trigger] xs[p] == running_end(widths, i, i + p, index, m)
                    && item_fits(widths, i + p, running_end(widths, i, i + p, index, m), m)
            &&& i < widths.len() ==> (all <==> i + xs.len() == widths.len())
            &&& !all ==> !item_fits(
                widths,
                i + xs.len(),
                running_end(widths, i, i + xs.len(), index, m),
                m,
            )
            &&& next == running_end(widths, i, i + xs.len(), index, m)
        }),
    decreases widths.len() - i,
{
    if i < widths.len() {
        let size = item_room(widths, i, m);
        let reserve = arrow_room(widths, i, m);
        if index + size > m.width - reserve {
            assert(running_end(widths, i, i + 1, index, m) == running_end(
                widths,
                i + 1,
                i + 1,
                index + size,
                m,
            ));
        } else {
            lemma_placement(widths, i + 1, index + size, m);
            let (xs1, all1, next1) = place_items_from(widths, i + 1, index + size, m).unwrap();
            let xs = seq![index as u32] + xs1;
            assert forall|p: int| 0 <= p < xs.len() implies #[trigger] xs[p] == running_end(
                widths,
                i,
                i + p,
                index,
                m,
            ) && item_fits(widths, i + p, running_end(widths, i, i + p, index, m), m) by {
                if p == 0 {
                    assert(xs[0] == index);
                } else {
                    assert(xs[p] == xs1[p - 1]);
                    assert(running_end(widths, i, i + p, index, m) == running_end(
                        widths,
                        i + 1,
                        (i + 1) + (p - 1),
                        index + size,
                        m,
                    ));
                }
            }
            assert(running_end(widths, i, i + xs.len(), index, m) == running_end(
                widths,
                i + 1,
                (i + 1) + xs1.len(),
                index + size,
                m,
            ));
        }
    }
}

/// The whole layout, or `None` where an overflow leaves it undefined.
pub open spec fn bar_layout_spec(index: u32, selected: int, widths: Seq<u32>, m: BarMetrics) -> Option<
    (bool, u32, Seq<u32>, bool, u32),
> {
    if index + m.bin_start_margin > u32::MAX {
        None
    } else {
        let start = if index + m.bin_start_margin < m.default_bin_start {
            m.default_bin_start as int
        } else {
            index + m.bin_start_margin
        };
        let more = selected != 0;
        let arrow = if more {
            m.start_arrow_more_size
        } else {
            m.start_arrow_size
        };
        if start + arrow > u32::MAX {
            None
        } else {
            match place_items_from(widths, selected, start + arrow, m) {
                None => None,
                Some((xs, all, next)) => if !all && m.end_arrow_more_size > m.width {
                    None
                } else {
                    Some(
                        (
                            more,
                            start as u32,
                            xs,
                            all,
                            if all {
                                next as u32
                            } else {
                                (m.width - m.end_arrow_more_size) as u32
                            },
                        ),
                    )
                },
            }
        }
    }
}

/// Lays out the bar after the typed text, which ends at `index`, with the
/// item `selected` first; `widths` are the widths of all shown items.
#[verifier::loop_isolation(false)]
pub fn layout_bar(index: u32, selected: usize, widths: &Vec<u32>, m: &BarMetrics) -> (layout:
    Option<BarLayout>)
    ensures
        match bar_layout_spec(index, selected as int, widths@, *m) {
            None => layout is None,
            Some((more, sx, xs, all, ex)) => layout matches Some(l) && l.start_arrow_more == more
                && l.start_arrow_x == sx && l.item_xs@ == xs && l.all_shown == all
                && l.end_arrow_x == ex,
        },
{
    let mut index = match index.checked_add(m.bin_start_margin) {
        Some(v) => v,
        None => return None,
    };
    if index < m.default_bin_start {
        index = m.default_bin_start;
    }
    let start_arrow_more = selected != 0;
    let start_arrow_x = index;
    let arrow = if start_arrow_more {
        m.start_arrow_more_size
    } else {
        m.start_arrow_size
    };
    index = match index.checked_add(arrow) {
        Some(v) => v,
        None => return None,
    };
    let ghost first = index as int;
    let n = widths.len();
    let mut item_xs: Vec<u32> = Vec::new();
    let mut all_shown = true;
    let mut i = selected;
    while i < n && all_shown
        invariant
            selected <= i <= n || (selected > n && i == selected),
            n == widths@.len(),
            all_shown ==> place_items_from(widths@, selected as int, first, *m) == match place_items_from(
                widths@,
                i as int,
                index as int,
                *m,
            ) {
                Some((xs, all, next)) => Some((item_xs@ + xs, all, next)),
                None => None,
            },
            !all_shown ==> place_items_from(widths@, selected as int, first, *m) == Some(
                (item_xs@, false, index as int),
            ),
        decreases n - i, if all_shown { 1int } else { 0int },
    {
        let last = i == n - 1;
        let size = match widths[i].checked_add(
            if last {
                m.arrow_margin
            } else {
                m.text_margin
            },
        ) {
            Some(v) => v,
            None => {
                assert(place_items_from(widths@, i as int, index as int, *m) is None);
                return None;
            },
        };
        let reserve = if last {
            m.end_arrow_size
        } else {
            m.end_arrow_more_size
        };
        let end = match index.checked_add(size) {
            Some(v) => v,
            None => {
                assert(place_items_from(widths@, i as int, index as int, *m) is None);
                return None;
            },
        };
        if reserve > m.width {
            assert(place_items_from(widths@, i as int, index as int, *m) is None);
            return None;
        }
        if end > m.width - reserve {
            all_shown = false;
            assert(item_xs@ + seq![] =~= item_xs@);
        } else {
            let ghost before = item_xs@;
            item_xs.push(index);
            proof {
                match place_items_from(widths@, i + 1, end as int, *m) {
                    Some((xs, all, next)) => {
                        assert(before + (seq![index as u32] + xs) =~= item_xs@ + xs);
                    },
                    None => {},
                }
            }
            index = end;
            i = i + 1;
        }
    }
    proof {
        assert(item_xs@ + seq![] =~= item_xs@);
    }
    let end_arrow_x = if all_shown {
        index
    } else {
        if m.end_arrow_more_size > m.width {
            return None;
        }
        m.width - m.end_arrow_more_size
    };
    Some(BarLayout { start_arrow_more, start_arrow_x, item_xs, all_shown, end_arrow_x })
}

/// How much of the typed text is drawn from `index` on, when the text must
/// end before `check_width`. `text_width` is the width of the whole text and
/// `ellipsis_widths[k]` the width of its first `k + 1` characters followed
/// by "...". When the whole text ends before `check_width` all of it is
/// drawn without "..."; otherwise the longest run of leading characters
/// that, followed by "...", ends before `check_width` is drawn, with "..."
/// after it unless that run is the whole text. Gives the number of
/// characters drawn and whether "..." follows. Sums are taken exactly.
pub fn fit_typed_text(index: u32, check_width: u32, text_width: u32, ellipsis_widths: &[u32]) -> (fit:
    (usize, bool))
    ensures
        index + text_width < check_width ==> fit.0 == ellipsis_widths@.len() && !fit.1,
        index + text_width >= check_width ==> {
            &&& fit.0 <= ellipsis_widths@.len()
            &&& forall|j: int| 0 <= j < fit.0 ==> index + #[trigger] ellipsis_widths@[j] < check_width
            &&& fit.0 < ellipsis_widths@.len() ==> index + ellipsis_widths@[fit.0 as int] >= check_width
            &&& fit.1 == (fit.0 < ellipsis_widths@.len())
        },
{
    let n = ellipsis_widths.len();
    if (index as u64) + (text_width as u64) < check_width as u64 {
        return (n, false);
    }
    let mut k: usize = 0;
    while k < n
        invariant
            k <= n,
            n == ellipsis_widths@.len(),
            index + text_width >= check_width,
            forall|j: int| 0 <= j < k ==> index + #[trigger] ellipsis_widths@[j] < check_width,
        decreases n - k,
    {
        if (index as u64) + (ellipsis_widths[k] as u64) >= check_width as u64 {
            return (k, true);
        }
        k = k + 1;
    }
    (n, false)
}

/// Items laid from `i` on: the first at `index`, each next one right after
/// the previous item and its text margin; every placed item other than the
/// last ends (with its text margin) no later than the width less the room
/// for the "more" end arrow, and the last item (with the arrow margin) no
/// later than the width less the room for the plain end arrow. All are
/// placed exactly when the positions reach the end of the list; otherwise
/// the first item left out, at the next position, does not fit by the same
/// measure. The next part starts right after the last placed item.
pub proof fn lemma_items_fit(widths: Seq<u32>, i: int, index: int, m: BarMetrics)
    requires
        0 <= i,
        0 <= index,
        place_items_from(widths, i, index, m) is Some,
    ensures
        ({
            let (xs, all, next) = place_items_from(widths, i, index, m).unwrap();
            let n = widths.len();
            &&& i >= n ==> xs.len() == 0 && all && next == index
            &&& i < n ==> i + xs.len() <= n && (all <==> i + xs.len() == n)
            &&& xs.len() > 0 ==> xs[0] == index
            &&& forall|p: int|
                0 <= p && p + 1 < xs.len() ==> #[trigger] xs[p + 1] == xs[p] + widths[i + p]
                    + m.text_margin
            &&& forall|p: int|
                0 <= p < xs.len() ==> {
                    &&& i + p == n - 1 ==> #[trigger] xs[p] + widths[i + p] + m.arrow_margin
                        <= m.width - m.end_arrow_size
                    &&& i + p < n - 1 ==> xs[p] + widths[i + p] + m.text_margin <= m.width
                        - m.end_arrow_more_size
                }
            &&& next == if xs.len() == 0 {
                index
            } else {
                xs.last() + widths[i + xs.len() - 1] + if i + xs.len() - 1 == n - 1 {
                    m.arrow_margin
                } else {
                    m.text_margin
                }
            }
            &&& !all ==> {
                &&& i + xs.len() == n - 1 ==> next + widths[n - 1] + m.arrow_margin > m.width
                    - m.end_arrow_size
                &&& i + xs.len() < n - 1 ==> next + widths[i + xs.len()] + m.text_margin
                    > m.width - m.end_arrow_more_size
            }
        }),
    decreases widths.len() - i,
{
    if i < widths.len() {
        let last = i == widths.len() - 1;
        let size = widths[i] + if last {
            m.arrow_margin
        } else {
            m.text_margin
        };
        let reserve = if last {
            m.end_arrow_size
        } else {
            m.end_arrow_more_size
        };
        if index + size <= m.width - reserve {
            lemma_items_fit(widths, i + 1, index + size, m);
            let (xs1, all1, next1) = place_items_from(widths, i + 1, index + size, m).unwrap();
            let xs = seq![index as u32] + xs1;
            assert(xs[0] == index);
            assert forall|p: int| 0 <= p && p + 1 < xs.len() implies #[trigger] xs[p + 1] == xs[p]
                + widths[i + p] + m.text_margin by {
                assert(xs[p + 1] == xs1[p]);
                if p > 0 {
                    assert(xs[p] == xs1[p - 1]);
                    assert(xs1[(p - 1) + 1] == xs1[p - 1] + widths[(i + 1) + (p - 1)] + m.text_margin);
                }
            }
            assert forall|p: int| 0 <= p < xs.len() implies {
                &&& i + p == widths.len() - 1 ==> #[trigger] xs[p] + widths[i + p] + m.arrow_margin
                    <= m.width - m.end_arrow_size
                &&& i + p < widths.len() - 1 ==> xs[p] + widths[i + p] + m.text_margin <= m.width
                    - m.end_arrow_more_size
            } by {
                if p > 0 {
                    assert(xs[p] == xs1[p - 1]);
                    assert(xs1[p - 1] + widths[(i + 1) + (p - 1)] >= 0);
                }
            }
            if xs1.len() > 0 {
                assert(xs.last() == xs1.last());
            }
        }
    }
}

/// The whole layout, where it is defined: the start arrow after the typed
/// text and its margin, but no earlier than the least start; it shows more
/// items before exactly when the selection is not the first item; the
/// items from the selection on follow the start arrow as `lemma_items_fit`
/// says; the end arrow comes right after the last item when all fit, and
/// at the width less its room otherwise.
pub proof fn lemma_bar_layout(index: u32, selected: int, widths: Seq<u32>, m: BarMetrics)
    requires
        0 <= selected,
        bar_layout_spec(index, selected, widths, m) is Some,
    ensures
        ({
            let (more, sx, xs, all, ex) = bar_layout_spec(index, selected, widths, m).unwrap();
            let n = widths.len();
            let first = sx + if more {
                m.start_arrow_more_size
            } else {
                m.start_arrow_size
            };
            &&& more == (selected != 0)
            &&& sx == if index + m.bin_start_margin < m.default_bin_start {
                m.default_bin_start as int
            } else {
                index + m.bin_start_margin
            }
            &&& xs.len() > 0 ==> xs[0] == first
            &&& forall|p: int|
                0 <= p && p + 1 < xs.len() ==> #[trigger] xs[p + 1] == xs[p] + widths[selected + p]
                    + m.text_margin
            &&& forall|p: int|
                0 <= p < xs.len() ==> {
                    &&& selected + p == n - 1 ==> #[trigger] xs[p] + widths[selected + p]
                        + m.arrow_margin <= m.width - m.end_arrow_size
                    &&& selected + p < n - 1 ==> xs[p] + widths[selected + p] + m.text_margin
                        <= m.width - m.end_arrow_more_size
                }
            &&& selected >= n ==> xs.len() == 0 && all
            &&& selected < n ==> selected + xs.len() <= n && (all <==> selected + xs.len() == n)
            &&& all ==> ex == if xs.len() == 0 {
                first
            } else {
                xs.last() + widths[n - 1] + m.arrow_margin
            }
            &&& !all ==> {
                let next = if xs.len() == 0 {
                    first
                } else {
                    xs.last() + widths[selected + xs.len() - 1] + m.text_margin
                };
                &&& ex == m.width - m.end_arrow_more_size
                &&& selected + xs.len() == n - 1 ==> next + widths[n - 1] + m.arrow_margin > m.width
                    - m.end_arrow_size
                &&& selected + xs.len() < n - 1 ==> next + widths[selected + xs.len()]
                    + m.text_margin > m.width - m.end_arrow_more_size
            }
        }),
{
    let start = if index + m.bin_start_margin < m.default_bin_start {
        m.default_bin_start as int
    } else {
        index + m.bin_start_margin
    };
    let arrow = if selected != 0 {
        m.start_arrow_more_size
    } else {
        m.start_arrow_size
    };
    lemma_items_fit(widths, selected, start + arrow, m);
}

} // verus!
