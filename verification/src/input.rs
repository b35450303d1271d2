//! The menu's items, the text typed so far, the items that match it in
//! ranked order, and the selection among them.

use vstd::prelude::*;
use vstd::string::*;
use vstd::utf8::*;
use vstd::math::min;
use vstd::multiset::Multiset;

use crate::text::{
    contains, contains_spec, lowercase, pop_char, starts_with, starts_with_spec, to_lowercase,
};

verus! {

/// The payload of an item, handed back when the item is chosen: a text, or
/// any other JSON value kept as its JSON text.
#[derive(Debug)]
pub enum RawValue {
    Text(String),
    Json(String),
}

impl Clone for RawValue {
    fn clone(&self) -> (res: Self)
        ensures
            res == *self,
    {
        match self {
            RawValue::Text(s) => RawValue::Text(s.clone()),
            RawValue::Json(s) => RawValue::Json(s.clone()),
        }
    }
}

/// One entry of the menu: the text shown and the payload.
#[derive(Debug)]
pub struct InputItem {
    display: String,
    raw: RawValue,
}

impl Clone for InputItem {
    fn clone(&self) -> (res: Self)
        ensures
            res == *self,
    {
        InputItem { display: self.display.clone(), raw: self.raw.clone() }
    }
}

impl InputItem {
    /// The text shown for the item.
    pub closed spec fn display_text(&self) -> Seq<char> {
        self.display@
    }

    /// The payload of the item.
    pub closed spec fn raw_value(&self) -> RawValue {
        self.raw
    }

    /// An item showing `display` and handing back `raw`.
    pub fn new(display: String, raw: RawValue) -> (item: Self)
        ensures
            item.display_text() == display@,
            item.raw_value() == raw,
    {
        Self { display, raw }
    }

    /// The text shown for the item.
    pub fn display(&self) -> (s: &str)
        ensures
            s@ == self.display_text(),
    {
        self.display.as_str()
    }

    /// The payload of the item.
    pub fn raw(&self) -> (r: &RawValue)
        ensures
            *r == self.raw_value(),
    {
        &self.raw
    }
}

/// All items the menu was started with.
#[derive(Debug)]
pub struct InputItems(pub Vec<InputItem>);

impl Default for InputItems {
    /// No items.
    fn default() -> (items: Self)
        ensures
            items.0@ == Seq::<InputItem>::empty(),
    {
        InputItems(Vec::new())
    }
}

/// Strict lexicographic order on byte strings, as `str` orders its bytes.
pub open spec fn bytes_lt(a: Seq<u8>, b: Seq<u8>) -> bool
    decreases a.len(),
{
    if a.len() == 0 {
        b.len() > 0
    } else if b.len() == 0 {
        false
    } else if a[0] != b[0] {
        a[0] < b[0]
    } else {
        bytes_lt(a.drop_first(), b.drop_first())
    }
}

/// How well a lower-cased item text matches the lower-cased input: 0 when
/// it starts with it, 1 when it contains it, 2 otherwise (and always 2 for
/// an empty input).
pub open spec fn match_score(lowered: Seq<char>, lower_input: Seq<char>) -> u8 {
    if lower_input.len() > 0 && starts_with_spec(lowered, lower_input) {
        0
    } else if lower_input.len() > 0 && contains_spec(lowered, lower_input) {
        1
    } else {
        2
    }
}

/// `x` comes strictly before `y`: a lower score, or the same score and a
/// smaller display text.
pub open spec fn ranks_before(x: (u8, InputItem), y: (u8, InputItem)) -> bool {
    x.0 < y.0 || (x.0 == y.0 && bytes_lt(
        encode_utf8(x.1.display_text()),
        encode_utf8(y.1.display_text()),
    ))
}

/// Merges two ranked sequences from the back: the last entry of `a` goes
/// last when the last entry of `b` comes strictly before it, and the last
/// entry of `b` otherwise, so that of two entries that neither comes before
/// the other the one from `a` stays first.
pub open spec fn merge_ranked(a: Seq<(u8, InputItem)>, b: Seq<(u8, InputItem)>) -> Seq<
    (u8, InputItem),
>
    decreases a.len() + b.len(),
{
    if a.len() == 0 {
        b
    } else if b.len() == 0 {
        a
    } else if ranks_before(b.last(), a.last()) {
        merge_ranked(a.drop_last(), b).push(a.last())
    } else {
        merge_ranked(a, b.drop_last()).push(b.last())
    }
}

/// The stable sort of scored items by `ranks_before`, as a merge sort: the
/// two halves are sorted and merged; equal entries keep their order.
pub open spec fn sort_ranked(s: Seq<(u8, InputItem)>) -> Seq<(u8, InputItem)>
    decreases s.len(),
{
    if s.len() <= 1 {
        s
    } else {
        let m = s.len() / 2;
        merge_ranked(sort_ranked(s.take(m as int)), sort_ranked(s.skip(m as int)))
    }
}

/// The items of a ranked sequence.
pub open spec fn ranked_items(s: Seq<(u8, InputItem)>) -> Seq<InputItem> {
    s.map_values(|e: (u8, InputItem)| e.1)
}

/// An item stays in the list for the input: when the lower-cased input is
/// empty, when the input is empty, or when the display text contains the
/// input (case-sensitively).
pub open spec fn keeps_item(item: InputItem, input: Seq<char>, lower_input: Seq<char>) -> bool {
    lower_input.len() == 0 || input.len() == 0 || contains_spec(item.display_text(), input)
}

/// The items that stay in the list, in the order given.
pub open spec fn kept_items(items: Seq<InputItem>, input: Seq<char>, lower_input: Seq<char>) -> Seq<
    InputItem,
>
    decreases items.len(),
{
    if items.len() == 0 {
        items
    } else {
        let rest = kept_items(items.drop_last(), input, lower_input);
        if keeps_item(items.last(), input, lower_input) {
            rest.push(items.last())
        } else {
            rest
        }
    }
}

/// The items that stay, each scored by its lower-cased text.
pub open spec fn scored_items(items: Seq<InputItem>, lower_input: Seq<char>) -> Seq<(u8, InputItem)> {
    items.map_values(
        |it: InputItem| (match_score(lowercase(it.display_text()), lower_input), it),
    )
}

/// The list shown for an input: the items that stay, ordered by match
/// score and then by display text, equal ones in the order given.
pub open spec fn filtered_for(items: Seq<InputItem>, input: Seq<char>) -> Seq<InputItem> {
    let lower_input = lowercase(input);
    ranked_items(sort_ranked(scored_items(kept_items(items, input, lower_input), lower_input)))
}

/// The byte order by what it means: `a` comes before `b` exactly when,
/// after a common beginning, `a` ends while `b` goes on, or the first
/// differing byte is smaller in `a`.
pub proof fn lemma_bytes_lt(a: Seq<u8>, b: Seq<u8>)
    ensures
        bytes_lt(a, b) <==> exists|i: int|
            0 <= i <= a.len() && i <= b.len() && #[trigger] a.take(i) == b.take(i) && ((i
                == a.len() && i < b.len()) || (i < a.len() && i < b.len() && a[i] < b[i])),
    decreases a.len(),
{
    if a.len() == 0 {
        if b.len() > 0 {
            assert(a.take(0) =~= b.take(0));
        }
    } else if b.len() == 0 {
    } else if a[0] != b[0] {
        if a[0] < b[0] {
            assert(a.take(0) =~= b.take(0));
        }
        assert forall|i: int| 0 <= i <= a.len() && i <= b.len() && #[trigger] a.take(i) == b.take(i)
            implies i == 0 by {
            if i > 0 {
                assert(a.take(i)[0] == b.take(i)[0]);
            }
        }
    } else {
        let a1 = a.drop_first();
        let b1 = b.drop_first();
        lemma_bytes_lt(a1, b1);
        if bytes_lt(a1, b1) {
            let i = choose|i: int|
                0 <= i <= a1.len() && i <= b1.len() && #[trigger] a1.take(i) == b1.take(i) && ((i
                    == a1.len() && i < b1.len()) || (i < a1.len() && i < b1.len() && a1[i]
                    < b1[i]));
            assert(a.take(i + 1) =~= seq![a[0]] + a1.take(i));
            assert(b.take(i + 1) =~= seq![b[0]] + b1.take(i));
        }
        assert forall|i: int|
            0 <= i <= a.len() && i <= b.len() && #[trigger] a.take(i) == b.take(i) && ((i
                == a.len() && i < b.len()) || (i < a.len() && i < b.len() && a[i] < b[i]))
            implies bytes_lt(a1, b1) by {
            if i == 0 {
            } else {
                assert(a1.take(i - 1) =~= a.take(i).drop_first());
                assert(b1.take(i - 1) =~= b.take(i).drop_first());
                if i < a.len() && i < b.len() {
                    assert(a1[i - 1] == a[i] && b1[i - 1] == b[i]);
                }
            }
        }
    }
}

/// An item stays in the list exactly when the input lowers to nothing, or
/// nothing is typed, or the item's text holds the typed text somewhere.
pub proof fn lemma_keeps_item(item: InputItem, input: Seq<char>, lower_input: Seq<char>)
    ensures
        keeps_item(item, input, lower_input) <==> (lower_input.len() == 0 || input.len() == 0
            || exists|i: int|
            0 <= i && i + input.len() <= item.display_text().len()
                && #[trigger] item.display_text().subrange(i, i + input.len()) == input),
{
}

/// The match score by what it means: 0 exactly when the input is not empty
/// and the whole input begins the text, 1 exactly when the input is not
/// empty, does not begin the text, and occurs in it somewhere, and 2
/// otherwise.
pub proof fn lemma_match_score(lowered: Seq<char>, lower_input: Seq<char>)
    ensures
        (match_score(lowered, lower_input) == 0) <==> (lower_input.len() > 0 && lower_input.len()
            <= lowered.len() && lowered.subrange(0, lower_input.len() as int) == lower_input),
        (match_score(lowered, lower_input) == 1) <==> (lower_input.len() > 0 && !(
        lower_input.len() <= lowered.len() && lowered.subrange(0, lower_input.len() as int)
            == lower_input) && exists|i: int|
            0 <= i && i + lower_input.len() <= lowered.len() && #[trigger] lowered.subrange(
                i,
                i + lower_input.len(),
            ) == lower_input),
        (match_score(lowered, lower_input) == 2) <==> (lower_input.len() == 0 || !exists|i: int|
            0 <= i && i + lower_input.len() <= lowered.len() && #[trigger] lowered.subrange(
                i,
                i + lower_input.len(),
            ) == lower_input),
{
    if lower_input.len() > 0 && lower_input.len() <= lowered.len() && lowered.subrange(
        0,
        lower_input.len() as int,
    ) == lower_input {
        assert(lowered.subrange(0, 0 + lower_input.len() as int) == lower_input);
    }
}

/// Compares two byte strings by `bytes_lt`.
fn bytes_less(a: &[u8], b: &[u8]) -> (res: bool)
    ensures
        res == bytes_lt(a@, b@),
{
    let mut i: usize = 0;
    assert(a@.skip(0) =~= a@);
    assert(b@.skip(0) =~= b@);
    while i < a.len() && i < b.len()
        invariant
            i <= a@.len(),
            i <= b@.len(),
            bytes_lt(a@, b@) == bytes_lt(a@.skip(i as int), b@.skip(i as int)),
        decreases a@.len() - i,
    {
        if a[i] != b[i] {
            return a[i] < b[i];
        }
        assert(a@.skip(i as int).drop_first() =~= a@.skip(i + 1));
        assert(b@.skip(i as int).drop_first() =~= b@.skip(i + 1));
        i = i + 1;
    }
    i == a.len() && i < b.len()
}

/// Decides `ranks_before` for two scored items.
fn ranks_before_exec(sx: u8, x: &InputItem, sy: u8, y: &InputItem) -> (res: bool)
    ensures
        res == ranks_before((sx, *x), (sy, *y)),
{
    if sx != sy {
        sx < sy
    } else {
        bytes_less(x.display.as_str().as_bytes(), y.display.as_str().as_bytes())
    }
}

/// Scores a lower-cased item text against the lower-cased input.
pub fn score_match(lowered: &str, lower_input: &str) -> (score: u8)
    ensures
        score == match_score(lowered@, lower_input@),
{
    if !lower_input.is_empty() && starts_with(lowered, lower_input) {
        0
    } else if !lower_input.is_empty() && contains(lowered, lower_input) {
        1
    } else {
        2
    }
}

/// Reversing a sequence with an entry pushed puts that entry first.
proof fn lemma_push_reverse(s: Seq<(u8, InputItem)>, x: (u8, InputItem))
    ensures
        s.push(x).reverse() == seq![x] + s.reverse(),
{
    assert(s.push(x).reverse() =~= seq![x] + s.reverse());
}

/// Merges two vectors as `merge_ranked` does, moving the entries.
fn merge_runs(a: Vec<(u8, InputItem)>, b: Vec<(u8, InputItem)>) -> (merged: Vec<(u8, InputItem)>)
    ensures
        merged@ == merge_ranked(a@, b@),
{
    let ghost whole = merge_ranked(a@, b@);
    let mut a = a;
    let mut b = b;
    let mut tail: Vec<(u8, InputItem)> = Vec::new();
    while a.len() > 0 && b.len() > 0
        invariant
            whole == merge_ranked(a@, b@) + tail@.reverse(),
        decreases a@.len() + b@.len(),
    {
        let la = a.len();
        let lb = b.len();
        let ghost a0 = a@;
        let ghost b0 = b@;
        let ghost t0 = tail@;
        if ranks_before_exec(b[lb - 1].0, &b[lb - 1].1, a[la - 1].0, &a[la - 1].1) {
            let x = a.pop().unwrap();
            tail.push(x);
            proof {
                assert(a@ =~= a0.drop_last());
                lemma_push_reverse(t0, x);
                assert(merge_ranked(a0, b0) == merge_ranked(a@, b0).push(x));
                assert(merge_ranked(a@, b0).push(x) + t0.reverse() =~= merge_ranked(a@, b0) + (seq![
                    x,
                ] + t0.reverse()));
            }
        } else {
            let y = b.pop().unwrap();
            tail.push(y);
            proof {
                assert(b@ =~= b0.drop_last());
                lemma_push_reverse(t0, y);
                assert(merge_ranked(a0, b0) == merge_ranked(a0, b@).push(y));
                assert(merge_ranked(a0, b@).push(y) + t0.reverse() =~= merge_ranked(a0, b@) + (seq![
                    y,
                ] + t0.reverse()));
            }
        }
    }
    let ghost rest = merge_ranked(a@, b@);
    assert(rest == (if a@.len() == 0 {
        b@
    } else {
        a@
    }));
    let mut out = if a.len() == 0 {
        b
    } else {
        a
    };
    while tail.len() > 0
        invariant
            whole == out@ + tail@.reverse(),
        decreases tail@.len(),
    {
        let ghost o0 = out@;
        let ghost t0 = tail@;
        let x = tail.pop().unwrap();
        out.push(x);
        proof {
            assert(t0 =~= tail@.push(x));
            lemma_push_reverse(tail@, x);
            assert(o0 + t0.reverse() =~= out@ + tail@.reverse());
        }
    }
    assert(out@ + tail@.reverse() =~= out@);
    out
}

/// Sorts a vector as `sort_ranked` does: sorts the two halves and merges
/// them.
fn sort_runs(v: Vec<(u8, InputItem)>) -> (sorted: Vec<(u8, InputItem)>)
    ensures
        sorted@ == sort_ranked(v@),
    decreases v@.len(),
{
    if v.len() <= 1 {
        return v;
    }
    let ghost s = v@;
    let mut left = v;
    let m = left.len() / 2;
    let right = left.split_off(m);
    assert(left@ =~= s.take(m as int));
    assert(right@ =~= s.skip(m as int));
    let l = sort_runs(left);
    let r = sort_runs(right);
    merge_runs(l, r)
}

/// The items of scored entries, in order, moving them.
fn items_of(v: Vec<(u8, InputItem)>) -> (items: Vec<InputItem>)
    ensures
        items@ == ranked_items(v@),
{
    let ghost s = v@;
    let mut v = v;
    let mut rev: Vec<InputItem> = Vec::new();
    while v.len() > 0
        invariant
            v@ == s.take(v@.len() as int),
            v@.len() <= s.len(),
            rev@.len() + v@.len() == s.len(),
            forall|k: int| 0 <= k < rev@.len() ==> #[trigger] rev@[k] == s[s.len() - 1 - k].1,
        decreases v@.len(),
    {
        let x = v.pop().unwrap();
        rev.push(x.1);
        assert(v@ =~= s.take(v@.len() as int));
    }
    let ghost r = rev@;
    let mut out: Vec<InputItem> = Vec::new();
    while rev.len() > 0
        invariant
            rev@ == r.take(rev@.len() as int),
            rev@.len() <= r.len(),
            r.len() == s.len(),
            forall|k: int| 0 <= k < r.len() ==> #[trigger] r[k] == s[s.len() - 1 - k].1,
            out@.len() + rev@.len() == s.len(),
            forall|k: int| 0 <= k < out@.len() ==> #[trigger] out@[k] == s[k].1,
        decreases rev@.len(),
    {
        let y = rev.pop().unwrap();
        out.push(y);
        assert(rev@ =~= r.take(rev@.len() as int));
    }
    assert(out@ =~= ranked_items(s));
    out
}

/// Orders scored items by their score and then by display text; items
/// that compare equal keep their order.
pub fn rank_items(scored: Vec<(u8, InputItem)>) -> (ranked: Vec<InputItem>)
    ensures
        ranked@ == ranked_items(sort_ranked(scored@)),
{
    items_of(sort_runs(scored))
}

/// The last position of a list of `len` entries as a `u32` (truncated as
/// a cast does), or the first position for an empty list.
pub open spec fn last_position(len: nat) -> u32 {
    (if len > 0 {
        len - 1
    } else {
        0
    }) as u32
}

/// The menu state: the typed text, all items, the ranked items that match
/// the text, and the selected position in that list.
#[derive(Debug)]
pub struct Input {
    pub dirty: bool,
    input: String,
    inputs: InputItems,
    filtered_inputs: Vec<InputItem>,
    selected_index: u32,
}

impl Default for Input {
    /// No items, nothing typed, nothing shown, the first position selected,
    /// and nothing to draw.
    fn default() -> (state: Self)
        ensures
            !state.is_dirty(),
            state.typed() == Seq::<char>::empty(),
            state.all_items() == Seq::<InputItem>::empty(),
            state.shown() == Seq::<InputItem>::empty(),
            state.selected() == 0,
            state.wf(),
    {
        let state = Input {
            dirty: false,
            input: String::new(),
            inputs: InputItems::default(),
            filtered_inputs: Vec::new(),
            selected_index: 0,
        };
        proof {
            let e = Seq::<InputItem>::empty();
            let li = lowercase(state.input@);
            assert(scored_items(kept_items(e, state.input@, li), li) =~= Seq::empty());
            assert(filtered_for(e, state.input@) =~= e);
        }
        state
    }
}

impl Input {
    /// Whether the state changed since it was last drawn.
    pub closed spec fn is_dirty(&self) -> bool {
        self.dirty
    }

    /// The typed text.
    pub closed spec fn typed(&self) -> Seq<char> {
        self.input@
    }

    /// All items.
    pub closed spec fn all_items(&self) -> Seq<InputItem> {
        self.inputs.0@
    }

    /// The ranked items that match the typed text.
    pub closed spec fn shown(&self) -> Seq<InputItem> {
        self.filtered_inputs@
    }

    /// The selected position in the shown list.
    pub closed spec fn selected(&self) -> u32 {
        self.selected_index
    }

    /// The state is consistent: the shown list is the list for the typed
    /// text, and the selection lies at or before the last shown position
    /// (the first position when nothing is shown).
    pub open spec fn wf(&self) -> bool {
        &&& self.shown() == filtered_for(self.all_items(), self.typed())
        &&& self.selected() <= last_position(self.shown().len())
    }

    /// The state after deleting the last typed character from `before`:
    /// unchanged when nothing was typed, otherwise one character shorter,
    /// listed anew and with the first match selected.
    pub open spec fn pop_post(&self, before: Input) -> bool {
        &&& before.typed().len() == 0 ==> *self == before
        &&& before.typed().len() > 0 ==> {
            &&& self.typed() == before.typed().drop_last()
            &&& self.all_items() == before.all_items()
            &&& self.shown() == filtered_for(self.all_items(), self.typed())
            &&& self.selected() == 0
            &&& self.is_dirty()
        }
        &&& before.wf() ==> self.wf()
    }

    /// The state after typing `text` in `before`: unchanged for empty text,
    /// otherwise the text appended, listed anew and with the first match
    /// selected.
    pub open spec fn push_post(&self, before: Input, text: Seq<char>) -> bool {
        &&& text.len() == 0 ==> *self == before
        &&& text.len() > 0 ==> {
            &&& self.typed() == before.typed() + text
            &&& self.all_items() == before.all_items()
            &&& self.shown() == filtered_for(self.all_items(), self.typed())
            &&& self.selected() == 0
            &&& self.is_dirty()
        }
        &&& before.wf() ==> self.wf()
    }

    /// The state after moving the selection of `before` one place towards
    /// the start, stopping at the first item; dirty when it moved.
    pub open spec fn move_left_post(&self, before: Input) -> bool {
        &&& self.selected() == (if before.selected() > 0 {
            before.selected() - 1
        } else {
            0
        })
        &&& self.typed() == before.typed()
        &&& self.all_items() == before.all_items()
        &&& self.shown() == before.shown()
        &&& self.is_dirty() == (before.is_dirty() || self.selected() != before.selected())
        &&& before.wf() ==> self.wf()
    }

    /// The state after moving the selection of `before` one place towards
    /// the end, stopping at the last shown item; dirty when it moved.
    pub open spec fn move_right_post(&self, before: Input) -> bool {
        &&& self.selected() == min(before.selected() + 1, last_position(before.shown().len()) as int)
        &&& self.typed() == before.typed()
        &&& self.all_items() == before.all_items()
        &&& self.shown() == before.shown()
        &&& self.is_dirty() == (before.is_dirty() || self.selected() != before.selected())
        &&& before.wf() ==> self.wf()
    }

    /// Starts with no text typed, every item shown, and the first one
    /// selected.
    pub fn new(inputs: InputItems) -> (new: Self)
        ensures
            new.is_dirty(),
            new.typed() == Seq::<char>::empty(),
            new.all_items() == inputs.0@,
            new.shown() == filtered_for(inputs.0@, Seq::<char>::empty()),
            new.selected() == 0,
            new.wf(),
            forall|x: InputItem| #[trigger] new.shown().contains(x) <==> inputs.0@.contains(x),
            forall|i: int, j: int|
                0 <= i < j < new.shown().len() ==> !bytes_lt(
                    encode_utf8(#[trigger] new.shown()[j].display_text()),
                    encode_utf8(#[trigger] new.shown()[i].display_text()),
                ),
    {
        let mut new = Self {
            dirty: true,
            input: String::new(),
            inputs,
            filtered_inputs: Vec::new(),
            selected_index: 0,
        };
        new.update_bins();
        proof {
            let empty = Seq::<char>::empty();
            assert(lowercase(empty) =~= empty);
            lemma_shown_list(inputs.0@, empty);
        }
        new
    }

    /// Deletes the last typed character, if any, and starts over at the
    /// first match.
    pub fn pop(&mut self)
        ensures
            final(self).pop_post(*old(self)),
    {
        if self.input.as_str().is_empty() {
            return;
        }
        pop_char(&mut self.input);
        self.selected_index = 0;
        self.update_bins();
        self.dirty = true;
    }

    /// Appends typed text, if any, and starts over at the first match.
    pub fn push(&mut self, str: &str)
        ensures
            final(self).push_post(*old(self), str@),
    {
        if str.is_empty() {
            return;
        }
        self.input.append(str);
        self.selected_index = 0;
        self.update_bins();
        self.dirty = true;
    }

    /// Moves the selection one place towards the start, stopping at the
    /// first item; marks the state dirty when the selection moved.
    pub fn move_left(&mut self)
        ensures
            final(self).move_left_post(*old(self)),
    {
        let old = self.selected_index();
        self.selected_index = self.selected_index().saturating_sub(1);
        if old != self.selected_index() {
            self.dirty = true;
        }
    }

    /// Moves the selection one place towards the end, stopping at the last
    /// shown item; marks the state dirty when the selection moved.
    pub fn move_right(&mut self)
        requires
            old(self).selected() < u32::MAX,
        ensures
            final(self).move_right_post(*old(self)),
    {
        let old = self.selected_index();
        let max_index = self.filtered_inputs.len().saturating_sub(1) as u32;
        let next = self.selected_index() + 1;
        self.selected_index = if next < max_index {
            next
        } else {
            max_index
        };
        if old != self.selected_index() {
            self.dirty = true;
        }
    }

    /// Recomputes the shown list from the typed text.
    pub fn update_bins(&mut self)
        ensures
            final(self).shown() == filtered_for(old(self).all_items(), old(self).typed()),
            final(self).typed() == old(self).typed(),
            final(self).all_items() == old(self).all_items(),
            final(self).selected() == old(self).selected(),
            final(self).is_dirty() == old(self).is_dirty(),
            old(self).wf() ==> final(self).shown() == old(self).shown(),
            old(self).wf() ==> final(self).wf(),
            old(self).typed().len() == 0 ==> lowercase(old(self).typed()).len() == 0,
    {
        let input = to_lowercase(self.input.as_str());
        let ghost lower_input = lowercase(self.input@);
        let ghost all = self.inputs.0@;
        let mut candidates: Vec<(u8, InputItem)> = Vec::new();
        let n = self.inputs.0.len();
        let mut i: usize = 0;
        assert(candidates@ =~= scored_items(
            kept_items(all.take(0), self.input@, lower_input),
            lower_input,
        ));
        while i < n
            invariant
                i <= n,
                n == all.len(),
                all == self.inputs.0@,
                input@ == lower_input,
                lower_input == lowercase(self.input@),
                candidates@ == scored_items(
                    kept_items(all.take(i as int), self.input@, lower_input),
                    lower_input,
                ),
            decreases n - i,
        {
            let item = &self.inputs.0[i];
            let keep = if input.as_str().is_empty() {
                true
            } else {
                self.input.as_str().is_empty() || contains(item.display(), self.input.as_str())
            };
            proof {
                assert(all.take(i + 1).drop_last() =~= all.take(i as int));
                assert(all.take(i + 1).last() == all[i as int]);
            }
            if keep {
                let lowered = to_lowercase(item.display());
                let score = score_match(lowered.as_str(), input.as_str());
                candidates.push((score, item.clone()));
            }
            assert(candidates@ =~= scored_items(
                kept_items(all.take(i + 1), self.input@, lower_input),
                lower_input,
            ));
            i = i + 1;
        }
        assert(all.take(n as int) =~= all);
        self.filtered_inputs = rank_items(candidates);
    }

    /// The typed text.
    pub fn input(&self) -> (s: &str)
        ensures
            s@ == self.typed(),
    {
        self.input.as_str()
    }

    /// The ranked items that match the typed text.
    pub fn filtered_inputs(&self) -> (items: &[InputItem])
        ensures
            items@ == self.shown(),
    {
        self.filtered_inputs.as_slice()
    }

    /// The selected position in the shown list.
    pub fn selected_index(&self) -> (i: u32)
        ensures
            i == self.selected(),
    {
        self.selected_index
    }
}

} // verus!

verus! {

/// No byte string comes before itself.
proof fn lemma_bytes_lt_irreflexive(a: Seq<u8>)
    ensures
        !bytes_lt(a, a),
    decreases a.len(),
{
    if a.len() > 0 {
        lemma_bytes_lt_irreflexive(a.drop_first());
    }
}

/// Of two different byte strings exactly one comes first.
proof fn lemma_bytes_lt_total(a: Seq<u8>, b: Seq<u8>)
    ensures
        a != b ==> (bytes_lt(a, b) || bytes_lt(b, a)),
        !(bytes_lt(a, b) && bytes_lt(b, a)),
    decreases a.len(),
{
    if a.len() > 0 && b.len() > 0 && a[0] == b[0] {
        lemma_bytes_lt_total(a.drop_first(), b.drop_first());
        if a.drop_first() == b.drop_first() {
            assert(a =~= seq![a[0]] + a.drop_first());
            assert(b =~= seq![b[0]] + b.drop_first());
        }
    } else if a.len() == 0 && b.len() == 0 {
        assert(a =~= b);
    }
}

/// The order on byte strings is transitive.
proof fn lemma_bytes_lt_transitive(a: Seq<u8>, b: Seq<u8>, c: Seq<u8>)
    requires
        bytes_lt(a, b),
        bytes_lt(b, c),
    ensures
        bytes_lt(a, c),
    decreases a.len(),
{
    if a.len() > 0 && b.len() > 0 && c.len() > 0 && a[0] == b[0] && b[0] == c[0] {
        lemma_bytes_lt_transitive(a.drop_first(), b.drop_first(), c.drop_first());
    }
}

/// "Not after" is transitive for the ranking order.
proof fn lemma_ranks_not_after_transitive(x: (u8, InputItem), y: (u8, InputItem), z: (u8, InputItem))
    requires
        !ranks_before(y, x),
        !ranks_before(z, y),
    ensures
        !ranks_before(z, x),
{
    let (dx, dy, dz) = (
        encode_utf8(x.1.display_text()),
        encode_utf8(y.1.display_text()),
        encode_utf8(z.1.display_text()),
    );
    lemma_bytes_lt_total(dx, dy);
    lemma_bytes_lt_total(dy, dz);
    lemma_bytes_lt_total(dx, dz);
    lemma_bytes_lt_irreflexive(dx);
    if bytes_lt(dx, dy) && bytes_lt(dy, dz) {
        lemma_bytes_lt_transitive(dx, dy, dz);
    }
}

/// No scored item comes before another that comes before it.
proof fn lemma_ranks_before_asymmetric(x: (u8, InputItem), y: (u8, InputItem))
    ensures
        ranks_before(x, y) ==> !ranks_before(y, x),
{
    lemma_bytes_lt_total(encode_utf8(x.1.display_text()), encode_utf8(y.1.display_text()));
}

/// No entry of the sequence comes strictly before an earlier one.
pub open spec fn is_ranked(s: Seq<(u8, InputItem)>) -> bool {
    forall|i: int, j: int| 0 <= i < j < s.len() ==> !ranks_before(#[trigger] s[j], #[trigger] s[i])
}

/// Pushing an entry that comes strictly before none of the entries keeps a
/// sequence ranked.
proof fn lemma_push_ranked(s: Seq<(u8, InputItem)>, x: (u8, InputItem))
    requires
        is_ranked(s),
        forall|k: int| 0 <= k < s.len() ==> !ranks_before(x, #[trigger] s[k]),
    ensures
        is_ranked(s.push(x)),
{
    let r = s.push(x);
    assert forall|i: int, j: int| 0 <= i < j < r.len() implies !ranks_before(
        #[trigger] r[j],
        #[trigger] r[i],
    ) by {
        assert(r[i] == s[i]);
        if j < s.len() {
            assert(r[j] == s[j]);
        }
    }
}

/// Dropping the last entry keeps a sequence ranked.
proof fn lemma_drop_last_ranked(s: Seq<(u8, InputItem)>)
    requires
        is_ranked(s),
        s.len() > 0,
    ensures
        is_ranked(s.drop_last()),
        forall|k: int| 0 <= k < s.len() - 1 ==> !ranks_before(s.last(), #[trigger] s[k]),
{
    let d = s.drop_last();
    assert forall|i: int, j: int| 0 <= i < j < d.len() implies !ranks_before(
        #[trigger] d[j],
        #[trigger] d[i],
    ) by {
        assert(d[i] == s[i] && d[j] == s[j]);
    }
    assert forall|k: int| 0 <= k < s.len() - 1 implies !ranks_before(s.last(), #[trigger] s[k]) by {
        assert(s[s.len() - 1] == s.last());
    }
}

/// Merging two ranked sequences gives a ranked sequence holding the entries
/// of both.
proof fn lemma_merge_ranked(a: Seq<(u8, InputItem)>, b: Seq<(u8, InputItem)>)
    requires
        is_ranked(a),
        is_ranked(b),
    ensures
        is_ranked(merge_ranked(a, b)),
        merge_ranked(a, b).to_multiset() == a.to_multiset().add(b.to_multiset()),
    decreases a.len() + b.len(),
{
    broadcast use vstd::seq_lib::group_to_multiset_ensures;

    if a.len() == 0 {
        assert(a.to_multiset() =~= Multiset::empty());
        assert(b.to_multiset() =~= a.to_multiset().add(b.to_multiset()));
    } else if b.len() == 0 {
        assert(b.to_multiset() =~= Multiset::empty());
        assert(a.to_multiset() =~= a.to_multiset().add(b.to_multiset()));
    } else if ranks_before(b.last(), a.last()) {
        let a1 = a.drop_last();
        let x = a.last();
        lemma_drop_last_ranked(a);
        lemma_drop_last_ranked(b);
        lemma_merge_ranked(a1, b);
        let m = merge_ranked(a1, b);
        assert forall|k: int| 0 <= k < m.len() implies !ranks_before(x, #[trigger] m[k]) by {
            let e = m[k];
            assert(m.to_multiset().count(e) > 0);
            if a1.to_multiset().count(e) > 0 {
                let i = choose|i: int| 0 <= i < a1.len() && a1[i] == e;
                assert(a[i] == e);
            } else {
                assert(b.to_multiset().count(e) > 0);
                let j = choose|j: int| 0 <= j < b.len() && b[j] == e;
                lemma_ranks_before_asymmetric(b.last(), x);
                if j < b.len() - 1 {
                    lemma_ranks_not_after_transitive(e, b.last(), x);
                } else {
                    assert(e == b.last());
                }
            }
        }
        lemma_push_ranked(m, x);
        assert(a =~= a1.push(x));
        assert(m.push(x).to_multiset() =~= a.to_multiset().add(b.to_multiset()));
    } else {
        let b1 = b.drop_last();
        let y = b.last();
        lemma_drop_last_ranked(a);
        lemma_drop_last_ranked(b);
        lemma_merge_ranked(a, b1);
        let m = merge_ranked(a, b1);
        assert forall|k: int| 0 <= k < m.len() implies !ranks_before(y, #[trigger] m[k]) by {
            let e = m[k];
            assert(m.to_multiset().count(e) > 0);
            if b1.to_multiset().count(e) > 0 {
                let j = choose|j: int| 0 <= j < b1.len() && b1[j] == e;
                assert(b[j] == e);
            } else {
                assert(a.to_multiset().count(e) > 0);
                let i = choose|i: int| 0 <= i < a.len() && a[i] == e;
                if i < a.len() - 1 {
                    lemma_ranks_not_after_transitive(e, a.last(), y);
                } else {
                    assert(e == a.last());
                }
            }
        }
        lemma_push_ranked(m, y);
        assert(b =~= b1.push(y));
        assert(m.push(y).to_multiset() =~= a.to_multiset().add(b.to_multiset()));
    }
}

/// Ranking keeps every entry once and puts them in order: no entry of the
/// result comes strictly before an earlier one.
pub proof fn lemma_sort_ranked(s: Seq<(u8, InputItem)>)
    ensures
        is_ranked(sort_ranked(s)),
        sort_ranked(s).to_multiset() == s.to_multiset(),
    decreases s.len(),
{
    broadcast use vstd::seq_lib::group_to_multiset_ensures;

    if s.len() > 1 {
        let m = s.len() / 2;
        let l = s.take(m as int);
        let r = s.skip(m as int);
        lemma_sort_ranked(l);
        lemma_sort_ranked(r);
        lemma_merge_ranked(sort_ranked(l), sort_ranked(r));
        assert(s =~= l + r);
        vstd::seq_lib::lemma_multiset_commutative(l, r);
    }
}

/// Two scored items have the same ranking key: the same score and the same
/// display text.
pub open spec fn same_key(x: (u8, InputItem), y: (u8, InputItem)) -> bool {
    x.0 == y.0 && x.1.display_text() == y.1.display_text()
}

/// The scored items with the same ranking key as `e`.
pub open spec fn key_class(e: (u8, InputItem)) -> spec_fn((u8, InputItem)) -> bool {
    |x: (u8, InputItem)| same_key(x, e)
}

/// An entry not after `y`, which comes before `x`, comes before `x` too.
proof fn lemma_before_through(w: (u8, InputItem), y: (u8, InputItem), x: (u8, InputItem))
    requires
        !ranks_before(y, w),
        ranks_before(y, x),
    ensures
        ranks_before(w, x),
{
    let (dw, dy, dx) = (
        encode_utf8(w.1.display_text()),
        encode_utf8(y.1.display_text()),
        encode_utf8(x.1.display_text()),
    );
    lemma_bytes_lt_total(dw, dy);
    if bytes_lt(dw, dy) && bytes_lt(dy, dx) {
        lemma_bytes_lt_transitive(dw, dy, dx);
    }
}

/// A sequence none of whose entries satisfies `p` filters to nothing.
proof fn lemma_filter_none(s: Seq<(u8, InputItem)>, p: spec_fn((u8, InputItem)) -> bool)
    requires
        forall|k: int| 0 <= k < s.len() ==> !p(#[trigger] s[k]),
    ensures
        s.filter(p) == Seq::<(u8, InputItem)>::empty(),
    decreases s.len(),
{
    reveal(Seq::filter);
    if s.len() > 0 {
        lemma_filter_none(s.drop_last(), p);
    }
}

/// Merging keeps the entries of one ranking key in order: those from `a`
/// first, then those from `b`.
proof fn lemma_merge_keeps_key_order(
    a: Seq<(u8, InputItem)>,
    b: Seq<(u8, InputItem)>,
    e: (u8, InputItem),
)
    requires
        is_ranked(a),
        is_ranked(b),
    ensures
        merge_ranked(a, b).filter(key_class(e)) == a.filter(key_class(e)) + b.filter(key_class(e)),
    decreases a.len() + b.len(),
{
    let p = key_class(e);
    reveal(Seq::filter);
    if a.len() == 0 {
        assert(a.filter(p) + b.filter(p) =~= b.filter(p));
    } else if b.len() == 0 {
        assert(a.filter(p) + b.filter(p) =~= a.filter(p));
    } else if ranks_before(b.last(), a.last()) {
        let a1 = a.drop_last();
        let x = a.last();
        lemma_drop_last_ranked(a);
        lemma_merge_keeps_key_order(a1, b, e);
        let m = merge_ranked(a1, b);
        m.lemma_filter_push(x, p);
        a1.lemma_filter_push(x, p);
        assert(a =~= a1.push(x));
        if p(x) {
            assert forall|k: int| 0 <= k < b.len() implies !p(#[trigger] b[k]) by {
                if k < b.len() - 1 {
                    lemma_before_through(b[k], b.last(), x);
                }
                lemma_bytes_lt_irreflexive(encode_utf8(x.1.display_text()));
            }
            lemma_filter_none(b, p);
            assert((a1.filter(p) + b.filter(p)).push(x) =~= a1.filter(p).push(x) + b.filter(p));
        }
    } else {
        let b1 = b.drop_last();
        let y = b.last();
        lemma_drop_last_ranked(b);
        lemma_merge_keeps_key_order(a, b1, e);
        let m = merge_ranked(a, b1);
        m.lemma_filter_push(y, p);
        b1.lemma_filter_push(y, p);
        assert(b =~= b1.push(y));
        if p(y) {
            assert((a.filter(p) + b1.filter(p)).push(y) =~= a.filter(p) + b1.filter(p).push(y));
        }
    }
}

/// Ranking is stable: the entries with the same score and display text as
/// `e` come out in the order they went in.
pub proof fn lemma_sort_ranked_stable(s: Seq<(u8, InputItem)>, e: (u8, InputItem))
    ensures
        sort_ranked(s).filter(key_class(e)) == s.filter(key_class(e)),
    decreases s.len(),
{
    if s.len() > 1 {
        let m = s.len() / 2;
        let l = s.take(m as int);
        let r = s.skip(m as int);
        lemma_sort_ranked_stable(l, e);
        lemma_sort_ranked_stable(r, e);
        lemma_sort_ranked(l);
        lemma_sort_ranked(r);
        lemma_merge_keeps_key_order(sort_ranked(l), sort_ranked(r), e);
        assert(s =~= l + r);
        Seq::filter_distributes_over_add(l, r, key_class(e));
    }
}

/// The kept items are exactly the items that satisfy `keeps_item`, in order.
pub proof fn lemma_kept_items(items: Seq<InputItem>, input: Seq<char>, lower_input: Seq<char>)
    ensures
        forall|x: InputItem|
            #[trigger] kept_items(items, input, lower_input).contains(x) <==> (items.contains(x)
                && keeps_item(x, input, lower_input)),
    decreases items.len(),
{
    if items.len() > 0 {
        let rest = items.drop_last();
        lemma_kept_items(rest, input, lower_input);
        assert forall|x: InputItem|
            #[trigger] kept_items(items, input, lower_input).contains(x) <==> (items.contains(x)
                && keeps_item(x, input, lower_input)) by {
            let k = kept_items(rest, input, lower_input);
            if items.contains(x) && keeps_item(x, input, lower_input) {
                let i = choose|i: int| 0 <= i < items.len() && items[i] == x;
                if i < items.len() - 1 {
                    assert(rest[i] == x);
                    assert(k.contains(x));
                    if keeps_item(items.last(), input, lower_input) {
                        let m = choose|m: int| 0 <= m < k.len() && k[m] == x;
                        assert(k.push(items.last())[m] == x);
                    }
                } else {
                    assert(k.push(items.last())[k.len() as int] == x);
                }
            }
            if kept_items(items, input, lower_input).contains(x) {
                if keeps_item(items.last(), input, lower_input) {
                    let m = choose|m: int|
                        0 <= m < k.len() + 1 && k.push(items.last())[m] == x;
                    if m < k.len() {
                        assert(k[m] == x);
                        assert(k.contains(x));
                    }
                }
                if k.contains(x) {
                    let i = choose|i: int| 0 <= i < rest.len() && rest[i] == x;
                    assert(items[i] == x);
                }
            }
        }
    }
}

/// The shown list holds exactly the items that match the typed text, each
/// as often as among all items, ordered by match score and then by display
/// text.
pub proof fn lemma_shown_list(items: Seq<InputItem>, input: Seq<char>)
    ensures
        forall|x: InputItem|
            #[trigger] filtered_for(items, input).contains(x) <==> (items.contains(x)
                && keeps_item(x, input, lowercase(input))),
        forall|i: int, j: int|
            0 <= i < j < filtered_for(items, input).len() ==> {
                let li = lowercase(input);
                let a = #[trigger] filtered_for(items, input)[i];
                let b = #[trigger] filtered_for(items, input)[j];
                let sa = match_score(lowercase(a.display_text()), li);
                let sb = match_score(lowercase(b.display_text()), li);
                sa < sb || (sa == sb && !bytes_lt(
                    encode_utf8(b.display_text()),
                    encode_utf8(a.display_text()),
                ))
            },
{
    broadcast use vstd::seq_lib::group_to_multiset_ensures;

    let li = lowercase(input);
    let kept = kept_items(items, input, li);
    let scored = scored_items(kept, li);
    let sorted = sort_ranked(scored);
    lemma_kept_items(items, input, li);
    lemma_sort_ranked(scored);
    assert forall|x: InputItem| #[trigger]
        filtered_for(items, input).contains(x) <==> kept.contains(x) by {
        let e = (match_score(lowercase(x.display_text()), li), x);
        if kept.contains(x) {
            let i = choose|i: int| 0 <= i < kept.len() && kept[i] == x;
            assert(scored[i] == e);
            assert(scored.contains(e));
            assert(sorted.to_multiset().count(e) > 0);
            assert(sorted.contains(e));
            let m = choose|m: int| 0 <= m < sorted.len() && sorted[m] == e;
            assert(ranked_items(sorted)[m] == x);
        }
        if filtered_for(items, input).contains(x) {
            let m = choose|m: int| 0 <= m < sorted.len() && ranked_items(sorted)[m] == x;
            let f = sorted[m];
            assert(sorted.contains(f));
            assert(scored.to_multiset().count(f) > 0);
            assert(scored.contains(f));
            let i = choose|i: int| 0 <= i < scored.len() && scored[i] == f;
            assert(kept[i] == x);
        }
    }
    assert forall|i: int, j: int| 0 <= i < j < filtered_for(items, input).len() implies {
        let a = #[trigger] filtered_for(items, input)[i];
        let b = #[trigger] filtered_for(items, input)[j];
        let sa = match_score(lowercase(a.display_text()), li);
        let sb = match_score(lowercase(b.display_text()), li);
        sa < sb || (sa == sb && !bytes_lt(encode_utf8(b.display_text()), encode_utf8(a.display_text())))
    } by {
        assert(!ranks_before(sorted[j], sorted[i]));
        assert(sorted.contains(sorted[i]) && sorted.contains(sorted[j]));
        assert(scored.to_multiset().count(sorted[i]) > 0);
        assert(scored.to_multiset().count(sorted[j]) > 0);
        let p = choose|p: int| 0 <= p < scored.len() && scored[p] == sorted[i];
        let q = choose|q: int| 0 <= q < scored.len() && scored[q] == sorted[j];
        assert(sorted[i].0 == match_score(lowercase(sorted[i].1.display_text()), li));
        assert(sorted[j].0 == match_score(lowercase(sorted[j].1.display_text()), li));
        lemma_bytes_lt_total(encode_utf8(sorted[i].1.display_text()), encode_utf8(sorted[j].1.display_text()));
    }
}

} // verus!

verus! {

/// Typing one character and deleting it again gives back the typed text,
/// the items and the list they show, with the first match selected.
pub proof fn lemma_type_then_delete(before: Input, typed: Input, after: Input, c: char)
    requires
        before.wf(),
        typed.push_post(before, seq![c]),
        after.pop_post(typed),
    ensures
        after.typed() == before.typed(),
        after.all_items() == before.all_items(),
        after.shown() == before.shown(),
        after.selected() == 0,
        after.is_dirty(),
        after.wf(),
{
    assert((before.typed() + seq![c]).drop_last() =~= before.typed());
}

/// A step to the right that moved the selection is undone by a step to the
/// left.
pub proof fn lemma_right_then_left(before: Input, moved: Input, back: Input)
    requires
        before.wf(),
        moved.move_right_post(before),
        back.move_left_post(moved),
        moved.selected() != before.selected(),
    ensures
        back.selected() == before.selected(),
        back.shown() == before.shown(),
        back.wf(),
{
}

/// In a consistent state the selection is the first position when nothing
/// is shown, and a shown position whenever the list's last position fits in
/// a `u32`.
pub proof fn lemma_selection_bound(state: Input)
    requires
        state.wf(),
    ensures
        state.shown().len() == 0 ==> state.selected() == 0,
        0 < state.shown().len() <= u32::MAX + 1 ==> state.selected() < state.shown().len(),
{
}

} // verus!
