//! The run structure of a text block: its text as a sequence of runs, and the conversion
//! between offsets into the concatenated text and positions within a run.
use vstd::prelude::*;
use vstd::utf8::{encode_utf8, is_char_boundary};
use vstd::string::StringSliceAdditionalSpecFns;
use crate::text_layer::{RunPosition, TextSelection};

verus! {

/// Character formatting of a run. The floating-point attributes are held as their `f32`
/// bit patterns, which is also how two styles are compared.
pub struct TextStyle {
    pub font_family: String,
    pub font_weight: u16,
    pub font_size_bits: u32,
    pub italic: bool,
    pub underline: bool,
    pub strikethrough: bool,
    pub color: [u8; 4],
    pub letter_spacing_bits: u32,
    pub baseline_offset_bits: u32,
    pub width_scale_bits: u32,
    pub height_scale_bits: u32,
}

/// Two styles are equal: same family, weight, flags and colour, and bit-identical sizes,
/// spacing, offset and scales.
pub open spec fn same_style(a: TextStyle, b: TextStyle) -> bool {
    &&& a.font_family@ == b.font_family@
    &&& a.font_weight == b.font_weight
    &&& a.font_size_bits == b.font_size_bits
    &&& a.italic == b.italic
    &&& a.underline == b.underline
    &&& a.strikethrough == b.strikethrough
    &&& a.color@ == b.color@
    &&& a.letter_spacing_bits == b.letter_spacing_bits
    &&& a.baseline_offset_bits == b.baseline_offset_bits
    &&& a.width_scale_bits == b.width_scale_bits
    &&& a.height_scale_bits == b.height_scale_bits
}

impl TextStyle {
    /// Whether the two styles are equal (see `same_style`).
    pub fn eq_style(&self, other: &TextStyle) -> (r: bool)
        ensures
            r == same_style(*self, *other),
    {
        let colors_equal = self.color[0] == other.color[0] && self.color[1] == other.color[1]
            && self.color[2] == other.color[2] && self.color[3] == other.color[3];
        proof {
            if colors_equal {
                assert(self.color@ =~= other.color@);
            }
        }
        self.font_family == other.font_family
            && self.font_weight == other.font_weight
            && self.font_size_bits == other.font_size_bits
            && self.italic == other.italic
            && self.underline == other.underline
            && self.strikethrough == other.strikethrough
            && colors_equal
            && self.letter_spacing_bits == other.letter_spacing_bits
            && self.baseline_offset_bits == other.baseline_offset_bits
            && self.width_scale_bits == other.width_scale_bits
            && self.height_scale_bits == other.height_scale_bits
    }
}

/// A contiguous piece of a block's text with uniform formatting.
pub struct TextRun {
    pub text: String,
    pub style: TextStyle,
}

/// A manual adjustment of one laid-out glyph: its offset, rotation and scale (the `f32`
/// values held as bit patterns).
#[derive(Clone, Copy, Debug)]
pub struct GlyphOverride {
    /// Index into the laid-out glyphs, counted across all runs.
    pub glyph_index: usize,
    pub position_offset_bits: [u32; 2],
    pub rotation_bits: u32,
    pub scale_bits: u32,
}

/// The bit pattern of `1.0f32`.
pub const ONE_F32_BITS: u32 = 0x3f80_0000;

/// The override of glyph `glyph_index` that changes nothing: no offset, no rotation, scale 1.
pub open spec fn identity_override(glyph_index: usize) -> GlyphOverride {
    GlyphOverride { glyph_index, position_offset_bits: [0, 0], rotation_bits: 0, scale_bits: ONE_F32_BITS }
}

/// Override `i` is the first one for glyph `g`.
pub open spec fn first_override_for(overrides: Seq<GlyphOverride>, g: usize, i: int) -> bool {
    &&& 0 <= i < overrides.len()
    &&& overrides[i].glyph_index == g
    &&& forall|j: int| 0 <= j < i ==> #[trigger] overrides[j].glyph_index != g
}

/// No override is for glyph `g`.
pub open spec fn no_override_for(overrides: Seq<GlyphOverride>, g: usize) -> bool {
    forall|j: int| 0 <= j < overrides.len() ==> #[trigger] overrides[j].glyph_index != g
}

/// A text block: its identifier, where it stands on the canvas (the `f32` origin and
/// rotation held as bit patterns), its runs in reading order and its glyph overrides.
pub struct TextBlock {
    pub id: u64,
    pub position_bits: [u32; 2],
    pub rotation_bits: u32,
    pub runs: Vec<TextRun>,
    pub glyph_overrides: Vec<GlyphOverride>,
}

/// Length in bytes of the UTF-8 encoding of `t`.
pub open spec fn byte_len(t: Seq<char>) -> int {
    encode_utf8(t).len() as int
}

/// Total byte length of the first `i` runs.
pub open spec fn prefix_bytes(runs: Seq<TextRun>, i: int) -> int
    decreases i,
{
    if i <= 0 || i > runs.len() {
        0
    } else {
        prefix_bytes(runs, i - 1) + byte_len(runs[i - 1].text@)
    }
}

/// Total byte length of all runs.
pub open spec fn total_bytes(runs: Seq<TextRun>) -> int {
    prefix_bytes(runs, runs.len() as int)
}

/// The position just past the end of the last run (`(0, 0)` when there are no runs).
pub open spec fn end_position(runs: Seq<TextRun>) -> RunPosition {
    if runs.len() > 0 {
        RunPosition { run_index: (runs.len() - 1) as usize, byte_offset: byte_len(runs.last().text@) as usize }
    } else {
        RunPosition { run_index: 0, byte_offset: 0 }
    }
}

/// The position of flat byte offset `b`, looking from run `i` on: the first run whose end
/// is at or after `b`; past the end, the end of the last run.
pub open spec fn locate_from(runs: Seq<TextRun>, b: int, i: int) -> RunPosition
    decreases runs.len() - i,
{
    if i < 0 || i >= runs.len() {
        end_position(runs)
    } else if b - prefix_bytes(runs, i) <= byte_len(runs[i].text@) {
        RunPosition { run_index: i as usize, byte_offset: (b - prefix_bytes(runs, i)) as usize }
    } else {
        locate_from(runs, b, i + 1)
    }
}

/// The flat byte offset of a position: the bytes of the runs before it plus its offset,
/// capped at the run's length; a position past the last run is the total length.
pub open spec fn flat_offset_of(runs: Seq<TextRun>, pos: RunPosition) -> int {
    if pos.run_index < runs.len() {
        let len = byte_len(runs[pos.run_index as int].text@);
        prefix_bytes(runs, pos.run_index as int) + if pos.byte_offset < len { pos.byte_offset as int } else { len }
    } else {
        total_bytes(runs)
    }
}

/// Byte lengths are counted up in run order.
proof fn lemma_prefix_monotone(runs: Seq<TextRun>, i: int, j: int)
    requires
        0 <= i <= j <= runs.len(),
    ensures
        0 <= prefix_bytes(runs, i) <= prefix_bytes(runs, j),
    decreases j - i,
{
    lemma_prefix_nonneg(runs, i);
    if i < j {
        lemma_prefix_monotone(runs, i, j - 1);
        assert(prefix_bytes(runs, j) == prefix_bytes(runs, j - 1) + byte_len(runs[j - 1].text@));
    }
}

proof fn lemma_prefix_nonneg(runs: Seq<TextRun>, i: int)
    ensures
        0 <= prefix_bytes(runs, i),
    decreases i,
{
    if 0 < i <= runs.len() {
        lemma_prefix_nonneg(runs, i - 1);
    }
}

/// Locating an offset and converting the position back gives the offset, capped at the
/// total length of the text.
pub proof fn lemma_offset_round_trip(runs: Seq<TextRun>, b: int)
    requires
        0 <= b,
        b <= usize::MAX || total_bytes(runs) <= usize::MAX,
        runs.len() <= usize::MAX,
    ensures
        flat_offset_of(runs, locate_from(runs, b, 0)) == if b < total_bytes(runs) { b } else { total_bytes(runs) },
{
    lemma_round_trip_from(runs, b, 0);
}

proof fn lemma_round_trip_from(runs: Seq<TextRun>, b: int, i: int)
    requires
        0 <= i <= runs.len(),
        runs.len() <= usize::MAX,
        0 <= b,
        b <= usize::MAX || total_bytes(runs) <= usize::MAX,
        prefix_bytes(runs, i) <= b,
    ensures
        flat_offset_of(runs, locate_from(runs, b, i)) == if b < total_bytes(runs) { b } else { total_bytes(runs) },
    decreases runs.len() - i,
{
    let n = runs.len() as int;
    lemma_prefix_monotone(runs, i, n);
    if i == n {
        if n > 0 {
            lemma_prefix_nonneg(runs, n - 1);
            assert(runs.last() == runs[n - 1]);
            assert(prefix_bytes(runs, n) == prefix_bytes(runs, n - 1) + byte_len(runs[n - 1].text@));
        } else {
            assert(locate_from(runs, b, i) == end_position(runs));
        }
    } else if b - prefix_bytes(runs, i) <= byte_len(runs[i].text@) {
        lemma_prefix_monotone(runs, i + 1, n);
        assert(prefix_bytes(runs, i + 1) == prefix_bytes(runs, i) + byte_len(runs[i].text@));
    } else {
        assert(prefix_bytes(runs, i + 1) == prefix_bytes(runs, i) + byte_len(runs[i].text@));
        lemma_round_trip_from(runs, b, i + 1);
    }
}

impl TextBlock {
    /// The block's text: all runs concatenated.
    pub open spec fn flat_view(&self) -> Seq<char> {
        self.flat_from(self.runs@.len() as int)
    }

    /// The first `i` runs concatenated.
    pub open spec fn flat_from(&self, i: int) -> Seq<char>
        decreases i,
    {
        if i <= 0 || i > self.runs@.len() {
            Seq::empty()
        } else {
            self.flat_from(i - 1) + self.runs@[i - 1].text@
        }
    }

    /// The number of characters in the first `i` runs.
    pub open spec fn chars_before(&self, i: int) -> int
        decreases i,
    {
        if i <= 0 || i > self.runs@.len() {
            0
        } else {
            self.chars_before(i - 1) + self.runs@[i - 1].text@.len()
        }
    }

    /// The total text of the block.
    pub fn flat_text(&self) -> (s: String)
        ensures
            s@ == self.flat_view(),
    {
        let mut s = String::new();
        let n = self.runs.len();
        let mut i: usize = 0;
        while i < n
            invariant
                n == self.runs@.len(),
                i <= n,
                s@ == self.flat_from(i as int),
            decreases n - i,
        {
            s.append(self.runs[i].text.as_str());
            i += 1;
        }
        s
    }

    /// Number of characters in all runs.
    pub fn char_count(&self) -> (n: usize)
        requires
            self.chars_before(self.runs@.len() as int) <= usize::MAX,
        ensures
            n == self.chars_before(self.runs@.len() as int),
    {
        let len = self.runs.len();
        let mut total: usize = 0;
        let mut i: usize = 0;
        while i < len
            invariant
                len == self.runs@.len(),
                i <= len,
                total == self.chars_before(i as int),
                self.chars_before(len as int) <= usize::MAX,
            decreases len - i,
        {
            proof {
                self.lemma_chars_monotone(i + 1, len as int);
            }
            total = total + self.runs[i].text.as_str().unicode_len();
            i += 1;
        }
        total
    }

    proof fn lemma_chars_monotone(&self, i: int, j: int)
        requires
            0 <= i <= j <= self.runs@.len(),
        ensures
            self.chars_before(i) <= self.chars_before(j),
        decreases j - i,
    {
        if i < j {
            self.lemma_chars_monotone(i, j - 1);
        }
    }

    /// The run position of flat byte offset `flat_byte`: the first run that reaches it, or
    /// the end of the last run when the offset is past the end.
    pub fn flat_offset_to_run_pos(&self, flat_byte: usize) -> (pos: RunPosition)
        ensures
            pos == locate_from(self.runs@, flat_byte as int, 0),
    {
        let n = self.runs.len();
        let mut remaining = flat_byte;
        let mut ri: usize = 0;
        while ri < n
            invariant
                n == self.runs@.len(),
                ri <= n,
                remaining == flat_byte - prefix_bytes(self.runs@, ri as int),
                locate_from(self.runs@, flat_byte as int, 0) == locate_from(self.runs@, flat_byte as int, ri as int),
            decreases n - ri,
        {
            let len = self.runs[ri].text.as_str().as_bytes().len();
            proof {
                assert(len == byte_len(self.runs@[ri as int].text@));
                assert(prefix_bytes(self.runs@, ri + 1) == prefix_bytes(self.runs@, ri as int) + len);
            }
            if remaining <= len {
                return RunPosition { run_index: ri, byte_offset: remaining };
            }
            remaining = remaining - len;
            ri += 1;
        }
        if n > 0 {
            let len = self.runs[n - 1].text.as_str().as_bytes().len();
            proof {
                assert(len == byte_len(self.runs@[n - 1].text@));
                assert(self.runs@.last() == self.runs@[n - 1]);
            }
            RunPosition { run_index: n - 1, byte_offset: len }
        } else {
            RunPosition { run_index: 0, byte_offset: 0 }
        }
    }

    /// The flat byte offset of a run position (see `flat_offset_of`).
    pub fn run_pos_to_flat_offset(&self, pos: RunPosition) -> (off: usize)
        requires
            flat_offset_of(self.runs@, pos) <= usize::MAX,
        ensures
            off == flat_offset_of(self.runs@, pos),
    {
        let n = self.runs.len();
        let mut offset: usize = 0;
        let mut ri: usize = 0;
        while ri < n
            invariant
                n == self.runs@.len(),
                ri <= n,
                offset == prefix_bytes(self.runs@, ri as int),
                flat_offset_of(self.runs@, pos) <= usize::MAX,
                pos.run_index >= ri,
            decreases n - ri,
        {
            let len = self.runs[ri].text.as_str().as_bytes().len();
            proof {
                assert(len == byte_len(self.runs@[ri as int].text@));
                assert(prefix_bytes(self.runs@, ri + 1) == prefix_bytes(self.runs@, ri as int) + len);
                lemma_prefix_nonneg(self.runs@, ri as int);
            }
            if ri == pos.run_index {
                let b = if pos.byte_offset < len { pos.byte_offset } else { len };
                return offset + b;
            }
            proof {
                if pos.run_index < n {
                    lemma_prefix_monotone(self.runs@, ri + 1, pos.run_index as int);
                    lemma_prefix_nonneg(self.runs@, pos.run_index as int);
                } else {
                    lemma_prefix_monotone(self.runs@, ri + 1, n as int);
                }
            }
            offset = offset + len;
            ri += 1;
        }
        offset
    }
}

/// A position's flat byte offset lies within the text.
pub proof fn lemma_flat_offset_within(runs: Seq<TextRun>, pos: RunPosition)
    ensures
        0 <= flat_offset_of(runs, pos) <= total_bytes(runs),
{
    let n = runs.len() as int;
    lemma_prefix_nonneg(runs, n);
    if pos.run_index < n {
        let k = pos.run_index as int;
        lemma_prefix_nonneg(runs, k);
        lemma_prefix_monotone(runs, k + 1, n);
        assert(prefix_bytes(runs, k + 1) == prefix_bytes(runs, k) + byte_len(runs[k].text@));
    }
}

impl RunPosition {
    /// Order two positions of `block` by their flat byte offsets.
    pub fn cmp_in(&self, other: &RunPosition, block: &TextBlock) -> (r: std::cmp::Ordering)
        requires
            total_bytes(block.runs@) <= usize::MAX,
        ensures
            r == (if flat_offset_of(block.runs@, *self) < flat_offset_of(block.runs@, *other) {
                std::cmp::Ordering::Less
            } else if flat_offset_of(block.runs@, *self) == flat_offset_of(block.runs@, *other) {
                std::cmp::Ordering::Equal
            } else {
                std::cmp::Ordering::Greater
            }),
    {
        proof {
            lemma_flat_offset_within(block.runs@, *self);
            lemma_flat_offset_within(block.runs@, *other);
        }
        let a = block.run_pos_to_flat_offset(*self);
        let b = block.run_pos_to_flat_offset(*other);
        if a < b {
            std::cmp::Ordering::Less
        } else if a == b {
            std::cmp::Ordering::Equal
        } else {
            std::cmp::Ordering::Greater
        }
    }
}

impl TextSelection {
    /// The flat byte offsets of anchor and cursor in `block`, smaller first.
    pub fn ordered_flat_offsets(&self, block: &TextBlock) -> (r: (usize, usize))
        requires
            total_bytes(block.runs@) <= usize::MAX,
        ensures
            ({
                let a = flat_offset_of(block.runs@, self.anchor);
                let c = flat_offset_of(block.runs@, self.cursor);
                r == (if a <= c { (a as usize, c as usize) } else { (c as usize, a as usize) })
            }),
    {
        proof {
            lemma_flat_offset_within(block.runs@, self.anchor);
            lemma_flat_offset_within(block.runs@, self.cursor);
        }
        let a = block.run_pos_to_flat_offset(self.anchor);
        let c = block.run_pos_to_flat_offset(self.cursor);
        if a <= c { (a, c) } else { (c, a) }
    }
}


/// The runs as (text, style) pairs.
pub open spec fn runs_view(runs: Seq<TextRun>) -> Seq<(Seq<char>, TextStyle)> {
    runs.map_values(|r: TextRun| (r.text@, r.style))
}

/// The pass that merges runs, from run `i` on: a run whose successor has the same style
/// absorbs it; otherwise an empty run is dropped and the pass steps back one run, so that
/// its predecessor meets its successor; otherwise the pass moves on.
pub open spec fn merge_scan(v: Seq<(Seq<char>, TextStyle)>, i: int) -> Seq<(Seq<char>, TextStyle)>
    decreases 2 * v.len() - i,
{
    if i < 0 || i + 1 >= v.len() {
        v
    } else if same_style(v[i].1, v[i + 1].1) {
        merge_scan(v.update(i, (v[i].0 + v[i + 1].0, v[i].1)).remove(i + 1), i)
    } else if v[i].0.len() == 0 {
        merge_scan(v.remove(i), if i > 0 { i - 1 } else { 0 })
    } else {
        merge_scan(v, i + 1)
    }
}

/// Drop empty runs from the end, keeping at least one run.
pub open spec fn drop_trailing_empty(v: Seq<(Seq<char>, TextStyle)>) -> Seq<(Seq<char>, TextStyle)>
    decreases v.len(),
{
    if v.len() > 1 && v.last().0.len() == 0 {
        drop_trailing_empty(v.drop_last())
    } else {
        v
    }
}

/// The runs after merging adjacent runs of equal style and dropping empty ones.
pub open spec fn merged_runs(v: Seq<(Seq<char>, TextStyle)>) -> Seq<(Seq<char>, TextStyle)> {
    drop_trailing_empty(merge_scan(v, 0))
}

/// All run texts concatenated.
pub open spec fn flat_chars(v: Seq<(Seq<char>, TextStyle)>) -> Seq<char>
    decreases v.len(),
{
    if v.len() == 0 {
        Seq::empty()
    } else {
        flat_chars(v.drop_last()) + v.last().0
    }
}

proof fn lemma_flat_concat(a: Seq<(Seq<char>, TextStyle)>, b: Seq<(Seq<char>, TextStyle)>)
    ensures
        flat_chars(a + b) == flat_chars(a) + flat_chars(b),
    decreases b.len(),
{
    if b.len() == 0 {
        assert(a + b =~= a);
        assert(flat_chars(a) + flat_chars(b) =~= flat_chars(a));
    } else {
        lemma_flat_concat(a, b.drop_last());
        assert((a + b).drop_last() =~= a + b.drop_last());
        assert(flat_chars(a + b) =~= flat_chars(a) + flat_chars(b));
    }
}

proof fn lemma_flat_single(x: (Seq<char>, TextStyle))
    ensures
        flat_chars(seq![x]) == x.0,
{
    assert(seq![x].drop_last() =~= Seq::<(Seq<char>, TextStyle)>::empty());
    assert(flat_chars(Seq::<(Seq<char>, TextStyle)>::empty()) =~= Seq::<char>::empty());
    assert(flat_chars(seq![x]) =~= x.0);
}

/// One step of the merge pass keeps the text.
proof fn lemma_merge_step_keeps_text(v: Seq<(Seq<char>, TextStyle)>, i: int)
    requires
        0 <= i,
        i + 1 < v.len(),
    ensures
        flat_chars(v.update(i, (v[i].0 + v[i + 1].0, v[i].1)).remove(i + 1)) == flat_chars(v),
        v[i].0.len() == 0 ==> flat_chars(v.remove(i)) == flat_chars(v),
{
    let pre = v.take(i);
    let post = v.skip(i + 2);
    let x = v[i];
    let y = v[i + 1];
    let joined = (x.0 + y.0, x.1);
    assert(v =~= pre + seq![x] + (seq![y] + post));
    assert(v.update(i, joined).remove(i + 1) =~= pre + seq![joined] + post);
    lemma_flat_concat(pre + seq![x], seq![y] + post);
    lemma_flat_concat(pre, seq![x]);
    lemma_flat_concat(seq![y], post);
    lemma_flat_concat(pre + seq![joined], post);
    lemma_flat_concat(pre, seq![joined]);
    lemma_flat_single(x);
    lemma_flat_single(y);
    lemma_flat_single(joined);
    assert(flat_chars(v.update(i, joined).remove(i + 1)) =~= flat_chars(v));
    if x.0.len() == 0 {
        assert(v.remove(i) =~= pre + (seq![y] + post));
        lemma_flat_concat(pre, seq![y] + post);
        assert(flat_chars(v.remove(i)) =~= flat_chars(v));
    }
}

proof fn lemma_merge_scan_keeps_text(v: Seq<(Seq<char>, TextStyle)>, i: int)
    ensures
        flat_chars(merge_scan(v, i)) == flat_chars(v),
    decreases 2 * v.len() - i,
{
    if i < 0 || i + 1 >= v.len() {
    } else if same_style(v[i].1, v[i + 1].1) {
        lemma_merge_step_keeps_text(v, i);
        lemma_merge_scan_keeps_text(v.update(i, (v[i].0 + v[i + 1].0, v[i].1)).remove(i + 1), i);
    } else if v[i].0.len() == 0 {
        lemma_merge_step_keeps_text(v, i);
        lemma_merge_scan_keeps_text(v.remove(i), if i > 0 { i - 1 } else { 0 });
    } else {
        lemma_merge_scan_keeps_text(v, i + 1);
    }
}

proof fn lemma_drop_trailing_keeps_text(v: Seq<(Seq<char>, TextStyle)>)
    ensures
        flat_chars(drop_trailing_empty(v)) == flat_chars(v),
    decreases v.len(),
{
    if v.len() > 1 && v.last().0.len() == 0 {
        lemma_drop_trailing_keeps_text(v.drop_last());
        assert(flat_chars(v) =~= flat_chars(v.drop_last()));
    }
}

/// Merging adjacent runs never changes the block's text.
pub proof fn lemma_merge_keeps_text(v: Seq<(Seq<char>, TextStyle)>)
    ensures
        flat_chars(merged_runs(v)) == flat_chars(v),
{
    lemma_merge_scan_keeps_text(v, 0);
    lemma_drop_trailing_keeps_text(merge_scan(v, 0));
}

/// No two neighbouring runs have the same style.
pub open spec fn neighbours_differ(v: Seq<(Seq<char>, TextStyle)>) -> bool {
    forall|k: int| 0 <= k < v.len() - 1 ==> !same_style((#[trigger] v[k]).1, v[k + 1].1)
}

proof fn lemma_merge_scan_separates(v: Seq<(Seq<char>, TextStyle)>, i: int)
    requires
        0 <= i,
        forall|k: int| 0 <= k < i && k + 1 < v.len() ==> !same_style((#[trigger] v[k]).1, v[k + 1].1),
    ensures
        neighbours_differ(merge_scan(v, i)),
    decreases 2 * v.len() - i,
{
    if i + 1 >= v.len() {
    } else if same_style(v[i].1, v[i + 1].1) {
        let w = v.update(i, (v[i].0 + v[i + 1].0, v[i].1)).remove(i + 1);
        assert forall|k: int| 0 <= k < i && k + 1 < w.len() implies !same_style((#[trigger] w[k]).1, w[k + 1].1) by {
            assert(w[k] == v[k]);
            assert(w[k + 1].1 == v[k + 1].1);
        }
        lemma_merge_scan_separates(w, i);
    } else if v[i].0.len() == 0 {
        let w = v.remove(i);
        let j = if i > 0 { i - 1 } else { 0 };
        assert forall|k: int| 0 <= k < j && k + 1 < w.len() implies !same_style((#[trigger] w[k]).1, w[k + 1].1) by {
            assert(w[k] == v[k]);
            assert(w[k + 1] == v[k + 1]);
        }
        lemma_merge_scan_separates(w, j);
    } else {
        lemma_merge_scan_separates(v, i + 1);
    }
}

proof fn lemma_drop_trailing_separates(v: Seq<(Seq<char>, TextStyle)>)
    requires
        neighbours_differ(v),
    ensures
        neighbours_differ(drop_trailing_empty(v)),
    decreases v.len(),
{
    if v.len() > 1 && v.last().0.len() == 0 {
        let w = v.drop_last();
        assert forall|k: int| 0 <= k < w.len() - 1 implies !same_style((#[trigger] w[k]).1, w[k + 1].1) by {
            assert(w[k] == v[k]);
            assert(w[k + 1] == v[k + 1]);
        }
        lemma_drop_trailing_separates(w);
    }
}

/// Merging leaves no two neighbouring runs with the same style.
pub proof fn lemma_merge_separates_styles(v: Seq<(Seq<char>, TextStyle)>)
    ensures
        neighbours_differ(merged_runs(v)),
{
    lemma_merge_scan_separates(v, 0);
    lemma_drop_trailing_separates(merge_scan(v, 0));
}

/// Everything a style holds, by value: family, weight and size; the three flags; colour,
/// spacing, offset and the two scales.
pub open spec fn style_key(s: TextStyle) -> ((Seq<char>, u16, u32), (bool, bool, bool), (Seq<u8>, u32, u32, u32, u32)) {
    (
        (s.font_family@, s.font_weight, s.font_size_bits),
        (s.italic, s.underline, s.strikethrough),
        (s.color@, s.letter_spacing_bits, s.baseline_offset_bits, s.width_scale_bits, s.height_scale_bits),
    )
}

/// Two styles count as equal exactly when they hold the same values in every attribute,
/// colour included.
pub proof fn lemma_same_style_is_value_equality(a: TextStyle, b: TextStyle)
    ensures
        same_style(a, b) <==> style_key(a) == style_key(b),
{
    if style_key(a) == style_key(b) {
        assert(a.color@ == b.color@);
    }
}

/// The style of every character of the runs' text, in order.
pub open spec fn char_styles(v: Seq<(Seq<char>, TextStyle)>) -> Seq<((Seq<char>, u16, u32), (bool, bool, bool), (Seq<u8>, u32, u32, u32, u32))>
    decreases v.len(),
{
    if v.len() == 0 {
        Seq::empty()
    } else {
        char_styles(v.drop_last()) + Seq::new(v.last().0.len(), |k: int| style_key(v.last().1))
    }
}

proof fn lemma_char_styles_concat(a: Seq<(Seq<char>, TextStyle)>, b: Seq<(Seq<char>, TextStyle)>)
    ensures
        char_styles(a + b) == char_styles(a) + char_styles(b),
    decreases b.len(),
{
    if b.len() == 0 {
        assert(a + b =~= a);
        assert(char_styles(a) + char_styles(b) =~= char_styles(a));
    } else {
        lemma_char_styles_concat(a, b.drop_last());
        assert((a + b).drop_last() =~= a + b.drop_last());
        assert((a + b).last() == b.last());
        assert(char_styles(a + b) =~= char_styles(a) + char_styles(b));
    }
}

proof fn lemma_char_styles_single(x: (Seq<char>, TextStyle))
    ensures
        char_styles(seq![x]) == Seq::new(x.0.len(), |k: int| style_key(x.1)),
{
    let e = Seq::<(Seq<char>, TextStyle)>::empty();
    assert(seq![x].drop_last() =~= e);
    assert(seq![x].last() == x);
    assert(char_styles(e) =~= Seq::empty());
    assert(char_styles(seq![x]) == char_styles(e) + Seq::new(x.0.len(), |k: int| style_key(x.1)));
    assert(char_styles(seq![x]) =~= Seq::new(x.0.len(), |k: int| style_key(x.1)));
}

/// One step of the merge pass keeps the style of every character.
proof fn lemma_merge_step_keeps_styles(v: Seq<(Seq<char>, TextStyle)>, i: int)
    requires
        0 <= i,
        i + 1 < v.len(),
    ensures
        same_style(v[i].1, v[i + 1].1) ==> char_styles(v.update(i, (v[i].0 + v[i + 1].0, v[i].1)).remove(i + 1)) == char_styles(v),
        v[i].0.len() == 0 ==> char_styles(v.remove(i)) == char_styles(v),
{
    let pre = v.take(i);
    let post = v.skip(i + 2);
    let x = v[i];
    let y = v[i + 1];
    let joined = (x.0 + y.0, x.1);
    assert(v =~= pre + seq![x] + (seq![y] + post));
    lemma_char_styles_concat(pre + seq![x], seq![y] + post);
    lemma_char_styles_concat(pre, seq![x]);
    lemma_char_styles_concat(seq![y], post);
    lemma_char_styles_single(x);
    lemma_char_styles_single(y);
    if same_style(x.1, y.1) {
        lemma_same_style_is_value_equality(x.1, y.1);
        assert(v.update(i, joined).remove(i + 1) =~= pre + seq![joined] + post);
        lemma_char_styles_concat(pre + seq![joined], post);
        lemma_char_styles_concat(pre, seq![joined]);
        lemma_char_styles_single(joined);
        assert(Seq::new(joined.0.len(), |k: int| style_key(joined.1))
            =~= Seq::new(x.0.len(), |k: int| style_key(x.1)) + Seq::new(y.0.len(), |k: int| style_key(y.1)));
        assert(char_styles(v.update(i, joined).remove(i + 1)) =~= char_styles(v));
    }
    if x.0.len() == 0 {
        assert(v.remove(i) =~= pre + (seq![y] + post));
        lemma_char_styles_concat(pre, seq![y] + post);
        assert(Seq::new(x.0.len(), |k: int| style_key(x.1)) =~= Seq::<((Seq<char>, u16, u32), (bool, bool, bool), (Seq<u8>, u32, u32, u32, u32))>::empty());
        assert(char_styles(v.remove(i)) =~= char_styles(v));
    }
}

proof fn lemma_merge_scan_keeps_styles(v: Seq<(Seq<char>, TextStyle)>, i: int)
    ensures
        char_styles(merge_scan(v, i)) == char_styles(v),
    decreases 2 * v.len() - i,
{
    if i < 0 || i + 1 >= v.len() {
    } else if same_style(v[i].1, v[i + 1].1) {
        lemma_merge_step_keeps_styles(v, i);
        lemma_merge_scan_keeps_styles(v.update(i, (v[i].0 + v[i + 1].0, v[i].1)).remove(i + 1), i);
    } else if v[i].0.len() == 0 {
        lemma_merge_step_keeps_styles(v, i);
        lemma_merge_scan_keeps_styles(v.remove(i), if i > 0 { i - 1 } else { 0 });
    } else {
        lemma_merge_scan_keeps_styles(v, i + 1);
    }
}

proof fn lemma_drop_trailing_keeps_styles(v: Seq<(Seq<char>, TextStyle)>)
    ensures
        char_styles(drop_trailing_empty(v)) == char_styles(v),
    decreases v.len(),
{
    if v.len() > 1 && v.last().0.len() == 0 {
        lemma_drop_trailing_keeps_styles(v.drop_last());
        assert(char_styles(v) =~= char_styles(v.drop_last()));
    }
}

/// Merging adjacent runs keeps the complete style (every attribute, colour included) of
/// every character of the text.
pub proof fn lemma_merge_keeps_char_styles(v: Seq<(Seq<char>, TextStyle)>)
    ensures
        char_styles(merged_runs(v)) == char_styles(v),
{
    lemma_merge_scan_keeps_styles(v, 0);
    lemma_drop_trailing_keeps_styles(merge_scan(v, 0));
}

impl TextBlock {
    /// Merge each run into its predecessor when their styles are equal, drop empty runs
    /// along the way (then comparing the runs on either side of the dropped one), then drop
    /// empty runs from the end while more than one run is left (see `merged_runs`). No two
    /// neighbouring runs are left with the same style, and the text is unchanged.
    pub fn merge_adjacent_runs(&mut self)
        ensures
            runs_view(final(self).runs@) == merged_runs(runs_view(old(self).runs@)),
            neighbours_differ(runs_view(final(self).runs@)),
            flat_chars(runs_view(final(self).runs@)) == flat_chars(runs_view(old(self).runs@)),
    {
        let ghost orig = runs_view(self.runs@);
        let mut i: usize = 0;
        while self.runs.len() > 0 && i < self.runs.len() - 1
            invariant
                i <= self.runs@.len(),
                merge_scan(runs_view(self.runs@), i as int) == merge_scan(orig, 0),
            decreases 2 * self.runs@.len() - i,
        {
            let ghost before = runs_view(self.runs@);
            if self.runs[i].style.eq_style(&self.runs[i + 1].style) {
                let mut a = self.runs.remove(i);
                let b = self.runs.remove(i);
                a.text.append(b.text.as_str());
                self.runs.insert(i, a);
                proof {
                    assert(runs_view(self.runs@) =~= before.update(i as int, (before[i as int].0 + before[i + 1].0, before[i as int].1)).remove(i + 1));
                }
            } else if self.runs[i].text.as_str().is_empty() {
                self.runs.remove(i);
                proof {
                    assert(runs_view(self.runs@) =~= before.remove(i as int));
                }
                if i > 0 {
                    i -= 1;
                }
            } else {
                i += 1;
            }
        }
        proof {
            assert(merge_scan(runs_view(self.runs@), i as int) == runs_view(self.runs@));
        }
        while self.runs.len() > 1 && self.runs[self.runs.len() - 1].text.as_str().is_empty()
            invariant
                drop_trailing_empty(runs_view(self.runs@)) == merged_runs(orig),
            decreases self.runs@.len(),
        {
            let ghost before = runs_view(self.runs@);
            self.runs.pop();
            proof {
                assert(runs_view(self.runs@) =~= before.drop_last());
            }
        }
        proof {
            lemma_merge_separates_styles(orig);
            lemma_merge_keeps_text(orig);
        }
    }
}


/// The UTF-8 bytes of a run's text.
pub open spec fn run_bytes(r: TextRun) -> Seq<u8> {
    encode_utf8(r.text@)
}

/// Encoding a concatenation encodes each part in turn.
pub proof fn lemma_encode_concat(a: Seq<char>, b: Seq<char>)
    ensures
        encode_utf8(a + b) == encode_utf8(a) + encode_utf8(b),
    decreases a.len(),
{
    if a.len() == 0 {
        assert(a + b =~= b);
        assert(encode_utf8(a) + encode_utf8(b) =~= encode_utf8(b));
    } else {
        lemma_encode_concat(a.drop_first(), b);
        assert((a + b).drop_first() =~= a.drop_first() + b);
        assert((a + b)[0] == a[0]);
        assert(encode_utf8(a + b) =~= encode_utf8(a) + encode_utf8(b));
    }
}

/// A located position names an existing run whenever there is one.
proof fn lemma_locate_in_range(runs: Seq<TextRun>, b: int, i: int)
    requires
        runs.len() > 0,
        runs.len() <= usize::MAX,
        0 <= i,
    ensures
        locate_from(runs, b, i).run_index < runs.len(),
    decreases runs.len() - i,
{
    if i < runs.len() && b - prefix_bytes(runs, i) > byte_len(runs[i].text@) {
        lemma_locate_in_range(runs, b, i + 1);
    }
}

/// `new` is `runs` with the bytes `t` inserted into the run that `locate_from` finds for
/// flat offset `b`, at the position within it that `locate_from` gives; nothing else changes.
pub open spec fn is_insertion(runs: Seq<TextRun>, new: Seq<TextRun>, b: int, t: Seq<u8>) -> bool {
    let pos = locate_from(runs, b, 0);
    let ri = pos.run_index as int;
    let off = pos.byte_offset as int;
    let old_bytes = run_bytes(runs[ri]);
    &&& new.len() == runs.len()
    &&& forall|j: int| 0 <= j < runs.len() && j != ri ==> #[trigger] new[j] == runs[j]
    &&& new[ri].style == runs[ri].style
    &&& run_bytes(new[ri]) == old_bytes.subrange(0, off) + t + old_bytes.subrange(off, old_bytes.len() as int)
}

impl TextBlock {
    /// Insert `text` at flat byte offset `flat_byte` (past the end: at the end of the last
    /// run), into the run that `flat_offset_to_run_pos` finds, inheriting its style. A block
    /// without runs is left as it is.
    pub fn insert_text_at(&mut self, flat_byte: usize, text: &str)
        requires
            total_bytes(old(self).runs@) <= usize::MAX,
            old(self).runs@.len() > 0 ==> {
                let pos = locate_from(old(self).runs@, flat_byte as int, 0);
                is_char_boundary(run_bytes(old(self).runs@[pos.run_index as int]), pos.byte_offset as int)
            },
        ensures
            old(self).runs@.len() == 0 ==> final(self).runs@ == old(self).runs@,
            old(self).runs@.len() > 0 ==> is_insertion(old(self).runs@, final(self).runs@, flat_byte as int, encode_utf8(text@)),
    {
        if self.runs.len() == 0 {
            return;
        }
        let pos = self.flat_offset_to_run_pos(flat_byte);
        proof {
            lemma_locate_in_range(self.runs@, flat_byte as int, 0);
        }
        let ri = pos.run_index;
        let b = pos.byte_offset;
        let mut run = self.runs.remove(ri);
        let ghost old_text = run.text@;
        let (head, tail) = run.text.as_str().split_at(b);
        let mut t = String::from_str(head);
        t.append(text);
        t.append(tail);
        proof {
            lemma_encode_concat(head@, text@);
            lemma_encode_concat(head@ + text@, tail@);
            assert(head.spec_bytes() == encode_utf8(head@));
            assert(tail.spec_bytes() == encode_utf8(tail@));
        }
        run.text = t;
        self.runs.insert(ri, run);
    }
}


/// Run `k` holds bytes of the flat range `[start, end)`.
pub open spec fn overlaps(runs: Seq<TextRun>, k: int, start: int, end: int) -> bool {
    !(prefix_bytes(runs, k + 1) <= start || prefix_bytes(runs, k) >= end)
}

/// Where, within run `k`, the deleted part begins.
pub open spec fn cut_from(runs: Seq<TextRun>, k: int, start: int) -> int {
    (if start > prefix_bytes(runs, k) { start } else { prefix_bytes(runs, k) }) - prefix_bytes(runs, k)
}

/// Where, within run `k`, the deleted part ends.
pub open spec fn cut_to(runs: Seq<TextRun>, k: int, end: int) -> int {
    (if end < prefix_bytes(runs, k + 1) { end } else { prefix_bytes(runs, k + 1) }) - prefix_bytes(runs, k)
}

/// Every run that the range `[start, end)` touches can be cut there on character boundaries.
pub open spec fn range_on_boundaries(runs: Seq<TextRun>, start: int, end: int) -> bool {
    forall|k: int| 0 <= k < runs.len() && #[trigger] overlaps(runs, k, start, end) ==> {
        &&& is_char_boundary(run_bytes(runs[k]), cut_from(runs, k, start))
        &&& is_char_boundary(run_bytes(runs[k]), cut_to(runs, k, end))
    }
}

/// `x` is run `k` of `runs` with the bytes of the flat range `[start, end)` removed.
pub open spec fn is_cut_run(x: (Seq<char>, TextStyle), runs: Seq<TextRun>, k: int, start: int, end: int) -> bool {
    let b = run_bytes(runs[k]);
    &&& x.1 == runs[k].style
    &&& if overlaps(runs, k, start, end) {
        encode_utf8(x.0) == b.subrange(0, cut_from(runs, k, start)) + b.subrange(cut_to(runs, k, end), b.len() as int)
    } else {
        x.0 == runs[k].text@
    }
}

/// `cut` is `runs` with the bytes of the flat range `[start, end)` removed from every run.
pub open spec fn is_cut(cut: Seq<(Seq<char>, TextStyle)>, runs: Seq<TextRun>, start: int, end: int) -> bool {
    &&& cut.len() == runs.len()
    &&& forall|k: int| 0 <= k < runs.len() ==> #[trigger] is_cut_run(cut[k], runs, k, start, end)
}

/// The bytes of a run are counted in the prefix sums.
proof fn lemma_run_bytes_len(runs: Seq<TextRun>, k: int)
    requires
        0 <= k < runs.len(),
        prefix_bytes(runs, runs.len() as int) <= usize::MAX,
    ensures
        prefix_bytes(runs, k + 1) == prefix_bytes(runs, k) + run_bytes(runs[k]).len(),
        prefix_bytes(runs, k + 1) <= usize::MAX,
        0 <= prefix_bytes(runs, k),
        run_bytes(runs[k]).len() <= usize::MAX,
{
    lemma_prefix_monotone(runs, k + 1, runs.len() as int);
    assert(prefix_bytes(runs, k + 1) == prefix_bytes(runs, k) + byte_len(runs[k].text@));
    lemma_prefix_nonneg(runs, k);
}

impl TextBlock {
    /// Delete the bytes of the flat range `[start_byte, end_byte)` from the runs they lie
    /// in, then merge the runs (see `merge_adjacent_runs`). An empty or reversed range
    /// changes nothing.
    pub fn delete_range(&mut self, start_byte: usize, end_byte: usize)
        requires
            total_bytes(old(self).runs@) <= usize::MAX,
            start_byte < end_byte ==> range_on_boundaries(old(self).runs@, start_byte as int, end_byte as int),
        ensures
            start_byte >= end_byte ==> final(self).runs@ == old(self).runs@,
            start_byte < end_byte ==> exists|cut: Seq<(Seq<char>, TextStyle)>|
                #[trigger] is_cut(cut, old(self).runs@, start_byte as int, end_byte as int)
                && runs_view(final(self).runs@) == merged_runs(cut),
            start_byte < end_byte ==> neighbours_differ(runs_view(final(self).runs@)),
    {
        if start_byte >= end_byte {
            return;
        }
        let ghost orig = self.runs@;
        let ghost st = start_byte as int;
        let ghost en = end_byte as int;
        let n = self.runs.len();
        let mut offset: usize = 0;
        let mut i: usize = 0;
        while i < n
            invariant
                orig == old(self).runs@,
                total_bytes(orig) <= usize::MAX,
                range_on_boundaries(orig, st, en),
                st == start_byte,
                en == end_byte,
                n == orig.len(),
                self.runs@.len() == n,
                i <= n,
                offset == prefix_bytes(orig, i as int),
                forall|k: int| 0 <= k < i ==> #[trigger] is_cut_run(runs_view(self.runs@)[k], orig, k, st, en),
                forall|k: int| i <= k < n ==> #[trigger] self.runs@[k] == orig[k],
            decreases n - i,
        {
            proof {
                lemma_run_bytes_len(orig, i as int);
            }
            let len = self.runs[i].text.as_str().len();
            let run_start = offset;
            let run_end = offset + len;
            if !(run_end <= start_byte || run_start >= end_byte) {
                let ds = (if start_byte > run_start { start_byte } else { run_start }) - run_start;
                let de = (if end_byte < run_end { end_byte } else { run_end }) - run_start;
                proof {
                    assert(overlaps(orig, i as int, st, en));
                }
                let ghost before = self.runs@;
                let mut run = self.runs.remove(i);
                let (head, _) = run.text.as_str().split_at(ds);
                let (_, tail) = run.text.as_str().split_at(de);
                let mut t = String::from_str(head);
                t.append(tail);
                proof {
                    lemma_encode_concat(head@, tail@);
                }
                run.text = t;
                self.runs.insert(i, run);
                proof {
                    assert(is_cut_run(runs_view(self.runs@)[i as int], orig, i as int, st, en));
                    assert forall|k: int| 0 <= k < i implies #[trigger] is_cut_run(runs_view(self.runs@)[k], orig, k, st, en) by {
                        assert(runs_view(self.runs@)[k] == runs_view(before)[k]);
                    }
                }
            } else {
                proof {
                    assert(!overlaps(orig, i as int, st, en));
                    assert(is_cut_run(runs_view(self.runs@)[i as int], orig, i as int, st, en));
                }
            }
            offset = run_end;
            i += 1;
        }
        let ghost cut = runs_view(self.runs@);
        proof {
            assert(is_cut(cut, orig, st, en));
        }
        self.merge_adjacent_runs();
    }
}


/// The UTF-8 bytes of all run texts, concatenated.
pub open spec fn flat_bytes(v: Seq<(Seq<char>, TextStyle)>) -> Seq<u8> {
    encode_utf8(flat_chars(v))
}

/// `i` clamped into `[0, hi]`.
pub open spec fn clamp_to(i: int, hi: int) -> int {
    if i < 0 { 0 } else if i > hi { hi } else { i }
}

proof fn lemma_flat_bytes_step(v: Seq<(Seq<char>, TextStyle)>, k: int)
    requires
        0 <= k < v.len(),
    ensures
        flat_bytes(v.take(k + 1)) == flat_bytes(v.take(k)) + encode_utf8(v[k].0),
{
    assert(v.take(k + 1).drop_last() =~= v.take(k));
    assert(v.take(k + 1).last() == v[k]);
    lemma_encode_concat(flat_chars(v.take(k)), v[k].0);
}

proof fn lemma_flat_bytes_len(runs: Seq<TextRun>, k: int)
    requires
        0 <= k <= runs.len(),
    ensures
        flat_bytes(runs_view(runs).take(k)).len() == prefix_bytes(runs, k),
    decreases k,
{
    if k == 0 {
        assert(runs_view(runs).take(0) =~= Seq::<(Seq<char>, TextStyle)>::empty());
        assert(flat_chars(runs_view(runs).take(0)) =~= Seq::<char>::empty());
    } else {
        lemma_flat_bytes_len(runs, k - 1);
        lemma_flat_bytes_step(runs_view(runs), k - 1);
    }
}

proof fn lemma_cut_prefix(cut: Seq<(Seq<char>, TextStyle)>, runs: Seq<TextRun>, start: int, end: int, k: int)
    requires
        is_cut(cut, runs, start, end),
        range_on_boundaries(runs, start, end),
        0 <= start < end,
        0 <= k <= runs.len(),
    ensures
        ({
            let f = flat_bytes(runs_view(runs).take(k));
            let p = prefix_bytes(runs, k);
            flat_bytes(cut.take(k)) == f.subrange(0, clamp_to(start, p)) + f.subrange(clamp_to(end, p), p)
        }),
    decreases k,
{
    let f = flat_bytes(runs_view(runs).take(k));
    let p = prefix_bytes(runs, k);
    lemma_flat_bytes_len(runs, k);
    if k == 0 {
        assert(cut.take(0) =~= Seq::<(Seq<char>, TextStyle)>::empty());
        assert(flat_chars(cut.take(0)) =~= Seq::<char>::empty());
        assert(f.len() == 0);
        assert(f.subrange(0, 0) + f.subrange(0, 0) =~= flat_bytes(cut.take(0)));
    } else {
        let j = k - 1;
        lemma_cut_prefix(cut, runs, start, end, j);
        lemma_flat_bytes_step(cut, j);
        lemma_flat_bytes_step(runs_view(runs), j);
        lemma_flat_bytes_len(runs, j);
        lemma_prefix_monotone(runs, j, k);
        lemma_prefix_nonneg(runs, j);
        let g = flat_bytes(runs_view(runs).take(j));
        let q = prefix_bytes(runs, j);
        let bj = run_bytes(runs[j]);
        assert(runs_view(runs)[j].0 == runs[j].text@);
        assert(prefix_bytes(runs, k) == q + bj.len());
        assert(f == g + bj);
        assert(is_cut_run(cut[j], runs, j, start, end));
        if overlaps(runs, j, start, end) {
            let ds = cut_from(runs, j, start);
            let de = cut_to(runs, j, end);
            assert(is_char_boundary(bj, ds) && is_char_boundary(bj, de));
            assert(encode_utf8(cut[j].0) == bj.subrange(0, ds) + bj.subrange(de, bj.len() as int));
            if start >= q {
                assert(flat_bytes(cut.take(k)) =~= f.subrange(0, clamp_to(start, p)) + f.subrange(clamp_to(end, p), p));
            } else {
                assert(flat_bytes(cut.take(k)) =~= f.subrange(0, clamp_to(start, p)) + f.subrange(clamp_to(end, p), p));
            }
        } else {
            assert(cut[j].0 == runs[j].text@);
            assert(flat_bytes(cut.take(k)) =~= f.subrange(0, clamp_to(start, p)) + f.subrange(clamp_to(end, p), p));
        }
    }
}

/// Deleting a range removes exactly its bytes from the block's text: what is left is the
/// text before `start` followed by the text from `end` on (both clamped to the text).
pub proof fn lemma_delete_range_text(runs: Seq<TextRun>, result: Seq<(Seq<char>, TextStyle)>, start: int, end: int)
    requires
        0 <= start < end,
        range_on_boundaries(runs, start, end),
        exists|cut: Seq<(Seq<char>, TextStyle)>| #[trigger] is_cut(cut, runs, start, end) && result == merged_runs(cut),
    ensures
        ({
            let f = flat_bytes(runs_view(runs));
            let t = f.len() as int;
            flat_bytes(result) == f.subrange(0, clamp_to(start, t)) + f.subrange(clamp_to(end, t), t)
        }),
{
    let cut = choose|cut: Seq<(Seq<char>, TextStyle)>| #[trigger] is_cut(cut, runs, start, end) && result == merged_runs(cut);
    let n = runs.len() as int;
    lemma_cut_prefix(cut, runs, start, end, n);
    lemma_flat_bytes_len(runs, n);
    lemma_merge_keeps_text(cut);
    assert(cut.take(n) =~= cut);
    assert(runs_view(runs).take(n) =~= runs_view(runs));
}


proof fn lemma_flat_bytes_split(v: Seq<(Seq<char>, TextStyle)>, k: int)
    requires
        0 <= k < v.len(),
    ensures
        flat_bytes(v) == flat_bytes(v.take(k)) + encode_utf8(v[k].0) + flat_bytes(v.skip(k + 1)),
{
    assert(v =~= v.take(k) + seq![v[k]] + v.skip(k + 1));
    lemma_flat_concat(v.take(k) + seq![v[k]], v.skip(k + 1));
    lemma_flat_concat(v.take(k), seq![v[k]]);
    lemma_flat_single(v[k]);
    lemma_encode_concat(flat_chars(v.take(k)) + v[k].0, flat_chars(v.skip(k + 1)));
    lemma_encode_concat(flat_chars(v.take(k)), v[k].0);
}

/// Inserting text puts exactly its bytes into the block's text, at the flat offset asked
/// for (clamped to the end of the text).
pub proof fn lemma_insert_text(runs: Seq<TextRun>, new: Seq<TextRun>, b: int, t: Seq<u8>)
    requires
        runs.len() > 0,
        runs.len() <= usize::MAX,
        total_bytes(runs) <= usize::MAX,
        0 <= b,
        is_char_boundary(run_bytes(runs[locate_from(runs, b, 0).run_index as int]), locate_from(runs, b, 0).byte_offset as int),
        is_insertion(runs, new, b, t),
    ensures
        ({
            let f = flat_bytes(runs_view(runs));
            let p = clamp_to(b, f.len() as int);
            flat_bytes(runs_view(new)) == f.subrange(0, p) + t + f.subrange(p, f.len() as int)
        }),
{
    let pos = locate_from(runs, b, 0);
    let ri = pos.run_index as int;
    let off = pos.byte_offset as int;
    let n = runs.len() as int;
    lemma_locate_in_range(runs, b, 0);
    lemma_offset_round_trip(runs, b);
    lemma_run_bytes_len(runs, ri);
    let bytes = run_bytes(runs[ri]);
    vstd::utf8::encode_utf8_valid_utf8(runs[ri].text@);
    assert(0 <= off <= bytes.len()) by {
        if off > bytes.len() {
            assert(!is_char_boundary(bytes, off));
        }
    }
    let v = runs_view(runs);
    let w = runs_view(new);
    lemma_flat_bytes_split(v, ri);
    lemma_flat_bytes_split(w, ri);
    assert(w.take(ri) =~= v.take(ri));
    assert(w.skip(ri + 1) =~= v.skip(ri + 1));
    lemma_flat_bytes_len(runs, ri);
    lemma_flat_bytes_len(runs, n);
    assert(v.take(n) =~= v);
    let f = flat_bytes(v);
    let head = flat_bytes(v.take(ri));
    let p = prefix_bytes(runs, ri) + off;
    assert(flat_offset_of(runs, pos) == p);
    assert(clamp_to(b, f.len() as int) == p);
    assert(flat_bytes(w) =~= f.subrange(0, p) + t + f.subrange(p, f.len() as int));
}

/// The bytes that an insertion put in can be deleted again: the range they occupy lies on
/// character boundaries of the runs it touches.
proof fn lemma_inserted_range_on_boundaries(runs: Seq<TextRun>, mid: Seq<TextRun>, b: int, t: Seq<u8>)
    requires
        runs.len() > 0,
        runs.len() <= usize::MAX,
        total_bytes(runs) <= usize::MAX,
        0 <= b,
        t.len() > 0,
        is_char_boundary(run_bytes(runs[locate_from(runs, b, 0).run_index as int]), locate_from(runs, b, 0).byte_offset as int),
        vstd::utf8::valid_utf8(t),
        is_insertion(runs, mid, b, t),
    ensures
        range_on_boundaries(mid, clamp_to(b, total_bytes(runs)), clamp_to(b, total_bytes(runs)) + t.len()),
{
    let pos = locate_from(runs, b, 0);
    let ri = pos.run_index as int;
    let off = pos.byte_offset as int;
    lemma_locate_in_range(runs, b, 0);
    lemma_offset_round_trip(runs, b);
    lemma_run_bytes_len(runs, ri);
    let ob = run_bytes(runs[ri]);
    let nb = run_bytes(mid[ri]);
    vstd::utf8::encode_utf8_valid_utf8(runs[ri].text@);
    vstd::utf8::encode_utf8_valid_utf8(mid[ri].text@);
    assert(0 <= off <= ob.len()) by {
        if off > ob.len() {
            assert(!is_char_boundary(ob, off));
        }
    }
    assert(nb == ob.subrange(0, off) + t + ob.subrange(off, ob.len() as int));
    assert forall|k: int| 0 <= k <= ri implies prefix_bytes(mid, k) == prefix_bytes(runs, k) by {
        lemma_insertion_prefix(runs, mid, b, t, k);
    }
    let start = clamp_to(b, total_bytes(runs));
    let end = start + t.len();
    assert(start == prefix_bytes(runs, ri) + off);
    assert(prefix_bytes(mid, ri + 1) == prefix_bytes(mid, ri) + nb.len());
    assert forall|k: int| 0 <= k < mid.len() && #[trigger] overlaps(mid, k, start, end) implies {
        &&& is_char_boundary(run_bytes(mid[k]), cut_from(mid, k, start))
        &&& is_char_boundary(run_bytes(mid[k]), cut_to(mid, k, end))
    } by {
        if k < ri {
            lemma_prefix_monotone(mid, k + 1, ri);
        } else if k > ri {
            lemma_prefix_monotone(mid, ri + 1, k);
        } else {
            assert(cut_from(mid, k, start) == off);
            assert(cut_to(mid, k, end) == off + t.len());
            vstd::utf8::is_char_boundary_iff_not_is_continuation_byte(t, 0);
            vstd::utf8::is_char_boundary_iff_not_is_continuation_byte(nb, off);
            assert(nb[off] == t[0]);
            if off < ob.len() {
                vstd::utf8::is_char_boundary_iff_not_is_continuation_byte(ob, off);
                vstd::utf8::is_char_boundary_iff_not_is_continuation_byte(nb, off + t.len());
                assert(nb[off + t.len()] == ob[off]);
            } else {
                vstd::utf8::is_char_boundary_start_end_of_seq(nb);
            }
        }
    }
}

/// An insertion leaves the byte counts of the runs before the one it changes as they were.
proof fn lemma_insertion_prefix(runs: Seq<TextRun>, mid: Seq<TextRun>, b: int, t: Seq<u8>, k: int)
    requires
        is_insertion(runs, mid, b, t),
        0 <= k <= locate_from(runs, b, 0).run_index,
        locate_from(runs, b, 0).run_index < runs.len(),
    ensures
        prefix_bytes(mid, k) == prefix_bytes(runs, k),
    decreases k,
{
    if k > 0 {
        lemma_insertion_prefix(runs, mid, b, t, k - 1);
        assert(mid[k - 1] == runs[k - 1]);
    }
}

/// Deleting the bytes that an insertion just put in restores the block's text.
pub proof fn lemma_delete_after_insert(
    runs: Seq<TextRun>,
    mid: Seq<TextRun>,
    result: Seq<(Seq<char>, TextStyle)>,
    b: int,
    t: Seq<u8>,
)
    requires
        runs.len() > 0,
        runs.len() <= usize::MAX,
        total_bytes(runs) <= usize::MAX,
        0 <= b,
        t.len() > 0,
        is_char_boundary(run_bytes(runs[locate_from(runs, b, 0).run_index as int]), locate_from(runs, b, 0).byte_offset as int),
        vstd::utf8::valid_utf8(t),
        is_insertion(runs, mid, b, t),
        exists|cut: Seq<(Seq<char>, TextStyle)>|
            #[trigger] is_cut(cut, mid, clamp_to(b, total_bytes(runs)), clamp_to(b, total_bytes(runs)) + t.len())
            && result == merged_runs(cut),
    ensures
        range_on_boundaries(mid, clamp_to(b, total_bytes(runs)), clamp_to(b, total_bytes(runs)) + t.len()),
        flat_bytes(result) == flat_bytes(runs_view(runs)),
{
    lemma_inserted_range_on_boundaries(runs, mid, b, t);
    let n = runs.len() as int;
    lemma_flat_bytes_len(runs, n);
    assert(runs_view(runs).take(n) =~= runs_view(runs));
    let f = flat_bytes(runs_view(runs));
    let p = clamp_to(b, f.len() as int);
    lemma_insert_text(runs, mid, b, t);
    let g = flat_bytes(runs_view(mid));
    assert(g == f.subrange(0, p) + t + f.subrange(p, f.len() as int));
    lemma_delete_range_text(mid, result, p, p + t.len());
    let q = g.len() as int;
    assert(clamp_to(p, q) == p);
    assert(clamp_to(p + t.len(), q) == p + t.len());
    assert(g.subrange(0, p) + g.subrange(p + t.len(), q) =~= f);
}

impl TextStyle {
    /// A copy of this style.
    pub fn duplicate(&self) -> (r: TextStyle)
        ensures
            r == *self,
    {
        TextStyle {
            font_family: self.font_family.clone(),
            font_weight: self.font_weight,
            font_size_bits: self.font_size_bits,
            italic: self.italic,
            underline: self.underline,
            strikethrough: self.strikethrough,
            color: self.color,
            letter_spacing_bits: self.letter_spacing_bits,
            baseline_offset_bits: self.baseline_offset_bits,
            width_scale_bits: self.width_scale_bits,
            height_scale_bits: self.height_scale_bits,
        }
    }
}

/// Flat offset `b` falls strictly inside run `k`.
pub open spec fn strictly_inside(runs: Seq<TextRun>, k: int, b: int) -> bool {
    prefix_bytes(runs, k) < b < prefix_bytes(runs, k + 1)
}

/// Wherever `b` falls strictly inside a run, it falls on a character boundary of that run.
pub open spec fn splits_on_boundary(runs: Seq<TextRun>, b: int) -> bool {
    forall|k: int| 0 <= k < runs.len() && #[trigger] strictly_inside(runs, k, b)
        ==> is_char_boundary(run_bytes(runs[k]), b - prefix_bytes(runs, k))
}

/// `new` is `runs` with run `k` cut in two at byte `at` of its text; both halves keep its
/// style and every other run stays as it was.
pub open spec fn is_split_run(runs: Seq<TextRun>, new: Seq<TextRun>, k: int, at: int) -> bool {
    let bytes = run_bytes(runs[k]);
    &&& new.len() == runs.len() + 1
    &&& forall|j: int| 0 <= j < k ==> #[trigger] new[j] == runs[j]
    &&& forall|j: int| k + 1 < j < new.len() ==> #[trigger] new[j] == runs[j - 1]
    &&& new[k].style == runs[k].style
    &&& new[k + 1].style == runs[k].style
    &&& run_bytes(new[k]) == bytes.subrange(0, at)
    &&& run_bytes(new[k + 1]) == bytes.subrange(at, bytes.len() as int)
}

/// `new` is `runs` with a run boundary made at flat offset `b`: the run that `b` falls
/// strictly inside is cut there; when there is none, nothing changes.
pub open spec fn is_split_at(runs: Seq<TextRun>, new: Seq<TextRun>, b: int) -> bool {
    if exists|k: int| 0 <= k < runs.len() && #[trigger] strictly_inside(runs, k, b) {
        exists|k: int|
            0 <= k < runs.len() && #[trigger] strictly_inside(runs, k, b) && is_split_run(runs, new, k, b - prefix_bytes(runs, k))
    } else {
        new == runs
    }
}

/// Once `b` is at or before the start of run `i`, it falls strictly inside no later run.
proof fn lemma_not_inside_after(runs: Seq<TextRun>, i: int, b: int)
    requires
        0 <= i <= runs.len(),
        b <= prefix_bytes(runs, i),
    ensures
        forall|k: int| i <= k < runs.len() ==> !#[trigger] strictly_inside(runs, k, b),
{
    assert forall|k: int| i <= k < runs.len() implies !#[trigger] strictly_inside(runs, k, b) by {
        lemma_prefix_monotone(runs, i, k);
    }
}

impl TextBlock {
    /// Make a run boundary at flat byte offset `flat_byte`: the run it falls strictly inside
    /// is cut in two there, both halves keeping its style. On a boundary already, or past
    /// the end, nothing changes.
    pub fn split_at_flat_offset(&mut self, flat_byte: usize)
        requires
            total_bytes(old(self).runs@) <= usize::MAX,
            splits_on_boundary(old(self).runs@, flat_byte as int),
        ensures
            is_split_at(old(self).runs@, final(self).runs@, flat_byte as int),
    {
        let ghost runs = self.runs@;
        let ghost b = flat_byte as int;
        let n = self.runs.len();
        let mut offset: usize = 0;
        let mut i: usize = 0;
        while i < n
            invariant
                runs == old(self).runs@,
                self.runs@ == runs,
                n == runs.len(),
                b == flat_byte,
                total_bytes(runs) <= usize::MAX,
                splits_on_boundary(runs, b),
                i <= n,
                offset == prefix_bytes(runs, i as int),
                forall|k: int| 0 <= k < i ==> !#[trigger] strictly_inside(runs, k, b),
            decreases n - i,
        {
            proof {
                lemma_run_bytes_len(runs, i as int);
            }
            let len = self.runs[i].text.as_str().len();
            if offset == flat_byte || offset + len <= flat_byte {
                offset = offset + len;
                i = i + 1;
            } else {
                if offset < flat_byte {
                    let local = flat_byte - offset;
                    proof {
                        assert(strictly_inside(runs, i as int, b));
                    }
                    let mut run = self.runs.remove(i);
                    let (head, tail) = run.text.as_str().split_at(local);
                    let tail_run = TextRun { text: String::from_str(tail), style: run.style.duplicate() };
                    run.text = String::from_str(head);
                    self.runs.insert(i, run);
                    self.runs.insert(i + 1, tail_run);
                    proof {
                        assert(head.spec_bytes() == encode_utf8(head@));
                        assert(tail.spec_bytes() == encode_utf8(tail@));
                        assert(is_split_run(runs, self.runs@, i as int, b - prefix_bytes(runs, i as int)));
                    }
                } else {
                    proof {
                        lemma_not_inside_after(runs, i as int, b);
                    }
                }
                return;
            }
        }
    }
}

/// How the prefix sums change when run `k` is cut at byte `at`: unchanged up to the cut,
/// `at` more at the cut, and shifted by one run after it.
proof fn lemma_split_prefix_at(runs: Seq<TextRun>, new: Seq<TextRun>, k: int, at: int, j: int)
    requires
        0 <= k < runs.len(),
        is_split_run(runs, new, k, at),
        0 <= at <= run_bytes(runs[k]).len(),
        0 <= j <= new.len(),
    ensures
        j <= k ==> prefix_bytes(new, j) == prefix_bytes(runs, j),
        j == k + 1 ==> prefix_bytes(new, j) == prefix_bytes(runs, k) + at,
        j > k + 1 ==> prefix_bytes(new, j) == prefix_bytes(runs, j - 1),
    decreases j,
{
    if j > 0 {
        lemma_split_prefix_at(runs, new, k, at, j - 1);
        let bytes = run_bytes(runs[k]);
        if j <= k {
            assert(new[j - 1] == runs[j - 1]);
        } else if j == k + 1 {
            assert(run_bytes(new[k]).len() == at);
        } else if j == k + 2 {
            assert(run_bytes(new[k + 1]).len() == bytes.len() - at);
            assert(prefix_bytes(runs, k + 1) == prefix_bytes(runs, k) + bytes.len());
        } else {
            assert(new[j - 1] == runs[j - 2]);
            assert(prefix_bytes(runs, j - 1) == prefix_bytes(runs, j - 2) + byte_len(runs[j - 2].text@));
        }
    }
}

/// Splitting keeps the total length of the text.
proof fn lemma_split_total(runs: Seq<TextRun>, new: Seq<TextRun>, b: int)
    requires
        is_split_at(runs, new, b),
    ensures
        total_bytes(new) == total_bytes(runs),
{
    if exists|k: int| 0 <= k < runs.len() && #[trigger] strictly_inside(runs, k, b) {
        let k = choose|k: int|
            0 <= k < runs.len() && #[trigger] strictly_inside(runs, k, b) && is_split_run(runs, new, k, b - prefix_bytes(runs, k));
        assert(prefix_bytes(runs, k + 1) == prefix_bytes(runs, k) + byte_len(runs[k].text@));
        lemma_split_prefix_at(runs, new, k, b - prefix_bytes(runs, k), new.len() as int);
    }
}

/// A valid UTF-8 prefix of a valid UTF-8 sequence has the same character boundaries before
/// its end.
proof fn lemma_boundary_in_prefix(bytes: Seq<u8>, head: Seq<u8>, s: int)
    requires
        vstd::utf8::valid_utf8(bytes),
        vstd::utf8::valid_utf8(head),
        head.len() <= bytes.len(),
        forall|i: int| 0 <= i < head.len() ==> head[i] == bytes[i],
        0 <= s < head.len(),
        is_char_boundary(bytes, s),
    ensures
        is_char_boundary(head, s),
{
    vstd::utf8::is_char_boundary_iff_not_is_continuation_byte(bytes, s);
    vstd::utf8::is_char_boundary_iff_not_is_continuation_byte(head, s);
}

/// Splitting at `end` keeps every split at an earlier `start` on a character boundary.
proof fn lemma_split_keeps_boundary(runs: Seq<TextRun>, mid: Seq<TextRun>, end: int, start: int)
    requires
        start < end,
        is_split_at(runs, mid, end),
        splits_on_boundary(runs, start),
    ensures
        splits_on_boundary(mid, start),
{
    if exists|k: int| 0 <= k < runs.len() && #[trigger] strictly_inside(runs, k, end) {
        let k = choose|k: int|
            0 <= k < runs.len() && #[trigger] strictly_inside(runs, k, end) && is_split_run(runs, mid, k, end - prefix_bytes(runs, k));
        let at = end - prefix_bytes(runs, k);
        assert(prefix_bytes(runs, k + 1) == prefix_bytes(runs, k) + byte_len(runs[k].text@));
        assert forall|j: int| 0 <= j < mid.len() && #[trigger] strictly_inside(mid, j, start) implies
            is_char_boundary(run_bytes(mid[j]), start - prefix_bytes(mid, j)) by {
            lemma_split_prefix_at(runs, mid, k, at, j);
            lemma_split_prefix_at(runs, mid, k, at, j + 1);
            if j < k {
                assert(strictly_inside(runs, j, start));
            } else if j == k {
                assert(strictly_inside(runs, k, start));
                let bytes = run_bytes(runs[k]);
                vstd::utf8::encode_utf8_valid_utf8(runs[k].text@);
                vstd::utf8::encode_utf8_valid_utf8(mid[k].text@);
                lemma_boundary_in_prefix(bytes, run_bytes(mid[k]), start - prefix_bytes(runs, k));
            } else if j == k + 1 {
                assert(false);
            } else {
                assert(mid[j] == runs[j - 1]);
                assert(strictly_inside(runs, j - 1, start));
            }
        }
    }
}

/// Run `k` lies within the flat range `[start, end)` and has text.
pub open spec fn styled_inside(runs: Seq<TextRun>, k: int, start: int, end: int) -> bool {
    &&& start <= prefix_bytes(runs, k)
    &&& prefix_bytes(runs, k + 1) <= end
    &&& byte_len(runs[k].text@) > 0
}

/// `x` is run `k` of `runs` with its style replaced by a result of `apply` on it when the
/// run lies within `[start, end)` and has text, and unchanged otherwise.
pub open spec fn is_styled_run<F: Fn(&TextStyle) -> TextStyle>(
    x: (Seq<char>, TextStyle),
    runs: Seq<TextRun>,
    k: int,
    start: int,
    end: int,
    apply: F,
) -> bool {
    &&& x.0 == runs[k].text@
    &&& if styled_inside(runs, k, start, end) {
        call_ensures(apply, (&runs[k].style,), x.1)
    } else {
        x.1 == runs[k].style
    }
}

/// `styled` is `runs` with `apply` used on the style of every run within `[start, end)`.
pub open spec fn is_styled<F: Fn(&TextStyle) -> TextStyle>(
    styled: Seq<(Seq<char>, TextStyle)>,
    runs: Seq<TextRun>,
    start: int,
    end: int,
    apply: F,
) -> bool {
    &&& styled.len() == runs.len()
    &&& forall|k: int| 0 <= k < runs.len() ==> #[trigger] is_styled_run(styled[k], runs, k, start, end, apply)
}

impl TextBlock {
    /// Apply `apply` to the style of the flat range `[start_byte, end_byte)`: cut the runs
    /// at `end_byte` and then at `start_byte`, give every run with text that lies within the
    /// range the style that `apply` returns for its old one, then merge the runs (see
    /// `merge_adjacent_runs`). An empty or reversed range changes nothing.
    pub fn apply_style_to_range<F: Fn(&TextStyle) -> TextStyle>(&mut self, start_byte: usize, end_byte: usize, apply: F)
        requires
            total_bytes(old(self).runs@) <= usize::MAX,
            start_byte < end_byte ==> splits_on_boundary(old(self).runs@, start_byte as int),
            start_byte < end_byte ==> splits_on_boundary(old(self).runs@, end_byte as int),
            forall|s: &TextStyle| call_requires(apply, (s,)),
        ensures
            start_byte >= end_byte ==> final(self).runs@ == old(self).runs@,
            start_byte < end_byte ==> exists|mid: Seq<TextRun>, split: Seq<TextRun>, styled: Seq<(Seq<char>, TextStyle)>|
                #![trigger is_split_at(old(self).runs@, mid, end_byte as int), is_styled(styled, split, start_byte as int, end_byte as int, apply)]
                is_split_at(old(self).runs@, mid, end_byte as int)
                && is_split_at(mid, split, start_byte as int)
                && is_styled(styled, split, start_byte as int, end_byte as int, apply)
                && runs_view(final(self).runs@) == merged_runs(styled),
            start_byte < end_byte ==> neighbours_differ(runs_view(final(self).runs@)),
    {
        if start_byte >= end_byte {
            return;
        }
        let ghost orig = self.runs@;
        self.split_at_flat_offset(end_byte);
        let ghost mid = self.runs@;
        proof {
            lemma_split_total(orig, mid, end_byte as int);
            lemma_split_keeps_boundary(orig, mid, end_byte as int, start_byte as int);
        }
        self.split_at_flat_offset(start_byte);
        let ghost split = self.runs@;
        let ghost st = start_byte as int;
        let ghost en = end_byte as int;
        proof {
            lemma_split_total(mid, split, start_byte as int);
        }
        let n = self.runs.len();
        let mut offset: usize = 0;
        let mut i: usize = 0;
        while i < n
            invariant
                forall|s: &TextStyle| call_requires(apply, (s,)),
                total_bytes(split) <= usize::MAX,
                st == start_byte,
                en == end_byte,
                n == split.len(),
                self.runs@.len() == n,
                i <= n,
                offset == prefix_bytes(split, i as int),
                forall|k: int| 0 <= k < i ==> #[trigger] is_styled_run(runs_view(self.runs@)[k], split, k, st, en, apply),
                forall|k: int| i <= k < n ==> #[trigger] self.runs@[k] == split[k],
            decreases n - i,
        {
            proof {
                lemma_run_bytes_len(split, i as int);
            }
            let len = self.runs[i].text.as_str().len();
            let run_end = offset + len;
            if offset >= start_byte && run_end <= end_byte && len > 0 {
                let new_style = apply(&self.runs[i].style);
                let ghost before = self.runs@;
                let mut run = self.runs.remove(i);
                run.style = new_style;
                self.runs.insert(i, run);
                proof {
                    assert(styled_inside(split, i as int, st, en));
                    assert(is_styled_run(runs_view(self.runs@)[i as int], split, i as int, st, en, apply));
                    assert forall|k: int| 0 <= k < i implies #[trigger] is_styled_run(runs_view(self.runs@)[k], split, k, st, en, apply) by {
                        assert(runs_view(self.runs@)[k] == runs_view(before)[k]);
                    }
                }
            } else {
                proof {
                    assert(!styled_inside(split, i as int, st, en));
                    assert(is_styled_run(runs_view(self.runs@)[i as int], split, i as int, st, en, apply));
                }
            }
            offset = run_end;
            i = i + 1;
        }
        let ghost styled = runs_view(self.runs@);
        proof {
            assert(is_styled(styled, split, st, en, apply));
        }
        self.merge_adjacent_runs();
    }
}

/// Splitting runs at a flat offset never changes the block's text.
pub proof fn lemma_split_keeps_text(runs: Seq<TextRun>, new: Seq<TextRun>, b: int)
    requires
        is_split_at(runs, new, b),
    ensures
        flat_chars(runs_view(new)) == flat_chars(runs_view(runs)),
{
    if exists|k: int| 0 <= k < runs.len() && #[trigger] strictly_inside(runs, k, b) {
        let k = choose|k: int|
            0 <= k < runs.len() && #[trigger] strictly_inside(runs, k, b) && is_split_run(runs, new, k, b - prefix_bytes(runs, k));
        let at = b - prefix_bytes(runs, k);
        let bytes = run_bytes(runs[k]);
        assert(prefix_bytes(runs, k + 1) == prefix_bytes(runs, k) + byte_len(runs[k].text@));
        let h = new[k].text@;
        let t = new[k + 1].text@;
        lemma_encode_concat(h, t);
        assert(encode_utf8(h + t) =~= bytes);
        vstd::utf8::encode_utf8_decode_utf8(h + t);
        vstd::utf8::encode_utf8_decode_utf8(runs[k].text@);
        assert(h + t == runs[k].text@);
        let v = runs_view(runs);
        let w = runs_view(new);
        let x = (h, runs[k].style);
        let y = (t, runs[k].style);
        assert(v =~= v.take(k) + seq![v[k]] + v.skip(k + 1));
        assert(w =~= v.take(k) + (seq![x] + seq![y]) + v.skip(k + 1));
        lemma_flat_concat(v.take(k) + seq![v[k]], v.skip(k + 1));
        lemma_flat_concat(v.take(k), seq![v[k]]);
        lemma_flat_concat(v.take(k) + (seq![x] + seq![y]), v.skip(k + 1));
        lemma_flat_concat(v.take(k), seq![x] + seq![y]);
        lemma_flat_concat(seq![x], seq![y]);
        lemma_flat_single(v[k]);
        lemma_flat_single(x);
        lemma_flat_single(y);
        assert(flat_chars(w) =~= flat_chars(v));
    }
}

/// Run lists with the same texts, run by run, have the same flat text.
proof fn lemma_same_texts(a: Seq<(Seq<char>, TextStyle)>, b: Seq<(Seq<char>, TextStyle)>)
    requires
        a.len() == b.len(),
        forall|k: int| 0 <= k < a.len() ==> #[trigger] a[k].0 == b[k].0,
    ensures
        flat_chars(a) == flat_chars(b),
    decreases a.len(),
{
    if a.len() > 0 {
        assert(a.last().0 == b.last().0);
        lemma_same_texts(a.drop_last(), b.drop_last());
    }
}

/// Styling a range never changes the block's text.
pub proof fn lemma_style_keeps_text<F: Fn(&TextStyle) -> TextStyle>(
    runs: Seq<TextRun>,
    result: Seq<(Seq<char>, TextStyle)>,
    start: int,
    end: int,
    apply: F,
)
    requires
        exists|mid: Seq<TextRun>, split: Seq<TextRun>, styled: Seq<(Seq<char>, TextStyle)>|
            #![trigger is_split_at(runs, mid, end), is_styled(styled, split, start, end, apply)]
            is_split_at(runs, mid, end)
            && is_split_at(mid, split, start)
            && is_styled(styled, split, start, end, apply)
            && result == merged_runs(styled),
    ensures
        flat_chars(result) == flat_chars(runs_view(runs)),
{
    let (mid, split, styled) = choose|mid: Seq<TextRun>, split: Seq<TextRun>, styled: Seq<(Seq<char>, TextStyle)>|
        #![trigger is_split_at(runs, mid, end), is_styled(styled, split, start, end, apply)]
        is_split_at(runs, mid, end)
        && is_split_at(mid, split, start)
        && is_styled(styled, split, start, end, apply)
        && result == merged_runs(styled);
    lemma_split_keeps_text(runs, mid, end);
    lemma_split_keeps_text(mid, split, start);
    assert forall|k: int| 0 <= k < styled.len() implies #[trigger] styled[k].0 == runs_view(split)[k].0 by {
        assert(is_styled_run(styled[k], split, k, start, end, apply));
    }
    lemma_same_texts(styled, runs_view(split));
    lemma_merge_keeps_text(styled);
}

impl Default for GlyphOverride {
    /// The override of glyph 0 that changes nothing.
    fn default() -> (r: GlyphOverride)
        ensures
            r == identity_override(0),
    {
        GlyphOverride::identity(0)
    }
}

impl GlyphOverride {
    /// The override of glyph `glyph_index` that changes nothing.
    pub fn identity(glyph_index: usize) -> (r: GlyphOverride)
        ensures
            r == identity_override(glyph_index),
    {
        GlyphOverride { glyph_index, position_offset_bits: [0, 0], rotation_bits: 0, scale_bits: ONE_F32_BITS }
    }
}

impl TextBlock {
    /// The position of the first override for glyph `glyph_index`, if any.
    fn find_override(&self, glyph_index: usize) -> (r: Option<usize>)
        ensures
            match r {
                Some(i) => first_override_for(self.glyph_overrides@, glyph_index, i as int),
                None => no_override_for(self.glyph_overrides@, glyph_index),
            },
    {
        let n = self.glyph_overrides.len();
        let mut i: usize = 0;
        while i < n
            invariant
                n == self.glyph_overrides@.len(),
                i <= n,
                forall|j: int| 0 <= j < i ==> #[trigger] self.glyph_overrides@[j].glyph_index != glyph_index,
            decreases n - i,
        {
            if self.glyph_overrides[i].glyph_index == glyph_index {
                return Some(i);
            }
            i += 1;
        }
        None
    }

    /// The first override for glyph `glyph_index`, if any.
    pub fn get_glyph_override(&self, glyph_index: usize) -> (r: Option<&GlyphOverride>)
        ensures
            match r {
                Some(o) => exists|i: int| first_override_for(self.glyph_overrides@, glyph_index, i)
                    && *o == #[trigger] self.glyph_overrides@[i],
                None => no_override_for(self.glyph_overrides@, glyph_index),
            },
    {
        match self.find_override(glyph_index) {
            Some(i) => Some(&self.glyph_overrides[i]),
            None => None,
        }
    }

    /// The first override for glyph `glyph_index`, to be changed in place; when there is
    /// none, an identity override for it is appended first.
    pub fn ensure_glyph_override(&mut self, glyph_index: usize) -> (r: &mut GlyphOverride)
        ensures
            (exists|i: int| first_override_for(old(self).glyph_overrides@, glyph_index, i)) ==>
                exists|i: int| first_override_for(old(self).glyph_overrides@, glyph_index, i)
                    && *r == #[trigger] old(self).glyph_overrides@[i]
                    && final(self).glyph_overrides@ == old(self).glyph_overrides@.update(i, *final(r)),
            no_override_for(old(self).glyph_overrides@, glyph_index) ==> {
                &&& *r == identity_override(glyph_index)
                &&& final(self).glyph_overrides@ == old(self).glyph_overrides@.push(*final(r))
            },
            final(self).id == old(self).id,
            final(self).position_bits == old(self).position_bits,
            final(self).rotation_bits == old(self).rotation_bits,
            final(self).runs == old(self).runs,
    {
        match self.find_override(glyph_index) {
            Some(i) => &mut self.glyph_overrides[i],
            None => {
                self.glyph_overrides.push(GlyphOverride::identity(glyph_index));
                let last = self.glyph_overrides.len() - 1;
                &mut self.glyph_overrides[last]
            },
        }
    }

    /// Remove every glyph override.
    pub fn clear_glyph_overrides(&mut self)
        ensures
            final(self).glyph_overrides@ == Seq::<GlyphOverride>::empty(),
            final(self).id == old(self).id,
            final(self).position_bits == old(self).position_bits,
            final(self).rotation_bits == old(self).rotation_bits,
            final(self).runs == old(self).runs,
    {
        self.glyph_overrides.clear();
    }

    /// Whether the block has any glyph override.
    pub fn has_glyph_overrides(&self) -> (r: bool)
        ensures
            r == (self.glyph_overrides@.len() > 0),
    {
        self.glyph_overrides.len() > 0
    }
}

/// The first `i` runs of a block, concatenated, are the texts of its first `i` run views.
proof fn lemma_flat_from_chars(blk: TextBlock, i: int)
    requires
        0 <= i <= blk.runs@.len(),
    ensures
        blk.flat_from(i) == flat_chars(runs_view(blk.runs@).take(i)),
    decreases i,
{
    let v = runs_view(blk.runs@);
    if i == 0 {
        assert(v.take(0) =~= Seq::<(Seq<char>, TextStyle)>::empty());
    } else {
        lemma_flat_from_chars(blk, i - 1);
        assert(v.take(i).drop_last() =~= v.take(i - 1));
        assert(v.take(i).last() == v[i - 1]);
    }
}

/// Converting a flat byte offset to a run position and back gives the offset, capped at the
/// byte length of the block's text.
pub proof fn lemma_block_offset_round_trip(blk: TextBlock, b: int)
    requires
        0 <= b <= usize::MAX,
    ensures
        ({
            let total = encode_utf8(blk.flat_view()).len() as int;
            flat_offset_of(blk.runs@, locate_from(blk.runs@, b, 0)) == if b < total { b } else { total }
        }),
{
    let n = blk.runs@.len() as int;
    assert(blk.runs.len() == n);
    lemma_offset_round_trip(blk.runs@, b);
    lemma_flat_from_chars(blk, n);
    lemma_flat_bytes_len(blk.runs@, n);
}

} // verus!
