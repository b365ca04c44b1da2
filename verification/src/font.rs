//! Glyphs: where they are found in a font table, how their dark margins are
//! trimmed away, and when the colour of a character lets them show.

use vstd::prelude::*;

use crate::colors::CoolLEDColors;
use crate::coolled::CoolLEDWriter;
use crate::util::{copy_bytes, fill_zeros, splice, zeros};

verus! {

/// The most bytes a character can put on the stream: a glyph that is lit
/// from its first column to its last, and the two bytes that end it. A
/// buffer of this size holds what any character writes.
pub const MAX_SPAN_SIZE: usize = 34;

/// Where the glyphs of a text come from. A glyph is 32 bytes, sixteen
/// columns of two bytes, and glyph number `k` of a table lies at byte
/// `32 * k`.
pub enum Font<'a> {
    /// A table with one glyph for each of the 65536 character codes from 0
    /// on, in the order of the codes.
    Full(&'a [u8]),
    /// A table with one glyph for each character of a list, in the order of
    /// the list. A character that the list lacks is drawn with the first
    /// glyph of the table.
    Custom(&'a [u8], &'a str),
}

/// The index of the first `c` in `list`, or the length of `list` if it holds
/// no `c`.
pub open spec fn position(list: Seq<char>, c: char) -> int
    decreases list.len(),
{
    if list.len() == 0 {
        0
    } else if list[0] == c {
        0
    } else {
        1 + position(list.drop_first(), c)
    }
}

/// `position` lies within the list or at its end; within the list it is
/// where the first `c` stands, and at the end no `c` is in the list.
pub proof fn lemma_position(list: Seq<char>, c: char)
    ensures
        0 <= position(list, c) <= list.len(),
        position(list, c) < list.len() ==> list[position(list, c)] == c,
        forall|j: int| 0 <= j < position(list, c) ==> list[j] != c,
    decreases list.len(),
{
    if list.len() > 0 && list[0] != c {
        let rest = list.drop_first();
        lemma_position(rest, c);
        assert forall|j: int| 0 <= j < position(list, c) implies list[j] != c by {
            if j > 0 {
                assert(rest[j - 1] == list[j]);
            }
        }
    }
}

/// An index whose character is `c`, with no `c` before it, is the position
/// of `c`; so is the length of the list if no character of it is `c`.
pub proof fn lemma_position_is(list: Seq<char>, c: char, k: int)
    requires
        0 <= k <= list.len(),
        forall|j: int| 0 <= j < k ==> list[j] != c,
        k < list.len() ==> list[k] == c,
    ensures
        position(list, c) == k,
{
    lemma_position(list, c);
}

impl<'a> Font<'a> {
    /// The bytes of the table.
    pub open spec fn table(self) -> Seq<u8> {
        match self {
            Font::Full(table) => table@,
            Font::Custom(table, _) => table@,
        }
    }

    /// A full table has exactly 65536 glyphs. A custom table has a glyph for
    /// each listed character, and at least one.
    pub open spec fn wf(self) -> bool {
        match self {
            Font::Full(table) => table@.len() == 65536 * 32,
            Font::Custom(table, list) => table@.len() >= 32 && list@.len() * 32 <= table@.len(),
        }
    }

    /// The number of the glyph that `c` is drawn with. In a full table it is
    /// the low sixteen bits of the character's code. In a custom table it is
    /// the position of `c` in the list, or 0 for a character not listed.
    pub open spec fn slot(self, c: char) -> int {
        match self {
            Font::Full(_) => (c as int) % 65536,
            Font::Custom(_, list) => if position(list@, c) < list@.len() {
                position(list@, c)
            } else {
                0
            },
        }
    }

    /// The glyph that `c` is drawn with.
    pub open spec fn glyph(self, c: char) -> Seq<u8> {
        self.table().subrange(32 * self.slot(c), 32 * self.slot(c) + 32)
    }

    /// Tells whether the font is well formed.
    pub fn is_wf(&self) -> (ok: bool)
        ensures
            ok == self.wf(),
    {
        match self {
            Font::Full(table) => table.len() == 2097152,
            Font::Custom(table, list) => table.len() >= 32 && list.unicode_len() <= table.len()
                / 32,
        }
    }

    /// In a well-formed font every character has a whole glyph.
    pub proof fn lemma_glyph_len(self, c: char)
        requires
            self.wf(),
        ensures
            0 <= self.slot(c),
            32 * self.slot(c) + 32 <= self.table().len(),
            self.glyph(c).len() == 32,
    {
        match self {
            Font::Full(_) => {},
            Font::Custom(_, list) => {
                lemma_position(list@, c);
            },
        }
    }
}

/// Whether column `k` of a glyph has a pixel lit: a column is two bytes.
pub open spec fn column_lit(glyph: Seq<u8>, k: int) -> bool {
    glyph[2 * k] != 0 || glyph[2 * k + 1] != 0
}

/// The first lit column of a glyph at or after column `from`, or 16 if there
/// is none.
pub open spec fn first_lit_from(glyph: Seq<u8>, from: int) -> int
    decreases 16 - from,
{
    if from >= 16 {
        16
    } else if column_lit(glyph, from) {
        from
    } else {
        first_lit_from(glyph, from + 1)
    }
}

/// The last lit column of a glyph before column `upto`, or -1 if there is
/// none.
pub open spec fn last_lit_before(glyph: Seq<u8>, upto: int) -> int
    decreases upto,
{
    if upto <= 0 {
        -1
    } else if column_lit(glyph, upto - 1) {
        upto - 1
    } else {
        last_lit_before(glyph, upto - 1)
    }
}

/// Whether no column of the glyph has a pixel lit.
pub open spec fn blank(glyph: Seq<u8>) -> bool {
    first_lit_from(glyph, 0) >= 16
}

/// A glyph without the dark columns before its first lit column and after
/// its last one. A blank glyph gives sixteen zero bytes.
pub open spec fn trimmed(glyph: Seq<u8>) -> Seq<u8> {
    if blank(glyph) {
        zeros(16)
    } else {
        glyph.subrange(2 * first_lit_from(glyph, 0), 2 * last_lit_before(glyph, 16) + 2)
    }
}

/// What a glyph puts on the stream in mode `i`: in modes 2 and 3 the trimmed
/// glyph and two zero bytes that end it, in any other mode the trimmed glyph
/// alone.
pub open spec fn glyph_span(glyph: Seq<u8>, i: i32) -> Seq<u8> {
    if i == 2 || i == 3 {
        trimmed(glyph) + zeros(2)
    } else {
        trimmed(glyph)
    }
}

/// The channel that pass number `cycle` over a phrase sends: green in pass
/// 1, blue in pass 2, red in any other.
pub open spec fn cycle_color(cycle: int) -> CoolLEDColors {
    if cycle == 1 {
        CoolLEDColors::Green
    } else if cycle == 2 {
        CoolLEDColors::Blue
    } else {
        CoolLEDColors::Red
    }
}

/// What a glyph of colour `color` puts on the stream in pass `cycle`: its
/// span if the colour lights the channel of the pass, and sixteen zero bytes
/// if not.
pub open spec fn gated_span(glyph: Seq<u8>, i: i32, color: CoolLEDColors, cycle: int) -> Seq<u8> {
    if color.contains(cycle_color(cycle)) {
        glyph_span(glyph, i)
    } else {
        zeros(16)
    }
}

/// `first_lit_from` finds the least lit column at or after `from`.
pub proof fn lemma_first_lit(glyph: Seq<u8>, from: int)
    requires
        0 <= from <= 16,
    ensures
        from <= first_lit_from(glyph, from) <= 16,
        first_lit_from(glyph, from) < 16 ==> column_lit(glyph, first_lit_from(glyph, from)),
        forall|k: int| from <= k < first_lit_from(glyph, from) ==> !column_lit(glyph, k),
    decreases 16 - from,
{
    if from < 16 && !column_lit(glyph, from) {
        lemma_first_lit(glyph, from + 1);
    }
}

/// `last_lit_before` finds the greatest lit column before `upto`.
pub proof fn lemma_last_lit(glyph: Seq<u8>, upto: int)
    requires
        0 <= upto <= 16,
    ensures
        -1 <= last_lit_before(glyph, upto) < upto,
        last_lit_before(glyph, upto) >= 0 ==> column_lit(glyph, last_lit_before(glyph, upto)),
        forall|k: int| last_lit_before(glyph, upto) < k < upto ==> !column_lit(glyph, k),
    decreases upto,
{
    if upto > 0 && !column_lit(glyph, upto - 1) {
        lemma_last_lit(glyph, upto - 1);
    }
}

/// The trimmed glyph holds between one and sixteen columns, and a glyph that
/// is not blank is trimmed to the columns from its first lit one to its last
/// lit one.
pub proof fn lemma_trimmed(glyph: Seq<u8>)
    requires
        glyph.len() == 32,
    ensures
        2 <= trimmed(glyph).len() <= 32,
        trimmed(glyph).len() % 2 == 0,
        !blank(glyph) ==> 0 <= first_lit_from(glyph, 0) <= last_lit_before(glyph, 16) < 16,
        !blank(glyph) ==> trimmed(glyph).len() == 2 * (last_lit_before(glyph, 16)
            - first_lit_from(glyph, 0) + 1),
{
    lemma_first_lit(glyph, 0);
    lemma_last_lit(glyph, 16);
}

/// What a character puts on the stream holds between 2 and `MAX_SPAN_SIZE`
/// bytes, whether its colour lights the pass or not, and a span that ends
/// with two zero bytes holds at least 4.
pub proof fn lemma_span_len(glyph: Seq<u8>, i: i32, color: CoolLEDColors, cycle: int)
    requires
        glyph.len() == 32,
    ensures
        2 <= glyph_span(glyph, i).len() <= MAX_SPAN_SIZE,
        (i == 2 || i == 3) ==> 4 <= glyph_span(glyph, i).len(),
        2 <= gated_span(glyph, i, color, cycle).len() <= MAX_SPAN_SIZE,
{
    lemma_trimmed(glyph);
}

/// A yellow character is dark in the blue pass, where it puts sixteen zero
/// bytes on the stream, and lit in the red and the green pass, where it puts
/// its span there. More generally, a character is lit in a pass exactly if
/// its colour holds the channel of that pass.
pub proof fn lemma_gating(glyph: Seq<u8>, i: i32, color: CoolLEDColors)
    ensures
        gated_span(glyph, i, CoolLEDColors::Yellow, 2) == zeros(16),
        gated_span(glyph, i, CoolLEDColors::Yellow, 0) == glyph_span(glyph, i),
        gated_span(glyph, i, CoolLEDColors::Yellow, 1) == glyph_span(glyph, i),
        forall|cycle: int|
            color.contains(cycle_color(cycle)) ==> #[trigger] gated_span(glyph, i, color, cycle)
                == glyph_span(glyph, i),
        forall|cycle: int|
            !color.contains(cycle_color(cycle)) ==> #[trigger] gated_span(glyph, i, color, cycle)
                == zeros(16),
{
}

/// Looks `c` up in `list`: the index of its first occurrence, or `None` if
/// the list holds no `c`.
fn find_position(list: &str, c: char) -> (found: Option<usize>)
    requires
        list@.len() <= usize::MAX,
    ensures
        match found {
            Some(k) => k == position(list@, c) && k < list@.len(),
            None => position(list@, c) == list@.len(),
        },
{
    let mut idx: usize = 0;
    for x in it: list.chars()
        invariant
            it.seq() == list@,
            idx == it.index(),
            list@.len() <= usize::MAX,
            forall|j: int| 0 <= j < idx ==> list@[j] != c,
    {
        if x == c {
            proof {
                lemma_position_is(list@, c, idx as int);
            }
            return Some(idx);
        }
        idx += 1;
    }
    proof {
        lemma_position_is(list@, c, idx as int);
    }
    None
}

impl<'a> CoolLEDWriter<'a> {
    /// The 32 bytes of the glyph that `c` is drawn with.
    pub(crate) fn read_font_bytes(&self, c: char) -> (glyph: &'a [u8])
        requires
            self.font().wf(),
        ensures
            glyph@ == self.font().glyph(c),
            glyph@.len() == 32,
    {
        proof {
            self.lemma_fields();
            self.font.lemma_glyph_len(c);
        }
        match self.font {
            Font::Full(table) => {
                let code = (c as u32 % 65536) as usize;
                let addr = code * 32;
                assert(code == self.font.slot(c));
                &table[addr..addr + 32]
            },
            Font::Custom(table, list) => {
                proof {
                    lemma_position(list@, c);
                    assert(list@.len() * 32 <= table.len());
                }
                let addr = match find_position(list, c) {
                    Some(pos) => pos * 32,
                    None => 0,
                };
                &table[addr..addr + 32]
            },
        }
    }

    /// Writes the trimmed form of the glyph `data` to the start of `out` and
    /// returns its length.
    pub(crate) fn delete_empty_column(data: &[u8], out: &mut [u8]) -> (n: usize)
        requires
            data@.len() == 32,
            trimmed(data@).len() <= old(out).len(),
        ensures
            n == trimmed(data@).len(),
            final(out)@ == splice(old(out)@, 0, trimmed(data@)),
    {
        let mut first: usize = 0;
        while first < 16 && data[2 * first] == 0 && data[2 * first + 1] == 0
            invariant
                first <= 16,
                data@.len() == 32,
                forall|k: int| 0 <= k < first ==> !column_lit(data@, k),
            decreases 16 - first,
        {
            first += 1;
        }
        proof {
            lemma_first_lit(data@, 0);
            lemma_last_lit(data@, 16);
            assert(first < 16 ==> column_lit(data@, first as int));
            assert(first == first_lit_from(data@, 0));
        }
        if first == 16 {
            fill_zeros(out, 0, 16);
            return 16;
        }
        let mut last: usize = 15;
        while data[2 * last] == 0 && data[2 * last + 1] == 0
            invariant
                first <= last <= 15,
                data@.len() == 32,
                column_lit(data@, first as int),
                forall|k: int| last < k < 16 ==> !column_lit(data@, k),
            decreases last,
        {
            last -= 1;
        }
        proof {
            assert(column_lit(data@, last as int));
            assert(last == last_lit_before(data@, 16));
        }
        let n = 2 * (last - first) + 2;
        copy_bytes(out, 0, data, 2 * first, n);
        n
    }

    /// Writes what the character puts on the stream in mode `i` to the start
    /// of `out`, and returns how many bytes that is: the trimmed glyph, and
    /// in modes 2 and 3 two zero bytes behind it.
    pub fn get_font_byte_trimmed(&self, character: char, i: i32, out: &mut [u8]) -> (n: usize)
        requires
            self.font().wf(),
            glyph_span(self.font().glyph(character), i).len() <= old(out).len(),
        ensures
            n == glyph_span(self.font().glyph(character), i).len(),
            final(out)@ == splice(old(out)@, 0, glyph_span(self.font().glyph(character), i)),
    {
        let unicode_data = self.read_font_bytes(character);
        proof {
            lemma_trimmed(unicode_data@);
        }
        if i == 2 || i == 3 {
            let data_size = Self::delete_empty_column(unicode_data, out);
            out[data_size] = 0;
            out[data_size + 1] = 0;
            assert(out@ =~= splice(old(out)@, 0, trimmed(unicode_data@) + zeros(2)));
            data_size + 2
        } else {
            Self::delete_empty_column(unicode_data, out)
        }
    }

    /// Writes what character number `idx` of a phrase of `len_chars`
    /// characters, walked pass after pass, puts on the stream, and returns
    /// how many bytes that is.
    ///
    /// The pass is `idx / len_chars`. If `character_color` lights the
    /// channel of the pass, the character puts its span there, as
    /// `get_font_byte_trimmed` writes it; if not, sixteen zero bytes.
    pub fn get_font_byte_with_color(
        &self,
        c: char,
        i: i32,
        idx: usize,
        len_chars: usize,
        character_color: CoolLEDColors,
        out: &mut [u8],
    ) -> (n: usize)
        requires
            self.font().wf(),
            len_chars > 0,
            gated_span(
                self.font().glyph(c),
                i,
                character_color,
                idx as int / len_chars as int,
            ).len() <= old(out).len(),
        ensures
            n == gated_span(
                self.font().glyph(c),
                i,
                character_color,
                idx as int / len_chars as int,
            ).len(),
            final(out)@ == splice(
                old(out)@,
                0,
                gated_span(self.font().glyph(c), i, character_color, idx as int / len_chars as int),
            ),
    {
        let current_cycle = idx / len_chars;
        let cycle_color = if current_cycle == 1 {
            CoolLEDColors::Green
        } else if current_cycle == 2 {
            CoolLEDColors::Blue
        } else {
            CoolLEDColors::Red
        };
        if character_color.has(cycle_color) {
            self.get_font_byte_trimmed(c, i, out)
        } else {
            fill_zeros(out, 0, 16);
            16
        }
    }
}

} // verus!
